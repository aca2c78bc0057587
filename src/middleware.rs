use vstd::prelude::*;

verus! {

/// A single handler that maps a value to a result with no continuation.
pub struct Middleware<F> {
    inner: F,
}

impl<F> Middleware<F> {
    pub closed spec fn handler(&self) -> F {
        self.inner
    }

    pub fn new(inner: F) -> (r: Self)
        ensures
            r.handler() == inner,
    {
        Middleware { inner }
    }

    /// Runs the handler on `value`.
    pub fn handle<V, R>(&self, value: V) -> (r: R) where F: Fn(V) -> R
        requires
            call_requires(self.handler(), (value,)),
        ensures
            call_ensures(self.handler(), (value,), r),
    {
        (self.inner)(value)
    }
}

} // verus!
