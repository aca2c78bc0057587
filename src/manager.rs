use vstd::prelude::*;

verus! {

/// Why an execution of the chain could not produce a result.
#[derive(Debug, Clone, Copy, PartialEq, Eq, Structural)]
pub enum ChainError {
    /// `send` was called on a registry that holds no handler.
    Empty,
    /// A handler delegated although no handler was registered before it.
    Exhausted,
}

/// Where an execution of a registry of `n` handlers starts: the handler
/// registered last, or `Empty` when there is none.
pub open spec fn entry(n: nat) -> Result<nat, ChainError> {
    if n == 0 {
        Err(ChainError::Empty)
    } else {
        Ok((n - 1) as nat)
    }
}

/// Where a delegation from the handler at `cursor` goes: the handler
/// registered just before it, or `Exhausted` when there is none.
pub open spec fn successor(cursor: nat) -> Result<nat, ChainError> {
    if cursor == 0 {
        Err(ChainError::Exhausted)
    } else {
        Ok((cursor - 1) as nat)
    }
}

/// What one handler invocation decides.
pub enum Step<V, R> {
    /// The chain ends here with this result.
    Finish(R),
    /// The value is handed on to the next handler of the chain.
    Forward(V),
}

/// The continuation handed to a handler: it knows which handler is running
/// and can be used once to delegate to the next one.
pub struct Next {
    cursor: usize,
}

impl Next {
    /// The position, in registration order, of the handler this continuation
    /// was handed to.
    pub closed spec fn cursor(&self) -> nat {
        self.cursor as nat
    }

    /// The position of the running handler, for looking it up in the registry.
    pub fn index(&self) -> (r: usize)
        ensures
            r == self.cursor(),
    {
        self.cursor
    }

    /// Delegates `value` to the next handler. The continuation is consumed,
    /// so a handler can delegate at most once.
    pub fn call<V, R>(self, value: V) -> (r: Step<V, R>)
        ensures
            r == Step::<V, R>::Forward(value),
    {
        Step::Forward(value)
    }

    /// The continuation for the handler that a delegation from this one
    /// reaches, or `Exhausted` when this handler is the first registered.
    pub fn advance(self) -> (r: Result<Next, ChainError>)
        ensures
            match successor(self.cursor()) {
                Ok(c) => r is Ok && r->Ok_0.cursor() == c,
                Err(e) => r == Err::<Next, ChainError>(e),
            },
    {
        if self.cursor == 0 {
            Err(ChainError::Exhausted)
        } else {
            Ok(Next { cursor: self.cursor - 1 })
        }
    }
}

/// The results that an execution can end in when it reaches the handler at
/// `cursor` of `hs` with `value`: that handler finishes with a result, or
/// forwards a value to the handler registered before it, which must exist.
pub open spec fn outcome<V, R, H: Fn(V, Next) -> Step<V, R>>(
    hs: Seq<H>,
    cursor: nat,
    value: V,
    out: Result<R, ChainError>,
) -> bool
    decreases cursor,
{
    &&& cursor < hs.len()
    &&& exists|n: Next, s: Step<V, R>|
        n.cursor() == cursor && #[trigger] call_ensures(hs[cursor as int], (value, n), s) && match s {
            Step::Finish(r) => out == Ok::<R, ChainError>(r),
            Step::Forward(v) => if cursor == 0 {
                out == Err::<R, ChainError>(ChainError::Exhausted)
            } else {
                outcome(hs, (cursor - 1) as nat, v, out)
            },
        }
}

/// The ordered registry of handlers; the last one registered runs first.
pub struct Manager<H> {
    list: Vec<H>,
}

impl<H> View for Manager<H> {
    type V = Seq<H>;

    closed spec fn view(&self) -> Seq<H> {
        self.list@
    }
}

impl<H> Manager<H> {
    /// An empty registry.
    pub fn new() -> (r: Self)
        ensures
            r@ == Seq::<H>::empty(),
    {
        Manager { list: Vec::new() }
    }

    /// A registry holding `last` alone, which is then the terminal handler.
    pub fn last(last: H) -> (r: Self)
        ensures
            r@ == seq![last],
    {
        let mut s = Self::new();
        s.next(last);
        s
    }

    /// Appends `m` to the registry; it becomes the entry point of later executions.
    pub fn next(&mut self, m: H) -> (r: &mut Self)
        ensures
            r@ == old(self)@.push(m),
            *final(self) == *final(r),
    {
        self.list.push(m);
        self
    }

    /// The number of registered handlers.
    pub fn len(&self) -> (r: usize)
        ensures
            r == self@.len(),
    {
        self.list.len()
    }

    /// The continuation of a new execution, handed to the handler registered
    /// last, or `Empty` when no handler is registered.
    pub fn start(&self) -> (r: Result<Next, ChainError>)
        ensures
            match entry(self@.len()) {
                Ok(c) => r is Ok && r->Ok_0.cursor() == c,
                Err(e) => r == Err::<Next, ChainError>(e),
            },
    {
        let total = self.list.len();
        if total == 0 {
            Err(ChainError::Empty)
        } else {
            Ok(Next { cursor: total - 1 })
        }
    }

    /// Drives `value` through the chain, starting at the handler registered
    /// last, and returns the result of the handler that finishes.
    pub fn send<V, R>(&self, value: V) -> (r: Result<R, ChainError>) where H: Fn(V, Next) -> Step<V, R>
        requires
            forall|i: int, v: V, n: Next| 0 <= i < self@.len() ==> #[trigger] call_requires(self@[i], (v, n)),
        ensures
            self@.len() == 0 ==> r == Err::<R, ChainError>(ChainError::Empty),
            self@.len() > 0 ==> outcome(self@, (self@.len() - 1) as nat, value, r),
    {
        let ghost first = value;
        let ghost top = (self@.len() - 1) as nat;
        let mut next = match self.start() {
            Ok(n) => n,
            Err(e) => return Err(e),
        };
        let mut current = value;
        loop
            invariant
                forall|i: int, v: V, n: Next| 0 <= i < self@.len() ==> #[trigger] call_requires(self@[i], (v, n)),
                first == value,
                self@.len() > 0,
                top == self@.len() - 1,
                next.cursor() < self@.len(),
                forall|out: Result<R, ChainError>| #[trigger] outcome(self@, next.cursor(), current, out) ==> outcome(self@, top, first, out),
            decreases next.cursor(),
        {
            let index = next.index();
            let ghost here = current;
            let ghost passed = next;
            let handler = &self.list[index];
            let step = handler(current, next);
            match step {
                Step::Finish(r) => {
                    assert(call_ensures(self@[index as int], (here, passed), step));
                    assert(outcome(self@, index as nat, here, Ok(r)));
                    return Ok(r);
                },
                Step::Forward(v) => {
                    assert(call_ensures(self@[index as int], (here, passed), step));
                    match (Next { cursor: index }).advance() {
                        Ok(n) => {
                            next = n;
                            current = v;
                        },
                        Err(e) => {
                            assert(outcome(self@, index as nat, here, Err(e)));
                            return Err(e);
                        },
                    }
                    assert forall|out: Result<R, ChainError>| #[trigger] outcome(self@, next.cursor(), current, out) implies outcome(self@, top, first, out) by {
                        assert(outcome(self@, index as nat, here, out));
                    }
                },
            }
        }
    }

    /// The handler at position `index` in registration order, if there is one.
    pub fn get(&self, index: usize) -> (r: Option<&H>)
        ensures
            index < self@.len() ==> r == Some(&self@[index as int]),
            index >= self@.len() ==> r is None,
    {
        if index < self.list.len() {
            Some(&self.list[index])
        } else {
            None
        }
    }
}

impl<H> Default for Manager<H> {
    fn default() -> (r: Self)
        ensures
            r@ == Seq::<H>::empty(),
    {
        Self::new()
    }
}

/// The handler reached by the `k`-th dispatch of an execution on a registry of
/// `n` handlers: the entry point for `k == 0`, then one delegation further for
/// each step.
pub open spec fn dispatched(n: nat, k: nat) -> Result<nat, ChainError>
    decreases k,
{
    if k == 0 {
        entry(n)
    } else {
        match dispatched(n, (k - 1) as nat) {
            Ok(c) => successor(c),
            Err(e) => Err(e),
        }
    }
}

/// `h` always finishes, with `f` of the value it is given.
pub open spec fn finishes_with<V, R, H: Fn(V, Next) -> Step<V, R>>(h: H, f: spec_fn(V) -> R) -> bool {
    forall|v: V, n: Next, s: Step<V, R>| #[trigger] call_ensures(h, (v, n), s) ==> s == Step::<V, R>::Finish(f(v))
}

/// `h` always delegates, handing on `g` of the value it is given.
pub open spec fn forwards_with<V, R, H: Fn(V, Next) -> Step<V, R>>(h: H, g: spec_fn(V) -> V) -> bool {
    forall|v: V, n: Next, s: Step<V, R>| #[trigger] call_ensures(h, (v, n), s) ==> s == Step::<V, R>::Forward(g(v))
}

/// On a registry of `n >= 1` handlers, the handlers are dispatched from the
/// one registered last down to the one registered first; a dispatch past the
/// first one is `Exhausted`.
pub proof fn lemma_dispatch_order(n: nat, k: nat)
    requires
        n >= 1,
    ensures
        k < n ==> dispatched(n, k) == Ok::<nat, ChainError>((n - 1 - k) as nat),
        k >= n ==> dispatched(n, k) == Err::<nat, ChainError>(ChainError::Exhausted),
    decreases k,
{
    if k > 0 {
        lemma_dispatch_order(n, (k - 1) as nat);
    }
}

/// A handler other than the first registered that delegates hands the value
/// on to the handler registered just before it: the execution ends as one
/// that reaches that handler with the forwarded value.
pub proof fn lemma_forward_reaches_previous<V, R, H: Fn(V, Next) -> Step<V, R>>(
    hs: Seq<H>,
    i: nat,
    g: spec_fn(V) -> V,
    v: V,
    out: Result<R, ChainError>,
)
    requires
        0 < i,
        forwards_with(hs[i as int], g),
        outcome(hs, i, v, out),
    ensures
        outcome(hs, (i - 1) as nat, g(v), out),
{
}

/// A delegation from the first registered handler ends the execution with
/// `Exhausted`.
pub proof fn lemma_first_cannot_forward<V, R, H: Fn(V, Next) -> Step<V, R>>(
    hs: Seq<H>,
    g: spec_fn(V) -> V,
    v: V,
    out: Result<R, ChainError>,
)
    requires
        forwards_with(hs[0], g),
        outcome(hs, 0, v, out),
    ensures
        out == Err::<R, ChainError>(ChainError::Exhausted),
{
}

/// A registry whose only handler finishes with `f` yields `f(v)` for every `v`.
pub proof fn lemma_single_terminal<V, R, H: Fn(V, Next) -> Step<V, R>>(
    hs: Seq<H>,
    f: spec_fn(V) -> R,
    v: V,
    out: Result<R, ChainError>,
)
    requires
        hs.len() == 1,
        finishes_with(hs[0], f),
        outcome(hs, 0, v, out),
    ensures
        out == Ok::<R, ChainError>(f(v)),
{
}

/// A registry of a terminal handler `f` with a handler registered after it
/// that delegates `g` of its value yields `f(g(v))`.
pub proof fn lemma_delegate_then_terminal<V, R, H: Fn(V, Next) -> Step<V, R>>(
    hs: Seq<H>,
    g: spec_fn(V) -> V,
    f: spec_fn(V) -> R,
    v: V,
    out: Result<R, ChainError>,
)
    requires
        hs.len() == 2,
        finishes_with(hs[0], f),
        forwards_with(hs[1], g),
        outcome(hs, 1, v, out),
    ensures
        out == Ok::<R, ChainError>(f(g(v))),
{
    lemma_forward_reaches_previous(hs, 1, g, v, out);
}

/// Registering a handler keeps every earlier handler at its position and puts
/// the new one last: no registration is lost and the length matches the
/// contents.
pub proof fn lemma_registration_appends<H>(before: Seq<H>, m: H)
    ensures
        before.push(m).len() == before.len() + 1,
        forall|i: int| 0 <= i < before.len() ==> #[trigger] before.push(m)[i] == before[i],
        before.push(m)[before.len() as int] == m,
{
}

} // verus!
