use simple_middleware::{ChainError, Manager, Middleware, Next, Step};

type Handler = Box<dyn Fn(i32, Next) -> Step<i32, i32>>;

fn boxed(h: impl Fn(i32, Next) -> Step<i32, i32> + 'static) -> Handler {
    Box::new(h)
}

#[test]
fn test_last() {
    let result_str = "This is the end of the row";
    let manager = Manager::last(move |_v: (), _n: Next| Step::<(), String>::Finish(result_str.to_string()));

    assert_eq!(manager.send(()), Ok(result_str.to_string()));
}

#[test]
fn test_calling() {
    let mut manager: Manager<Handler> = Manager::new();

    manager
        .next(boxed(|value, _next| Step::Finish(value)))
        .next(boxed(|value, next| next.call(value * 2)))
        .next(boxed(|value, next| next.call(value + 2)));

    let result = manager.send(10);

    assert_eq!(result, Ok(24));
}

#[test]
fn test_calling_middleware() {
    let middle = Middleware::new(|val: i32| val + 2);

    assert_eq!(middle.handle(50), 52, "Wrong answer. suppose to be 52");
}

#[test]
fn delegating_handler_wraps_terminal() {
    let mut manager: Manager<Handler> = Manager::new();
    manager.next(boxed(|v, _n| Step::Finish(v + 1)));
    manager.next(boxed(|v, next| next.call(v * 3)));

    assert_eq!(manager.send(33), Ok(100));
}

#[test]
fn single_terminal_handler_is_the_whole_chain() {
    let manager = Manager::last(boxed(|v, _n| Step::Finish(v * 7 - 1)));
    for v in [-4, 0, 1, 9] {
        assert_eq!(manager.send(v), Ok(v * 7 - 1));
    }
}

#[test]
fn one_delegation_composes_functions() {
    let mut manager: Manager<Handler> = Manager::new();
    manager.next(boxed(|v, _n| Step::Finish(v - 5))).next(boxed(|v, next| next.call(v * v)));

    assert_eq!(manager.send(4), Ok(11));
    assert_eq!(manager.send(-3), Ok(4));
}

#[test]
fn empty_registry_is_an_error() {
    let manager: Manager<Handler> = Manager::new();

    assert_eq!(manager.len(), 0);
    assert_eq!(manager.send(1), Err(ChainError::Empty));
    assert!(manager.start().is_err());
}

#[test]
fn delegation_from_first_handler_is_exhausted() {
    let mut manager: Manager<Handler> = Manager::new();
    manager.next(boxed(|v, next| next.call(v + 1)));
    manager.next(boxed(|v, next| next.call(v + 1)));

    assert_eq!(manager.send(0), Err(ChainError::Exhausted));
}

#[test]
fn handler_that_finishes_early_skips_the_rest() {
    let mut manager: Manager<Handler> = Manager::new();
    manager.next(boxed(|_v, _n| Step::Finish(-1)));
    manager.next(boxed(|v, next| if v < 18 { Step::Finish(0) } else { next.call(v) }));

    assert_eq!(manager.send(10), Ok(0));
    assert_eq!(manager.send(25), Ok(-1));
}

#[test]
fn handlers_see_their_own_position() {
    let mut manager: Manager<Handler> = Manager::new();
    manager.next(boxed(|v, next| Step::Finish(v * 10 + next.index() as i32)));
    manager.next(boxed(|v, next| {
        let here = next.index() as i32;
        next.call(v * 10 + here)
    }));
    manager.next(boxed(|v, next| {
        let here = next.index() as i32;
        next.call(v * 10 + here)
    }));

    assert_eq!(manager.send(0), Ok(210));
}

#[test]
fn dispatch_goes_from_last_to_first() {
    let mut manager: Manager<Handler> = Manager::new();
    for _ in 0..3 {
        manager.next(boxed(|v, _n| Step::Finish(v)));
    }
    let first = manager.start().ok().unwrap();
    assert_eq!(first.index(), 2);
    let second = first.advance().ok().unwrap();
    assert_eq!(second.index(), 1);
    let third = second.advance().ok().unwrap();
    assert_eq!(third.index(), 0);
    assert!(matches!(third.advance(), Err(ChainError::Exhausted)));
}

#[test]
fn continuation_call_forwards_the_value() {
    let manager = Manager::last(boxed(|v, _n| Step::Finish(v)));
    let next = manager.start().ok().unwrap();
    let step: Step<i32, i32> = next.call(41);

    assert!(matches!(step, Step::Forward(41)));
}

#[test]
fn registrations_are_kept_in_order() {
    let mut manager: Manager<i32> = Manager::new();
    manager.next(5).next(6);
    manager.next(7);

    assert_eq!(manager.len(), 3);
    assert_eq!(manager.get(0), Some(&5));
    assert_eq!(manager.get(1), Some(&6));
    assert_eq!(manager.get(2), Some(&7));
    assert_eq!(manager.get(3), None);
}

#[test]
fn last_builds_a_one_handler_registry() {
    let manager = Manager::last(9u8);

    assert_eq!(manager.len(), 1);
    assert_eq!(manager.get(0), Some(&9u8));
}

#[test]
fn default_registry_is_empty() {
    let manager: Manager<Handler> = Manager::default();

    assert_eq!(manager.len(), 0);
    assert_eq!(manager.send(3), Err(ChainError::Empty));
}
