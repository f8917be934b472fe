use futures_signals::signal::{Signal, SignalExt};
use pathrouter::Router;
use std::cell::RefCell;
use std::pin::Pin;
use std::rc::Rc;
use std::task::{Context, Poll, Waker};

fn segments(items: &[&str]) -> Vec<String> {
    items.iter().map(|s| s.to_string()).collect()
}

#[test]
fn new_router_holds_split_location() {
    let router = Router::new("/x//y/");
    assert_eq!(router.current_path(), segments(&["x", "y"]));
    assert_eq!(router.remainder(), segments(&["x", "y"]));
}

#[test]
fn goto_then_set_remainder_then_goto() {
    let mut router = Router::new("/");
    router.goto("/x/y");
    assert_eq!(router.remainder(), segments(&["x", "y"]));
    assert_eq!(router.current_path(), segments(&["x", "y"]));

    router.set_remainder(segments(&["y"]));
    assert_eq!(router.remainder(), segments(&["y"]));
    assert_eq!(router.current_path(), segments(&["x", "y"]));

    router.goto("/z");
    assert_eq!(router.remainder(), segments(&["z"]));
    assert_eq!(router.current_path(), segments(&["z"]));
}

#[test]
fn goto_replaces_what_the_cell_held() {
    let mut router = Router::new("/a/b");
    router.goto("c");
    assert_eq!(router.current_path(), segments(&["c"]));
    router.goto("");
    assert_eq!(router.current_path(), segments(&[]));
    assert_eq!(router.remainder(), segments(&[]));
}

#[test]
fn set_remainder_leaves_current_path() {
    let mut router = Router::new("/a/b/c");
    router.set_remainder(segments(&["b", "c"]));
    router.set_remainder(segments(&["c"]));
    assert_eq!(router.current_path(), segments(&["a", "b", "c"]));
    assert_eq!(router.remainder(), segments(&["c"]));
}

#[test]
fn changes_signal_can_be_taken() {
    let mut router = Router::new("/a");
    let signal = router.changes();
    router.goto("/b");
    drop(signal);
    assert_eq!(router.current_path(), segments(&["b"]));
}

#[test]
fn changes_signal_fires_at_first_and_after_goto() {
    let mut router = Router::new("/a");
    let mut signal = router.changes();
    let mut cx = Context::from_waker(Waker::noop());

    assert_eq!(
        Pin::new(&mut signal).poll_change(&mut cx),
        Poll::Ready(Some(segments(&["a"])))
    );
    assert_eq!(Pin::new(&mut signal).poll_change(&mut cx), Poll::Pending);

    router.set_remainder(segments(&[]));
    assert_eq!(Pin::new(&mut signal).poll_change(&mut cx), Poll::Pending);

    router.goto("/b/c");
    assert_eq!(
        Pin::new(&mut signal).poll_change(&mut cx),
        Poll::Ready(Some(segments(&["b", "c"])))
    );
    assert_eq!(Pin::new(&mut signal).poll_change(&mut cx), Poll::Pending);
}

#[test]
fn subscriber_sees_the_remainder_at_each_change() {
    let router = Rc::new(RefCell::new(Router::new("/")));
    let mut cx = Context::from_waker(Waker::noop());

    router.borrow_mut().goto("/x/y");
    let reader = router.clone();
    let mut first = router.borrow().changes().map(move |_| reader.borrow().remainder());
    assert_eq!(
        Pin::new(&mut first).poll_change(&mut cx),
        Poll::Ready(Some(segments(&["x", "y"])))
    );

    router.borrow_mut().set_remainder(segments(&["y"]));
    assert_eq!(Pin::new(&mut first).poll_change(&mut cx), Poll::Pending);
    let reader = router.clone();
    let mut second = router.borrow().changes().map(move |_| reader.borrow().remainder());
    assert_eq!(
        Pin::new(&mut second).poll_change(&mut cx),
        Poll::Ready(Some(segments(&["y"])))
    );
    assert_eq!(router.borrow().current_path(), segments(&["x", "y"]));

    router.borrow_mut().goto("/z");
    assert_eq!(
        Pin::new(&mut first).poll_change(&mut cx),
        Poll::Ready(Some(segments(&["z"])))
    );
    assert_eq!(
        Pin::new(&mut second).poll_change(&mut cx),
        Poll::Ready(Some(segments(&["z"])))
    );
    assert_eq!(router.borrow().current_path(), segments(&["z"]));
}
