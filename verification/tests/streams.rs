use webcrawl::eos_on_error::{EosOnError, EosPoll, StreamEvent};
use webcrawl::fork::{fork, ProngPoll, Route};
use webcrawl::select_all::SelectAll;

#[test]
fn eos_forwards_items_until_error() {
    let mut eos = EosOnError::new();
    match eos.on_poll(StreamEvent::Item(7u32)) {
        EosPoll::Item(x) => assert_eq!(x, 7),
        _ => panic!("expected the item through"),
    }
    assert!(matches!(eos.on_poll::<u32>(StreamEvent::Pending), EosPoll::Pending));
    assert!(matches!(eos.on_poll::<u32>(StreamEvent::Failed), EosPoll::End));
    // terminated: even an item now reads as end, and stays that way
    assert!(matches!(eos.on_poll(StreamEvent::Item(9u32)), EosPoll::End));
    assert!(matches!(eos.on_poll::<u32>(StreamEvent::Pending), EosPoll::End));
}

#[test]
fn eos_ends_once_on_source_end() {
    let mut eos = EosOnError::new();
    assert!(matches!(eos.on_poll::<u32>(StreamEvent::End), EosPoll::End));
    assert!(matches!(eos.on_poll::<u32>(StreamEvent::End), EosPoll::End));
}

#[test]
fn fork_routes_items_in_order() {
    let mut f = fork::<u32>();
    assert!(f.push(Route(0), 10));
    assert!(!f.push(Route(0), 11));
    assert!(f.push(Route(1), 20));
    assert!(!f.push(Route(1), 21));
    assert!(!f.push(Route(0), 12));
    match f.poll_prong(Route(0)) {
        ProngPoll::Item(x) => assert_eq!(x, 10),
        _ => panic!("expected first routed item"),
    }
    match f.poll_prong(Route(1)) {
        ProngPoll::Item(x) => assert_eq!(x, 20),
        _ => panic!("expected first routed item"),
    }
    match f.poll_prong(Route(0)) {
        ProngPoll::Item(x) => assert_eq!(x, 11),
        _ => panic!("expected second routed item"),
    }
    assert!(matches!(f.poll_prong(Route(2)), ProngPoll::Pending));
    f.close();
    match f.poll_prong(Route(0)) {
        ProngPoll::Item(x) => assert_eq!(x, 12),
        _ => panic!("queued items drain before the end"),
    }
    assert!(matches!(f.poll_prong(Route(0)), ProngPoll::End));
    match f.poll_prong(Route(1)) {
        ProngPoll::Item(x) => assert_eq!(x, 21),
        _ => panic!("queued items drain before the end"),
    }
    assert!(matches!(f.poll_prong(Route(1)), ProngPoll::End));
}

#[test]
fn fork_error_terminates_drained_prongs() {
    let mut f = fork::<u8>();
    f.push(Route(3), 1);
    f.fail();
    match f.poll_prong(Route(3)) {
        ProngPoll::Item(x) => assert_eq!(x, 1),
        _ => panic!("queued item drains first"),
    }
    assert!(matches!(f.poll_prong(Route(3)), ProngPoll::Failed));
}

#[test]
fn selector_is_round_robin_and_loses_nothing() {
    let mut s: SelectAll<u32> = SelectAll::new();
    assert!(s.poll().is_none());
    s.push(vec![1, 2]);
    s.push(vec![10]);
    s.push(Vec::new());
    let mut seen = Vec::new();
    while let Some(x) = s.poll() {
        seen.push(x);
    }
    // rotation alternates between the queues, and every item comes out
    assert_eq!(seen.len(), 3);
    let mut sorted = seen.clone();
    sorted.sort();
    assert_eq!(sorted, vec![1, 2, 10]);
    assert!(s.poll().is_none());
    // the two-item queue keeps its internal order
    let p1 = seen.iter().position(|&x| x == 1).unwrap();
    let p2 = seen.iter().position(|&x| x == 2).unwrap();
    assert!(p1 < p2);
}

#[test]
fn selector_accepts_pushes_after_draining() {
    let mut s: SelectAll<u8> = SelectAll::new();
    s.push(vec![5]);
    assert_eq!(s.poll(), Some(5));
    assert!(s.poll().is_none());
    s.push(vec![6]);
    assert_eq!(s.poll(), Some(6));
    assert!(s.poll().is_none());
}
