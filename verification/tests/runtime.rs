use minirt::runtime::{JoinHandleInner, RoundRobin, Runtime};
use minirt::Poll;

#[test]
fn ids_are_handed_out_in_order_and_queued() {
    let mut rt: Runtime<&str> = Runtime::new();
    assert!(rt.is_done());
    assert_eq!(rt.spwan("a"), 0);
    assert_eq!(rt.spwan("b"), 1);
    let ids = rt.begin_round();
    assert_eq!(ids.iter().copied().collect::<Vec<_>>(), vec![0, 1]);
    assert!(rt.begin_round().is_empty());
}

#[test]
fn finished_task_leaves_table_and_wakes_joiner() {
    let mut rt: Runtime<&str> = Runtime::new();
    let id = rt.spwan("a");
    assert!(matches!(rt.join_poll(id, 9), Poll::Pending));
    assert!(rt.has_task(id));
    let f = rt.take_task(id);
    assert!(!rt.has_task(id));
    assert_eq!(f, "a");
    assert_eq!(rt.end_poll(id, f, Poll::Pending), None);
    assert!(!rt.is_done());
    let f = rt.take_task(id);
    assert_eq!(rt.end_poll(id, f, Poll::Ready(())), Some(9));
    assert!(rt.is_done());
    assert!(!rt.has_task(id));
    assert!(matches!(rt.join_poll(id, 9), Poll::Ready(())));
}

#[test]
fn sleeps_only_without_new_wakes() {
    let mut rt: Runtime<u8> = Runtime::new();
    let id = rt.spwan(1);
    let _ = rt.begin_round();
    assert_eq!(rt.sleep_for(Some(30)), Some(30));
    assert_eq!(rt.sleep_for(None), None);
    rt.wake(id);
    assert_eq!(rt.sleep_for(Some(30)), None);
    let ids = rt.begin_round();
    assert_eq!(ids.len(), 1);
    assert_eq!(rt.sleep_for(Some(30)), Some(30));
}

#[test]
fn join_handle_inner_flow() {
    let mut j = JoinHandleInner::new();
    assert!(matches!(j.poll(4), Poll::Pending));
    assert_eq!(j.finish(), Some(4));
    assert!(matches!(j.poll(5), Poll::Ready(())));
    assert_eq!(j.waker, None);
}

#[test]
fn round_robin_requeues_pending_tasks() {
    let mut rr: RoundRobin<u8> = RoundRobin::new();
    rr.spwan(1);
    rr.spwan(2);
    let a = rr.next().unwrap();
    assert_eq!(a, 1);
    rr.end_poll(a, Poll::Pending::<()>);
    let b = rr.next().unwrap();
    assert_eq!(b, 2);
    rr.end_poll(b, Poll::Ready(()));
    assert_eq!(rr.next(), Some(1));
    assert_eq!(rr.next(), None);
}
