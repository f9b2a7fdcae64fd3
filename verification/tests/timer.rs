use minirt::timer::{Timeout, Timer, TimerQueue};
use minirt::Poll;

#[test]
fn run_fires_due_timers_in_key_order() {
    let mut q = TimerQueue::new();
    let s1 = q.add_timer_at(30, 100);
    let s2 = q.add_timer_at(10, 101);
    let s3 = q.add_timer_at(10, 102);
    assert_eq!((s1, s2, s3), (1, 2, 3));
    assert_eq!(q.len(), 3);
    let (woken, wait) = q.run(10);
    assert_eq!(woken, vec![101, 102]);
    assert_eq!(wait, Some(20));
    assert_eq!(q.len(), 1);
    let (woken, wait) = q.run(10);
    assert!(woken.is_empty());
    assert_eq!(wait, Some(20));
    let (woken, wait) = q.run(31);
    assert_eq!(woken, vec![100]);
    assert_eq!(wait, None);
}

#[test]
fn delete_removes_only_its_timer() {
    let mut q = TimerQueue::new();
    let a = q.add_timer_at(5, 1);
    let _b = q.add_timer_at(5, 2);
    q.delete_timer(5, a);
    assert_eq!(q.len(), 1);
    q.delete_timer(5, 99);
    assert_eq!(q.len(), 1);
    let (woken, _) = q.run(5);
    assert_eq!(woken, vec![2]);
}

#[test]
fn add_timer_with_same_key_replaces_waker() {
    let mut q = TimerQueue::new();
    let s = q.next_seq();
    q.add_timer(7, s, 1);
    q.add_timer(7, s, 2);
    assert_eq!(q.len(), 1);
    assert_eq!(q.run(7).0, vec![2]);
}

#[test]
fn timer_registers_once_and_is_ready_after_deadline() {
    let mut q = TimerQueue::new();
    let mut t = Timer::from_duration(100, 50);
    assert!(matches!(t.poll(&mut q, 120, 9), Poll::Pending));
    assert!(matches!(t.poll(&mut q, 130, 9), Poll::Pending));
    assert_eq!(q.len(), 1);
    // the deadline itself is not yet "past"
    assert!(matches!(t.poll(&mut q, 150, 9), Poll::Pending));
    assert!(matches!(t.poll(&mut q, 151, 9), Poll::Ready(())));
    let (woken, wait) = q.run(150);
    assert_eq!(woken, vec![9]);
    assert_eq!(wait, None);
}

#[test]
fn dropping_registered_timer_leaves_its_entry() {
    let mut q = TimerQueue::new();
    let mut t = Timer::from_at(10);
    assert!(matches!(t.poll(&mut q, 0, 1), Poll::Pending));
    assert_eq!(q.len(), 1);
    assert_eq!(t.deadline_at(), 10);
    t.drop(&mut q);
    assert_eq!(q.len(), 1);
    assert_eq!(q.run(10).0, vec![1]);
    let t2 = Timer::from_at(10);
    t2.drop(&mut q);
    assert_eq!(q.len(), 0);
}

#[test]
fn drop_deletes_key_with_sequence_zero() {
    let mut q = TimerQueue::new();
    q.add_timer(10, 0, 7);
    let mut t = Timer::from_at(10);
    assert!(matches!(t.poll(&mut q, 0, 1), Poll::Pending));
    assert_eq!(q.len(), 2);
    t.drop(&mut q);
    assert_eq!(q.len(), 1);
    assert_eq!(q.run(10).0, vec![1]);
}

#[test]
fn timeout_prefers_the_future_then_the_timer() {
    let mut q = TimerQueue::new();
    let mut to = Timeout::new(0, 10, "fut");
    assert_eq!(*to.fut_mut(), "fut");
    assert!(matches!(to.poll(Poll::Pending::<u32>, &mut q, 5, 1), Poll::Pending));
    assert_eq!(q.len(), 1);
    assert!(matches!(to.poll(Poll::Ready(7u32), &mut q, 50, 1), Poll::Ready(Some(7))));
    assert!(matches!(to.poll(Poll::Pending::<u32>, &mut q, 11, 1), Poll::Ready(None)));
}
