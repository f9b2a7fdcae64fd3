use minirt::sleep::{sleep, sleep_inner, SleepQueue};
use minirt::Poll;

#[test]
fn sleep_inner_wakes_at_its_time() {
    let mut q = SleepQueue::new();
    let s = sleep_inner(1000, 500);
    assert_eq!(s.wake_time, 1500);
    assert!(matches!(s.poll(&mut q, 1200, 3), Poll::Pending));
    assert!(matches!(s.poll(&mut q, 1300, 3), Poll::Pending));
    assert_eq!(q.len(), 2);
    assert!(matches!(s.poll(&mut q, 1500, 3), Poll::Ready(())));
    let (woken, wait) = q.timer_poll(1400);
    assert!(woken.is_empty());
    assert_eq!(wait, Some(100));
    let (woken, wait) = q.timer_poll(1500);
    assert_eq!(woken, vec![3, 3]);
    assert_eq!(wait, None);
}

#[test]
fn timer_poll_wakes_earliest_first() {
    let mut q = SleepQueue::new();
    let a = sleep_inner(0, 50);
    let b = sleep_inner(0, 20);
    let c = sleep_inner(0, 80);
    let _ = a.poll(&mut q, 0, 1);
    let _ = b.poll(&mut q, 0, 2);
    let _ = c.poll(&mut q, 0, 3);
    let (woken, wait) = q.timer_poll(60);
    assert_eq!(woken, vec![2, 1]);
    assert_eq!(wait, Some(20));
    assert_eq!(q.len(), 1);
}

#[test]
fn counting_sleep_counts_early_polls() {
    let mut s = sleep(10, 5);
    assert!(matches!(s.poll(11), Poll::Pending));
    assert!(matches!(s.poll(14), Poll::Pending));
    assert!(matches!(s.poll(15), Poll::Ready(2)));
    let mut q = SleepQueue::new();
    let mut s2 = sleep(0, 3);
    assert!(matches!(s2.poll_registered(&mut q, 1, 8), Poll::Pending));
    assert_eq!(q.len(), 1);
    assert!(matches!(s2.poll_registered(&mut q, 3, 8), Poll::Ready(1)));
    assert_eq!(q.len(), 1);
}
