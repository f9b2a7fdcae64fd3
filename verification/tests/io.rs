use minirt::io::{connect_step, connect_step_with, dispatch_events, ConnectStep, IoAttempt, IoWaiter};
use minirt::Poll;

#[test]
fn would_block_registers_once() {
    let mut w = IoWaiter::new();
    let (p, reg) = w.poll::<usize, &str>(IoAttempt::WouldBlock, 3);
    assert!(matches!(p, Poll::Pending));
    assert!(reg);
    assert_eq!(w.waker, Some(3));
    let (p, reg) = w.poll::<usize, &str>(IoAttempt::WouldBlock, 4);
    assert!(matches!(p, Poll::Pending));
    assert!(!reg);
    assert_eq!(w.waker, Some(3));
    let (p, reg) = w.poll::<usize, &str>(IoAttempt::Done(12), 4);
    assert!(matches!(p, Poll::Ready(Ok(12))));
    assert!(!reg);
    let (p, _) = w.poll::<usize, &str>(IoAttempt::Failed("reset"), 4);
    assert!(matches!(p, Poll::Ready(Err("reset"))));
}

#[test]
fn rearm_registers_every_time() {
    let mut w = IoWaiter::new();
    assert!(w.poll_rearm::<u8, ()>(IoAttempt::WouldBlock, 1).1);
    assert!(w.poll_rearm::<u8, ()>(IoAttempt::WouldBlock, 2).1);
    assert_eq!(w.waker, Some(2));
}

#[test]
fn connect_waits_for_writability_once() {
    let mut w = IoWaiter::new();
    assert!(matches!(w.poll_connect(1), (Poll::Pending, true)));
    assert!(matches!(w.poll_connect(1), (Poll::Ready(()), false)));
}

#[test]
fn connect_steps() {
    assert!(matches!(connect_step_with::<&str>(Ok(()), None, 115), ConnectStep::Connected));
    assert!(matches!(connect_step_with(Err("e"), Some(115), 115), ConnectStep::InProgress));
    assert!(matches!(connect_step_with(Err("e"), Some(111), 115), ConnectStep::Failed("e")));
    assert!(matches!(connect_step_with(Err("e"), None, 115), ConnectStep::Failed("e")));
}

#[test]
fn connect_step_uses_platform_einprogress() {
    assert!(matches!(connect_step(Err("e"), Some(libc::EINPROGRESS)), ConnectStep::InProgress));
    assert!(matches!(connect_step(Err("e"), Some(libc::ECONNREFUSED)), ConnectStep::Failed("e")));
    assert!(matches!(connect_step::<&str>(Ok(()), None), ConnectStep::Connected));
}

#[test]
fn events_take_wakers_from_their_slots() {
    let mut slots: Vec<IoWaiter> = [Some(10), None, Some(30), Some(40)]
        .iter()
        .map(|w| IoWaiter { waker: *w })
        .collect();
    let woken = dispatch_events(&mut slots, &[3, 0]);
    assert_eq!(woken, vec![40, 10]);
    let left: Vec<Option<u64>> = slots.iter().map(|s| s.waker).collect();
    assert_eq!(left, vec![None, None, Some(30), None]);
}
