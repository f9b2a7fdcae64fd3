use minirt::task::{spwan, Executor, RawTask, RawTaskState};
use minirt::Poll;

#[test]
fn raw_task_starts_queued() {
    let t: RawTask<u8> = RawTask::new();
    assert_eq!(t.state, RawTaskState::InQueue);
    assert!(!t.try_drop());
}

#[test]
fn spawn_run_and_join() {
    let mut ex: Executor<u32> = Executor::new();
    let h = spwan(&mut ex);
    assert_eq!(h.id, 0);
    let waiter = ex.spawn();
    assert_eq!(waiter, 1);
    // first task runs and finishes before anyone waits
    assert_eq!(ex.next_task(), Some(0));
    ex.create_waker(0);
    assert_eq!(ex.end_poll(0, Poll::Ready(42)), (None, false));
    assert!(!ex.drop_waker(0));
    // the waiter polls the handle and gets the output
    assert_eq!(ex.next_task(), Some(1));
    assert!(matches!(h.poll(&mut ex, 77), Poll::Ready(42)));
    // the handle is dropped: closed task without wakers is freed
    assert!(h.drop(&mut ex));
    assert_eq!(ex.next_task(), None);
}

#[test]
fn join_waker_is_woken_when_task_finishes() {
    let mut ex: Executor<&str> = Executor::new();
    let h = spwan(&mut ex);
    assert!(matches!(h.poll(&mut ex, 5), Poll::Pending));
    assert_eq!(ex.next_task(), Some(h.id));
    assert_eq!(ex.end_poll(h.id, Poll::Ready("done")), (Some(5), false));
    assert!(matches!(h.poll(&mut ex, 5), Poll::Ready("done")));
}

#[test]
fn self_waking_task_is_requeued() {
    // a task that wakes itself during its poll and returns pending
    let mut ex: Executor<usize> = Executor::new();
    let id = ex.spawn();
    assert_eq!(ex.next_task(), Some(id));
    ex.create_waker(id);
    ex.create_waker(id);
    assert_eq!(ex.wake(id), (true, false));
    assert_eq!(ex.end_poll(id, Poll::Pending), (None, false));
    assert!(!ex.drop_waker(id));
    assert_eq!(ex.next_task(), Some(id));
    assert_eq!(ex.end_poll(id, Poll::Ready(123)), (None, false));
    let (out, freed) = ex.finish_block_on(id);
    assert_eq!(out, 123);
    assert!(freed);
}

#[test]
fn detached_task_is_freed_by_its_last_waker() {
    let mut ex: Executor<u8> = Executor::new();
    let h = spwan(&mut ex);
    let id = h.id;
    assert!(!h.drop(&mut ex));
    assert_eq!(ex.next_task(), Some(id));
    ex.create_waker(id);
    assert_eq!(ex.end_poll(id, Poll::Ready(1)), (None, false));
    assert!(ex.drop_waker(id));
}

#[test]
fn wake_of_queued_task_does_not_queue_twice() {
    let mut ex: Executor<u8> = Executor::new();
    let id = ex.spawn();
    assert!(!ex.wake_by_ref(id));
    assert_eq!(ex.next_task(), Some(id));
    assert_eq!(ex.next_task(), None);
}

#[test]
fn block_on_loop_decisions() {
    let mut ex: Executor<u8> = Executor::new();
    let id = ex.spawn();
    assert!(!ex.main_finished(id));
    assert_eq!(ex.idle_wait(Some(5)), None);
    assert_eq!(ex.next_task(), Some(id));
    assert_eq!(ex.idle_wait(Some(5)), Some(Some(5)));
    assert_eq!(ex.idle_wait(None), Some(None));
    assert_eq!(ex.end_poll(id, Poll::Ready(3)), (None, false));
    assert!(ex.main_finished(id));
}

#[test]
fn spwan_gives_clean_task() {
    let mut ex: Executor<u8> = Executor::new();
    let h = spwan(&mut ex);
    assert_eq!(ex.waker_refs(h.id), Some(0));
    assert_eq!(ex.task_count(), 1);
    assert!(h.drop(&mut ex) == false);
}
