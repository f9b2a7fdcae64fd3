//! The readiness logic of the socket futures and of the event loop.
//!
//! A socket future tries its non-blocking call; the call either completes,
//! fails, or would block.  When it would block the future waits for the
//! socket to become ready: the first time, its waker is stored in the
//! future's slot and the slot is registered with the poller.  When the poller
//! reports the slot ready, the event loop takes the waker out of the slot and
//! wakes it.
use vstd::prelude::*;

use crate::Poll;

verus! {

/// What a non-blocking socket call gave.
pub enum IoAttempt<T, E> {
    Done(T),
    WouldBlock,
    Failed(E),
}

/// The waker slot of a socket future.
pub struct IoWaiter {
    pub waker: Option<u64>,
}

/// The result of one poll of a socket operation.
pub open spec fn io_poll_result<T, E>(attempt: IoAttempt<T, E>) -> Poll<Result<T, E>> {
    match attempt {
        IoAttempt::Done(v) => Poll::Ready(Ok(v)),
        IoAttempt::WouldBlock => Poll::Pending,
        IoAttempt::Failed(e) => Poll::Ready(Err(e)),
    }
}

impl IoWaiter {
    /// A future that has not waited yet.
    pub fn new() -> (w: Self)
        ensures
            w.waker is None,
    {
        IoWaiter { waker: None }
    }

    /// Decides one poll of a read, a write or an accept, given what the
    /// non-blocking call gave: a completed or failed call ends the future;
    /// a call that would block leaves it pending and, the first time only,
    /// stores `waker` and asks for the slot to be registered (the returned
    /// flag).
    pub fn poll<T, E>(&mut self, attempt: IoAttempt<T, E>, waker: u64) -> (r: (Poll<Result<T, E>>, bool))
        ensures
            r.0 == io_poll_result(attempt),
            r.1 == (attempt is WouldBlock && old(self).waker is None),
            r.1 ==> final(self).waker == Some(waker),
            !r.1 ==> *final(self) == *old(self),
    {
        match attempt {
            IoAttempt::Done(v) => (Poll::Ready(Ok(v)), false),
            IoAttempt::WouldBlock => {
                let register = self.waker.is_none();
                if register {
                    self.waker = Some(waker);
                }
                (Poll::Pending, register)
            },
            IoAttempt::Failed(e) => (Poll::Ready(Err(e)), false),
        }
    }

    /// Like `poll`, but a call that would block stores `waker` and asks for
    /// the slot to be registered on every such poll.
    pub fn poll_rearm<T, E>(&mut self, attempt: IoAttempt<T, E>, waker: u64) -> (r: (Poll<Result<T, E>>, bool))
        ensures
            r.0 == io_poll_result(attempt),
            r.1 == attempt is WouldBlock,
            r.1 ==> final(self).waker == Some(waker),
            !r.1 ==> *final(self) == *old(self),
    {
        match attempt {
            IoAttempt::Done(v) => (Poll::Ready(Ok(v)), false),
            IoAttempt::WouldBlock => {
                self.waker = Some(waker);
                (Poll::Pending, true)
            },
            IoAttempt::Failed(e) => (Poll::Ready(Err(e)), false),
        }
    }

    /// Decides one poll of a connection in progress: the first poll stores
    /// `waker` and asks for the slot to be registered for writability; the
    /// poll after the socket became writable ends the connect.
    pub fn poll_connect(&mut self, waker: u64) -> (r: (Poll<()>, bool))
        ensures
            old(self).waker is None ==> r == (Poll::<()>::Pending, true) && final(self).waker == Some(waker),
            old(self).waker is Some ==> r == (Poll::Ready(()), false) && *final(self) == *old(self),
    {
        if self.waker.is_none() {
            self.waker = Some(waker);
            (Poll::Pending, true)
        } else {
            (Poll::Ready(()), false)
        }
    }
}

/// How a non-blocking connect goes on after its first call.
pub enum ConnectStep<E> {
    /// Connected at once.
    Connected,
    /// The connection is under way: wait for the socket to be writable.
    InProgress,
    /// The connect failed.
    Failed(E),
}

/// The step that follows a connect call, where `in_progress` is the error
/// code that means "under way".
pub open spec fn connect_step_spec<E>(r: Result<(), E>, raw_os_error: Option<i32>, in_progress: i32) -> ConnectStep<E> {
    match r {
        Ok(()) => ConnectStep::Connected,
        Err(e) => if raw_os_error == Some(in_progress) {
            ConnectStep::InProgress
        } else {
            ConnectStep::Failed(e)
        },
    }
}

/// Decides how a connect goes on, given its call's result, the OS error code
/// of a failure, and the code that means "under way".
pub fn connect_step_with<E>(r: Result<(), E>, raw_os_error: Option<i32>, in_progress: i32) -> (s: ConnectStep<E>)
    ensures
        s == connect_step_spec(r, raw_os_error, in_progress),
{
    match r {
        Ok(()) => ConnectStep::Connected,
        Err(e) => {
            let under_way = match raw_os_error {
                Some(code) => code == in_progress,
                None => false,
            };
            if under_way {
                ConnectStep::InProgress
            } else {
                ConnectStep::Failed(e)
            }
        },
    }
}

/// The platform's "operation now in progress" error code (`libc::EINPROGRESS`).
/// Its value differs between platforms (and is negative on some), so the
/// contract claims nothing of it.
#[verifier::external_body]
fn einprogress() -> (code: i32) {
    libc::EINPROGRESS
}

/// Decides how a connect goes on, given its call's result and the OS error
/// code of a failure: "under way" is the platform's `EINPROGRESS`, whatever
/// its value.
pub fn connect_step<E>(r: Result<(), E>, raw_os_error: Option<i32>) -> (s: ConnectStep<E>)
    ensures
        r is Ok ==> s is Connected,
        r is Err ==> (s is InProgress || s == ConnectStep::Failed(r->Err_0)),
        (r is Err && raw_os_error is None) ==> s == ConnectStep::Failed(r->Err_0),
        s is InProgress ==> r is Err && raw_os_error is Some,
        exists|code: i32| s == connect_step_spec(r, raw_os_error, code),
{
    let code = einprogress();
    let s = connect_step_with(r, raw_os_error, code);
    proof {
        assert(s == connect_step_spec(r, raw_os_error, code));
    }
    s
}

/// The waker of each slot whose event the poller reported, in the order of
/// the events.
pub open spec fn event_wakers(slots: Seq<IoWaiter>, keys: Seq<usize>) -> Seq<u64> {
    keys.map_values(|k: usize| slots[k as int].waker->0)
}

/// Whether every reported key names a distinct slot that holds a waker.
pub open spec fn events_armed(slots: Seq<IoWaiter>, keys: Seq<usize>) -> bool {
    &&& keys.no_duplicates()
    &&& forall|i: int| 0 <= i < keys.len() ==> #[trigger] keys[i] < slots.len() && slots[keys[i] as int].waker is Some
}

/// Dispatches the events the poller reported: for each key, in order, the
/// waker is taken out of its slot and returned to be woken.
pub fn dispatch_events(slots: &mut Vec<IoWaiter>, keys: &[usize]) -> (woken: Vec<u64>)
    requires
        events_armed(old(slots)@, keys@),
    ensures
        woken@ == event_wakers(old(slots)@, keys@),
        final(slots)@.len() == old(slots)@.len(),
        forall|k: usize|
            k < final(slots)@.len() ==> #[trigger] final(slots)@[k as int].waker == if keys@.contains(k) {
                None
            } else {
                old(slots)@[k as int].waker
            },
{
    let mut woken: Vec<u64> = Vec::new();
    let mut i: usize = 0;
    while i < keys.len()
        invariant
            i <= keys@.len(),
            events_armed(old(slots)@, keys@),
            slots@.len() == old(slots)@.len(),
            woken@ == event_wakers(old(slots)@, keys@.take(i as int)),
            forall|k: usize|
                k < slots@.len() ==> #[trigger] slots@[k as int].waker == if keys@.take(i as int).contains(k) {
                    None
                } else {
                    old(slots)@[k as int].waker
                },
        decreases keys@.len() - i,
    {
        let key = keys[i];
        proof {
            assert(!keys@.take(i as int).contains(key)) by {
                if keys@.take(i as int).contains(key) {
                    let j = choose|j: int| 0 <= j < i && #[trigger] keys@.take(i as int)[j] == key;
                    assert(keys@[j] == keys@[i as int]);
                }
            }
            assert(slots@[key as int].waker == old(slots)@[key as int].waker);
        }
        let w = slots[key].waker.take();
        proof {
            assert(slots@.len() == old(slots)@.len());
        }
        match w {
            Some(w) => woken.push(w),
            None => {},
        }
        i = i + 1;
        proof {
            assert(keys@.take(i as int) =~= keys@.take(i - 1).push(key));
            assert(event_wakers(old(slots)@, keys@.take(i as int)) =~= event_wakers(
                old(slots)@,
                keys@.take(i - 1),
            ).push(old(slots)@[key as int].waker->0));
            assert forall|k: usize| k < slots@.len() implies #[trigger] slots@[k as int].waker == if keys@.take(
                i as int,
            ).contains(k) {
                None
            } else {
                old(slots)@[k as int].waker
            } by {
                if k == key {
                    assert(keys@.take(i as int)[i - 1] == key);
                } else {
                    if keys@.take(i as int).contains(k) {
                        let j = choose|j: int| 0 <= j < i && #[trigger] keys@.take(i as int)[j] == k;
                        assert(j < i - 1);
                        assert(keys@.take(i - 1)[j] == k as usize);
                    }
                    if keys@.take(i - 1).contains(k) {
                        let j = choose|j: int| 0 <= j < i - 1 && #[trigger] keys@.take(i - 1)[j] == k;
                        assert(keys@.take(i as int)[j] == k as usize);
                    }
                }
            }
        }
    }
    proof {
        assert(keys@.take(keys@.len() as int) =~= keys@);
    }
    woken
}

} // verus!
