//! Task cells and the executor that schedules them.
//!
//! Each spawned task has a cell that records where it is in its life
//! (queued, running, pending, finished with an output, closed), whether its
//! join handle is gone, and how many wakers point at it.  The cell is freed
//! once the task is closed and no waker is left.  Ready tasks wait in a queue;
//! the executor takes them a batch at a time.  Tasks are named by their slot
//! number, wakers of the join handles by `u64`.
use std::collections::VecDeque;
use vstd::prelude::*;

use crate::Poll;

verus! {

/// Where a task is in its life.
#[derive(PartialEq, Eq, Structural, Clone, Copy, Debug)]
pub enum RawTaskState {
    InQueue,
    Running,
    Pending,
    Ready,
    Closed,
}

/// The bookkeeping of one task.
pub struct RawTask<T> {
    pub state: RawTaskState,
    pub is_join_handle_dropped: bool,
    pub waker_refs: usize,
    pub waker: Option<u64>,
    pub output: Option<T>,
}

/// An output is held exactly while the task is finished and not yet joined.
pub open spec fn raw_task_wf<T>(t: RawTask<T>) -> bool {
    (t.state == RawTaskState::Ready) <==> (t.output is Some)
}

/// Whether a task can be freed: closed, with no waker left.
pub open spec fn can_free<T>(t: RawTask<T>) -> bool {
    t.state == RawTaskState::Closed && t.waker_refs == 0
}

/// The states in which a wake is accepted.
pub open spec fn wakeable(s: RawTaskState) -> bool {
    s == RawTaskState::InQueue || s == RawTaskState::Running || s == RawTaskState::Pending
}

/// The states in which a join handle may be polled.
pub open spec fn joinable(s: RawTaskState) -> bool {
    s == RawTaskState::Ready || s == RawTaskState::InQueue || s == RawTaskState::Pending
}

/// The task after a poll of its future gave `outcome`.
pub open spec fn end_poll_next<T>(t: RawTask<T>, outcome: Poll<T>) -> RawTask<T> {
    match outcome {
        Poll::Pending => RawTask { state: RawTaskState::Pending, ..t },
        Poll::Ready(out) => if t.is_join_handle_dropped {
            RawTask { state: RawTaskState::Closed, ..t }
        } else {
            RawTask { state: RawTaskState::Ready, output: Some(out), waker: None, ..t }
        },
    }
}

/// The join-handle waker that the end of a poll wakes.
pub open spec fn end_poll_woken<T>(t: RawTask<T>, outcome: Poll<T>) -> Option<u64> {
    match outcome {
        Poll::Pending => None,
        Poll::Ready(_) => if t.is_join_handle_dropped {
            None
        } else {
            t.waker
        },
    }
}

/// The task after its join handle is polled with `waker`.
pub open spec fn join_poll_next<T>(t: RawTask<T>, waker: u64) -> RawTask<T> {
    if t.state == RawTaskState::Ready {
        RawTask { state: RawTaskState::Closed, output: None, ..t }
    } else {
        RawTask { waker: Some(waker), ..t }
    }
}

/// What a poll of the join handle gives.
pub open spec fn join_poll_result<T>(t: RawTask<T>) -> Poll<T> {
    if t.state == RawTaskState::Ready {
        Poll::Ready(t.output->0)
    } else {
        Poll::Pending
    }
}

impl<T> RawTask<T> {
    /// A freshly spawned task: queued, joinable, with no waker.
    pub fn new() -> (t: RawTask<T>)
        ensures
            t.state == RawTaskState::InQueue,
            !t.is_join_handle_dropped,
            t.waker_refs == 0,
            t.waker is None,
            t.output is None,
    {
        RawTask {
            state: RawTaskState::InQueue,
            is_join_handle_dropped: false,
            waker_refs: 0,
            waker: None,
            output: None,
        }
    }

    /// Whether the task can be freed now.
    pub fn try_drop(&self) -> (b: bool)
        ensures
            b == can_free(*self),
    {
        self.state == RawTaskState::Closed && self.waker_refs == 0
    }
}

/// The tasks of an executor and its ready queues.
pub struct Executor<T> {
    tasks: Vec<Option<RawTask<T>>>,
    batch: VecDeque<usize>,
    ready: VecDeque<usize>,
}

/// The queued task names: the batch being run, then the queue for the next one.
pub open spec fn queued(batch: Seq<usize>, ready: Seq<usize>) -> Seq<usize> {
    batch + ready
}

impl<T> Executor<T> {
    /// The task slots; a freed task leaves `None`.
    pub closed spec fn tasks(&self) -> Seq<Option<RawTask<T>>> {
        self.tasks@
    }

    /// The tasks of the batch being run.
    pub closed spec fn batch(&self) -> Seq<usize> {
        self.batch@
    }

    /// The tasks queued for the next batch.
    pub closed spec fn ready(&self) -> Seq<usize> {
        self.ready@
    }

    /// Whether task `id` exists and is not freed.
    pub open spec fn live(&self, id: usize) -> bool {
        id < self.tasks().len() && self.tasks()[id as int] is Some
    }

    /// The cell of a live task.
    pub open spec fn task(&self, id: usize) -> RawTask<T> {
        self.tasks()[id as int]->0
    }

    /// Every live task holds an output exactly while it is finished.
    pub open spec fn wf(&self) -> bool {
        forall|id: usize| #[trigger] self.live(id) ==> raw_task_wf(self.task(id))
    }

    /// Every queued task is live.
    pub open spec fn queued_live(&self) -> bool {
        forall|k: int|
            0 <= k < queued(self.batch(), self.ready()).len() ==> #[trigger] self.live(
                queued(self.batch(), self.ready())[k],
            )
    }

    /// A live task is queued exactly when its state says so, and then once.
    pub open spec fn queue_consistent(&self) -> bool {
        &&& self.queued_live()
        &&& queued(self.batch(), self.ready()).no_duplicates()
        &&& forall|id: usize|
            #[trigger] self.live(id) ==> (self.task(id).state == RawTaskState::InQueue
                <==> queued(self.batch(), self.ready()).contains(id))
    }

    /// The state of task `id`, or `None` once it is freed (or never was).
    pub fn task_state(&self, id: usize) -> (s: Option<RawTaskState>)
        ensures
            self.live(id) ==> s == Some(self.task(id).state),
            !self.live(id) ==> s is None,
    {
        if id < self.tasks.len() {
            match &self.tasks[id] {
                Some(t) => Some(t.state),
                None => None,
            }
        } else {
            None
        }
    }

    /// The number of wakers of task `id`, or `None` once it is freed.
    pub fn waker_refs(&self, id: usize) -> (n: Option<usize>)
        ensures
            self.live(id) ==> n == Some(self.task(id).waker_refs),
            !self.live(id) ==> n is None,
    {
        if id < self.tasks.len() {
            match &self.tasks[id] {
                Some(t) => Some(t.waker_refs),
                None => None,
            }
        } else {
            None
        }
    }

    /// The number of task slots handed out so far.
    pub fn task_count(&self) -> (n: usize)
        ensures
            n == self.tasks().len(),
    {
        self.tasks.len()
    }

    /// The task that `next_task` would run next, if any.
    pub fn front(&self) -> (id: Option<usize>)
        ensures
            queued(self.batch(), self.ready()).len() == 0 ==> id is None,
            queued(self.batch(), self.ready()).len() > 0 ==> id == Some(queued(self.batch(), self.ready())[0]),
    {
        if self.batch.len() > 0 {
            Some(self.batch[0])
        } else if self.ready.len() > 0 {
            Some(self.ready[0])
        } else {
            None
        }
    }

    /// Whether the task run by `block_on` is done: it has finished with its
    /// output waiting to be taken.
    pub fn main_finished(&self, id: usize) -> (b: bool)
        ensures
            b == (self.live(id) && self.task(id).state == RawTaskState::Ready),
    {
        match self.task_state(id) {
            Some(s) => s == RawTaskState::Ready,
            None => false,
        }
    }

    /// What `block_on` does once no task is queued and the due timers have
    /// fired: `None` to run the tasks those timers queued, else `Some(wait)`
    /// to wait for socket events, at most until the next timer (`wait` is
    /// `None` when no timer is left).
    pub fn idle_wait(&self, timer_wait: Option<u64>) -> (w: Option<Option<u64>>)
        ensures
            queued(self.batch(), self.ready()).len() > 0 ==> w is None,
            queued(self.batch(), self.ready()).len() == 0 ==> w == Some(timer_wait),
    {
        if self.has_queued() {
            None
        } else {
            Some(timer_wait)
        }
    }

    /// Whether some task waits in the batch or the ready queue.
    pub fn has_queued(&self) -> (b: bool)
        ensures
            b == (queued(self.batch(), self.ready()).len() > 0),
    {
        self.batch.len() > 0 || self.ready.len() > 0
    }

    /// An executor with no task.
    pub fn new() -> (e: Self)
        ensures
            e.wf(),
            e.queue_consistent(),
            e.tasks() == Seq::<Option<RawTask<T>>>::empty(),
            e.batch() == Seq::<usize>::empty(),
            e.ready() == Seq::<usize>::empty(),
    {
        Executor { tasks: Vec::new(), batch: VecDeque::new(), ready: VecDeque::new() }
    }

    /// Spawns a task: it gets the next slot and joins the ready queue.
    pub fn spawn(&mut self) -> (id: usize)
        requires
            old(self).wf(),
            old(self).tasks().len() < usize::MAX,
        ensures
            final(self).wf(),
            id == old(self).tasks().len(),
            final(self).tasks().len() == old(self).tasks().len() + 1,
            final(self).tasks().subrange(0, id as int) == old(self).tasks(),
            final(self).live(id),
            final(self).task(id).state == RawTaskState::InQueue,
            !final(self).task(id).is_join_handle_dropped,
            final(self).task(id).waker_refs == 0,
            final(self).task(id).waker is None,
            final(self).task(id).output is None,
            final(self).batch() == old(self).batch(),
            final(self).ready() == old(self).ready().push(id),
            old(self).queue_consistent() ==> final(self).queue_consistent(),
    {
        let id = self.tasks.len();
        self.tasks.push(Some(RawTask::new()));
        self.ready.push_back(id);
        proof {
            let q0 = queued(old(self).batch(), old(self).ready());
            let q1 = queued(self.batch(), self.ready());
            assert(q1 =~= q0.push(id));
            assert forall|i: usize| #[trigger] self.live(i) implies raw_task_wf(self.task(i)) by {
                if i < id {
                    assert(old(self).live(i));
                }
            }
            if old(self).queue_consistent() {
                assert forall|k: int| 0 <= k < q1.len() implies #[trigger] self.live(q1[k]) by {
                    if k < q0.len() {
                        assert(old(self).live(q0[k]));
                    }
                }
                assert(!q0.contains(id)) by {
                    if q0.contains(id) {
                        let k = choose|k: int| 0 <= k < q0.len() && q0[k] == id;
                        assert(old(self).live(q0[k]));
                    }
                }
                assert forall|i: usize| #[trigger] self.live(i) implies (self.task(i).state
                    == RawTaskState::InQueue <==> q1.contains(i)) by {
                    if i < id {
                        assert(old(self).live(i));
                        if q1.contains(i) {
                            let k = choose|k: int| 0 <= k < q1.len() && q1[k] == i;
                            assert(q0[k] == i);
                        }
                        if q0.contains(i) {
                            let k = choose|k: int| 0 <= k < q0.len() && q0[k] == i;
                            assert(q1[k] == i);
                        }
                    } else {
                        assert(q1[q1.len() - 1] == id);
                    }
                }
            }
        }
        id
    }

    /// The next task to run: the front of the current batch, taking the whole
    /// ready queue as the new batch when the current one is used up; `None`
    /// when both are empty.  The task is marked running.
    pub fn next_task(&mut self) -> (r: Option<usize>)
        requires
            old(self).wf(),
            queued(old(self).batch(), old(self).ready()).len() > 0 ==> {
                let id = queued(old(self).batch(), old(self).ready())[0];
                old(self).live(id) && wakeable(old(self).task(id).state)
            },
        ensures
            final(self).wf(),
            final(self).tasks().len() == old(self).tasks().len(),
            r is None <==> queued(old(self).batch(), old(self).ready()).len() == 0,
            r is None ==> final(self).tasks() == old(self).tasks() && final(self).batch() == old(
                self,
            ).batch() && final(self).ready() == old(self).ready(),
            r matches Some(id) ==> {
                &&& id == queued(old(self).batch(), old(self).ready())[0]
                &&& queued(final(self).batch(), final(self).ready()) == queued(
                    old(self).batch(),
                    old(self).ready(),
                ).drop_first()
                &&& final(self).live(id)
                &&& final(self).tasks() == old(self).tasks().update(
                    id as int,
                    Some(RawTask { state: RawTaskState::Running, ..old(self).task(id) }),
                )
                &&& (old(self).queue_consistent() ==> final(self).queue_consistent())
            },
    {
        let ghost q0 = queued(old(self).batch(), old(self).ready());
        if self.batch.len() == 0 {
            let mut taken: VecDeque<usize> = VecDeque::new();
            std::mem::swap(&mut taken, &mut self.ready);
            self.batch = taken;
            proof {
                assert(queued(self.batch@, self.ready@) =~= q0);
            }
        }
        match self.batch.pop_front() {
            None => {
                proof {
                    assert(q0.len() == 0);
                    assert(self.batch@ =~= old(self).batch@);
                    assert(self.ready@ =~= old(self).ready@);
                    assert forall|i: usize| #[trigger] self.live(i) implies raw_task_wf(self.task(i)) by {
                        assert(old(self).live(i));
                    }
                }
                None
            },
            Some(id) => {
                proof {
                    assert(queued(self.batch@, self.ready@) =~= q0.drop_first());
                    assert(old(self).live(q0[0]));
                }
                let mut t = self.tasks[id].take().unwrap();
                t.state = RawTaskState::Running;
                self.tasks.set(id, Some(t));
                proof {
                    let q1 = queued(self.batch@, self.ready@);
                    assert forall|i: usize| #[trigger] self.live(i) implies raw_task_wf(self.task(i)) by {
                        assert(old(self).live(i));
                    }
                    if old(self).queue_consistent() {
                        assert forall|k: int| 0 <= k < q1.len() implies #[trigger] self.live(q1[k]) by {
                            assert(q1[k] == q0[k + 1]);
                            assert(old(self).live(q0[k + 1]));
                        }
                        assert forall|i: usize| #[trigger] self.live(i) implies (self.task(i).state
                            == RawTaskState::InQueue <==> q1.contains(i)) by {
                            assert(old(self).live(i));
                            if q1.contains(i) {
                                let k = choose|k: int| 0 <= k < q1.len() && q1[k] == i;
                                assert(q0[k + 1] == i);
                                assert(q0.contains(i));
                                if i == id {
                                    assert(q0[0] == q0[k + 1]);
                                }
                            }
                            if q0.contains(i) && i != id {
                                let k = choose|k: int| 0 <= k < q0.len() && q0[k] == i;
                                assert(k > 0);
                                assert(q1[k - 1] == i);
                            }
                        }
                    }
                }
                Some(id)
            },
        }
    }

    /// A new waker for task `id`.
    pub fn create_waker(&mut self, id: usize)
        requires
            old(self).wf(),
            old(self).live(id),
            old(self).task(id).waker_refs < usize::MAX,
        ensures
            final(self).wf(),
            final(self).batch() == old(self).batch(),
            final(self).ready() == old(self).ready(),
            final(self).tasks() == old(self).tasks().update(
                id as int,
                Some(RawTask { waker_refs: (old(self).task(id).waker_refs + 1) as usize, ..old(self).task(id) }),
            ),
            old(self).queue_consistent() ==> final(self).queue_consistent(),
    {
        let mut t = self.tasks[id].take().unwrap();
        t.waker_refs = t.waker_refs + 1;
        self.tasks.set(id, Some(t));
        proof {
            self.lemma_same_states(*old(self), id);
        }
    }

    /// A wake through a waker that stays alive: a task that is running or
    /// pending is queued again; a queued one stays where it is.
    pub fn wake_by_ref(&mut self, id: usize) -> (queued_now: bool)
        requires
            old(self).wf(),
            old(self).live(id),
            wakeable(old(self).task(id).state),
        ensures
            final(self).wf(),
            queued_now == (old(self).task(id).state != RawTaskState::InQueue),
            final(self).batch() == old(self).batch(),
            queued_now ==> final(self).ready() == old(self).ready().push(id),
            !queued_now ==> final(self).ready() == old(self).ready(),
            final(self).tasks() == old(self).tasks().update(
                id as int,
                Some(RawTask { state: RawTaskState::InQueue, ..old(self).task(id) }),
            ),
            old(self).queue_consistent() ==> final(self).queue_consistent(),
    {
        let mut t = self.tasks[id].take().unwrap();
        let queued_now = t.state != RawTaskState::InQueue;
        t.state = RawTaskState::InQueue;
        self.tasks.set(id, Some(t));
        if queued_now {
            self.ready.push_back(id);
        }
        proof {
            let q0 = queued(old(self).batch(), old(self).ready());
            let q1 = queued(self.batch(), self.ready());
            assert forall|i: usize| #[trigger] self.live(i) implies raw_task_wf(self.task(i)) by {
                assert(old(self).live(i));
            }
            if queued_now {
                assert(q1 =~= q0.push(id));
            } else {
                assert(q1 =~= q0);
            }
            if old(self).queue_consistent() {
                assert forall|k: int| 0 <= k < q1.len() implies #[trigger] self.live(q1[k]) by {
                    if k < q0.len() {
                        assert(q1[k] == q0[k]);
                        assert(old(self).live(q0[k]));
                    }
                }
                assert forall|i: usize| #[trigger] self.live(i) implies (self.task(i).state
                    == RawTaskState::InQueue <==> q1.contains(i)) by {
                    assert(old(self).live(i));
                    if i == id {
                        if queued_now {
                            assert(q1[q1.len() - 1] == id);
                        }
                    } else {
                        if q1.contains(i) {
                            let k = choose|k: int| 0 <= k < q1.len() && q1[k] == i;
                            assert(k < q0.len());
                            assert(q0[k] == i);
                        }
                        if q0.contains(i) {
                            let k = choose|k: int| 0 <= k < q0.len() && q0[k] == i;
                            assert(q1[k] == i);
                        }
                    }
                }
            }
        }
        queued_now
    }

    /// Drops a waker of task `id`; the task is freed when it is closed and
    /// this was its last waker.
    pub fn drop_waker(&mut self, id: usize) -> (freed: bool)
        requires
            old(self).wf(),
            old(self).live(id),
            old(self).task(id).waker_refs > 0,
        ensures
            final(self).wf(),
            final(self).batch() == old(self).batch(),
            final(self).ready() == old(self).ready(),
            freed == (old(self).task(id).state == RawTaskState::Closed && old(self).task(id).waker_refs == 1),
            freed ==> final(self).tasks() == old(self).tasks().update(id as int, None),
            !freed ==> final(self).tasks() == old(self).tasks().update(
                id as int,
                Some(RawTask { waker_refs: (old(self).task(id).waker_refs - 1) as usize, ..old(self).task(id) }),
            ),
            old(self).queue_consistent() ==> final(self).queue_consistent(),
    {
        let mut t = self.tasks[id].take().unwrap();
        t.waker_refs = t.waker_refs - 1;
        let freed = t.try_drop();
        if !freed {
            self.tasks.set(id, Some(t));
        }
        proof {
            if freed {
                self.lemma_after_free(*old(self), id);
            } else {
                self.lemma_same_states(*old(self), id);
            }
        }
        freed
    }

    /// A wake that consumes its waker.
    pub fn wake(&mut self, id: usize) -> (r: (bool, bool))
        requires
            old(self).wf(),
            old(self).live(id),
            wakeable(old(self).task(id).state),
            old(self).task(id).waker_refs > 0,
        ensures
            final(self).wf(),
            r.0 == (old(self).task(id).state != RawTaskState::InQueue),
            !r.1,
            final(self).batch() == old(self).batch(),
            r.0 ==> final(self).ready() == old(self).ready().push(id),
            !r.0 ==> final(self).ready() == old(self).ready(),
            final(self).tasks() == old(self).tasks().update(
                id as int,
                Some(RawTask {
                    state: RawTaskState::InQueue,
                    waker_refs: (old(self).task(id).waker_refs - 1) as usize,
                    ..old(self).task(id)
                }),
            ),
            old(self).queue_consistent() ==> final(self).queue_consistent(),
    {
        let queued_now = self.wake_by_ref(id);
        let freed = self.drop_waker(id);
        (queued_now, freed)
    }

    /// Records what the poll of task `id`'s future gave.  A pending task is
    /// marked pending.  A finished task whose join handle is gone is closed
    /// (and freed if no waker is left); else it keeps its output for the join
    /// handle, whose waker is returned to be woken.
    pub fn end_poll(&mut self, id: usize, outcome: Poll<T>) -> (r: (Option<u64>, bool))
        requires
            old(self).wf(),
            old(self).live(id),
            old(self).task(id).state == RawTaskState::Running || old(self).task(id).state
                == RawTaskState::InQueue,
        ensures
            final(self).wf(),
            final(self).batch() == old(self).batch(),
            final(self).ready() == old(self).ready(),
            r.0 == end_poll_woken(old(self).task(id), outcome),
            r.1 == can_free(end_poll_next(old(self).task(id), outcome)),
            r.1 ==> final(self).tasks() == old(self).tasks().update(id as int, None),
            !r.1 ==> final(self).tasks() == old(self).tasks().update(
                id as int,
                Some(end_poll_next(old(self).task(id), outcome)),
            ),
            (old(self).queue_consistent() && old(self).task(id).state == RawTaskState::Running)
                ==> final(self).queue_consistent(),
    {
        let mut t = self.tasks[id].take().unwrap();
        let ghost t0 = t;
        let mut woken: Option<u64> = None;
        let mut freed = false;
        match outcome {
            Poll::Pending => {
                t.state = RawTaskState::Pending;
            },
            Poll::Ready(out) => {
                if t.is_join_handle_dropped {
                    t.state = RawTaskState::Closed;
                    freed = t.try_drop();
                } else {
                    t.state = RawTaskState::Ready;
                    t.output = Some(out);
                    woken = t.waker.take();
                }
            },
        }
        proof {
            assert(t == end_poll_next(t0, outcome));
        }
        if !freed {
            self.tasks.set(id, Some(t));
        }
        proof {
            if freed {
                self.lemma_after_free(*old(self), id);
            } else {
                self.lemma_same_states_except(*old(self), id);
            }
        }
        (woken, freed)
    }

    /// Polls the join handle of task `id` with `waker`: a finished task hands
    /// over its output and is closed; else the waker is kept to be woken when
    /// the task finishes.
    pub fn join_poll(&mut self, id: usize, waker: u64) -> (r: Poll<T>)
        requires
            old(self).wf(),
            old(self).live(id),
            joinable(old(self).task(id).state),
        ensures
            final(self).wf(),
            final(self).batch() == old(self).batch(),
            final(self).ready() == old(self).ready(),
            r == join_poll_result(old(self).task(id)),
            final(self).tasks() == old(self).tasks().update(
                id as int,
                Some(join_poll_next(old(self).task(id), waker)),
            ),
            old(self).queue_consistent() ==> final(self).queue_consistent(),
    {
        let mut t = self.tasks[id].take().unwrap();
        let r = if t.state == RawTaskState::Ready {
            t.state = RawTaskState::Closed;
            match t.output.take() {
                Some(out) => Poll::Ready(out),
                None => Poll::Pending,
            }
        } else {
            t.waker = Some(waker);
            Poll::Pending
        };
        self.tasks.set(id, Some(t));
        proof {
            self.lemma_same_states_except(*old(self), id);
        }
        r
    }

    /// Drops the join handle of task `id`; the task is freed when it is
    /// closed and no waker is left.
    pub fn join_drop(&mut self, id: usize) -> (freed: bool)
        requires
            old(self).wf(),
            old(self).live(id),
        ensures
            final(self).wf(),
            final(self).batch() == old(self).batch(),
            final(self).ready() == old(self).ready(),
            freed == can_free(old(self).task(id)),
            freed ==> final(self).tasks() == old(self).tasks().update(id as int, None),
            !freed ==> final(self).tasks() == old(self).tasks().update(
                id as int,
                Some(RawTask { is_join_handle_dropped: true, ..old(self).task(id) }),
            ),
            old(self).queue_consistent() ==> final(self).queue_consistent(),
    {
        let mut t = self.tasks[id].take().unwrap();
        t.is_join_handle_dropped = true;
        let freed = t.try_drop();
        if !freed {
            self.tasks.set(id, Some(t));
        }
        proof {
            if freed {
                self.lemma_after_free(*old(self), id);
            } else {
                self.lemma_same_states(*old(self), id);
            }
        }
        freed
    }

    /// Ends a `block_on`: takes the output of the finished task `id`, closes
    /// it and drops its join handle.
    pub fn finish_block_on(&mut self, id: usize) -> (r: (T, bool))
        requires
            old(self).wf(),
            old(self).live(id),
            old(self).task(id).state == RawTaskState::Ready,
        ensures
            final(self).wf(),
            final(self).batch() == old(self).batch(),
            final(self).ready() == old(self).ready(),
            r.0 == old(self).task(id).output->0,
            r.1 == (old(self).task(id).waker_refs == 0),
            r.1 ==> final(self).tasks() == old(self).tasks().update(id as int, None),
            !r.1 ==> final(self).tasks() == old(self).tasks().update(
                id as int,
                Some(RawTask {
                    state: RawTaskState::Closed,
                    output: None,
                    is_join_handle_dropped: true,
                    ..old(self).task(id)
                }),
            ),
            old(self).queue_consistent() ==> final(self).queue_consistent(),
    {
        let mut t = self.tasks[id].take().unwrap();
        t.state = RawTaskState::Closed;
        let out = t.output.take().unwrap();
        self.tasks.set(id, Some(t));
        proof {
            self.lemma_same_states_except(*old(self), id);
        }
        let freed = self.join_drop(id);
        (out, freed)
    }

    /// A change of one live task that keeps its state keeps every invariant.
    proof fn lemma_same_states(&self, old_e: Self, id: usize)
        requires
            old_e.wf(),
            old_e.live(id),
            self.batch() == old_e.batch(),
            self.ready() == old_e.ready(),
            self.tasks().len() == old_e.tasks().len(),
            self.live(id),
            self.task(id).state == old_e.task(id).state,
            self.task(id).output == old_e.task(id).output,
            forall|i: int| 0 <= i < self.tasks().len() && i != id ==> #[trigger] self.tasks()[i] == old_e.tasks()[i],
        ensures
            self.wf(),
            old_e.queue_consistent() ==> self.queue_consistent(),
    {
        assert forall|i: usize| #[trigger] self.live(i) implies raw_task_wf(self.task(i)) by {
            assert(old_e.live(i));
        }
        if old_e.queue_consistent() {
            let q = queued(self.batch(), self.ready());
            assert forall|k: int| 0 <= k < q.len() implies #[trigger] self.live(q[k]) by {
                assert(old_e.live(q[k]));
            }
            assert forall|i: usize| #[trigger] self.live(i) implies (self.task(i).state
                == RawTaskState::InQueue <==> q.contains(i)) by {
                assert(old_e.live(i));
            }
        }
    }

    /// A change of one live task that keeps it queued or not queued, as it
    /// was, keeps every invariant.
    proof fn lemma_same_states_except(&self, old_e: Self, id: usize)
        requires
            old_e.wf(),
            old_e.live(id),
            self.batch() == old_e.batch(),
            self.ready() == old_e.ready(),
            self.tasks().len() == old_e.tasks().len(),
            self.live(id),
            raw_task_wf(self.task(id)),
            forall|i: int| 0 <= i < self.tasks().len() && i != id ==> #[trigger] self.tasks()[i] == old_e.tasks()[i],
        ensures
            self.wf(),
            (old_e.queue_consistent() && ((old_e.task(id).state == RawTaskState::InQueue) == (self.task(
                id,
            ).state == RawTaskState::InQueue))) ==> self.queue_consistent(),
    {
        assert forall|i: usize| #[trigger] self.live(i) implies raw_task_wf(self.task(i)) by {
            assert(old_e.live(i));
        }
        if old_e.queue_consistent() && ((old_e.task(id).state == RawTaskState::InQueue) == (self.task(
            id,
        ).state == RawTaskState::InQueue)) {
            let q = queued(self.batch(), self.ready());
            assert forall|k: int| 0 <= k < q.len() implies #[trigger] self.live(q[k]) by {
                assert(old_e.live(q[k]));
            }
            assert forall|i: usize| #[trigger] self.live(i) implies (self.task(i).state
                == RawTaskState::InQueue <==> q.contains(i)) by {
                assert(old_e.live(i));
            }
        }
    }

    /// Freeing a task that is not queued keeps every invariant.
    proof fn lemma_after_free(&self, old_e: Self, id: usize)
        requires
            old_e.wf(),
            old_e.live(id),
            self.batch() == old_e.batch(),
            self.ready() == old_e.ready(),
            self.tasks() == old_e.tasks().update(id as int, None),
        ensures
            self.wf(),
            (old_e.queue_consistent() && old_e.task(id).state != RawTaskState::InQueue)
                ==> self.queue_consistent(),
    {
        assert forall|i: usize| #[trigger] self.live(i) implies raw_task_wf(self.task(i)) by {
            assert(old_e.live(i));
        }
        if old_e.queue_consistent() && old_e.task(id).state != RawTaskState::InQueue {
            let q = queued(self.batch(), self.ready());
            assert(!q.contains(id));
            assert forall|k: int| 0 <= k < q.len() implies #[trigger] self.live(q[k]) by {
                assert(old_e.live(q[k]));
                assert(q[k] != id);
            }
            assert forall|i: usize| #[trigger] self.live(i) implies (self.task(i).state
                == RawTaskState::InQueue <==> q.contains(i)) by {
                assert(old_e.live(i));
            }
        }
    }
}

/// The output of a task reaches its join handle exactly once: the poll that
/// finishes the task keeps the output and wakes the handle's waker; the next
/// poll of the handle takes that very output and closes the task, after which
/// the handle may not be polled again.
pub proof fn law_output_joined_once<T>(t: RawTask<T>, out: T, w: u64)
    requires
        raw_task_wf(t),
        t.state == RawTaskState::Running,
        !t.is_join_handle_dropped,
    ensures
        end_poll_woken(t, Poll::Ready(out)) == t.waker,
        joinable(end_poll_next(t, Poll::Ready(out)).state),
        join_poll_result(end_poll_next(t, Poll::Ready(out))) == Poll::Ready(out),
        join_poll_next(end_poll_next(t, Poll::Ready(out)), w).state == RawTaskState::Closed,
        join_poll_next(end_poll_next(t, Poll::Ready(out)), w).output is None,
        !joinable(join_poll_next(end_poll_next(t, Poll::Ready(out)), w).state),
        raw_task_wf(end_poll_next(t, Poll::Ready(out))),
        raw_task_wf(join_poll_next(end_poll_next(t, Poll::Ready(out)), w)),
{
}

/// A join poll of a task that has not finished keeps the joiner's waker, and
/// the poll that later finishes the task (its handle still alive) wakes that
/// very waker.
pub proof fn law_join_waker_kept_until_finish<T>(t: RawTask<T>, w: u64, out: T)
    requires
        raw_task_wf(t),
        t.state == RawTaskState::InQueue || t.state == RawTaskState::Pending,
        !t.is_join_handle_dropped,
    ensures
        join_poll_result(t) is Pending,
        join_poll_next(t, w).waker == Some(w),
        join_poll_next(t, w).state == t.state,
        end_poll_woken(RawTask { state: RawTaskState::Running, ..join_poll_next(t, w) }, Poll::Ready(out))
            == Some(w),
        end_poll_next(RawTask { state: RawTaskState::Running, ..join_poll_next(t, w) }, Poll::Ready(out)).output
            == Some(out),
{
}

/// A task whose join handle is gone is closed when it finishes, its output
/// dropped, and it can be freed as soon as no waker is left.
pub proof fn law_detached_task_closes<T>(t: RawTask<T>, out: T)
    requires
        raw_task_wf(t),
        t.state == RawTaskState::Running,
        t.is_join_handle_dropped,
    ensures
        end_poll_next(t, Poll::Ready(out)).state == RawTaskState::Closed,
        end_poll_next(t, Poll::Ready(out)).output is None,
        end_poll_woken(t, Poll::Ready(out)) is None,
        can_free(end_poll_next(t, Poll::Ready(out))) == (t.waker_refs == 0),
{
}

/// A pending poll only marks the task pending: its output, wakers and join
/// handle are untouched, and a later wake queues it again.
pub proof fn law_pending_task_wakeable<T>(t: RawTask<T>)
    requires
        raw_task_wf(t),
        t.state == RawTaskState::Running,
    ensures
        end_poll_next(t, Poll::Pending) == (RawTask { state: RawTaskState::Pending, ..t }),
        end_poll_woken(t, Poll::<T>::Pending) is None,
        wakeable(end_poll_next(t, Poll::Pending).state),
        end_poll_next(t, Poll::Pending).state != RawTaskState::InQueue,
        !can_free(end_poll_next(t, Poll::Pending)),
{
}

/// The handle through which a task's output is awaited.
pub struct JoinHandle {
    pub id: usize,
}

impl JoinHandle {
    /// Polls the handle: see `Executor::join_poll`.
    pub fn poll<T>(&self, ex: &mut Executor<T>, waker: u64) -> (r: Poll<T>)
        requires
            old(ex).wf(),
            old(ex).live(self.id),
            joinable(old(ex).task(self.id).state),
        ensures
            final(ex).wf(),
            r == join_poll_result(old(ex).task(self.id)),
            final(ex).tasks() == old(ex).tasks().update(
                self.id as int,
                Some(join_poll_next(old(ex).task(self.id), waker)),
            ),
            final(ex).batch() == old(ex).batch(),
            final(ex).ready() == old(ex).ready(),
    {
        ex.join_poll(self.id, waker)
    }

    /// Drops the handle: see `Executor::join_drop`.
    pub fn drop<T>(self, ex: &mut Executor<T>) -> (freed: bool)
        requires
            old(ex).wf(),
            old(ex).live(self.id),
        ensures
            final(ex).wf(),
            freed == can_free(old(ex).task(self.id)),
            freed ==> final(ex).tasks() == old(ex).tasks().update(self.id as int, None),
            !freed ==> final(ex).tasks() == old(ex).tasks().update(
                self.id as int,
                Some(RawTask { is_join_handle_dropped: true, ..old(ex).task(self.id) }),
            ),
            final(ex).batch() == old(ex).batch(),
            final(ex).ready() == old(ex).ready(),
    {
        ex.join_drop(self.id)
    }
}

/// Spawns a task on `ex` and hands back its join handle.
pub fn spwan<T>(ex: &mut Executor<T>) -> (h: JoinHandle)
    requires
        old(ex).wf(),
        old(ex).tasks().len() < usize::MAX,
    ensures
        final(ex).wf(),
        h.id == old(ex).tasks().len(),
        final(ex).live(h.id),
        final(ex).task(h.id).state == RawTaskState::InQueue,
        !final(ex).task(h.id).is_join_handle_dropped,
        final(ex).task(h.id).waker_refs == 0,
        final(ex).task(h.id).waker is None,
        final(ex).task(h.id).output is None,
        final(ex).tasks().len() == old(ex).tasks().len() + 1,
        final(ex).tasks().subrange(0, h.id as int) == old(ex).tasks(),
        final(ex).ready() == old(ex).ready().push(h.id),
        final(ex).batch() == old(ex).batch(),
        old(ex).queue_consistent() ==> final(ex).queue_consistent(),
{
    JoinHandle { id: ex.spawn() }
}

} // verus!
