//! Executors that keep their tasks in a table keyed by task id, and the
//! simplest executor of all, which runs its tasks round robin.
//!
//! `Runtime` hands out task ids from a counter, keeps each task's future under
//! its id until the future finishes, and queues the ids of the tasks that a
//! waker asked to run.  Each task also has a join state, which records that
//! the task finished and the waker of whoever waits for it.
use std::collections::HashMap;
use std::collections::VecDeque;
use vstd::prelude::*;

use crate::Poll;

verus! {

broadcast use vstd::std_specs::hash::group_hash_axioms;

/// Whether a task has finished, and who waits for it.
pub struct JoinHandleInner {
    pub finished: bool,
    pub waker: Option<u64>,
}

impl JoinHandleInner {
    /// The join state of a task that has not finished.
    pub fn new() -> (j: Self)
        ensures
            !j.finished,
            j.waker is None,
    {
        JoinHandleInner { finished: false, waker: None }
    }

    /// Polls the join handle: ready once the task finished, else `waker`
    /// is kept (replacing an earlier one) to be woken then.
    pub fn poll(&mut self, waker: u64) -> (r: Poll<()>)
        ensures
            old(self).finished ==> r is Ready && *final(self) == *old(self),
            !old(self).finished ==> r is Pending && final(self).waker == Some(waker)
                && !final(self).finished,
    {
        if self.finished {
            Poll::Ready(())
        } else {
            self.waker = Some(waker);
            Poll::Pending
        }
    }

    /// Marks the task finished and hands back the waker to wake, if any.
    pub fn finish(&mut self) -> (woken: Option<u64>)
        ensures
            final(self).finished,
            final(self).waker is None,
            woken == old(self).waker,
    {
        self.finished = true;
        self.waker.take()
    }
}

/// A table of tasks keyed by id, with a queue of ids to run.
pub struct Runtime<F> {
    next_id: u64,
    all_tasks: HashMap<u64, F>,
    joins: Vec<JoinHandleInner>,
    ready: VecDeque<u64>,
    new_ready: bool,
}

impl<F> Runtime<F> {
    /// The next id to hand out.
    pub closed spec fn next_id(&self) -> u64 {
        self.next_id
    }

    /// The futures of the tasks that have not finished, by id.
    pub closed spec fn tasks(&self) -> Map<u64, F> {
        self.all_tasks@
    }

    /// The join state of every task spawned so far, by id.
    pub closed spec fn joins(&self) -> Seq<JoinHandleInner> {
        self.joins@
    }

    /// The ids waiting to run.
    pub closed spec fn ready(&self) -> Seq<u64> {
        self.ready@
    }

    /// Whether a wake arrived since the current round began.
    pub closed spec fn new_ready(&self) -> bool {
        self.new_ready
    }

    /// Ids come from the counter: every task's id is below it, and every id
    /// below it has a join state.
    pub open spec fn wf(&self) -> bool {
        &&& self.joins().len() == self.next_id()
        &&& self.tasks().dom().finite()
        &&& forall|id: u64| #[trigger] self.tasks().contains_key(id) ==> id < self.next_id()
    }

    /// Between polls, a task is in the table exactly while its join state
    /// says it has not finished.
    pub open spec fn settled(&self) -> bool {
        forall|id: u64|
            #![trigger self.tasks().contains_key(id)]
            #![trigger self.joins()[id as int]]
            id < self.next_id() ==> {
                &&& (self.tasks().contains_key(id) <==> !self.joins()[id as int].finished)
                &&& (self.joins()[id as int].finished ==> self.joins()[id as int].waker is None)
            }
    }

    /// During the poll of task `k`: `k` is out of the table but not finished,
    /// and every other task is settled.
    pub open spec fn settled_except(&self, k: u64) -> bool {
        &&& k < self.next_id()
        &&& !self.tasks().contains_key(k)
        &&& !self.joins()[k as int].finished
        &&& forall|id: u64|
            #![trigger self.tasks().contains_key(id)]
            #![trigger self.joins()[id as int]]
            id < self.next_id() && id != k ==> {
                &&& (self.tasks().contains_key(id) <==> !self.joins()[id as int].finished)
                &&& (self.joins()[id as int].finished ==> self.joins()[id as int].waker is None)
            }
    }

    /// The id bound carries over to a runtime with the same tasks.
    proof fn lemma_same_tasks(&self, old_rt: Self)
        requires
            old_rt.wf(),
            self.all_tasks@ == old_rt.all_tasks@,
            self.next_id == old_rt.next_id,
            self.joins@.len() == old_rt.joins@.len(),
        ensures
            self.wf(),
    {
        assert forall|k: u64| #[trigger] self.tasks().contains_key(k) implies k < self.next_id() by {
            assert(old_rt.tasks().contains_key(k));
        }
    }

    /// A runtime with no task.
    pub fn new() -> (rt: Self)
        ensures
            rt.wf(),
            rt.next_id() == 0,
            rt.tasks() == Map::<u64, F>::empty(),
            rt.ready() == Seq::<u64>::empty(),
            !rt.new_ready(),
            rt.settled(),
    {
        Runtime {
            next_id: 0,
            all_tasks: HashMap::new(),
            joins: Vec::new(),
            ready: VecDeque::new(),
            new_ready: false,
        }
    }

    /// Spawns a task: it takes the next id, is stored under it with a fresh
    /// join state, and its id is queued to run.
    pub fn spwan(&mut self, future: F) -> (id: u64)
        requires
            old(self).wf(),
            old(self).next_id() < u64::MAX,
        ensures
            final(self).wf(),
            id == old(self).next_id(),
            final(self).next_id() == old(self).next_id() + 1,
            !old(self).tasks().contains_key(id),
            final(self).tasks() == old(self).tasks().insert(id, future),
            final(self).joins() == old(self).joins().push(JoinHandleInner { finished: false, waker: None }),
            final(self).ready() == old(self).ready().push(id),
            final(self).new_ready() == old(self).new_ready(),
            final(self).tasks().len() == old(self).tasks().len() + 1,
            old(self).settled() ==> final(self).settled(),
    {
        let id = self.next_id;
        self.next_id = self.next_id + 1;
        self.all_tasks.insert(id, future);
        self.joins.push(JoinHandleInner::new());
        self.ready.push_back(id);
        proof {
            assert forall|k: u64| #[trigger] self.tasks().contains_key(k) implies k < self.next_id() by {
                if k != id {
                    assert(old(self).tasks().contains_key(k));
                }
            }
            assert(self.tasks().dom() == old(self).tasks().dom().insert(id));
            if old(self).settled() {
                assert forall|k: u64| k < self.next_id() implies (#[trigger] self.tasks().contains_key(k)
                    <==> !self.joins()[k as int].finished) by {
                    if k != id {
                        assert(self.joins()[k as int] == old(self).joins()[k as int]);
                        assert(old(self).tasks().contains_key(k) <==> !old(self).joins()[k as int].finished);
                    }
                }
            }
        }
        id
    }

    /// What a waker of task `id` does: the id is queued to run and the round
    /// is told that a wake arrived.
    pub fn wake(&mut self, id: u64)
        requires
            old(self).wf(),
        ensures
            final(self).wf(),
            final(self).ready() == old(self).ready().push(id),
            final(self).new_ready(),
            final(self).tasks() == old(self).tasks(),
            final(self).joins() == old(self).joins(),
            final(self).next_id() == old(self).next_id(),
            old(self).settled() ==> final(self).settled(),
    {
        self.ready.push_back(id);
        self.new_ready = true;
        proof {
            self.lemma_same_tasks(*old(self));
        }
    }

    /// Whether every task has finished.
    pub fn is_done(&self) -> (b: bool)
        ensures
            b == (self.tasks().len() == 0),
    {
        self.all_tasks.len() == 0
    }

    /// Starts a round: the ids queued so far are handed out, in order, and
    /// the wake flag is cleared.
    pub fn begin_round(&mut self) -> (ids: VecDeque<u64>)
        requires
            old(self).wf(),
        ensures
            final(self).wf(),
            ids@ == old(self).ready(),
            final(self).ready() == Seq::<u64>::empty(),
            !final(self).new_ready(),
            final(self).tasks() == old(self).tasks(),
            final(self).joins() == old(self).joins(),
            final(self).next_id() == old(self).next_id(),
            old(self).settled() ==> final(self).settled(),
    {
        self.new_ready = false;
        let mut ids: VecDeque<u64> = VecDeque::new();
        std::mem::swap(&mut ids, &mut self.ready);
        proof {
            self.lemma_same_tasks(*old(self));
        }
        ids
    }

    /// Whether task `id` is in the table, that is spawned and not finished.
    pub fn has_task(&self, id: u64) -> (b: bool)
        ensures
            b == self.tasks().contains_key(id),
    {
        self.all_tasks.contains_key(&id)
    }

    /// Takes the future of task `id` out of the table to poll it.
    pub fn take_task(&mut self, id: u64) -> (future: F)
        requires
            old(self).wf(),
            old(self).tasks().contains_key(id),
        ensures
            final(self).wf(),
            future == old(self).tasks()[id],
            final(self).tasks() == old(self).tasks().remove(id),
            final(self).joins() == old(self).joins(),
            final(self).ready() == old(self).ready(),
            final(self).new_ready() == old(self).new_ready(),
            final(self).next_id() == old(self).next_id(),
            old(self).settled() ==> final(self).settled_except(id),
    {
        let f = self.all_tasks.remove(&id).unwrap();
        proof {
            assert forall|k: u64| #[trigger] self.tasks().contains_key(k) implies k < self.next_id() by {
                assert(old(self).tasks().contains_key(k));
            }
            if old(self).settled() {
                assert(old(self).tasks().contains_key(id));
                assert(!self.joins()[id as int].finished);
                assert forall|k: u64| k < self.next_id() && k != id implies (#[trigger] self.tasks().contains_key(k)
                    <==> !self.joins()[k as int].finished) by {
                    assert(old(self).tasks().contains_key(k) <==> !old(self).joins()[k as int].finished);
                }
            }
        }
        f
    }

    /// Records what the poll of task `id` gave: a pending future goes back
    /// into the table; a finished task is marked so in its join state, whose
    /// waker is handed back to be woken.
    pub fn end_poll(&mut self, id: u64, future: F, outcome: Poll<()>) -> (woken: Option<u64>)
        requires
            old(self).wf(),
            id < old(self).next_id(),
            !old(self).tasks().contains_key(id),
        ensures
            old(self).settled_except(id) ==> final(self).settled(),
            final(self).wf(),
            final(self).ready() == old(self).ready(),
            final(self).new_ready() == old(self).new_ready(),
            final(self).next_id() == old(self).next_id(),
            outcome is Pending ==> final(self).tasks() == old(self).tasks().insert(id, future)
                && final(self).joins() == old(self).joins() && woken is None,
            outcome is Ready ==> final(self).tasks() == old(self).tasks()
                && final(self).joins() == old(self).joins().update(
                id as int,
                JoinHandleInner { finished: true, waker: None },
            ) && woken == old(self).joins()[id as int].waker,
    {
        match outcome {
            Poll::Pending => {
                self.all_tasks.insert(id, future);
                proof {
                    assert forall|k: u64| #[trigger] self.tasks().contains_key(k) implies k < self.next_id() by {
                        if k != id {
                            assert(old(self).tasks().contains_key(k));
                        }
                    }
                    if old(self).settled_except(id) {
                        assert forall|k: u64| k < self.next_id() implies (#[trigger] self.tasks().contains_key(k)
                            <==> !self.joins()[k as int].finished) by {
                            if k != id {
                                assert(old(self).tasks().contains_key(k) <==> !old(self).joins()[k as int].finished);
                            }
                        }
                    }
                }
                None
            },
            Poll::Ready(()) => {
                let n = self.joins.len();
                assert(id < n);
                let idx = id as usize;
                let mut j = JoinHandleInner::new();
                std::mem::swap(&mut j, &mut self.joins[idx]);
                let woken = j.finish();
                self.joins.set(idx, j);
                proof {
                    assert(self.joins@ =~= old(self).joins@.update(
                        id as int,
                        JoinHandleInner { finished: true, waker: None },
                    ));
                    self.lemma_same_tasks(*old(self));
                    if old(self).settled_except(id) {
                        assert forall|k: u64| k < self.next_id() implies (#[trigger] self.tasks().contains_key(k)
                            <==> !self.joins()[k as int].finished) by {
                            if k != id {
                                assert(self.joins()[k as int] == old(self).joins()[k as int]);
                                assert(old(self).tasks().contains_key(k) <==> !old(self).joins()[k as int].finished);
                            }
                        }
                    }
                }
                woken
            },
        }
    }

    /// Polls the join handle of task `id`.
    pub fn join_poll(&mut self, id: u64, waker: u64) -> (r: Poll<()>)
        requires
            old(self).wf(),
            id < old(self).next_id(),
        ensures
            old(self).settled() ==> final(self).settled(),
            final(self).wf(),
            final(self).tasks() == old(self).tasks(),
            final(self).ready() == old(self).ready(),
            final(self).next_id() == old(self).next_id(),
            final(self).new_ready() == old(self).new_ready(),
            old(self).joins()[id as int].finished ==> r is Ready && final(self).joins() == old(
                self,
            ).joins(),
            !old(self).joins()[id as int].finished ==> r is Pending && final(self).joins() == old(
                self,
            ).joins().update(id as int, JoinHandleInner { finished: false, waker: Some(waker) }),
    {
        let n = self.joins.len();
        assert(id < n);
        let idx = id as usize;
        let mut j = JoinHandleInner::new();
        std::mem::swap(&mut j, &mut self.joins[idx]);
        let r = j.poll(waker);
        self.joins.set(idx, j);
        proof {
            self.lemma_same_tasks(*old(self));
            if old(self).joins@[id as int].finished {
                assert(self.joins@[id as int] == old(self).joins@[id as int]);
                assert(self.joins@ =~= old(self).joins@);
            } else {
                assert(self.joins@ =~= old(self).joins@.update(
                    id as int,
                    JoinHandleInner { finished: false, waker: Some(waker) },
                ));
            }
        }
        r
    }

    /// Whether the round should end by sleeping, and for how long: only
    /// while a timer is pending and no wake arrived during the round.
    pub fn sleep_for(&self, timer_wait: Option<u64>) -> (d: Option<u64>)
        ensures
            d == (match timer_wait {
                Some(t) => if self.new_ready() {
                    None
                } else {
                    Some(t)
                },
                None => None,
            }),
    {
        match timer_wait {
            Some(t) => if self.new_ready {
                None
            } else {
                Some(t)
            },
            None => None,
        }
    }
}

/// A finished task is never taken again: once its join state says finished,
/// its id is out of the table, so `take_task` cannot be called on it, and no
/// waker of its join handle is left to wake.
pub proof fn law_finished_task_never_taken<F>(rt: Runtime<F>, id: u64)
    requires
        rt.wf(),
        rt.settled(),
        id < rt.next_id(),
        rt.joins()[id as int].finished,
    ensures
        !rt.tasks().contains_key(id),
        rt.joins()[id as int].waker is None,
{
}

/// Every runtime operation between polls keeps the runtime settled, and the
/// poll of a task (taking it out, then recording the outcome) brings it back
/// to settled: so in every run a finished task stays out of the table.
pub proof fn law_settled_is_kept<F>(before: Runtime<F>, during: Runtime<F>, after: Runtime<F>, id: u64)
    requires
        before.wf(),
        before.settled(),
        before.tasks().contains_key(id),
        during.next_id() == before.next_id(),
        during.joins() == before.joins(),
        during.tasks() == before.tasks().remove(id),
        after.next_id() == during.next_id(),
        (after.tasks() == during.tasks().insert(id, before.tasks()[id]) && after.joins() == during.joins())
            || (after.tasks() == during.tasks() && after.joins() == during.joins().update(
            id as int,
            JoinHandleInner { finished: true, waker: None },
        )),
    ensures
        during.settled_except(id),
        after.settled(),
{
    assert(id < before.next_id());
    assert forall|k: u64| k < during.next_id() && k != id implies {
        &&& (#[trigger] during.tasks().contains_key(k) <==> !during.joins()[k as int].finished)
        &&& (during.joins()[k as int].finished ==> during.joins()[k as int].waker is None)
    } by {
        assert(before.tasks().contains_key(k) <==> !before.joins()[k as int].finished);
    }
    assert forall|k: u64| k < after.next_id() implies {
        &&& (#[trigger] after.tasks().contains_key(k) <==> !after.joins()[k as int].finished)
        &&& (after.joins()[k as int].finished ==> after.joins()[k as int].waker is None)
    } by {
        if k != id {
            assert(before.tasks().contains_key(k) <==> !before.joins()[k as int].finished);
            assert(after.joins()[k as int] == before.joins()[k as int]);
        }
    }
}

/// A run ends only with every task finished: when the table is empty
/// between polls, the join state of every task ever spawned says finished,
/// and the waker last stored in it has been handed out and cleared.
pub proof fn law_done_run_all_joined<F>(rt: Runtime<F>)
    requires
        rt.wf(),
        rt.settled(),
        rt.tasks().len() == 0,
    ensures
        forall|id: u64| id < rt.next_id() ==> #[trigger] rt.joins()[id as int].finished,
        forall|id: u64| id < rt.next_id() ==> #[trigger] rt.joins()[id as int].waker is None,
{
    assert forall|id: u64| id < rt.next_id() implies #[trigger] rt.joins()[id as int].finished
        && rt.joins()[id as int].waker is None by {
        if rt.tasks().contains_key(id) {
            assert(rt.tasks().dom().remove(id).len() == rt.tasks().dom().len() - 1);
        }
    }
}

/// An executor that polls its tasks in turn until each has finished.
pub struct RoundRobin<F> {
    tasks: VecDeque<F>,
}

impl<F> RoundRobin<F> {
    /// The tasks in the order they will be polled.
    pub closed spec fn tasks(&self) -> Seq<F> {
        self.tasks@
    }

    /// An executor with no task.
    pub fn new() -> (rt: Self)
        ensures
            rt.tasks() == Seq::<F>::empty(),
    {
        RoundRobin { tasks: VecDeque::new() }
    }

    /// Spawns a task at the back of the line.
    pub fn spwan(&mut self, future: F)
        ensures
            final(self).tasks() == old(self).tasks().push(future),
    {
        self.tasks.push_back(future);
    }

    /// The task at the front of the line, taken out to be polled; `None`
    /// when every task has finished.
    pub fn next(&mut self) -> (f: Option<F>)
        ensures
            old(self).tasks().len() == 0 ==> f is None && final(self).tasks() == old(self).tasks(),
            old(self).tasks().len() > 0 ==> f == Some(old(self).tasks()[0]) && final(self).tasks()
                == old(self).tasks().drop_first(),
    {
        let f = self.tasks.pop_front();
        proof {
            if old(self).tasks@.len() > 0 {
                assert(self.tasks@ =~= old(self).tasks@.drop_first());
            }
        }
        f
    }

    /// Records the poll of a task taken by `next`: a pending task goes to
    /// the back of the line; a finished one is gone.
    pub fn end_poll<T>(&mut self, future: F, outcome: Poll<T>)
        ensures
            outcome is Pending ==> final(self).tasks() == old(self).tasks().push(future),
            outcome is Ready ==> final(self).tasks() == old(self).tasks(),
    {
        match outcome {
            Poll::Pending => self.tasks.push_back(future),
            Poll::Ready(_) => {},
        }
    }
}

} // verus!
