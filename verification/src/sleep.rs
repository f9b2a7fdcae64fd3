//! Sleep futures and the queue of sleepers they wait in.
//!
//! A pending sleep adds its wake time and waker to the queue; a poll of the
//! queue wakes every sleeper whose time has come, earliest first, and tells
//! how long to wait for the next one.  Times are counted in ticks.
use vstd::prelude::*;

use crate::Poll;

verus! {

/// A waiting sleeper: its wake time and its waker.
#[derive(Clone, Copy)]
pub struct SleepWaker {
    pub wake_time: u64,
    pub waker: u64,
}

/// The sleepers are ordered by wake time, earliest first.
pub open spec fn sorted_sleepers(s: Seq<SleepWaker>) -> bool {
    forall|i: int, j: int| 0 <= i < j < s.len() ==> #[trigger] s[i].wake_time <= #[trigger] s[j].wake_time
}

/// The sleepers after adding `e`: after every sleeper that wakes no later.
pub open spec fn sleeper_insert(s: Seq<SleepWaker>, e: SleepWaker) -> Seq<SleepWaker>
    decreases s.len(),
{
    if s.len() == 0 {
        seq![e]
    } else if e.wake_time < s[0].wake_time {
        seq![e] + s
    } else {
        seq![s[0]] + sleeper_insert(s.drop_first(), e)
    }
}

/// How many sleepers, from the front, are due at `now`.
pub open spec fn due_count(s: Seq<SleepWaker>, now: u64) -> nat
    decreases s.len(),
{
    if s.len() == 0 || s[0].wake_time > now {
        0
    } else {
        1 + due_count(s.drop_first(), now)
    }
}

/// The wakers of a run of sleepers, in order.
pub open spec fn sleeper_wakers(s: Seq<SleepWaker>) -> Seq<u64> {
    s.map_values(|e: SleepWaker| e.waker)
}

/// The time until the first sleeper that is not due, if any.
pub open spec fn sleep_wait(s: Seq<SleepWaker>, now: u64) -> Option<u64> {
    let n = due_count(s, now);
    if n < s.len() {
        Some((s[n as int].wake_time - now) as u64)
    } else {
        None
    }
}

/// The queue of waiting sleepers.
pub struct SleepQueue {
    sleepers: Vec<SleepWaker>,
}

impl SleepQueue {
    /// The waiting sleepers, earliest first.
    pub closed spec fn sleepers(&self) -> Seq<SleepWaker> {
        self.sleepers@
    }

    /// The queue is ordered by wake time.
    pub open spec fn wf(&self) -> bool {
        sorted_sleepers(self.sleepers())
    }

    /// An empty queue.
    pub fn new() -> (q: Self)
        ensures
            q.wf(),
            q.sleepers() == Seq::<SleepWaker>::empty(),
    {
        SleepQueue { sleepers: Vec::new() }
    }

    /// Number of waiting sleepers.
    pub fn len(&self) -> (n: usize)
        ensures
            n == self.sleepers().len(),
    {
        self.sleepers.len()
    }

    /// Adds a sleeper.
    pub fn push(&mut self, e: SleepWaker)
        requires
            old(self).wf(),
        ensures
            final(self).wf(),
            final(self).sleepers() == sleeper_insert(old(self).sleepers(), e),
    {
        let mut i: usize = 0;
        while i < self.sleepers.len() && self.sleepers[i].wake_time <= e.wake_time
            invariant
                i <= self.sleepers@.len(),
                self.sleepers@ == old(self).sleepers@,
                forall|j: int| 0 <= j < i ==> #[trigger] self.sleepers@[j].wake_time <= e.wake_time,
            decreases self.sleepers@.len() - i,
        {
            i = i + 1;
        }
        proof {
            lemma_sleeper_insert_at(self.sleepers@, e, i as int);
        }
        self.sleepers.insert(i, e);
        proof {
            let s = old(self).sleepers@;
            let r = self.sleepers@;
            assert forall|a: int, b: int| 0 <= a < b < r.len() implies #[trigger] r[a].wake_time
                <= #[trigger] r[b].wake_time by {
                if a < i && b > i {
                    assert(r[a] == s[a]);
                    assert(r[b] == s[b - 1]);
                } else if a < i && b < i {
                    assert(r[a] == s[a]);
                    assert(r[b] == s[b]);
                } else if a > i {
                    assert(r[a] == s[a - 1]);
                    assert(r[b] == s[b - 1]);
                } else if a == i {
                    assert(r[b] == s[b - 1]);
                } else {
                    assert(r[a] == s[a]);
                }
            }
        }
    }

    /// Wakes every sleeper due at `now`, earliest first: they leave the queue
    /// and their wakers are returned in that order.  Also returns the time
    /// until the next sleeper is due, or `None` when none is left.
    pub fn timer_poll(&mut self, now: u64) -> (r: (Vec<u64>, Option<u64>))
        requires
            old(self).wf(),
        ensures
            final(self).wf(),
            r.0@ == sleeper_wakers(old(self).sleepers().take(due_count(old(self).sleepers(), now) as int)),
            final(self).sleepers() == old(self).sleepers().skip(due_count(old(self).sleepers(), now) as int),
            r.1 == sleep_wait(old(self).sleepers(), now),
    {
        let ghost s0 = self.sleepers@;
        proof {
            lemma_due_prefix(s0, now);
        }
        let mut woken: Vec<u64> = Vec::new();
        let mut n: usize = 0;
        while n < self.sleepers.len() && self.sleepers[n].wake_time <= now
            invariant
                self.sleepers@ == s0,
                n <= due_count(s0, now),
                woken@ == sleeper_wakers(s0.take(n as int)),
                due_count(s0, now) <= s0.len(),
                forall|j: int| 0 <= j < due_count(s0, now) ==> #[trigger] s0[j].wake_time <= now,
                due_count(s0, now) < s0.len() ==> s0[due_count(s0, now) as int].wake_time > now,
            decreases s0.len() - n,
        {
            woken.push(self.sleepers[n].waker);
            n = n + 1;
            proof {
                assert(sleeper_wakers(s0.take(n as int)) =~= sleeper_wakers(s0.take(n - 1)).push(
                    s0[n - 1].waker,
                ));
            }
        }
        let wait = if n < self.sleepers.len() {
            Some(self.sleepers[n].wake_time - now)
        } else {
            None
        };
        let mut rest: Vec<SleepWaker> = Vec::new();
        let mut k: usize = n;
        while k < self.sleepers.len()
            invariant
                self.sleepers@ == s0,
                n <= k <= s0.len(),
                rest@ == s0.subrange(n as int, k as int),
            decreases s0.len() - k,
        {
            rest.push(self.sleepers[k]);
            k = k + 1;
            proof {
                assert(rest@ =~= s0.subrange(n as int, k as int));
            }
        }
        self.sleepers = rest;
        proof {
            assert(self.sleepers@ =~= s0.skip(n as int));
            assert forall|a: int, b: int| 0 <= a < b < self.sleepers@.len() implies #[trigger] self.sleepers@[a].wake_time
                <= #[trigger] self.sleepers@[b].wake_time by {
                assert(self.sleepers@[a] == s0[n + a]);
                assert(self.sleepers@[b] == s0[n + b]);
            }
        }
        (woken, wait)
    }
}

/// `sleeper_insert` at the place where a search loop stopped.
proof fn lemma_sleeper_insert_at(s: Seq<SleepWaker>, e: SleepWaker, i: int)
    requires
        sorted_sleepers(s),
        0 <= i <= s.len(),
        forall|j: int| 0 <= j < i ==> #[trigger] s[j].wake_time <= e.wake_time,
        i < s.len() ==> s[i].wake_time > e.wake_time,
    ensures
        sleeper_insert(s, e) == s.insert(i, e),
    decreases s.len(),
{
    if s.len() == 0 {
        assert(s.insert(i, e) =~= seq![e]);
    } else if i == 0 {
        assert(s.insert(0, e) =~= seq![e] + s);
    } else {
        let t = s.drop_first();
        assert forall|j: int| 0 <= j < i - 1 implies #[trigger] t[j].wake_time <= e.wake_time by {
            assert(t[j] == s[j + 1]);
        }
        assert(sorted_sleepers(t)) by {
            assert forall|a: int, b: int| 0 <= a < b < t.len() implies #[trigger] t[a].wake_time
                <= #[trigger] t[b].wake_time by {
                assert(t[a] == s[a + 1]);
                assert(t[b] == s[b + 1]);
            }
        }
        lemma_sleeper_insert_at(t, e, i - 1);
        assert(s[0].wake_time <= e.wake_time);
        assert(seq![s[0]] + t.insert(i - 1, e) =~= s.insert(i, e));
    }
}

/// The due sleepers form a prefix of the queue.
proof fn lemma_due_prefix(s: Seq<SleepWaker>, now: u64)
    requires
        sorted_sleepers(s),
    ensures
        due_count(s, now) <= s.len(),
        forall|j: int| 0 <= j < due_count(s, now) ==> #[trigger] s[j].wake_time <= now,
        due_count(s, now) < s.len() ==> s[due_count(s, now) as int].wake_time > now,
        forall|j: int| due_count(s, now) <= j < s.len() ==> #[trigger] s[j].wake_time > now,
    decreases s.len(),
{
    if s.len() > 0 && s[0].wake_time <= now {
        let t = s.drop_first();
        assert(sorted_sleepers(t)) by {
            assert forall|a: int, b: int| 0 <= a < b < t.len() implies #[trigger] t[a].wake_time
                <= #[trigger] t[b].wake_time by {
                assert(t[a] == s[a + 1]);
                assert(t[b] == s[b + 1]);
            }
        }
        lemma_due_prefix(t, now);
        assert forall|j: int| 0 <= j < due_count(s, now) implies #[trigger] s[j].wake_time <= now by {
            if j > 0 {
                assert(s[j] == t[j - 1]);
            }
        }
        assert forall|j: int| due_count(s, now) <= j < s.len() implies #[trigger] s[j].wake_time > now by {
            assert(s[j] == t[j - 1]);
        }
        if due_count(s, now) < s.len() {
            assert(s[due_count(s, now) as int] == t[due_count(t, now) as int]);
        }
    } else if s.len() > 0 {
        assert forall|j: int| 0 <= j < s.len() implies #[trigger] s[j].wake_time > now by {
            if j > 0 {
                assert(s[0].wake_time <= s[j].wake_time);
            }
        }
    }
}

/// A sleep that ends at `wake_time`.
pub struct SleepFuture {
    pub wake_time: u64,
}

/// A sleep of `d` ticks from `now`.
pub fn sleep_inner(now: u64, d: u64) -> (f: SleepFuture)
    requires
        now + d <= u64::MAX,
    ensures
        f.wake_time == now + d,
{
    SleepFuture { wake_time: now + d }
}

impl SleepFuture {
    /// Polls the sleep at time `now`: ready once its time has come, else it
    /// waits in the queue with `waker`.
    pub fn poll(&self, q: &mut SleepQueue, now: u64, waker: u64) -> (r: Poll<()>)
        requires
            old(q).wf(),
        ensures
            final(q).wf(),
            now >= self.wake_time ==> r is Ready && final(q).sleepers() == old(q).sleepers(),
            now < self.wake_time ==> r is Pending && final(q).sleepers() == sleeper_insert(
                old(q).sleepers(),
                SleepWaker { wake_time: self.wake_time, waker },
            ),
    {
        if now >= self.wake_time {
            Poll::Ready(())
        } else {
            q.push(SleepWaker { wake_time: self.wake_time, waker });
            Poll::Pending
        }
    }
}

/// A sleep that counts the polls that found it not yet due.
pub struct CountingSleep {
    pub wake_time: u64,
    pub poll_cnt: usize,
}

/// A counting sleep of `d` ticks from `now`.
pub fn sleep(now: u64, d: u64) -> (f: CountingSleep)
    requires
        now + d <= u64::MAX,
    ensures
        f.wake_time == now + d,
        f.poll_cnt == 0,
{
    CountingSleep { wake_time: now + d, poll_cnt: 0 }
}

impl CountingSleep {
    /// Polls the sleep at time `now` without registering anywhere: once due
    /// it gives the number of polls that came too early; before, it counts
    /// this one.
    pub fn poll(&mut self, now: u64) -> (r: Poll<usize>)
        requires
            now >= old(self).wake_time || old(self).poll_cnt < usize::MAX,
        ensures
            final(self).wake_time == old(self).wake_time,
            now >= old(self).wake_time ==> r == Poll::Ready(old(self).poll_cnt) && final(self).poll_cnt
                == old(self).poll_cnt,
            now < old(self).wake_time ==> r is Pending && final(self).poll_cnt == old(self).poll_cnt + 1,
    {
        if now >= self.wake_time {
            Poll::Ready(self.poll_cnt)
        } else {
            self.poll_cnt = self.poll_cnt + 1;
            Poll::Pending
        }
    }

    /// Like `poll`, and a pending poll also waits in the queue with `waker`.
    pub fn poll_registered(&mut self, q: &mut SleepQueue, now: u64, waker: u64) -> (r: Poll<usize>)
        requires
            old(q).wf(),
            now >= old(self).wake_time || old(self).poll_cnt < usize::MAX,
        ensures
            final(q).wf(),
            final(self).wake_time == old(self).wake_time,
            now >= old(self).wake_time ==> r == Poll::Ready(old(self).poll_cnt) && final(self).poll_cnt
                == old(self).poll_cnt && final(q).sleepers() == old(q).sleepers(),
            now < old(self).wake_time ==> r is Pending && final(self).poll_cnt == old(self).poll_cnt + 1
                && final(q).sleepers() == sleeper_insert(
                old(q).sleepers(),
                SleepWaker { wake_time: old(self).wake_time, waker },
            ),
    {
        let r = self.poll(now);
        match r {
            Poll::Pending => q.push(SleepWaker { wake_time: self.wake_time, waker }),
            Poll::Ready(_) => {},
        }
        r
    }
}

/// A poll of the queue wakes exactly the sleepers that are due: those it
/// wakes are due, those it leaves are not, and the wait it reports is the
/// positive time until the earliest sleeper left.
pub proof fn law_timer_poll_wakes_exactly_due(s: Seq<SleepWaker>, now: u64)
    requires
        sorted_sleepers(s),
    ensures
        forall|j: int| 0 <= j < due_count(s, now) ==> #[trigger] s[j].wake_time <= now,
        forall|j: int| due_count(s, now) <= j < s.len() ==> #[trigger] s[j].wake_time > now,
        sleep_wait(s, now) is Some ==> sleep_wait(s, now)->0 > 0,
        sleep_wait(s, now) is None <==> due_count(s, now) == s.len(),
{
    lemma_due_prefix(s, now);
}

/// The wait that a poll of the queue reports is the time until the earliest
/// sleeper left: some sleeper that is not due wakes exactly then, and none
/// wakes before.  No wait is reported exactly when every sleeper is due.
pub proof fn law_timer_poll_waits_for_earliest_left(s: Seq<SleepWaker>, now: u64)
    requires
        sorted_sleepers(s),
    ensures
        sleep_wait(s, now) matches Some(w) ==> {
            &&& exists|j: int| 0 <= j < s.len() && #[trigger] s[j].wake_time > now && s[j].wake_time == now + w
            &&& forall|j: int| 0 <= j < s.len() && #[trigger] s[j].wake_time > now ==> s[j].wake_time >= now + w
        },
        sleep_wait(s, now) is None ==> forall|j: int| 0 <= j < s.len() ==> #[trigger] s[j].wake_time <= now,
{
    lemma_due_prefix(s, now);
    let n = due_count(s, now);
    if n < s.len() {
        let w = (s[n as int].wake_time - now) as u64;
        assert(s[n as int].wake_time > now && s[n as int].wake_time == now + w);
        assert forall|j: int| 0 <= j < s.len() && #[trigger] s[j].wake_time > now implies s[j].wake_time >= now + w by {
            if j > n {
                assert(s[n as int].wake_time <= s[j].wake_time);
            }
        }
    }
}

/// A sleep that went pending at some time is woken by the first poll of the
/// queue at or after its wake time.
pub proof fn law_pending_sleep_is_woken(s: Seq<SleepWaker>, e: SleepWaker, now: u64)
    requires
        sorted_sleepers(s),
        e.wake_time <= now,
    ensures
        sleeper_wakers(sleeper_insert(s, e).take(due_count(sleeper_insert(s, e), now) as int)).contains(e.waker),
{
    lemma_insert_position(s, e);
    let j = choose|j: int| 0 <= j < sleeper_insert(s, e).len() && #[trigger] sleeper_insert(s, e)[j] == e;
    let r = sleeper_insert(s, e);
    lemma_insert_sorted(s, e);
    lemma_due_prefix(r, now);
    assert(j < due_count(r, now));
    assert(sleeper_wakers(r.take(due_count(r, now) as int))[j] == e.waker);
}

/// The added sleeper is in the queue.
proof fn lemma_insert_position(s: Seq<SleepWaker>, e: SleepWaker)
    ensures
        exists|j: int| 0 <= j < sleeper_insert(s, e).len() && #[trigger] sleeper_insert(s, e)[j] == e,
    decreases s.len(),
{
    let r = sleeper_insert(s, e);
    if s.len() == 0 || e.wake_time < s[0].wake_time {
        assert(r[0] == e);
    } else {
        let t = s.drop_first();
        lemma_insert_position(t, e);
        let j = choose|j: int| 0 <= j < sleeper_insert(t, e).len() && #[trigger] sleeper_insert(t, e)[j] == e;
        assert(r[j + 1] == e);
    }
}

/// Adding a sleeper keeps the queue ordered.
pub proof fn lemma_insert_sorted(s: Seq<SleepWaker>, e: SleepWaker)
    requires
        sorted_sleepers(s),
    ensures
        sorted_sleepers(sleeper_insert(s, e)),
        sleeper_insert(s, e).len() == s.len() + 1,
{
    let k = choose_insert_index(s, e);
    lemma_sleeper_insert_at(s, e, k);
    let r = s.insert(k, e);
    assert forall|a: int, b: int| 0 <= a < b < r.len() implies #[trigger] r[a].wake_time
        <= #[trigger] r[b].wake_time by {
        if a < k && b > k {
            assert(r[a] == s[a]);
            assert(r[b] == s[b - 1]);
        } else if a < k && b < k {
            assert(r[a] == s[a]);
            assert(r[b] == s[b]);
        } else if a > k {
            assert(r[a] == s[a - 1]);
            assert(r[b] == s[b - 1]);
        } else if a == k {
            assert(r[b] == s[b - 1]);
        } else {
            assert(r[a] == s[a]);
        }
    }
}

/// The index at which `sleeper_insert` places a new sleeper.
proof fn choose_insert_index(s: Seq<SleepWaker>, e: SleepWaker) -> (k: int)
    requires
        sorted_sleepers(s),
    ensures
        0 <= k <= s.len(),
        forall|j: int| 0 <= j < k ==> #[trigger] s[j].wake_time <= e.wake_time,
        k < s.len() ==> s[k].wake_time > e.wake_time,
    decreases s.len(),
{
    if s.len() == 0 || e.wake_time < s[0].wake_time {
        0
    } else {
        let t = s.drop_first();
        assert(sorted_sleepers(t)) by {
            assert forall|a: int, b: int| 0 <= a < b < t.len() implies #[trigger] t[a].wake_time
                <= #[trigger] t[b].wake_time by {
                assert(t[a] == s[a + 1]);
                assert(t[b] == s[b + 1]);
            }
        }
        let k = choose_insert_index(t, e);
        assert forall|j: int| 0 <= j < k + 1 implies #[trigger] s[j].wake_time <= e.wake_time by {
            if j > 0 {
                assert(s[j] == t[j - 1]);
            }
        }
        k + 1
    }
}

} // verus!
