//! Timers keyed by their deadline and a sequence number.
//!
//! The queue holds one entry per registered timer, ordered by
//! `(at, seq)`; `seq` comes from a counter that only grows, so two timers
//! with the same deadline are told apart and fire in the order they were
//! registered.  Deadlines and the current time are counted in ticks.
use vstd::prelude::*;

use crate::Poll;

verus! {

/// A registered timer: its deadline, its sequence number and its waker.
#[derive(Clone, Copy)]
pub struct TimerEntry {
    pub at: u64,
    pub seq: u64,
    pub waker: u64,
}

/// Strict order of timer keys: by deadline, then by sequence number.
pub open spec fn key_lt(a_at: u64, a_seq: u64, b_at: u64, b_seq: u64) -> bool {
    a_at < b_at || (a_at == b_at && a_seq < b_seq)
}

/// The entries are strictly increasing by key.
pub open spec fn sorted_entries(s: Seq<TimerEntry>) -> bool {
    forall|i: int, j: int|
        0 <= i < j < s.len() ==> key_lt(#[trigger] s[i].at, s[i].seq, #[trigger] s[j].at, s[j].seq)
}

/// Whether some entry has this key.
pub open spec fn has_key(s: Seq<TimerEntry>, at: u64, seq: u64) -> bool {
    exists|i: int| 0 <= i < s.len() && #[trigger] s[i].at == at && s[i].seq == seq
}

/// The entries after registering `e`: it takes its place in key order, in
/// place of an entry with the same key.
pub open spec fn timer_insert(s: Seq<TimerEntry>, e: TimerEntry) -> Seq<TimerEntry>
    decreases s.len(),
{
    if s.len() == 0 {
        seq![e]
    } else if key_lt(e.at, e.seq, s[0].at, s[0].seq) {
        seq![e] + s
    } else if e.at == s[0].at && e.seq == s[0].seq {
        seq![e] + s.drop_first()
    } else {
        seq![s[0]] + timer_insert(s.drop_first(), e)
    }
}

/// The entries without the one of key `(at, seq)`.
pub open spec fn timer_remove(s: Seq<TimerEntry>, at: u64, seq: u64) -> Seq<TimerEntry>
    decreases s.len(),
{
    if s.len() == 0 {
        s
    } else if s[0].at == at && s[0].seq == seq {
        timer_remove(s.drop_first(), at, seq)
    } else {
        seq![s[0]] + timer_remove(s.drop_first(), at, seq)
    }
}

/// How many entries, from the front, are due at `now`.
pub open spec fn expired_count(s: Seq<TimerEntry>, now: u64) -> nat
    decreases s.len(),
{
    if s.len() == 0 || s[0].at > now {
        0
    } else {
        1 + expired_count(s.drop_first(), now)
    }
}

/// The wakers of a run of entries, in order.
pub open spec fn wakers_of(s: Seq<TimerEntry>) -> Seq<u64> {
    s.map_values(|e: TimerEntry| e.waker)
}

/// The time until the first entry that is not due, if any.
pub open spec fn wait_after(s: Seq<TimerEntry>, now: u64) -> Option<u64> {
    let n = expired_count(s, now);
    if n < s.len() {
        Some((s[n as int].at - now) as u64)
    } else {
        None
    }
}

/// The queue of registered timers and the sequence counter.
pub struct TimerQueue {
    entries: Vec<TimerEntry>,
    seq: u64,
}

impl TimerQueue {
    /// The registered timers, in key order.
    pub closed spec fn entries(&self) -> Seq<TimerEntry> {
        self.entries@
    }

    /// The last sequence number handed out.
    pub closed spec fn last_seq(&self) -> u64 {
        self.seq
    }

    /// Sorted by key, and no entry carries a sequence number beyond the counter.
    pub open spec fn wf(&self) -> bool {
        &&& sorted_entries(self.entries())
        &&& forall|i: int| 0 <= i < self.entries().len() ==> #[trigger] self.entries()[i].seq <= self.last_seq()
    }

    /// An empty queue whose counter starts at zero.
    pub fn new() -> (q: Self)
        ensures
            q.wf(),
            q.entries() == Seq::<TimerEntry>::empty(),
            q.last_seq() == 0,
    {
        TimerQueue { entries: Vec::new(), seq: 0 }
    }

    /// Number of registered timers.
    pub fn len(&self) -> (n: usize)
        ensures
            n == self.entries().len(),
    {
        self.entries.len()
    }

    /// The last sequence number handed out.
    pub fn seq_counter(&self) -> (seq: u64)
        ensures
            seq == self.last_seq(),
    {
        self.seq
    }

    /// A fresh sequence number: one more than the last one.
    pub fn next_seq(&mut self) -> (seq: u64)
        requires
            old(self).wf(),
            old(self).last_seq() < u64::MAX,
        ensures
            final(self).wf(),
            seq == old(self).last_seq() + 1,
            final(self).last_seq() == seq,
            final(self).entries() == old(self).entries(),
            forall|at: u64| !has_key(final(self).entries(), at, seq),
    {
        self.seq = self.seq + 1;
        self.seq
    }

    /// Registers `waker` under the key `(at, seq)`, replacing the waker of a
    /// timer with the same key.
    pub fn add_timer(&mut self, at: u64, seq: u64, waker: u64)
        requires
            old(self).wf(),
            seq <= old(self).last_seq(),
        ensures
            final(self).wf(),
            final(self).entries() == timer_insert(
                old(self).entries(),
                TimerEntry { at, seq, waker },
            ),
            final(self).last_seq() == old(self).last_seq(),
    {
        let e = TimerEntry { at, seq, waker };
        let mut i: usize = 0;
        while i < self.entries.len() && (self.entries[i].at < at || (self.entries[i].at == at
            && self.entries[i].seq < seq))
            invariant
                i <= self.entries@.len(),
                self.entries@ == old(self).entries@,
                forall|j: int| 0 <= j < i ==> key_lt(#[trigger] self.entries@[j].at, self.entries@[j].seq, at, seq),
            decreases self.entries@.len() - i,
        {
            i = i + 1;
        }
        proof {
            lemma_insert_at(self.entries@, e, i as int);
        }
        if i < self.entries.len() && self.entries[i].at == at && self.entries[i].seq == seq {
            self.entries.set(i, e);
        } else {
            self.entries.insert(i, e);
        }
        proof {
            lemma_insert_sorted(old(self).entries@, e);
            assert forall|k: int| 0 <= k < self.entries@.len() implies #[trigger] self.entries@[k].seq <= self.seq by {
                lemma_insert_members(old(self).entries@, e, k);
            }
        }
    }

    /// Registers `waker` at deadline `at` under a fresh sequence number, which
    /// it returns.
    pub fn add_timer_at(&mut self, at: u64, waker: u64) -> (seq: u64)
        requires
            old(self).wf(),
            old(self).last_seq() < u64::MAX,
        ensures
            final(self).wf(),
            seq == old(self).last_seq() + 1,
            final(self).last_seq() == seq,
            !has_key(old(self).entries(), at, seq),
            final(self).entries() == timer_insert(
                old(self).entries(),
                TimerEntry { at, seq, waker },
            ),
    {
        let seq = self.next_seq();
        self.add_timer(at, seq, waker);
        seq
    }

    /// Removes the timer of key `(at, seq)`, if registered.
    pub fn delete_timer(&mut self, at: u64, seq: u64)
        requires
            old(self).wf(),
        ensures
            final(self).wf(),
            final(self).entries() == timer_remove(old(self).entries(), at, seq),
            final(self).last_seq() == old(self).last_seq(),
    {
        let mut i: usize = 0;
        while i < self.entries.len() && !(self.entries[i].at == at && self.entries[i].seq == seq)
            invariant
                i <= self.entries@.len(),
                self.entries@ == old(self).entries@,
                forall|j: int| 0 <= j < i ==> !(#[trigger] self.entries@[j].at == at && self.entries@[j].seq == seq),
            decreases self.entries@.len() - i,
        {
            i = i + 1;
        }
        proof {
            lemma_remove_at(self.entries@, at, seq, i as int);
        }
        if i < self.entries.len() {
            self.entries.remove(i);
        }
        proof {
            assert forall|a: int, b: int| 0 <= a < b < self.entries@.len() implies key_lt(
                #[trigger] self.entries@[a].at,
                self.entries@[a].seq,
                #[trigger] self.entries@[b].at,
                self.entries@[b].seq,
            ) by {
                if i < old(self).entries@.len() {
                    let ia: int = if a < i { a } else { a + 1 };
                    let ib: int = if b < i { b } else { b + 1 };
                    assert(self.entries@[a] == old(self).entries@[ia]);
                    assert(self.entries@[b] == old(self).entries@[ib]);
                }
            }
            assert forall|k: int| 0 <= k < self.entries@.len() implies #[trigger] self.entries@[k].seq <= self.seq by {
                if i < old(self).entries@.len() {
                    let ik: int = if k < i { k } else { k + 1 };
                    assert(self.entries@[k] == old(self).entries@[ik]);
                }
            }
        }
    }

    /// Fires every timer that is due at `now`, earliest first: they leave the
    /// queue and their wakers are returned in that order.  Also returns the
    /// time until the first timer that is not due, or `None` when none is
    /// left.
    pub fn run(&mut self, now: u64) -> (r: (Vec<u64>, Option<u64>))
        requires
            old(self).wf(),
        ensures
            final(self).wf(),
            final(self).last_seq() == old(self).last_seq(),
            r.0@ == wakers_of(old(self).entries().take(expired_count(old(self).entries(), now) as int)),
            final(self).entries() == old(self).entries().skip(expired_count(old(self).entries(), now) as int),
            r.1 == wait_after(old(self).entries(), now),
            forall|i: int| 0 <= i < final(self).entries().len() ==> #[trigger] final(self).entries()[i].at > now,
    {
        let ghost s0 = self.entries@;
        proof {
            lemma_expired_prefix(s0, now);
        }
        let mut woken: Vec<u64> = Vec::new();
        let mut n: usize = 0;
        while n < self.entries.len() && self.entries[n].at <= now
            invariant
                self.entries@ == s0,
                n <= s0.len(),
                n <= expired_count(s0, now),
                woken@ == wakers_of(s0.take(n as int)),
                forall|j: int| 0 <= j < expired_count(s0, now) ==> #[trigger] s0[j].at <= now,
                expired_count(s0, now) <= s0.len(),
                expired_count(s0, now) < s0.len() ==> s0[expired_count(s0, now) as int].at > now,
            decreases s0.len() - n,
        {
            woken.push(self.entries[n].waker);
            n = n + 1;
            proof {
                assert(wakers_of(s0.take(n as int)) =~= wakers_of(s0.take(n - 1)).push(s0[n - 1].waker));
            }
        }
        let wait = if n < self.entries.len() {
            Some(self.entries[n].at - now)
        } else {
            None
        };
        let mut rest: Vec<TimerEntry> = Vec::new();
        let mut k: usize = n;
        while k < self.entries.len()
            invariant
                self.entries@ == s0,
                n <= k <= s0.len(),
                rest@ == s0.subrange(n as int, k as int),
            decreases s0.len() - k,
        {
            rest.push(self.entries[k]);
            k = k + 1;
            proof {
                assert(rest@ =~= s0.subrange(n as int, k as int));
            }
        }
        self.entries = rest;
        proof {
            assert(self.entries@ =~= s0.skip(n as int));
            assert forall|i: int| 0 <= i < self.entries@.len() implies #[trigger] self.entries@[i].at > now by {
                assert(self.entries@[i] == s0[n + i]);
                if i > 0 {
                    assert(key_lt(s0[n as int].at, s0[n as int].seq, s0[n + i].at, s0[n + i].seq));
                }
            }
        }
        (woken, wait)
    }
}

/// Facts about `timer_insert` at the place where a loop stopped.
proof fn lemma_insert_at(s: Seq<TimerEntry>, e: TimerEntry, i: int)
    requires
        sorted_entries(s),
        0 <= i <= s.len(),
        forall|j: int| 0 <= j < i ==> key_lt(#[trigger] s[j].at, s[j].seq, e.at, e.seq),
        i < s.len() ==> !key_lt(s[i].at, s[i].seq, e.at, e.seq),
    ensures
        (i < s.len() && s[i].at == e.at && s[i].seq == e.seq) ==> timer_insert(s, e) == s.update(i, e),
        !(i < s.len() && s[i].at == e.at && s[i].seq == e.seq) ==> timer_insert(s, e) == s.insert(i, e),
    decreases s.len(),
{
    if s.len() == 0 {
        assert(s.insert(i, e) =~= seq![e]);
    } else if i == 0 {
        if key_lt(e.at, e.seq, s[0].at, s[0].seq) {
            assert(s.insert(0, e) =~= seq![e] + s);
        } else {
            assert(s.update(0, e) =~= seq![e] + s.drop_first());
        }
    } else {
        let t = s.drop_first();
        assert forall|j: int| 0 <= j < i - 1 implies key_lt(#[trigger] t[j].at, t[j].seq, e.at, e.seq) by {
            assert(t[j] == s[j + 1]);
        }
        assert(sorted_entries(t)) by {
            assert forall|a: int, b: int| 0 <= a < b < t.len() implies key_lt(#[trigger] t[a].at, t[a].seq, #[trigger] t[b].at, t[b].seq) by {
                assert(t[a] == s[a + 1]);
                assert(t[b] == s[b + 1]);
            }
        }
        lemma_insert_at(t, e, i - 1);
        assert(key_lt(s[0].at, s[0].seq, e.at, e.seq));
        if i < s.len() && s[i].at == e.at && s[i].seq == e.seq {
            assert(seq![s[0]] + t.update(i - 1, e) =~= s.update(i, e));
        } else {
            assert(seq![s[0]] + t.insert(i - 1, e) =~= s.insert(i, e));
        }
    }
}

/// Every entry of `timer_insert(s, e)` is `e` or an entry of `s`.
proof fn lemma_insert_members(s: Seq<TimerEntry>, e: TimerEntry, k: int)
    requires
        0 <= k < timer_insert(s, e).len(),
    ensures
        timer_insert(s, e)[k] == e || exists|j: int| 0 <= j < s.len() && s[j] == #[trigger] timer_insert(s, e)[k],
    decreases s.len(),
{
    if s.len() == 0 {
    } else if key_lt(e.at, e.seq, s[0].at, s[0].seq) {
        if k > 0 {
            assert(timer_insert(s, e)[k] == s[k - 1]);
        }
    } else if e.at == s[0].at && e.seq == s[0].seq {
        if k > 0 {
            assert(timer_insert(s, e)[k] == s[k]);
        }
    } else {
        if k == 0 {
            assert(timer_insert(s, e)[0] == s[0]);
        } else {
            let t = s.drop_first();
            lemma_insert_members(t, e, k - 1);
            assert(timer_insert(s, e)[k] == timer_insert(t, e)[k - 1]);
            if timer_insert(t, e)[k - 1] != e {
                let j = choose|j: int| 0 <= j < t.len() && t[j] == #[trigger] timer_insert(t, e)[k - 1];
                assert(s[j + 1] == timer_insert(s, e)[k]);
            }
        }
    }
}

/// `timer_insert` keeps the entries sorted.
pub proof fn lemma_insert_sorted(s: Seq<TimerEntry>, e: TimerEntry)
    requires
        sorted_entries(s),
    ensures
        sorted_entries(timer_insert(s, e)),
        timer_insert(s, e).len() == if has_key(s, e.at, e.seq) { s.len() } else { s.len() + 1 },
        has_key(timer_insert(s, e), e.at, e.seq),
    decreases s.len(),
{
    let r = timer_insert(s, e);
    if s.len() == 0 {
        assert(r[0] == e);
    } else if key_lt(e.at, e.seq, s[0].at, s[0].seq) {
        assert(r[0] == e);
        assert forall|a: int, b: int| 0 <= a < b < r.len() implies key_lt(#[trigger] r[a].at, r[a].seq, #[trigger] r[b].at, r[b].seq) by {
            if a > 0 {
                assert(r[a] == s[a - 1]);
            } else {
                assert(key_lt(s[0].at, s[0].seq, s[b - 1].at, s[b - 1].seq) || b == 1);
            }
            assert(r[b] == s[b - 1]);
        }
        assert(!has_key(s, e.at, e.seq)) by {
            if has_key(s, e.at, e.seq) {
                let j = choose|j: int| 0 <= j < s.len() && #[trigger] s[j].at == e.at && s[j].seq == e.seq;
                if j > 0 {
                    assert(key_lt(s[0].at, s[0].seq, s[j].at, s[j].seq));
                }
            }
        }
    } else if e.at == s[0].at && e.seq == s[0].seq {
        assert(r[0] == e);
        assert forall|a: int, b: int| 0 <= a < b < r.len() implies key_lt(#[trigger] r[a].at, r[a].seq, #[trigger] r[b].at, r[b].seq) by {
            assert(r[b] == s[b]);
            if a > 0 {
                assert(r[a] == s[a]);
            } else {
                assert(key_lt(s[0].at, s[0].seq, s[b].at, s[b].seq));
            }
        }
        assert(s[0].at == e.at && s[0].seq == e.seq);
    } else {
        let t = s.drop_first();
        assert(sorted_entries(t)) by {
            assert forall|a: int, b: int| 0 <= a < b < t.len() implies key_lt(#[trigger] t[a].at, t[a].seq, #[trigger] t[b].at, t[b].seq) by {
                assert(t[a] == s[a + 1]);
                assert(t[b] == s[b + 1]);
            }
        }
        lemma_insert_sorted(t, e);
        let rt = timer_insert(t, e);
        assert(r == seq![s[0]] + rt);
        assert forall|a: int, b: int| 0 <= a < b < r.len() implies key_lt(#[trigger] r[a].at, r[a].seq, #[trigger] r[b].at, r[b].seq) by {
            assert(r[b] == rt[b - 1]);
            if a > 0 {
                assert(r[a] == rt[a - 1]);
            } else {
                lemma_insert_members(t, e, b - 1);
                if rt[b - 1] != e {
                    let j = choose|j: int| 0 <= j < t.len() && t[j] == #[trigger] rt[b - 1];
                    assert(t[j] == s[j + 1]);
                }
            }
        }
        assert(has_key(s, e.at, e.seq) == has_key(t, e.at, e.seq)) by {
            if has_key(s, e.at, e.seq) {
                let j = choose|j: int| 0 <= j < s.len() && #[trigger] s[j].at == e.at && s[j].seq == e.seq;
                assert(j > 0);
                assert(t[j - 1] == s[j]);
            }
            if has_key(t, e.at, e.seq) {
                let j = choose|j: int| 0 <= j < t.len() && #[trigger] t[j].at == e.at && t[j].seq == e.seq;
                assert(s[j + 1] == t[j]);
            }
        }
        let j = choose|j: int| 0 <= j < rt.len() && #[trigger] rt[j].at == e.at && rt[j].seq == e.seq;
        assert(r[j + 1] == rt[j]);
    }
}

/// `timer_remove` at the place where a search loop stopped.
proof fn lemma_remove_at(s: Seq<TimerEntry>, at: u64, seq: u64, i: int)
    requires
        sorted_entries(s),
        0 <= i <= s.len(),
        forall|j: int| 0 <= j < i ==> !(#[trigger] s[j].at == at && s[j].seq == seq),
        i < s.len() ==> s[i].at == at && s[i].seq == seq,
    ensures
        i < s.len() ==> timer_remove(s, at, seq) == s.remove(i),
        i == s.len() ==> timer_remove(s, at, seq) == s,
    decreases s.len(),
{
    if s.len() == 0 {
    } else {
        let t = s.drop_first();
        assert(sorted_entries(t)) by {
            assert forall|a: int, b: int| 0 <= a < b < t.len() implies key_lt(#[trigger] t[a].at, t[a].seq, #[trigger] t[b].at, t[b].seq) by {
                assert(t[a] == s[a + 1]);
                assert(t[b] == s[b + 1]);
            }
        }
        if i == 0 {
            assert(!has_key(t, at, seq)) by {
                if has_key(t, at, seq) {
                    let j = choose|j: int| 0 <= j < t.len() && #[trigger] t[j].at == at && t[j].seq == seq;
                    assert(t[j] == s[j + 1]);
                    assert(key_lt(s[0].at, s[0].seq, s[j + 1].at, s[j + 1].seq));
                }
            }
            lemma_remove_absent(t, at, seq);
            assert(s.remove(0) =~= t);
        } else {
            assert forall|j: int| 0 <= j < i - 1 implies !(#[trigger] t[j].at == at && t[j].seq == seq) by {
                assert(t[j] == s[j + 1]);
            }
            lemma_remove_at(t, at, seq, i - 1);
            if i < s.len() {
                assert(seq![s[0]] + t.remove(i - 1) =~= s.remove(i));
            } else {
                assert(seq![s[0]] + t =~= s);
            }
        }
    }
}

/// Removing a key that is not there changes nothing.
proof fn lemma_remove_absent(t: Seq<TimerEntry>, at: u64, seq: u64)
    requires
        sorted_entries(t),
    ensures
        !has_key(t, at, seq) ==> timer_remove(t, at, seq) == t,
    decreases t.len(),
{
    if t.len() > 0 && !has_key(t, at, seq) {
        let u = t.drop_first();
        assert(sorted_entries(u)) by {
            assert forall|a: int, b: int| 0 <= a < b < u.len() implies key_lt(#[trigger] u[a].at, u[a].seq, #[trigger] u[b].at, u[b].seq) by {
                assert(u[a] == t[a + 1]);
                assert(u[b] == t[b + 1]);
            }
        }
        assert(!has_key(u, at, seq)) by {
            if has_key(u, at, seq) {
                let j = choose|j: int| 0 <= j < u.len() && #[trigger] u[j].at == at && u[j].seq == seq;
                assert(t[j + 1] == u[j]);
            }
        }
        lemma_remove_absent(u, at, seq);
        assert(!(t[0].at == at && t[0].seq == seq));
        assert(seq![t[0]] + u =~= t);
    }
}

/// The due entries form a prefix of the queue.
proof fn lemma_expired_prefix(s: Seq<TimerEntry>, now: u64)
    requires
        sorted_entries(s),
    ensures
        expired_count(s, now) <= s.len(),
        forall|j: int| 0 <= j < expired_count(s, now) ==> #[trigger] s[j].at <= now,
        expired_count(s, now) < s.len() ==> s[expired_count(s, now) as int].at > now,
    decreases s.len(),
{
    if s.len() > 0 && s[0].at <= now {
        let t = s.drop_first();
        assert(sorted_entries(t)) by {
            assert forall|a: int, b: int| 0 <= a < b < t.len() implies key_lt(#[trigger] t[a].at, t[a].seq, #[trigger] t[b].at, t[b].seq) by {
                assert(t[a] == s[a + 1]);
                assert(t[b] == s[b + 1]);
            }
        }
        lemma_expired_prefix(t, now);
        assert forall|j: int| 0 <= j < expired_count(s, now) implies #[trigger] s[j].at <= now by {
            if j > 0 {
                assert(s[j] == t[j - 1]);
            }
        }
        if expired_count(s, now) < s.len() {
            assert(s[expired_count(s, now) as int] == t[expired_count(t, now) as int]);
        }
    }
}

/// A timer registered under a fresh key can be deleted again, and deleting it
/// gives back the queue as it was before.
pub proof fn law_delete_undoes_add(s: Seq<TimerEntry>, e: TimerEntry)
    requires
        sorted_entries(s),
        !has_key(s, e.at, e.seq),
    ensures
        timer_remove(timer_insert(s, e), e.at, e.seq) == s,
    decreases s.len(),
{
    if s.len() == 0 {
        let r = seq![e];
        assert(r.drop_first() =~= Seq::<TimerEntry>::empty());
        assert(timer_remove(r.drop_first(), e.at, e.seq) == Seq::<TimerEntry>::empty());
    } else {
        let t = s.drop_first();
        assert(sorted_entries(t)) by {
            assert forall|a: int, b: int| 0 <= a < b < t.len() implies key_lt(#[trigger] t[a].at, t[a].seq, #[trigger] t[b].at, t[b].seq) by {
                assert(t[a] == s[a + 1]);
                assert(t[b] == s[b + 1]);
            }
        }
        assert(!has_key(t, e.at, e.seq)) by {
            if has_key(t, e.at, e.seq) {
                let j = choose|j: int| 0 <= j < t.len() && #[trigger] t[j].at == e.at && t[j].seq == e.seq;
                assert(s[j + 1] == t[j]);
            }
        }
        assert(!(s[0].at == e.at && s[0].seq == e.seq));
        if key_lt(e.at, e.seq, s[0].at, s[0].seq) {
            let r = seq![e] + s;
            assert(r.drop_first() =~= s);
            lemma_remove_absent(s, e.at, e.seq);
        } else {
            law_delete_undoes_add(t, e);
            let r = seq![s[0]] + timer_insert(t, e);
            assert(r.drop_first() =~= timer_insert(t, e));
            assert(seq![s[0]] + t =~= s);
        }
    }
}

/// A fresh sequence number is carried by no registered timer, whatever its
/// deadline.
pub proof fn law_fresh_seq_is_unused(q: TimerQueue, at: u64)
    requires
        q.wf(),
        q.last_seq() < u64::MAX,
    ensures
        !has_key(q.entries(), at, (q.last_seq() + 1) as u64),
{
}

/// Timers with the same deadline fire in the order they were registered
/// (by sequence number), and an earlier deadline fires first.
pub proof fn law_fire_order(s: Seq<TimerEntry>, i: int, j: int)
    requires
        sorted_entries(s),
        0 <= i < s.len(),
        0 <= j < s.len(),
        key_lt(s[i].at, s[i].seq, s[j].at, s[j].seq),
    ensures
        i < j,
{
    if j <= i {
        if j < i {
            assert(key_lt(s[j].at, s[j].seq, s[i].at, s[i].seq));
        }
    }
}

/// A run fires exactly the timers that are due: those it fires are due, the
/// ones it leaves are not, and a second run at the same time fires nothing.
/// The wait it reports is the positive time until the earliest timer left.
pub proof fn law_run_fires_exactly_due(s: Seq<TimerEntry>, now: u64)
    requires
        sorted_entries(s),
    ensures
        forall|j: int| 0 <= j < expired_count(s, now) ==> #[trigger] s[j].at <= now,
        forall|j: int| expired_count(s, now) <= j < s.len() ==> #[trigger] s[j].at > now,
        expired_count(s.skip(expired_count(s, now) as int), now) == 0,
        wait_after(s, now) is Some ==> wait_after(s, now)->0 > 0,
        wait_after(s, now) is None <==> expired_count(s, now) == s.len(),
{
    lemma_expired_prefix(s, now);
    let n = expired_count(s, now);
    assert forall|j: int| n <= j < s.len() implies #[trigger] s[j].at > now by {
        if j > n {
            assert(key_lt(s[n as int].at, s[n as int].seq, s[j].at, s[j].seq));
        }
    }
    let rest = s.skip(n as int);
    if rest.len() > 0 {
        assert(rest[0] == s[n as int]);
    }
}

/// The wait that `run` reports is the time until the earliest timer left:
/// some timer that is not due falls due exactly then, and none falls due
/// before.  No wait is reported exactly when every timer is due.
pub proof fn law_run_waits_for_earliest_left(s: Seq<TimerEntry>, now: u64)
    requires
        sorted_entries(s),
    ensures
        wait_after(s, now) matches Some(w) ==> {
            &&& exists|j: int| 0 <= j < s.len() && #[trigger] s[j].at > now && s[j].at == now + w
            &&& forall|j: int| 0 <= j < s.len() && #[trigger] s[j].at > now ==> s[j].at >= now + w
        },
        wait_after(s, now) is None ==> forall|j: int| 0 <= j < s.len() ==> #[trigger] s[j].at <= now,
{
    law_run_fires_exactly_due(s, now);
    let n = expired_count(s, now);
    if n < s.len() {
        let w = (s[n as int].at - now) as u64;
        assert(s[n as int].at > now && s[n as int].at == now + w);
        assert forall|j: int| 0 <= j < s.len() && #[trigger] s[j].at > now implies s[j].at >= now + w by {
            if j > n {
                assert(key_lt(s[n as int].at, s[n as int].seq, s[j].at, s[j].seq));
            } else if j < n {
                assert(s[j].at <= now);
            }
        }
    }
}

/// A timer that has been registered fires at the first run at or after its
/// deadline: its waker is among those the run returns.
pub proof fn law_registered_timer_fires(s: Seq<TimerEntry>, e: TimerEntry, now: u64)
    requires
        sorted_entries(s),
        e.at <= now,
    ensures
        wakers_of(timer_insert(s, e).take(expired_count(timer_insert(s, e), now) as int)).contains(e.waker),
{
    lemma_insert_sorted(s, e);
    let r = timer_insert(s, e);
    let j = choose|j: int| 0 <= j < r.len() && #[trigger] r[j].at == e.at && r[j].seq == e.seq;
    lemma_insert_keeps_key_entry(s, e, j);
    law_run_fires_exactly_due(r, now);
    let n = expired_count(r, now);
    assert(j < n);
    let w = wakers_of(r.take(n as int));
    assert(w[j] == e.waker);
}

/// The entry of `timer_insert(s, e)` that carries `e`'s key is `e` itself.
proof fn lemma_insert_keeps_key_entry(s: Seq<TimerEntry>, e: TimerEntry, j: int)
    requires
        sorted_entries(s),
        0 <= j < timer_insert(s, e).len(),
        timer_insert(s, e)[j].at == e.at,
        timer_insert(s, e)[j].seq == e.seq,
    ensures
        timer_insert(s, e)[j] == e,
    decreases s.len(),
{
    let r = timer_insert(s, e);
    if s.len() == 0 {
    } else if key_lt(e.at, e.seq, s[0].at, s[0].seq) {
        if j > 0 {
            assert(r[j] == s[j - 1]);
            if j > 1 {
                assert(key_lt(s[0].at, s[0].seq, s[j - 1].at, s[j - 1].seq));
            }
        }
    } else if e.at == s[0].at && e.seq == s[0].seq {
        if j > 0 {
            assert(r[j] == s[j]);
            assert(key_lt(s[0].at, s[0].seq, s[j].at, s[j].seq));
        }
    } else {
        let t = s.drop_first();
        assert(sorted_entries(t)) by {
            assert forall|a: int, b: int| 0 <= a < b < t.len() implies key_lt(#[trigger] t[a].at, t[a].seq, #[trigger] t[b].at, t[b].seq) by {
                assert(t[a] == s[a + 1]);
                assert(t[b] == s[b + 1]);
            }
        }
        if j == 0 {
            assert(r[0] == s[0]);
        } else {
            assert(r[j] == timer_insert(t, e)[j - 1]);
            lemma_insert_keeps_key_entry(t, e, j - 1);
        }
    }
}

/// A timer future: its deadline and, once registered, its sequence number
/// (zero while unregistered).
pub struct Timer {
    at: u64,
    seq: u64,
}

impl Timer {
    /// The deadline.
    pub closed spec fn deadline(&self) -> u64 {
        self.at
    }

    /// The sequence number under which it is registered, zero if none.
    pub closed spec fn registered_seq(&self) -> u64 {
        self.seq
    }

    /// Whether the timer is registered in a queue.
    pub fn is_registered(&self) -> (b: bool)
        ensures
            b == (self.registered_seq() != 0),
    {
        self.seq != 0
    }

    /// An unregistered timer for deadline `at`.
    pub fn from_at(at: u64) -> (t: Timer)
        ensures
            t.deadline() == at,
            t.registered_seq() == 0,
    {
        Timer { at, seq: 0 }
    }

    /// An unregistered timer that expires `d` ticks after `now`.
    pub fn from_duration(now: u64, d: u64) -> (t: Timer)
        requires
            now + d <= u64::MAX,
        ensures
            t.deadline() == now + d,
            t.registered_seq() == 0,
    {
        Self::from_at(now + d)
    }

    /// Polls the timer at time `now`: ready once the deadline has passed;
    /// else, on the first pending poll, registered in the queue with `waker`
    /// under a fresh sequence number.
    pub fn poll(&mut self, q: &mut TimerQueue, now: u64, waker: u64) -> (r: Poll<()>)
        requires
            old(q).wf(),
            (old(self).deadline() >= now && old(self).registered_seq() == 0) ==> old(q).last_seq()
                < u64::MAX,
        ensures
            final(q).wf(),
            final(self).deadline() == old(self).deadline(),
            old(self).deadline() < now ==> r is Ready && *final(self) == *old(self) && *final(q) == *old(q),
            old(self).deadline() >= now ==> r is Pending,
            (old(self).deadline() >= now && old(self).registered_seq() == 0) ==> {
                &&& final(self).registered_seq() == old(q).last_seq() + 1
                &&& final(q).last_seq() == old(q).last_seq() + 1
                &&& final(q).entries() == timer_insert(
                    old(q).entries(),
                    TimerEntry { at: old(self).deadline(), seq: final(self).registered_seq(), waker },
                )
            },
            (old(self).deadline() >= now && old(self).registered_seq() != 0) ==> *final(self) == *old(self)
                && *final(q) == *old(q),
    {
        if self.at < now {
            Poll::Ready(())
        } else {
            if self.seq == 0 {
                self.seq = q.add_timer_at(self.at, waker);
            }
            Poll::Pending
        }
    }

    /// Drops the timer.  A registered timer first clears its sequence number
    /// and then deletes the key `(deadline, 0)`; no timer registered through
    /// `add_timer_at` carries sequence number 0, so its own entry stays in the
    /// queue and still fires.
    pub fn drop(self, q: &mut TimerQueue)
        requires
            old(q).wf(),
        ensures
            final(q).wf(),
            final(q).last_seq() == old(q).last_seq(),
            self.registered_seq() != 0 ==> final(q).entries() == timer_remove(
                old(q).entries(),
                self.deadline(),
                0,
            ),
            self.registered_seq() == 0 ==> final(q).entries() == old(q).entries(),
    {
        let mut t = self;
        if t.seq != 0 {
            t.seq = 0;
            q.delete_timer(t.at, t.seq);
        }
    }

    /// The deadline.
    pub fn deadline_at(&self) -> (at: u64)
        ensures
            at == self.deadline(),
    {
        self.at
    }
}

/// Dropping a registered timer leaves its own entry in the queue: deleting
/// the key with sequence number 0 keeps every entry of another key.
pub proof fn law_dropped_timer_entry_stays(s: Seq<TimerEntry>, at: u64, seq: u64)
    requires
        sorted_entries(s),
        seq != 0,
        has_key(s, at, seq),
    ensures
        has_key(timer_remove(s, at, 0), at, seq),
    decreases s.len(),
{
    let t = s.drop_first();
    assert(sorted_entries(t)) by {
        assert forall|a: int, b: int| 0 <= a < b < t.len() implies key_lt(#[trigger] t[a].at, t[a].seq, #[trigger] t[b].at, t[b].seq) by {
            assert(t[a] == s[a + 1]);
            assert(t[b] == s[b + 1]);
        }
    }
    if s[0].at == at && s[0].seq == seq {
        let r = seq![s[0]] + timer_remove(t, at, 0);
        assert(r[0].at == at && r[0].seq == seq);
    } else {
        let j = choose|j: int| 0 <= j < s.len() && #[trigger] s[j].at == at && s[j].seq == seq;
        assert(j > 0);
        assert(t[j - 1] == s[j]);
        law_dropped_timer_entry_stays(t, at, seq);
        let rt = timer_remove(t, at, 0);
        let k = choose|k: int| 0 <= k < rt.len() && #[trigger] rt[k].at == at && rt[k].seq == seq;
        if s[0].at == at && s[0].seq == 0 {
            assert(timer_remove(s, at, 0) == rt);
        } else {
            let r = seq![s[0]] + rt;
            assert(r[k + 1] == rt[k]);
        }
    }
}

/// A future raced against a timer.
pub struct Timeout<F> {
    timer: Timer,
    fut: F,
}

impl<F> Timeout<F> {
    /// The timer of the race.
    pub closed spec fn timer(&self) -> Timer {
        self.timer
    }

    /// The future of the race.
    pub closed spec fn future(&self) -> F {
        self.fut
    }

    /// The future of the race, to be polled by the executor.
    pub fn fut_mut(&mut self) -> (f: &mut F)
        ensures
            *f == old(self).future(),
            final(self).future() == *final(f),
            final(self).timer() == old(self).timer(),
    {
        &mut self.fut
    }

    /// Whether the race's timer is registered in a queue.
    pub fn is_registered(&self) -> (b: bool)
        ensures
            b == (self.timer().registered_seq() != 0),
    {
        self.timer.is_registered()
    }

    /// The deadline of the race's timer.
    pub fn deadline_at(&self) -> (at: u64)
        ensures
            at == self.timer().deadline(),
    {
        self.timer.deadline_at()
    }

    /// Ends the race early, dropping its timer as `Timer::drop` does.
    pub fn drop(self, q: &mut TimerQueue)
        requires
            old(q).wf(),
        ensures
            final(q).wf(),
            final(q).last_seq() == old(q).last_seq(),
            self.timer().registered_seq() != 0 ==> final(q).entries() == timer_remove(
                old(q).entries(),
                self.timer().deadline(),
                0,
            ),
            self.timer().registered_seq() == 0 ==> final(q).entries() == old(q).entries(),
    {
        self.timer.drop(q);
    }

    /// Races `fut` against a timer that expires `d` ticks after `now`.
    pub fn new(now: u64, d: u64, fut: F) -> (t: Timeout<F>)
        requires
            now + d <= u64::MAX,
        ensures
            t.timer().deadline() == now + d,
            t.timer().registered_seq() == 0,
            t.future() == fut,
    {
        Timeout { timer: Timer::from_duration(now, d), fut }
    }

    /// Decides one poll of the race, given what the poll of the inner future
    /// gave: its output wins; else the timer is polled and, once expired,
    /// ends the race with `None`.
    pub fn poll<T>(&mut self, fut_poll: Poll<T>, q: &mut TimerQueue, now: u64, waker: u64) -> (r: Poll<Option<T>>)
        requires
            old(q).wf(),
            (fut_poll is Pending && old(self).timer().deadline() >= now && old(self).timer().registered_seq()
                == 0) ==> old(q).last_seq() < u64::MAX,
        ensures
            final(q).wf(),
            final(self).future() == old(self).future(),
            match fut_poll {
                Poll::Ready(out) => r == Poll::Ready(Some(out)) && *final(q) == *old(q)
                    && final(self).timer() == old(self).timer(),
                Poll::Pending => {
                    &&& (old(self).timer().deadline() < now ==> r == Poll::<Option<T>>::Ready(None)
                        && *final(q) == *old(q) && final(self).timer() == old(self).timer())
                    &&& (old(self).timer().deadline() >= now ==> r is Pending)
                    &&& final(self).timer().deadline() == old(self).timer().deadline()
                    &&& ((old(self).timer().deadline() >= now && old(self).timer().registered_seq() == 0)
                        ==> {
                        &&& final(self).timer().registered_seq() == old(q).last_seq() + 1
                        &&& final(q).last_seq() == old(q).last_seq() + 1
                        &&& final(q).entries() == timer_insert(
                            old(q).entries(),
                            TimerEntry {
                                at: old(self).timer().deadline(),
                                seq: final(self).timer().registered_seq(),
                                waker,
                            },
                        )
                    })
                    &&& ((old(self).timer().deadline() >= now && old(self).timer().registered_seq() != 0)
                        ==> final(self).timer() == old(self).timer() && *final(q) == *old(q))
                },
            },
    {
        match fut_poll {
            Poll::Ready(out) => Poll::Ready(Some(out)),
            Poll::Pending => {
                match self.timer.poll(q, now, waker) {
                    Poll::Ready(()) => Poll::Ready(None),
                    Poll::Pending => Poll::Pending,
                }
            },
        }
    }
}

} // verus!
