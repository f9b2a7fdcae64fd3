//! A bounded multi-producer, multi-consumer channel.
//!
//! `Channel` is the state that all senders and receivers share: the buffered
//! items, the capacity, the number of live sender and receiver handles and
//! the wakers of the senders and receivers that wait.  A waker is named by a
//! `u64`; every operation returns the wakers that its caller has to wake.
use std::collections::VecDeque;
use std::marker::PhantomData;
use vstd::prelude::*;

use crate::Poll;

verus! {

/// The mathematical state of a channel.
pub struct ChannelView<T> {
    pub buffer: Seq<T>,
    pub capacity: nat,
    pub tx_cnt: nat,
    pub rx_cnt: nat,
    pub pending_tx: Seq<u64>,
    pub pending_rx: Seq<u64>,
}

/// The state shared by the handles of one channel.
pub struct Channel<T> {
    buffer: VecDeque<T>,
    capacity: usize,
    tx_cnt: usize,
    rx_cnt: usize,
    pending_tx: VecDeque<u64>,
    pending_rx: VecDeque<u64>,
    ident: Ghost<int>,
}

impl<T> View for Channel<T> {
    type V = ChannelView<T>;

    closed spec fn view(&self) -> ChannelView<T> {
        ChannelView {
            buffer: self.buffer@,
            capacity: self.capacity as nat,
            tx_cnt: self.tx_cnt as nat,
            rx_cnt: self.rx_cnt as nat,
            pending_tx: self.pending_tx@,
            pending_rx: self.pending_rx@,
        }
    }
}

/// The channel never holds more items than its capacity.
pub open spec fn channel_wf<T>(s: ChannelView<T>) -> bool {
    s.buffer.len() <= s.capacity
}

/// The queue with its first element removed (unchanged when empty).
pub open spec fn drop_front(q: Seq<u64>) -> Seq<u64> {
    if q.len() == 0 {
        q
    } else {
        q.drop_first()
    }
}

/// The first element of a queue, if any.
pub open spec fn front(q: Seq<u64>) -> Option<u64> {
    if q.len() == 0 {
        None
    } else {
        Some(q[0])
    }
}

/// A send poll completes when no receiver is left or the buffer has room.
pub open spec fn send_completes<T>(s: ChannelView<T>) -> bool {
    s.rx_cnt == 0 || s.buffer.len() != s.capacity
}

/// The state after one poll of a send of `item` with waker `waker`.
pub open spec fn send_next<T>(s: ChannelView<T>, item: T, waker: u64) -> ChannelView<T> {
    if s.rx_cnt == 0 {
        s
    } else if s.buffer.len() == s.capacity {
        ChannelView { pending_tx: s.pending_tx.push(waker), ..s }
    } else {
        ChannelView { buffer: s.buffer.push(item), pending_rx: drop_front(s.pending_rx), ..s }
    }
}

/// The receiver waker that one poll of a send wakes.
pub open spec fn send_woken<T>(s: ChannelView<T>) -> Option<u64> {
    if s.rx_cnt == 0 || s.buffer.len() == s.capacity {
        None
    } else {
        front(s.pending_rx)
    }
}

/// A receive poll completes when an item is buffered or no sender is left.
pub open spec fn recv_completes<T>(s: ChannelView<T>) -> bool {
    s.buffer.len() > 0 || s.tx_cnt == 0
}

/// What a completed receive poll yields.
pub open spec fn recv_item<T>(s: ChannelView<T>) -> Option<T> {
    if s.buffer.len() > 0 {
        Some(s.buffer[0])
    } else {
        None
    }
}

/// The state after one poll of a receive with waker `waker`.
pub open spec fn recv_next<T>(s: ChannelView<T>, waker: u64) -> ChannelView<T> {
    if s.buffer.len() > 0 {
        ChannelView { buffer: s.buffer.drop_first(), pending_tx: drop_front(s.pending_tx), ..s }
    } else if s.tx_cnt == 0 {
        s
    } else {
        ChannelView { pending_rx: s.pending_rx.push(waker), ..s }
    }
}

/// The sender waker that one poll of a receive wakes.
pub open spec fn recv_woken<T>(s: ChannelView<T>) -> Option<u64> {
    if s.buffer.len() > 0 {
        front(s.pending_tx)
    } else {
        None
    }
}

/// The state after a sender handle is dropped.
pub open spec fn tx_drop_next<T>(s: ChannelView<T>) -> ChannelView<T> {
    if s.tx_cnt == 1 {
        ChannelView { tx_cnt: 0, pending_rx: Seq::empty(), ..s }
    } else {
        ChannelView { tx_cnt: (s.tx_cnt - 1) as nat, ..s }
    }
}

/// The receiver wakers that dropping a sender handle wakes.
pub open spec fn tx_drop_woken<T>(s: ChannelView<T>) -> Seq<u64> {
    if s.tx_cnt == 1 {
        s.pending_rx
    } else {
        Seq::empty()
    }
}

/// The state after a receiver handle is dropped.
pub open spec fn rx_drop_next<T>(s: ChannelView<T>) -> ChannelView<T> {
    if s.rx_cnt == 1 {
        ChannelView { rx_cnt: 0, pending_tx: Seq::empty(), ..s }
    } else {
        ChannelView { rx_cnt: (s.rx_cnt - 1) as nat, ..s }
    }
}

/// The sender wakers that dropping a receiver handle wakes.
pub open spec fn rx_drop_woken<T>(s: ChannelView<T>) -> Seq<u64> {
    if s.rx_cnt == 1 {
        s.pending_tx
    } else {
        Seq::empty()
    }
}

/// Empties a waker queue, handing its wakers back in order.
fn drain_wakers(q: &mut VecDeque<u64>) -> (woken: Vec<u64>)
    ensures
        woken@ == old(q)@,
        final(q)@ == Seq::<u64>::empty(),
{
    let mut woken: Vec<u64> = Vec::new();
    let ghost start = q@;
    while q.len() > 0
        invariant
            woken@ + q@ == start,
        decreases q@.len(),
    {
        let w = q.pop_front();
        match w {
            Some(w) => woken.push(w),
            None => {},
        }
        proof {
            assert(woken@ + q@ =~= start);
        }
    }
    proof {
        assert(woken@ =~= start);
    }
    woken
}

impl<T> Channel<T> {
    /// The name that ties the handles of this channel to it.  Nothing is
    /// known of it but what the handles made with the channel share.
    pub closed spec fn id(&self) -> int {
        self.ident@
    }

    /// The channel invariant.
    pub open spec fn wf(&self) -> bool {
        channel_wf(self@)
    }

    /// A fresh channel with one sender and one receiver and nothing buffered.
    pub fn new(capacity: usize) -> (ch: Self)
        ensures
            ch.wf(),
            ch@.buffer == Seq::<T>::empty(),
            ch@.capacity == capacity,
            ch@.tx_cnt == 1,
            ch@.rx_cnt == 1,
            ch@.pending_tx == Seq::<u64>::empty(),
            ch@.pending_rx == Seq::<u64>::empty(),
    {
        Channel {
            buffer: VecDeque::with_capacity(capacity),
            capacity,
            tx_cnt: 1,
            rx_cnt: 1,
            pending_tx: VecDeque::new(),
            pending_rx: VecDeque::new(),
            ident: Ghost(vstd::pervasive::arbitrary()),
        }
    }

    /// Buffers `item` when there is room, else hands it back.
    pub fn try_push(&mut self, item: T) -> (rejected: Option<T>)
        requires
            old(self).wf(),
        ensures
            final(self).wf(),
            final(self).id() == old(self).id(),
            old(self)@.buffer.len() == old(self)@.capacity ==> rejected == Some(item)
                && final(self)@ == old(self)@,
            old(self)@.buffer.len() != old(self)@.capacity ==> rejected is None
                && final(self)@ == (ChannelView { buffer: old(self)@.buffer.push(item), ..old(self)@ }),
    {
        if self.capacity == self.buffer.len() {
            Some(item)
        } else {
            self.buffer.push_back(item);
            None
        }
    }

    /// Number of items buffered.
    pub fn len(&self) -> (n: usize)
        ensures
            n == self@.buffer.len(),
    {
        self.buffer.len()
    }

    /// Number of live sender handles.
    pub fn sender_count(&self) -> (n: usize)
        ensures
            n == self@.tx_cnt,
    {
        self.tx_cnt
    }

    /// Number of live receiver handles.
    pub fn receiver_count(&self) -> (n: usize)
        ensures
            n == self@.rx_cnt,
    {
        self.rx_cnt
    }
}

/// The sending half of a channel.
pub struct ChTx<T> {
    marker: PhantomData<T>,
    chan: Ghost<int>,
}

/// The receiving half of a channel.
pub struct ChRx<T> {
    marker: PhantomData<T>,
    chan: Ghost<int>,
}

/// A send in progress: the item waits here until the channel takes it;
/// `chan` names the channel it was started on.
pub struct ChTxSendFuture<T> {
    pub item: T,
    pub chan: Ghost<int>,
}

/// A receive in progress.
pub struct ChRxRecvFuture<T> {
    marker: PhantomData<T>,
    chan: Ghost<int>,
}

impl<T> ChTx<T> {
    /// The channel this handle belongs to.
    pub closed spec fn chan(&self) -> int {
        self.chan@
    }
}

impl<T> ChRx<T> {
    /// The channel this handle belongs to.
    pub closed spec fn chan(&self) -> int {
        self.chan@
    }
}

impl<T> ChRxRecvFuture<T> {
    /// The channel this receive was started on.
    pub closed spec fn chan(&self) -> int {
        self.chan@
    }
}

/// The outcome of one poll of a send.
pub enum SendPoll<T> {
    /// The send is over; `woken` is the receiver waker to wake, if any.
    Ready { woken: Option<u64> },
    /// The channel is full: the future is handed back to be polled again.
    Pending(ChTxSendFuture<T>),
}

/// A new channel of the given capacity, with one sender and one receiver.
pub fn new_channel<T>(capacity: usize) -> (r: (Channel<T>, ChTx<T>, ChRx<T>))
    ensures
        r.0.wf(),
        r.0@.buffer == Seq::<T>::empty(),
        r.0@.capacity == capacity,
        r.0@.tx_cnt == 1,
        r.0@.rx_cnt == 1,
        r.0@.pending_tx == Seq::<u64>::empty(),
        r.0@.pending_rx == Seq::<u64>::empty(),
        r.1.chan() == r.0.id(),
        r.2.chan() == r.0.id(),
{
    let ch = Channel::new(capacity);
    let ghost id = ch.ident@;
    (ch, ChTx { marker: PhantomData, chan: Ghost(id) }, ChRx { marker: PhantomData, chan: Ghost(id) })
}

impl<T> ChTx<T> {
    /// Starts sending `item`.
    pub fn send(&self, item: T) -> (fut: ChTxSendFuture<T>)
        ensures
            fut.item == item,
            fut.chan@ == self.chan(),
    {
        ChTxSendFuture { item, chan: Ghost(self.chan@) }
    }

    /// A second sender handle of the same channel.
    pub fn clone(&self, ch: &mut Channel<T>) -> (tx: ChTx<T>)
        requires
            old(ch).wf(),
            self.chan() == old(ch).id(),
            old(ch)@.tx_cnt < usize::MAX,
        ensures
            final(ch).wf(),
            final(ch).id() == old(ch).id(),
            tx.chan() == old(ch).id(),
            final(ch)@ == (ChannelView { tx_cnt: old(ch)@.tx_cnt + 1, ..old(ch)@ }),
    {
        ch.tx_cnt = ch.tx_cnt + 1;
        ChTx { marker: PhantomData, chan: Ghost(self.chan@) }
    }

    /// Drops this sender handle; when it was the last one, every waiting
    /// receiver is woken.
    pub fn drop(self, ch: &mut Channel<T>) -> (woken: Vec<u64>)
        requires
            old(ch).wf(),
            self.chan() == old(ch).id(),
            old(ch)@.tx_cnt > 0,
        ensures
            final(ch).wf(),
            final(ch).id() == old(ch).id(),
            final(ch)@ == tx_drop_next(old(ch)@),
            woken@ == tx_drop_woken(old(ch)@),
    {
        ch.tx_cnt = ch.tx_cnt - 1;
        if ch.tx_cnt == 0 {
            drain_wakers(&mut ch.pending_rx)
        } else {
            Vec::new()
        }
    }
}

impl<T> ChTxSendFuture<T> {
    /// Polls the send once with the given waker.
    ///
    /// With no receiver left the send is over and the item is dropped; with a
    /// full buffer the waker waits among the senders; else the item is
    /// buffered and the oldest waiting receiver is woken.
    pub fn poll(self, ch: &mut Channel<T>, waker: u64) -> (r: SendPoll<T>)
        requires
            old(ch).wf(),
            self.chan@ == old(ch).id(),
        ensures
            final(ch).wf(),
            final(ch).id() == old(ch).id(),
            final(ch)@ == send_next(old(ch)@, self.item, waker),
            send_completes(old(ch)@) <==> r is Ready,
            match r {
                SendPoll::Ready { woken } => woken == send_woken(old(ch)@),
                SendPoll::Pending(fut) => fut.item == self.item && fut.chan == self.chan,
            },
    {
        if ch.rx_cnt == 0 {
            SendPoll::Ready { woken: None }
        } else if ch.capacity == ch.buffer.len() {
            ch.pending_tx.push_back(waker);
            SendPoll::Pending(self)
        } else {
            ch.buffer.push_back(self.item);
            let woken = ch.pending_rx.pop_front();
            SendPoll::Ready { woken }
        }
    }
}

impl<T> ChRx<T> {
    /// Starts a receive.
    pub fn recv(&self) -> (fut: ChRxRecvFuture<T>)
        ensures
            fut.chan() == self.chan(),
    {
        ChRxRecvFuture { marker: PhantomData, chan: Ghost(self.chan@) }
    }

    /// A second receiver handle of the same channel.
    pub fn clone(&self, ch: &mut Channel<T>) -> (rx: ChRx<T>)
        requires
            old(ch).wf(),
            self.chan() == old(ch).id(),
            old(ch)@.rx_cnt < usize::MAX,
        ensures
            final(ch).wf(),
            final(ch).id() == old(ch).id(),
            rx.chan() == old(ch).id(),
            final(ch)@ == (ChannelView { rx_cnt: old(ch)@.rx_cnt + 1, ..old(ch)@ }),
    {
        ch.rx_cnt = ch.rx_cnt + 1;
        ChRx { marker: PhantomData, chan: Ghost(self.chan@) }
    }

    /// Drops this receiver handle; when it was the last one, every waiting
    /// sender is woken.
    pub fn drop(self, ch: &mut Channel<T>) -> (woken: Vec<u64>)
        requires
            old(ch).wf(),
            self.chan() == old(ch).id(),
            old(ch)@.rx_cnt > 0,
        ensures
            final(ch).wf(),
            final(ch).id() == old(ch).id(),
            final(ch)@ == rx_drop_next(old(ch)@),
            woken@ == rx_drop_woken(old(ch)@),
    {
        ch.rx_cnt = ch.rx_cnt - 1;
        if ch.rx_cnt == 0 {
            drain_wakers(&mut ch.pending_tx)
        } else {
            Vec::new()
        }
    }
}

/// The outcome of one poll of a receive: the item (or `None` once every
/// sender is gone) and the sender waker to wake.
pub struct RecvReady<T> {
    pub item: Option<T>,
    pub woken: Option<u64>,
}

impl<T> ChRxRecvFuture<T> {
    /// Polls the receive once with the given waker.
    ///
    /// A buffered item is taken and the oldest waiting sender is woken; with
    /// nothing buffered and no sender left the receive ends with `None`; else
    /// the waker waits among the receivers.
    pub fn poll(&self, ch: &mut Channel<T>, waker: u64) -> (r: Poll<RecvReady<T>>)
        requires
            old(ch).wf(),
            self.chan() == old(ch).id(),
        ensures
            final(ch).wf(),
            final(ch).id() == old(ch).id(),
            final(ch)@ == recv_next(old(ch)@, waker),
            recv_completes(old(ch)@) <==> r is Ready,
            match r {
                Poll::Ready(rd) => rd.item == recv_item(old(ch)@) && rd.woken == recv_woken(
                    old(ch)@,
                ),
                Poll::Pending => true,
            },
    {
        match ch.buffer.pop_front() {
            Some(item) => {
                let woken = ch.pending_tx.pop_front();
                Poll::Ready(RecvReady { item: Some(item), woken })
            },
            None => {
                if ch.tx_cnt == 0 {
                    Poll::Ready(RecvReady { item: None, woken: None })
                } else {
                    ch.pending_rx.push_back(waker);
                    Poll::Pending
                }
            },
        }
    }
}

/// The buffer after a run of completed sends of `xs`, in order.
pub open spec fn send_all<T>(s: ChannelView<T>, xs: Seq<T>, waker: u64) -> ChannelView<T>
    decreases xs.len(),
{
    if xs.len() == 0 {
        s
    } else {
        send_all(send_next(s, xs[0], waker), xs.drop_first(), waker)
    }
}

/// The items that `n` receive polls in a row yield.
pub open spec fn recv_all<T>(s: ChannelView<T>, n: nat, waker: u64) -> Seq<Option<T>>
    decreases n,
{
    if n == 0 {
        Seq::empty()
    } else {
        seq![recv_item(s)] + recv_all(recv_next(s, waker), (n - 1) as nat, waker)
    }
}

/// Every operation keeps the channel within its capacity.
pub proof fn law_operations_keep_capacity<T>(s: ChannelView<T>, item: T, waker: u64)
    requires
        channel_wf(s),
    ensures
        channel_wf(send_next(s, item, waker)),
        channel_wf(recv_next(s, waker)),
        s.tx_cnt > 0 ==> channel_wf(tx_drop_next(s)),
        s.rx_cnt > 0 ==> channel_wf(rx_drop_next(s)),
{
}

/// While a receiver lives and there is room, sends append their items to the
/// buffer in the order they were made.
pub proof fn law_sends_append_in_order<T>(s: ChannelView<T>, xs: Seq<T>, waker: u64)
    requires
        s.rx_cnt > 0,
        s.buffer.len() + xs.len() <= s.capacity,
    ensures
        send_all(s, xs, waker).buffer == s.buffer + xs,
        send_all(s, xs, waker).rx_cnt == s.rx_cnt,
        send_all(s, xs, waker).tx_cnt == s.tx_cnt,
        send_all(s, xs, waker).capacity == s.capacity,
    decreases xs.len(),
{
    if xs.len() > 0 {
        let s1 = send_next(s, xs[0], waker);
        law_sends_append_in_order(s1, xs.drop_first(), waker);
        assert(s.buffer.push(xs[0]) + xs.drop_first() =~= s.buffer + xs);
    } else {
        assert(s.buffer + xs =~= s.buffer);
    }
}

/// Receives take the buffered items from the front, one per receive.
pub proof fn law_receives_take_from_front<T>(s: ChannelView<T>, n: nat, waker: u64)
    requires
        n <= s.buffer.len(),
    ensures
        recv_all(s, n, waker) == s.buffer.take(n as int).map_values(|x: T| Some(x)),
    decreases n,
{
    if n > 0 {
        let s1 = recv_next(s, waker);
        law_receives_take_from_front(s1, (n - 1) as nat, waker);
        assert(seq![Some(s.buffer[0])] + s1.buffer.take(n - 1).map_values(|x: T| Some(x))
            =~= s.buffer.take(n as int).map_values(|x: T| Some(x)));
    } else {
        assert(recv_all(s, n, waker) =~= s.buffer.take(n as int).map_values(|x: T| Some(x)));
    }
}

/// A channel is first-in first-out: on a channel with a live receiver and
/// room for them, the items of a run of sends come out of the following
/// receives after what was already buffered, in the order they were sent.
pub proof fn law_fifo<T>(s: ChannelView<T>, xs: Seq<T>, waker: u64)
    requires
        s.rx_cnt > 0,
        s.buffer.len() + xs.len() <= s.capacity,
    ensures
        recv_all(send_all(s, xs, waker), s.buffer.len() + xs.len(), waker)
            == (s.buffer + xs).map_values(|x: T| Some(x)),
{
    law_sends_append_in_order(s, xs, waker);
    let t = send_all(s, xs, waker);
    law_receives_take_from_front(t, s.buffer.len() + xs.len(), waker);
    assert(t.buffer.take(t.buffer.len() as int) =~= t.buffer);
}

/// Once the last sender is gone no receiver waits: every receive ends at
/// once, with a buffered item while there is one and with `None` after.
pub proof fn law_receivers_released_when_senders_gone<T>(s: ChannelView<T>, waker: u64)
    requires
        s.tx_cnt == 1,
    ensures
        tx_drop_next(s).pending_rx.len() == 0,
        tx_drop_woken(s) == s.pending_rx,
        recv_completes(tx_drop_next(s)),
        recv_item(tx_drop_next(s)) == recv_item(s),
        tx_drop_next(s).buffer.len() == 0 ==> recv_next(tx_drop_next(s), waker) == tx_drop_next(s),
{
}

/// Once the last receiver is gone no sender waits: every send ends at once
/// and leaves the channel as it was.
pub proof fn law_senders_released_when_receivers_gone<T>(s: ChannelView<T>, item: T, waker: u64)
    requires
        s.rx_cnt == 1,
    ensures
        rx_drop_next(s).pending_tx.len() == 0,
        rx_drop_woken(s) == s.pending_tx,
        send_completes(rx_drop_next(s)),
        send_next(rx_drop_next(s), item, waker) == rx_drop_next(s),
        send_woken(rx_drop_next(s)) is None,
{
}

/// Dropping a handle undoes cloning it.
pub proof fn law_drop_undoes_clone<T>(s: ChannelView<T>)
    requires
        s.tx_cnt > 0,
        s.rx_cnt > 0,
    ensures
        tx_drop_next(ChannelView { tx_cnt: s.tx_cnt + 1, ..s }) == s,
        tx_drop_woken(ChannelView { tx_cnt: s.tx_cnt + 1, ..s }) == Seq::<u64>::empty(),
        rx_drop_next(ChannelView { rx_cnt: s.rx_cnt + 1, ..s }) == s,
        rx_drop_woken(ChannelView { rx_cnt: s.rx_cnt + 1, ..s }) == Seq::<u64>::empty(),
{
}

/// A send that finds the buffer full waits, and the receive that next takes
/// an item wakes the sender that waited longest.
pub proof fn law_full_send_woken_by_recv<T>(s: ChannelView<T>, item: T, w_tx: u64, w_rx: u64)
    requires
        channel_wf(s),
        s.rx_cnt > 0,
        s.buffer.len() == s.capacity,
        s.capacity > 0,
        s.pending_tx.len() == 0,
    ensures
        !send_completes(s),
        recv_completes(send_next(s, item, w_tx)),
        recv_woken(send_next(s, item, w_tx)) == Some(w_tx),
        send_completes(recv_next(send_next(s, item, w_tx), w_rx)),
{
}

/// A receive that finds nothing buffered waits, and the send that next
/// completes wakes the receiver that waited longest.
pub proof fn law_empty_recv_woken_by_send<T>(s: ChannelView<T>, item: T, w_tx: u64, w_rx: u64)
    requires
        channel_wf(s),
        s.tx_cnt > 0,
        s.rx_cnt > 0,
        s.buffer.len() == 0,
        s.capacity > 0,
        s.pending_rx.len() == 0,
    ensures
        !recv_completes(s),
        send_completes(recv_next(s, w_rx)),
        send_woken(recv_next(s, w_rx)) == Some(w_rx),
        recv_item(send_next(recv_next(s, w_rx), item, w_tx)) == Some(item),
{
}

/// One operation on a channel: a poll of a send or of a receive (with its
/// waker), or cloning or dropping a sender or receiver handle.
pub enum ChannelOp<T> {
    Send(T, u64),
    Recv(u64),
    TxClone,
    TxDrop,
    RxClone,
    RxDrop,
}

/// The state after one operation.
pub open spec fn op_next<T>(s: ChannelView<T>, op: ChannelOp<T>) -> ChannelView<T> {
    match op {
        ChannelOp::Send(x, w) => send_next(s, x, w),
        ChannelOp::Recv(w) => recv_next(s, w),
        ChannelOp::TxClone => ChannelView { tx_cnt: s.tx_cnt + 1, ..s },
        ChannelOp::TxDrop => tx_drop_next(s),
        ChannelOp::RxClone => ChannelView { rx_cnt: s.rx_cnt + 1, ..s },
        ChannelOp::RxDrop => rx_drop_next(s),
    }
}

/// The item that one operation puts into the channel: that of a send poll
/// that completes while a receiver lives.
pub open spec fn op_accepted<T>(s: ChannelView<T>, op: ChannelOp<T>) -> Seq<T> {
    match op {
        ChannelOp::Send(x, _) => if s.rx_cnt > 0 && s.buffer.len() != s.capacity {
            seq![x]
        } else {
            Seq::empty()
        },
        _ => Seq::empty(),
    }
}

/// The item that one operation takes out: that of a receive poll that
/// yields an item.
pub open spec fn op_received<T>(s: ChannelView<T>, op: ChannelOp<T>) -> Seq<T> {
    match op {
        ChannelOp::Recv(_) => if s.buffer.len() > 0 {
            seq![s.buffer[0]]
        } else {
            Seq::empty()
        },
        _ => Seq::empty(),
    }
}

/// The state after a run of operations.
pub open spec fn trace_state<T>(s: ChannelView<T>, ops: Seq<ChannelOp<T>>) -> ChannelView<T>
    decreases ops.len(),
{
    if ops.len() == 0 {
        s
    } else {
        trace_state(op_next(s, ops[0]), ops.drop_first())
    }
}

/// The items a run of operations puts in, in order.
pub open spec fn trace_accepted<T>(s: ChannelView<T>, ops: Seq<ChannelOp<T>>) -> Seq<T>
    decreases ops.len(),
{
    if ops.len() == 0 {
        Seq::empty()
    } else {
        op_accepted(s, ops[0]) + trace_accepted(op_next(s, ops[0]), ops.drop_first())
    }
}

/// The items a run of operations takes out, in order.
pub open spec fn trace_received<T>(s: ChannelView<T>, ops: Seq<ChannelOp<T>>) -> Seq<T>
    decreases ops.len(),
{
    if ops.len() == 0 {
        Seq::empty()
    } else {
        op_received(s, ops[0]) + trace_received(op_next(s, ops[0]), ops.drop_first())
    }
}

/// One operation neither loses, duplicates nor reorders an item: what it
/// takes out, followed by the buffer after it, is the buffer before it
/// followed by what it puts in.
pub proof fn lemma_op_keeps_items<T>(s: ChannelView<T>, op: ChannelOp<T>)
    ensures
        op_received(s, op) + op_next(s, op).buffer == s.buffer + op_accepted(s, op),
{
    match op {
        ChannelOp::Send(x, w) => {
            assert(op_received(s, op) + op_next(s, op).buffer =~= s.buffer + op_accepted(s, op));
        },
        ChannelOp::Recv(w) => {
            if s.buffer.len() > 0 {
                assert(seq![s.buffer[0]] + s.buffer.drop_first() =~= s.buffer);
            }
            assert(op_received(s, op) + op_next(s, op).buffer =~= s.buffer + op_accepted(s, op));
        },
        _ => {
            assert(op_received(s, op) + op_next(s, op).buffer =~= s.buffer + op_accepted(s, op));
        },
    }
}

/// Over any run of sends, receives, clones and drops, the channel neither
/// loses, duplicates nor reorders items: the items received, followed by
/// what is still buffered, are the items buffered at the start followed by
/// the items accepted, in the order of the operations.
pub proof fn law_fifo_any_interleaving<T>(s: ChannelView<T>, ops: Seq<ChannelOp<T>>)
    ensures
        trace_received(s, ops) + trace_state(s, ops).buffer == s.buffer + trace_accepted(s, ops),
    decreases ops.len(),
{
    if ops.len() == 0 {
        assert(trace_received(s, ops) + trace_state(s, ops).buffer =~= s.buffer + trace_accepted(s, ops));
    } else {
        let op = ops[0];
        let s1 = op_next(s, op);
        let rest = ops.drop_first();
        lemma_op_keeps_items(s, op);
        law_fifo_any_interleaving(s1, rest);
        let r0 = op_received(s, op);
        let a0 = op_accepted(s, op);
        let r = trace_received(s1, rest);
        let a = trace_accepted(s1, rest);
        let b = trace_state(s1, rest).buffer;
        assert(r + b == s1.buffer + a);
        assert((r0 + r) + b =~= r0 + (r + b));
        assert(r0 + (s1.buffer + a) =~= (r0 + s1.buffer) + a);
        assert((s.buffer + a0) + a =~= s.buffer + (a0 + a));
    }
}

/// On a channel made by `new_channel`, every item received was accepted
/// earlier, and what was accepted is what was received followed by what is
/// still buffered, in order.
pub proof fn law_fifo_from_new<T>(capacity: nat, ops: Seq<ChannelOp<T>>)
    ensures
        ({
            let s = ChannelView::<T> {
                buffer: Seq::empty(),
                capacity,
                tx_cnt: 1,
                rx_cnt: 1,
                pending_tx: Seq::empty(),
                pending_rx: Seq::empty(),
            };
            trace_received(s, ops) + trace_state(s, ops).buffer == trace_accepted(s, ops)
        }),
{
    let s = ChannelView::<T> {
        buffer: Seq::empty(),
        capacity,
        tx_cnt: 1,
        rx_cnt: 1,
        pending_tx: Seq::empty(),
        pending_rx: Seq::empty(),
    };
    law_fifo_any_interleaving(s, ops);
    assert(s.buffer + trace_accepted(s, ops) =~= trace_accepted(s, ops));
}

/// Whether every drop in a run of operations drops a handle that exists.
pub open spec fn trace_valid<T>(s: ChannelView<T>, ops: Seq<ChannelOp<T>>) -> bool
    decreases ops.len(),
{
    if ops.len() == 0 {
        true
    } else {
        &&& (ops[0] is TxDrop ==> s.tx_cnt > 0)
        &&& (ops[0] is RxDrop ==> s.rx_cnt > 0)
        &&& trace_valid(op_next(s, ops[0]), ops.drop_first())
    }
}

/// Sender handles made minus sender handles dropped in a run of operations.
pub open spec fn tx_change<T>(ops: Seq<ChannelOp<T>>) -> int
    decreases ops.len(),
{
    if ops.len() == 0 {
        0
    } else {
        (if ops[0] is TxClone {
            1int
        } else if ops[0] is TxDrop {
            -1int
        } else {
            0int
        }) + tx_change(ops.drop_first())
    }
}

/// Receiver handles made minus receiver handles dropped in a run of operations.
pub open spec fn rx_change<T>(ops: Seq<ChannelOp<T>>) -> int
    decreases ops.len(),
{
    if ops.len() == 0 {
        0
    } else {
        (if ops[0] is RxClone {
            1int
        } else if ops[0] is RxDrop {
            -1int
        } else {
            0int
        }) + rx_change(ops.drop_first())
    }
}

/// The channel counts its live handles: over any run of operations in which
/// every drop drops a live handle, the sender (receiver) count moves by the
/// handles cloned minus the handles dropped, and nothing else changes it.
/// From `new_channel`, which hands out one of each, the counts are one plus
/// the clones minus the drops.
pub proof fn law_handle_counts<T>(s: ChannelView<T>, ops: Seq<ChannelOp<T>>)
    requires
        trace_valid(s, ops),
    ensures
        trace_state(s, ops).tx_cnt == s.tx_cnt + tx_change(ops),
        trace_state(s, ops).rx_cnt == s.rx_cnt + rx_change(ops),
    decreases ops.len(),
{
    if ops.len() > 0 {
        law_handle_counts(op_next(s, ops[0]), ops.drop_first());
    }
}

/// A receive that takes an item wakes the sender that waited longest, and
/// only that one leaves the queue of waiting senders.
pub proof fn law_recv_wakes_oldest_sender<T>(s: ChannelView<T>, waker: u64)
    requires
        s.buffer.len() > 0,
        s.pending_tx.len() > 0,
    ensures
        recv_woken(s) == Some(s.pending_tx[0]),
        recv_next(s, waker).pending_tx == s.pending_tx.subrange(1, s.pending_tx.len() as int),
        recv_next(s, waker).pending_rx == s.pending_rx,
{
}

/// A send that completes into the buffer wakes the receiver that waited
/// longest, and only that one leaves the queue of waiting receivers.
pub proof fn law_send_wakes_oldest_receiver<T>(s: ChannelView<T>, item: T, waker: u64)
    requires
        s.rx_cnt > 0,
        s.buffer.len() < s.capacity,
        s.pending_rx.len() > 0,
    ensures
        send_woken(s) == Some(s.pending_rx[0]),
        send_next(s, item, waker).pending_rx == s.pending_rx.subrange(1, s.pending_rx.len() as int),
        send_next(s, item, waker).pending_tx == s.pending_tx,
{
}

/// Senders that wait on a full channel are woken in the order they began to
/// wait: parked as `w1` then `w2`, the next two receives wake `w1` then `w2`.
pub proof fn law_parked_senders_woken_in_order<T>(s: ChannelView<T>, x1: T, x2: T, w1: u64, w2: u64, r: u64)
    requires
        channel_wf(s),
        s.rx_cnt > 0,
        s.capacity >= 2,
        s.buffer.len() == s.capacity,
        s.pending_tx.len() == 0,
    ensures
        ({
            let s2 = send_next(send_next(s, x1, w1), x2, w2);
            &&& recv_woken(s2) == Some(w1)
            &&& recv_woken(recv_next(s2, r)) == Some(w2)
        }),
{
    let s2 = send_next(send_next(s, x1, w1), x2, w2);
    assert(s2.pending_tx =~= seq![w1, w2]);
    assert(recv_next(s2, r).pending_tx =~= seq![w2]);
}

/// Receivers that wait on an empty channel are woken in the order they
/// began to wait: parked as `w1` then `w2`, the next two sends wake `w1`
/// then `w2`.
pub proof fn law_parked_receivers_woken_in_order<T>(s: ChannelView<T>, x1: T, x2: T, w1: u64, w2: u64, t: u64)
    requires
        channel_wf(s),
        s.tx_cnt > 0,
        s.rx_cnt > 0,
        s.capacity >= 2,
        s.buffer.len() == 0,
        s.pending_rx.len() == 0,
    ensures
        ({
            let s2 = recv_next(recv_next(s, w1), w2);
            &&& send_woken(s2) == Some(w1)
            &&& send_woken(send_next(s2, x1, t)) == Some(w2)
            &&& recv_item(send_next(send_next(s2, x1, t), x2, t)) == Some(x1)
        }),
{
    let s2 = recv_next(recv_next(s, w1), w2);
    assert(s2.pending_rx =~= seq![w1, w2]);
    assert(send_next(s2, x1, t).pending_rx =~= seq![w2]);
}

} // verus!
