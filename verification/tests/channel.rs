use minirt::channel::{new_channel, Channel, RecvReady, SendPoll};
use minirt::Poll;

fn send(ch: &mut Channel<i32>, tx: &minirt::channel::ChTx<i32>, item: i32, waker: u64) -> SendPoll<i32> {
    tx.send(item).poll(ch, waker)
}

fn recv(ch: &mut Channel<i32>, rx: &minirt::channel::ChRx<i32>, waker: u64) -> Poll<RecvReady<i32>> {
    rx.recv().poll(ch, waker)
}

#[test]
fn fifo_order_through_the_buffer() {
    let (mut ch, tx, rx) = new_channel::<i32>(3);
    for (i, x) in [1, 2, 3].iter().enumerate() {
        match send(&mut ch, &tx, *x, i as u64) {
            SendPoll::Ready { woken } => assert_eq!(woken, None),
            SendPoll::Pending(_) => panic!("send should complete"),
        }
    }
    assert_eq!(ch.len(), 3);
    let mut got = Vec::new();
    for _ in 0..3 {
        match recv(&mut ch, &rx, 9) {
            Poll::Ready(r) => got.push(r.item.unwrap()),
            Poll::Pending => panic!("recv should complete"),
        }
    }
    assert_eq!(got, vec![1, 2, 3]);
    assert_eq!(ch.len(), 0);
}

#[test]
fn full_channel_parks_sender_and_recv_wakes_it() {
    let (mut ch, tx, rx) = new_channel::<i32>(1);
    assert!(matches!(send(&mut ch, &tx, 5, 1), SendPoll::Ready { woken: None }));
    let fut = match send(&mut ch, &tx, 6, 2) {
        SendPoll::Pending(f) => f,
        SendPoll::Ready { .. } => panic!("channel is full"),
    };
    assert_eq!(fut.item, 6);
    match recv(&mut ch, &rx, 3) {
        Poll::Ready(r) => {
            assert_eq!(r.item, Some(5));
            assert_eq!(r.woken, Some(2));
        }
        Poll::Pending => panic!("an item is buffered"),
    }
    assert!(matches!(fut.poll(&mut ch, 2), SendPoll::Ready { woken: None }));
    match recv(&mut ch, &rx, 3) {
        Poll::Ready(r) => assert_eq!(r.item, Some(6)),
        Poll::Pending => panic!("an item is buffered"),
    }
}

#[test]
fn empty_channel_parks_receiver_and_send_wakes_it() {
    let (mut ch, tx, rx) = new_channel::<i32>(2);
    assert!(matches!(recv(&mut ch, &rx, 7), Poll::Pending));
    assert!(matches!(recv(&mut ch, &rx, 8), Poll::Pending));
    assert!(matches!(send(&mut ch, &tx, 10, 1), SendPoll::Ready { woken: Some(7) }));
    assert!(matches!(send(&mut ch, &tx, 11, 1), SendPoll::Ready { woken: Some(8) }));
    assert!(matches!(send(&mut ch, &tx, 12, 1), SendPoll::Pending(_)));
}

#[test]
fn last_sender_drop_wakes_receivers_and_ends_recv() {
    let (mut ch, tx, rx) = new_channel::<i32>(1);
    let tx2 = tx.clone(&mut ch);
    assert_eq!(ch.sender_count(), 2);
    assert!(matches!(recv(&mut ch, &rx, 4), Poll::Pending));
    assert!(matches!(recv(&mut ch, &rx, 5), Poll::Pending));
    assert_eq!(tx2.drop(&mut ch), Vec::<u64>::new());
    assert_eq!(tx.drop(&mut ch), vec![4, 4 + 1]);
    assert_eq!(ch.sender_count(), 0);
    match recv(&mut ch, &rx, 6) {
        Poll::Ready(r) => {
            assert_eq!(r.item, None);
            assert_eq!(r.woken, None);
        }
        Poll::Pending => panic!("no sender is left"),
    }
}

#[test]
fn items_buffered_before_close_are_still_received() {
    let (mut ch, tx, rx) = new_channel::<i32>(2);
    assert!(matches!(send(&mut ch, &tx, 1, 0), SendPoll::Ready { .. }));
    assert!(tx.drop(&mut ch).is_empty());
    match recv(&mut ch, &rx, 0) {
        Poll::Ready(r) => assert_eq!(r.item, Some(1)),
        Poll::Pending => panic!(),
    }
    match recv(&mut ch, &rx, 0) {
        Poll::Ready(r) => assert_eq!(r.item, None),
        Poll::Pending => panic!(),
    }
}

#[test]
fn last_receiver_drop_wakes_senders_and_drops_sends() {
    let (mut ch, tx, rx) = new_channel::<i32>(1);
    let rx2 = rx.clone(&mut ch);
    assert_eq!(ch.receiver_count(), 2);
    assert!(matches!(send(&mut ch, &tx, 1, 0), SendPoll::Ready { .. }));
    assert!(matches!(send(&mut ch, &tx, 2, 3), SendPoll::Pending(_)));
    assert!(rx2.drop(&mut ch).is_empty());
    assert_eq!(rx.drop(&mut ch), vec![3]);
    assert!(matches!(send(&mut ch, &tx, 2, 3), SendPoll::Ready { woken: None }));
    assert_eq!(ch.len(), 1);
}

#[test]
fn try_push_rejects_when_full() {
    let mut ch: Channel<u8> = Channel::new(1);
    assert_eq!(ch.try_push(1), None);
    assert_eq!(ch.try_push(2), Some(2));
    assert_eq!(ch.len(), 1);
}

#[test]
fn zero_capacity_channel_never_buffers() {
    let (mut ch, tx, _rx) = new_channel::<i32>(0);
    assert!(matches!(send(&mut ch, &tx, 1, 0), SendPoll::Pending(_)));
    assert_eq!(ch.len(), 0);
}

#[test]
fn interleaved_sends_receives_and_handles_keep_order() {
    let (mut ch, tx, rx) = new_channel::<i32>(2);
    let tx2 = tx.clone(&mut ch);
    assert!(matches!(send(&mut ch, &tx, 1, 0), SendPoll::Ready { .. }));
    assert!(matches!(send(&mut ch, &tx2, 2, 0), SendPoll::Ready { .. }));
    match recv(&mut ch, &rx, 0) {
        Poll::Ready(r) => assert_eq!(r.item, Some(1)),
        Poll::Pending => panic!(),
    }
    let rx2 = rx.clone(&mut ch);
    assert!(matches!(send(&mut ch, &tx2, 3, 0), SendPoll::Ready { .. }));
    assert!(tx2.drop(&mut ch).is_empty());
    match recv(&mut ch, &rx2, 0) {
        Poll::Ready(r) => assert_eq!(r.item, Some(2)),
        Poll::Pending => panic!(),
    }
    assert!(rx.drop(&mut ch).is_empty());
    match recv(&mut ch, &rx2, 0) {
        Poll::Ready(r) => assert_eq!(r.item, Some(3)),
        Poll::Pending => panic!(),
    }
}
