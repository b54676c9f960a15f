use avtan::channel::{AvtanChannel, ChannelError, Recv};

#[test]
fn items_come_out_in_the_order_in_which_they_went_in() {
    let mut c: AvtanChannel<u32> = AvtanChannel::new();
    assert_eq!(c.send(10), Ok(None));
    assert_eq!(c.send(20), Ok(None));
    assert_eq!(c.send(30), Ok(None));
    assert_eq!(c.len(), 3);
    assert_eq!(c.recv(1), Recv::Item(10));
    assert_eq!(c.recv(2), Recv::Item(20));
    assert_eq!(c.recv(1), Recv::Item(30));
    assert_eq!(c.len(), 0);
}

#[test]
fn send_after_close_fails_with_closed() {
    let mut c: AvtanChannel<u32> = AvtanChannel::new();
    assert_eq!(c.send(1), Ok(None));
    assert!(!c.is_closed());
    assert_eq!(c.close(), Vec::<usize>::new());
    assert!(c.is_closed());
    assert_eq!(c.send(2), Err(ChannelError::Closed));
    assert_eq!(c.len(), 1);
}

#[test]
fn items_sent_before_close_are_received_after_it_then_the_stream_ends() {
    let mut c: AvtanChannel<&'static str> = AvtanChannel::new();
    assert_eq!(c.send("a"), Ok(None));
    assert_eq!(c.send("b"), Ok(None));
    let _ = c.close();
    assert_eq!(c.send("c"), Err(ChannelError::Closed));
    assert_eq!(c.recv(1), Recv::Item("a"));
    assert_eq!(c.recv(1), Recv::Item("b"));
    assert_eq!(c.recv(1), Recv::Finished);
    assert_eq!(c.recv(2), Recv::Finished);
}

#[test]
fn receive_on_an_open_empty_queue_blocks_the_receiver() {
    let mut c: AvtanChannel<u8> = AvtanChannel::new();
    assert_eq!(c.recv(4), Recv::Blocked);
    assert_eq!(c.recv(4), Recv::Blocked);
    assert_eq!(c.recv(5), Recv::Blocked);
    // One send wakes one receiver: the one that has waited longest.
    assert_eq!(c.send(7), Ok(Some(4)));
    assert_eq!(c.send(8), Ok(Some(5)));
    assert_eq!(c.send(9), Ok(None));
    assert_eq!(c.recv(4), Recv::Item(7));
    assert_eq!(c.recv(5), Recv::Item(8));
}

#[test]
fn close_wakes_every_blocked_receiver_and_is_idempotent() {
    let mut c: AvtanChannel<u8> = AvtanChannel::new();
    assert_eq!(c.recv(3), Recv::Blocked);
    assert_eq!(c.recv(1), Recv::Blocked);
    assert_eq!(c.recv(2), Recv::Blocked);
    assert_eq!(c.close(), vec![3, 1, 2]);
    assert_eq!(c.close(), Vec::<usize>::new());
    assert!(c.is_closed());
    assert_eq!(c.recv(3), Recv::Finished);
    assert_eq!(c.recv(1), Recv::Finished);
}

#[test]
fn a_receiver_that_gets_an_item_is_no_longer_blocked() {
    let mut c: AvtanChannel<u8> = AvtanChannel::new();
    assert_eq!(c.recv(1), Recv::Blocked);
    assert_eq!(c.recv(2), Recv::Blocked);
    assert_eq!(c.send(5), Ok(Some(1)));
    // The second receiver asks first and takes the item.
    assert_eq!(c.recv(2), Recv::Item(5));
    // Nobody is left to wake but the first, once it has asked again.
    assert_eq!(c.send(6), Ok(None));
    assert_eq!(c.recv(1), Recv::Item(6));
    assert_eq!(c.recv(1), Recv::Blocked);
    assert_eq!(c.close(), vec![1]);
}

#[test]
fn what_was_sent_is_handed_out_once_and_in_order_whatever_the_interleaving() {
    let mut c: AvtanChannel<u32> = AvtanChannel::new();
    let mut sent = Vec::new();
    let mut received = Vec::new();
    for round in 0..6u32 {
        for k in 0..=(round % 3) {
            let item = round * 10 + k;
            if c.send(item).is_ok() {
                sent.push(item);
            }
        }
        if round == 4 {
            let _ = c.close();
        }
        for receiver in 0..2usize {
            if let Recv::Item(item) = c.recv(receiver) {
                received.push(item);
            }
        }
    }
    while let Recv::Item(item) = c.recv(0) {
        received.push(item);
    }
    assert_eq!(sent, vec![0, 10, 11, 20, 21, 22, 30, 40, 41]);
    assert_eq!(received, sent);
    assert_eq!(c.recv(0), Recv::Finished);
}
