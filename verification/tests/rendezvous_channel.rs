//! The channel of capacity zero.
use futures::{Async, AsyncSink};
use std::sync::mpsc::TryRecvError;
use zchan::zero::{Blocking, Channel};
use zchan::{RecvTimeoutError, SendTimeoutError, Shutdown};

/// The place at which an operation waits.
fn parked<R>(res: Blocking<R>) -> usize {
    match res {
        Blocking::Parked(zero) => zero,
        Blocking::Ready(_) => panic!("the operation does not wait"),
    }
}

/// What an operation has come to.
fn ready<R>(res: Blocking<R>) -> R {
    match res {
        Blocking::Ready(res) => res,
        Blocking::Parked(_) => panic!("the operation waits"),
    }
}

#[test]
fn there_is_no_room_in_the_channel() {
    let chan: Channel<i32> = Channel::default();
    assert_eq!(chan.len(), 0);
    assert_eq!(chan.capacity(), Some(0));
    assert!(chan.is_empty());
    assert!(chan.is_full());
    assert!(!chan.is_shutdown());
}

#[test]
fn a_send_waits_for_a_receive() {
    let mut chan: Channel<i32> = Channel::new();
    let zero = parked(chan._send(5, 1));
    assert_eq!(parked(chan.resume_send(zero)), zero);
    assert_eq!(chan.try_recv(2), Ok(5));
    assert_eq!(chan.take_unparked(), vec![1]);
    assert!(ready(chan.resume_send(zero)).is_ok());
    assert_eq!(chan.try_recv(2), Err(TryRecvError::Empty));
}

#[test]
fn a_receive_waits_for_a_send() {
    let mut chan: Channel<i32> = Channel::new();
    let zero = parked(chan.recv(1));
    assert_eq!(parked(chan.resume_recv(zero)), zero);
    assert!(chan.try_send(7, 2).is_ok());
    assert_eq!(chan.take_unparked(), vec![1]);
    assert_eq!(ready(chan.resume_recv(zero)), Ok(7));
    let refused = chan.try_send(8, 2).unwrap_err();
    assert!(refused.is_full());
    assert_eq!(refused.into_inner(), 8);
}

#[test]
fn no_thread_meets_itself() {
    let mut chan: Channel<i32> = Channel::new();
    let zero = parked(chan._send(5, 1));
    assert_eq!(chan.try_recv(1), Err(TryRecvError::Empty));
    assert!(matches!(chan.recv(1), Blocking::Parked(_)));
    assert_eq!(ready(chan.recv(2)), Ok(5));
    assert!(ready(chan.resume_send(zero)).is_ok());
}

#[test]
fn those_who_wait_are_met_in_order() {
    let mut chan: Channel<i32> = Channel::new();
    let mut places: Vec<usize> = Vec::new();
    for i in 0..5 {
        places.push(parked(chan._send(i, 10 + i as u64)));
    }
    // The second thread skips its own message.
    assert_eq!(chan.try_recv(10), Ok(1));
    assert_eq!(chan.try_recv(99), Ok(0));
    assert_eq!(chan.try_recv(99), Ok(2));
    assert_eq!(chan.take_unparked(), vec![11, 10, 12]);
    assert!(ready(chan.resume_send(places[1])).is_ok());
    assert_eq!(parked(chan.resume_send(places[3])), places[3]);
    assert_eq!(chan.try_recv(99), Ok(3));
    assert_eq!(chan.try_recv(99), Ok(4));
    assert_eq!(chan.try_recv(99), Err(TryRecvError::Empty));
}

#[test]
fn a_place_is_used_again() {
    let mut chan: Channel<i32> = Channel::new();
    let mut last: Option<usize> = None;
    for i in 0..10 {
        let zero = parked(chan._send(i, 1));
        if let Some(last) = last {
            assert_eq!(zero, last);
        }
        last = Some(zero);
        assert_eq!(chan.try_recv(2), Ok(i));
        assert!(ready(chan.resume_send(zero)).is_ok());
    }
}

#[test]
fn the_message_passes_in_a_step_of_its_own() {
    let mut chan: Channel<i32> = Channel::new();
    let receive = parked(chan.recv(1));
    let mut zero = chan.select_receiver(2).unwrap();
    assert_eq!(zero, receive);
    // Paired up, but the message is not there yet; nobody else can pair up with the receive.
    assert_eq!(parked(chan.resume_recv(receive)), receive);
    assert_eq!(chan.select_receiver(3), None);
    assert_eq!(chan.write(&mut zero, 6), Ok(()));
    assert_eq!(ready(chan.resume_recv(receive)), Ok(6));

    let send = parked(chan._send(9, 1));
    let mut zero = chan.select_sender(2).unwrap();
    assert_eq!(zero, send);
    assert_eq!(parked(chan.resume_send(send)), send);
    assert_eq!(chan.select_sender(3), None);
    assert_eq!(chan.read(&mut zero), Ok(9));
    assert!(ready(chan.resume_send(send)).is_ok());

    let mut none: usize = 0;
    assert_eq!(chan.write(&mut none, 1), Err(1));
    assert_eq!(chan.read(&mut none), Err(()));
}

#[test]
fn closing_ends_all_waiting() {
    let mut chan: Channel<i32> = Channel::new();
    let send = parked(chan._send(5, 1));
    let receive = parked(chan.recv(1));
    assert!(chan.shutdown());
    assert!(!chan.shutdown());
    assert!(chan.is_shutdown());
    assert_eq!(chan.take_unparked(), vec![1, 1]);
    // Nobody pairs up with them any more.
    assert!(chan.try_send(6, 2).unwrap_err().is_closed());
    assert_eq!(chan.try_recv(2), Err(TryRecvError::Disconnected));
    assert!(matches!(
        ready(chan._send(7, 2)),
        Err(SendTimeoutError::Disconnected(7))
    ));
    assert_eq!(ready(chan.recv(2)), Err(RecvTimeoutError::Disconnected));
    assert!(matches!(
        ready(chan.resume_send(send)),
        Err(SendTimeoutError::Disconnected(5))
    ));
    assert_eq!(ready(chan.resume_recv(receive)), Err(RecvTimeoutError::Disconnected));
}

#[test]
fn a_pair_is_not_parted_by_closing() {
    let mut chan: Channel<i32> = Channel::new();
    let send = parked(chan._send(5, 1));
    let mut zero = chan.select_sender(2).unwrap();
    assert!(chan.shutdown());
    assert_eq!(chan.read(&mut zero), Ok(5));
    assert!(ready(chan.resume_send(send)).is_ok());
}

#[test]
fn a_poll_blocks_until_a_send_comes() {
    let mut chan: Channel<i32> = Channel::new();
    let zero = parked(chan.poll(1, 50));
    assert_eq!(parked(chan.resume_poll(zero)), zero);
    assert!(matches!(ready(chan.sink_start_send(3, 2, 60)), Ok(AsyncSink::Ready)));
    assert_eq!(chan.take_notified(), vec![50]);
    assert_eq!(ready(chan.resume_poll(zero)), Async::Ready(Some(3)));
    let zero = parked(chan.poll(1, 50));
    assert!(chan.shutdown());
    assert_eq!(ready(chan.resume_poll(zero)), Async::Ready(None));
    assert_eq!(ready(chan.poll(1, 50)), Async::Ready(None));
}

#[test]
fn a_poll_that_was_not_notified_is_not_ready() {
    let mut chan: Channel<i32> = Channel::new();
    let zero = parked(chan.poll(1, 50));
    assert_eq!(ready(chan.poll(3, 51)), Async::NotReady);
    assert!(chan.try_send(1, 2).is_ok());
    assert_eq!(ready(chan.resume_poll(zero)), Async::Ready(Some(1)));
}

#[test]
fn a_send_into_the_sink_blocks_until_a_receive_comes() {
    let mut chan: Channel<i32> = Channel::new();
    let zero = parked(chan.sink_start_send(3, 1, 60));
    assert_eq!(parked(chan.resume_sink(zero)), zero);
    assert_eq!(ready(chan.poll(2, 50)), Async::Ready(Some(3)));
    assert_eq!(chan.take_notified(), vec![60]);
    assert!(matches!(ready(chan.resume_sink(zero)), Ok(AsyncSink::Ready)));
    assert!(matches!(chan.poll_complete(), Ok(Async::Ready(()))));
    let zero = parked(chan.sink_start_send(4, 1, 60));
    assert!(chan.shutdown());
    assert!(ready(chan.resume_sink(zero)).is_err());
    assert!(ready(chan.sink_start_send(5, 1, 60)).is_err());
}

#[test]
fn when_a_poll_or_a_sink_would_wait() {
    let mut chan: Channel<i32> = Channel::new();
    assert!(chan.poll_registers(1));
    assert!(chan.sink_registers(1));
    let send = parked(chan._send(5, 1));
    assert!(chan.poll_registers(1));
    assert!(!chan.poll_registers(2));
    assert_eq!(chan.try_recv(2), Ok(5));
    assert!(ready(chan.resume_send(send)).is_ok());
    let receive = parked(chan.recv(1));
    assert!(chan.sink_registers(1));
    assert!(!chan.sink_registers(2));
    assert!(chan.shutdown());
    assert!(!chan.sink_registers(1));
    assert!(!chan.poll_registers(2));
    assert_eq!(ready(chan.resume_recv(receive)), Err(RecvTimeoutError::Disconnected));
}

#[test]
fn every_message_passes_once() {
    let mut chan: Channel<u64> = Channel::new();
    let mut sends: Vec<usize> = Vec::new();
    for i in 0..10 {
        sends.push(parked(chan._send(i, i)));
    }
    let mut received: Vec<u64> = Vec::new();
    for _ in 0..4 {
        received.push(chan.try_recv(100).unwrap());
    }
    assert!(chan.shutdown());
    assert_eq!(chan.try_recv(100), Err(TryRecvError::Disconnected));
    let mut back: Vec<u64> = Vec::new();
    let mut sent: u64 = 0;
    for zero in sends {
        match ready(chan.resume_send(zero)) {
            Ok(()) => sent += 1,
            Err(SendTimeoutError::Disconnected(msg)) => back.push(msg),
            Err(SendTimeoutError::Timeout(_)) => unreachable!(),
        }
    }
    assert_eq!(received, vec![0, 1, 2, 3]);
    assert_eq!(sent, 4);
    assert_eq!(back, vec![4, 5, 6, 7, 8, 9]);
}
