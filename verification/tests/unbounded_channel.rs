//! The channel of unbounded capacity.
use futures::{Async, AsyncSink};
use std::sync::mpsc::TryRecvError;
use zchan::list::{Channel, List};
use zchan::{SendTimeoutError, Shutdown};

#[test]
fn messages_come_in_order_over_many_blocks() {
    let mut chan: Channel<usize> = Channel::new();
    let mut next: usize = 0;
    let mut expected: usize = 0;
    for round in 0..200 {
        for _ in 0..(round % 7) {
            assert!(chan.try_send(next).is_ok());
            next += 1;
        }
        for _ in 0..(round % 5) {
            match chan.try_recv() {
                Ok(msg) => {
                    assert_eq!(msg, expected);
                    expected += 1;
                }
                Err(e) => assert_eq!(e, TryRecvError::Empty),
            }
        }
        assert_eq!(chan.len(), next - expected);
        assert_eq!(chan.is_empty(), next == expected);
        assert!(!chan.is_full());
    }
    assert!(expected > 310);
    assert!(next - expected > 62);
    let rest = chan.into_messages();
    assert_eq!(rest, (expected..next).collect::<Vec<usize>>());
}

#[test]
fn lengths_around_the_end_of_a_block() {
    for start in 0..70 {
        let mut chan: Channel<usize> = Channel::new();
        for i in 0..start {
            assert!(chan.try_send(i).is_ok());
            assert_eq!(chan.try_recv(), Ok(i));
        }
        for i in 0..70 {
            assert_eq!(chan.len(), i);
            assert!(chan.try_send(i).is_ok());
        }
        for i in 0..70 {
            assert_eq!(chan.len(), 70 - i);
            assert_eq!(chan.try_recv(), Ok(i));
        }
        assert!(chan.is_empty());
        assert_eq!(chan.into_messages(), Vec::<usize>::new());
    }
}

#[test]
fn a_new_channel_is_empty_and_open() {
    let mut chan: Channel<i32> = Channel::default();
    assert_eq!(chan.capacity(), None);
    assert_eq!(chan.len(), 0);
    assert!(chan.is_empty());
    assert!(!chan.is_shutdown());
    assert_eq!(chan.try_recv(), Err(TryRecvError::Empty));
    assert_eq!(chan.into_messages(), Vec::<i32>::new());
}

#[test]
fn a_closed_unbounded_channel_drains() {
    let mut chan: Channel<i32> = Channel::new();
    assert!(chan.send(1).is_ok());
    assert!(chan.send(2).is_ok());
    assert!(chan.shutdown());
    assert!(!chan.shutdown());
    assert!(chan.is_shutdown());
    assert!(matches!(chan.send(3), Err(SendTimeoutError::Disconnected(3))));
    let refused = chan.try_send(4).unwrap_err();
    assert!(refused.is_closed());
    assert_eq!(refused.into_inner(), 4);
    assert!(chan.sink_start_send(5).is_err());
    assert_eq!(chan.len(), 2);
    assert_eq!(chan.try_recv(), Ok(1));
    assert_eq!(chan.poll(0), Ok(Async::Ready(Some(2))));
    assert_eq!(chan.try_recv(), Err(TryRecvError::Disconnected));
    assert_eq!(chan.poll(0), Ok(Async::Ready(None)));
}

#[test]
fn a_poll_waits_and_is_notified() {
    let mut chan: Channel<i32> = Channel::new();
    assert_eq!(chan.poll(4), Ok(Async::NotReady));
    assert!(matches!(chan.sink_start_send(1), Ok(AsyncSink::Ready)));
    assert!(matches!(chan.poll_complete(), Ok(Async::Ready(()))));
    assert_eq!(chan.take_notified(), vec![4]);
    assert_eq!(chan.poll(4), Ok(Async::Ready(Some(1))));
    assert_eq!(chan.poll(4), Ok(Async::NotReady));
    assert!(chan.shutdown());
    assert_eq!(chan.take_notified(), vec![4]);
}

#[test]
fn a_block_is_read_out_of_order() {
    let mut chan: Channel<usize> = Channel::new();
    for i in 0..40 {
        assert!(chan.try_send(i).is_ok());
    }
    let mut tokens: Vec<List> = Vec::new();
    for _ in 0..40 {
        let mut token = List::default();
        assert!(chan.start_recv(&mut token));
        tokens.push(token);
    }
    // The last slot of the block is read first, and then every other one, from the end.
    assert_eq!(chan.read(&mut tokens[30]), Ok(30));
    for i in (0..40).rev() {
        if i != 30 {
            assert_eq!(chan.read(&mut tokens[i]), Ok(i));
        }
    }
    assert!(chan.is_empty());
    for i in 0..100 {
        assert!(chan.try_send(i).is_ok());
    }
    for i in 0..100 {
        assert_eq!(chan.try_recv(), Ok(i));
    }
}

#[test]
fn sends_under_way_keep_their_positions() {
    let mut chan: Channel<&str> = Channel::new();
    let mut first = List::default();
    let mut second = List::default();
    assert!(chan.start_send(&mut first));
    assert!(chan.start_send(&mut second));
    assert!(chan.write(&mut second, "b").is_ok());
    assert!(chan.write(&mut first, "a").is_ok());
    assert_eq!(chan.try_recv(), Ok("a"));
    assert_eq!(chan.try_recv(), Ok("b"));
}

#[test]
fn a_token_of_a_closed_unbounded_channel() {
    let mut chan: Channel<i32> = Channel::new();
    chan.shutdown();
    let mut token = List::default();
    assert!(chan.start_send(&mut token));
    assert_eq!(chan.write(&mut token, 1), Err(1));
    assert!(chan.start_recv(&mut token));
    assert_eq!(chan.read(&mut token), Err(()));
}

#[test]
fn an_unbounded_channel_that_is_given_up() {
    let mut chan: Channel<String> = Channel::new();
    for i in 0..65 {
        assert!(chan.try_send(format!("{}", i)).is_ok());
    }
    for _ in 0..31 {
        assert!(chan.try_recv().is_ok());
    }
    let expected: Vec<String> = (31..65).map(|i| format!("{}", i)).collect();
    assert_eq!(chan.into_messages(), expected);
}

#[test]
fn a_default_token_names_no_slot() {
    let mut chan: Channel<i32> = Channel::new();
    let mut token = List::default();
    assert_eq!(chan.write(&mut token, 4), Err(4));
    assert_eq!(chan.read(&mut token), Err(()));
    assert_eq!(chan.poll_read(&mut token), Ok(Async::Ready(None)));
    assert_eq!(chan.len(), 0);
    assert_eq!(chan.take_notified(), Vec::<u64>::new());
}

#[test]
fn whole_sends_and_receives_pass_by_those_under_way() {
    let mut chan: Channel<&str> = Channel::new();
    let mut send = List::default();
    assert!(chan.try_send("a").is_ok());
    assert!(chan.start_send(&mut send));
    assert!(chan.try_send("c").is_ok());
    assert_eq!(chan.len(), 3);
    assert_eq!(chan.poll(1), Ok(Async::Ready(Some("a"))));
    assert!(chan.write(&mut send, "b").is_ok());
    let mut recv = List::default();
    assert!(chan.start_recv(&mut recv));
    assert_eq!(chan.try_recv(), Ok("c"));
    assert!(chan.try_send("d").is_ok());
    assert_eq!(chan.poll_read(&mut recv), Ok(Async::Ready(Some("b"))));
    assert_eq!(chan.try_recv(), Ok("d"));
}

#[test]
fn when_a_poll_would_wait() {
    let mut chan: Channel<i32> = Channel::new();
    assert!(chan.poll_registers());
    assert_eq!(chan.poll(1), Ok(Async::NotReady));
    assert!(!chan.poll_registers());
    assert!(chan.try_send(5).is_ok());
    assert!(!chan.poll_registers());
    assert_eq!(chan.try_recv(), Ok(5));
    assert!(chan.poll_registers());
    chan.shutdown();
    assert!(!chan.poll_registers());
}

#[test]
fn tasks_that_wait_for_messages_are_notified_in_order() {
    let mut chan: Channel<i32> = Channel::new();
    assert!(chan.try_send(0).is_ok());
    assert_eq!(chan.try_recv(), Ok(0));
    // A wake-up is owed: the first poll is notified at once, and may so wait again.
    assert_eq!(chan.poll(1), Ok(Async::NotReady));
    assert_eq!(chan.take_notified(), vec![1]);
    assert_eq!(chan.poll(2), Ok(Async::NotReady));
    assert_eq!(chan.poll(3), Ok(Async::NotReady));
    assert!(chan.try_send(1).is_ok());
    assert_eq!(chan.take_notified(), vec![2]);
    assert_eq!(chan.try_recv(), Ok(1));
    assert_eq!(chan.poll(3), Ok(Async::NotReady));
    assert!(chan.try_send(2).is_ok());
    assert_eq!(chan.take_notified(), vec![3]);
}
