//! The channel of bounded capacity.
use futures::{Async, AsyncSink};
use std::sync::mpsc::TryRecvError;
use zchan::array::{Array, Channel, Claim, SendAttempt};
use zchan::{SendTimeoutError, Shutdown};

#[test]
fn messages_come_in_order_over_many_laps() {
    let mut chan: Channel<usize> = Channel::with_capacity(3);
    let mut next: usize = 0;
    let mut expected: usize = 0;
    for round in 0..50 {
        for _ in 0..(round % 4) {
            if chan.try_send(next, 0).is_ok() {
                next += 1;
            }
        }
        for _ in 0..(round % 3) {
            match chan.try_recv() {
                Ok(msg) => {
                    assert_eq!(msg, expected);
                    expected += 1;
                }
                Err(e) => assert_eq!(e, TryRecvError::Empty),
            }
        }
        assert_eq!(chan.len(), next - expected);
        assert!(chan.len() <= 3);
        assert_eq!(chan.is_empty(), next == expected);
        assert_eq!(chan.is_full(), next - expected == 3);
    }
    assert!(expected > 12);
    let rest = chan.into_messages();
    assert_eq!(rest, (expected..next).collect::<Vec<usize>>());
}

#[test]
fn a_full_channel_refuses_and_hands_the_message_back() {
    let mut chan: Channel<i32> = Channel::with_capacity(1);
    assert_eq!(chan.capacity(), Some(1));
    assert!(chan.try_send(1, 7).is_ok());
    let refused = chan.try_send(2, 7).unwrap_err();
    assert!(refused.is_full());
    assert_eq!(refused.into_inner(), 2);
    assert_eq!(chan.len(), 1);
    assert_eq!(chan.try_recv(), Ok(1));
    assert_eq!(chan.try_recv(), Err(TryRecvError::Empty));
}

#[test]
fn a_closed_channel_refuses_sends_and_drains() {
    let mut chan: Channel<i32> = Channel::with_capacity(2);
    assert!(chan.try_send(1, 0).is_ok());
    assert!(chan.try_send(2, 0).is_ok());
    assert!(!chan.is_shutdown());
    assert!(chan.shutdown());
    assert!(!chan.shutdown());
    assert!(chan.is_shutdown());
    let refused = chan.try_send(3, 0).unwrap_err();
    assert!(refused.is_closed());
    assert_eq!(refused.into_inner(), 3);
    assert!(matches!(
        chan.send(4, false),
        SendAttempt::Failed(SendTimeoutError::Disconnected(4))
    ));
    assert!(chan.sink_start_send(5, 0).is_err());
    assert_eq!(chan.try_recv(), Ok(1));
    assert_eq!(chan.poll(0), Ok(Async::Ready(Some(2))));
    assert!(chan.is_empty());
    assert_eq!(chan.len(), 0);
    assert_eq!(chan.try_recv(), Err(TryRecvError::Disconnected));
    assert_eq!(chan.poll(0), Ok(Async::Ready(None)));
}

#[test]
fn an_empty_channel_is_empty_when_it_is_closed() {
    let mut chan: Channel<i32> = Channel::with_capacity(4);
    assert!(chan.is_empty());
    assert!(chan.try_send(1, 0).is_ok());
    assert!(!chan.is_empty());
    assert_eq!(chan.try_recv(), Ok(1));
    assert!(chan.is_empty());
    chan.shutdown();
    assert!(chan.is_empty());
    assert!(!chan.is_full());
}

#[test]
fn a_send_with_a_deadline() {
    let mut chan: Channel<i32> = Channel::with_capacity(1);
    assert!(matches!(chan.send(1, false), SendAttempt::Sent));
    assert!(matches!(chan.send(2, false), SendAttempt::Blocked(2)));
    assert!(matches!(
        chan.send(3, true),
        SendAttempt::Failed(SendTimeoutError::Timeout(3))
    ));
    assert_eq!(chan.try_recv(), Ok(1));
    assert!(matches!(chan.send(4, true), SendAttempt::Sent));
    assert_eq!(chan.into_messages(), vec![4]);
}

#[test]
fn a_poll_waits_and_is_notified_by_a_send() {
    let mut chan: Channel<i32> = Channel::with_capacity(2);
    assert_eq!(chan.poll(11), Ok(Async::NotReady));
    assert_eq!(chan.take_notified(), Vec::<u64>::new());
    assert!(chan.try_send(1, 0).is_ok());
    assert_eq!(chan.take_notified(), vec![11]);
    assert_eq!(chan.poll(11), Ok(Async::Ready(Some(1))));
    // The notification has not been answered yet: this poll does, and waits.
    assert_eq!(chan.poll(11), Ok(Async::NotReady));
    assert!(chan.try_send(2, 0).is_ok());
    assert_eq!(chan.take_notified(), vec![11]);
}

#[test]
fn a_message_sent_before_anyone_polls_is_owed_a_wake_up() {
    let mut chan: Channel<i32> = Channel::with_capacity(2);
    assert!(chan.try_send(1, 0).is_ok());
    assert_eq!(chan.try_recv(), Ok(1));
    assert_eq!(chan.poll(5), Ok(Async::NotReady));
    assert_eq!(chan.take_notified(), vec![5]);
}

#[test]
fn a_sink_that_is_full_hands_the_item_back_and_wakes_the_sender() {
    let mut chan: Channel<i32> = Channel::with_capacity(1);
    assert!(matches!(chan.sink_start_send(1, 3), Ok(AsyncSink::Ready)));
    assert!(matches!(chan.sink_start_send(2, 3), Ok(AsyncSink::NotReady(2))));
    assert!(matches!(chan.poll_complete(), Ok(Async::Ready(()))));
    assert_eq!(chan.take_notified(), Vec::<u64>::new());
    assert_eq!(chan.try_recv(), Ok(1));
    assert_eq!(chan.take_notified(), vec![3]);
    assert!(matches!(chan.sink_start_send(2, 3), Ok(AsyncSink::Ready)));
}

#[test]
fn closing_notifies_all_who_wait() {
    let mut chan: Channel<i32> = Channel::with_capacity(1);
    assert!(chan.try_send(1, 0).is_ok());
    assert!(chan.try_send(2, 8).is_err());
    assert_eq!(chan.try_recv(), Ok(1));
    assert_eq!(chan.take_notified(), vec![8]);
    assert_eq!(chan.poll(9), Ok(Async::NotReady));
    assert_eq!(chan.take_notified(), vec![9]);
    assert_eq!(chan.poll(9), Ok(Async::NotReady));
    assert!(chan.shutdown());
    assert_eq!(chan.take_notified(), vec![9]);
}

#[test]
fn sends_and_receives_under_way_do_not_get_in_each_others_way() {
    let mut chan: Channel<&str> = Channel::with_capacity(2);
    let mut first = Array::default();
    let mut second = Array::default();
    let mut third = Array::default();
    assert_eq!(chan.try_claim_send(&mut first), Claim::Ready);
    assert_eq!(chan.try_claim_send(&mut second), Claim::Ready);
    // Both slots are taken, and neither message is there.
    assert_eq!(chan.try_claim_send(&mut third), Claim::Retry);
    assert_eq!(chan.try_claim_recv(&mut third), Claim::Retry);
    assert!(chan.write(&mut second, "b").is_ok());
    assert_eq!(chan.try_claim_recv(&mut third), Claim::Retry);
    assert!(chan.write(&mut first, "a").is_ok());
    assert_eq!(chan.try_claim_send(&mut third), Claim::NotReady);

    let mut take = Array::default();
    assert_eq!(chan.try_claim_recv(&mut take), Claim::Ready);
    // The slot is claimed, but not free before the message has left it.
    assert_eq!(chan.try_claim_send(&mut third), Claim::Retry);
    assert_eq!(chan.read(&mut take), Ok("a"));
    assert_eq!(chan.try_claim_send(&mut third), Claim::Ready);
    assert!(chan.write(&mut third, "c").is_ok());
    assert_eq!(chan.try_recv(), Ok("b"));
    assert_eq!(chan.try_recv(), Ok("c"));
}

#[test]
fn a_token_of_a_closed_channel_hands_the_message_back() {
    let mut chan: Channel<i32> = Channel::with_capacity(2);
    chan.shutdown();
    let mut token = Array::default();
    assert!(chan.start_send(&mut token));
    assert_eq!(chan.write(&mut token, 1), Err(1));
    assert!(chan.start_recv(&mut token));
    assert_eq!(chan.read(&mut token), Err(()));
}

#[test]
fn a_channel_that_is_given_up_gives_its_messages_back() {
    let mut chan: Channel<String> = Channel::with_capacity(3);
    for text in ["a", "b", "c"] {
        assert!(chan.try_send(text.to_string(), 0).is_ok());
    }
    assert_eq!(chan.try_recv(), Ok("a".to_string()));
    assert!(chan.try_send("d".to_string(), 0).is_ok());
    assert_eq!(chan.into_messages(), vec!["b", "c", "d"]);
}

#[test]
fn a_default_token_of_a_bounded_channel_names_no_slot() {
    let mut chan: Channel<i32> = Channel::with_capacity(1);
    let mut token = Array::default();
    assert_eq!(chan.write(&mut token, 4), Err(4));
    assert_eq!(chan.read(&mut token), Err(()));
    assert_eq!(chan.poll_read(&mut token), Ok(Async::Ready(None)));
    assert_eq!(chan.len(), 0);
}

#[test]
fn whole_operations_on_a_bounded_channel_pass_by_those_under_way() {
    let mut chan: Channel<&str> = Channel::with_capacity(3);
    let mut send = Array::default();
    assert!(chan.try_send("a", 0).is_ok());
    assert!(chan.start_send(&mut send));
    assert!(chan.try_send("c", 0).is_ok());
    assert!(chan.try_send("d", 0).unwrap_err().is_full());
    assert_eq!(chan.poll(1), Ok(Async::Ready(Some("a"))));
    assert!(chan.write(&mut send, "b").is_ok());
    let mut recv = Array::default();
    assert!(chan.start_recv(&mut recv));
    assert_eq!(chan.try_recv(), Ok("c"));
    assert!(chan.try_send("d", 0).is_ok());
    assert_eq!(chan.poll_read(&mut recv), Ok(Async::Ready(Some("b"))));
    assert_eq!(chan.try_recv(), Ok("d"));
}

#[test]
fn when_a_poll_of_a_bounded_channel_would_wait() {
    let mut chan: Channel<i32> = Channel::with_capacity(1);
    assert!(chan.poll_registers());
    assert_eq!(chan.poll(1), Ok(Async::NotReady));
    assert!(!chan.poll_registers());
    assert!(chan.try_send(5, 0).is_ok());
    assert_eq!(chan.try_recv(), Ok(5));
    assert!(chan.poll_registers());
    chan.shutdown();
    assert!(!chan.poll_registers());
}

#[test]
fn tasks_refused_for_lack_of_room_are_notified_in_order() {
    let mut chan: Channel<i32> = Channel::with_capacity(3);
    for i in 0..3 {
        assert!(!chan.send_registers());
        assert!(chan.try_send(i, 0).is_ok());
    }
    assert!(chan.send_registers());
    for task in 1..4 {
        assert!(chan.try_send(9, task).unwrap_err().is_full());
    }
    assert_eq!(chan.try_recv(), Ok(0));
    assert_eq!(chan.take_notified(), vec![1]);
    assert_eq!(chan.try_recv(), Ok(1));
    assert!(matches!(chan.send(8, false), SendAttempt::Sent));
    assert_eq!(chan.poll(5), Ok(Async::Ready(Some(2))));
    assert_eq!(chan.take_notified(), vec![2, 3]);
    chan.shutdown();
    assert!(!chan.send_registers());
}
