//! The two sides of a channel.
use crossbeam::thread;
use std::sync::mpsc::TryRecvError;
use zchan::counter::Counter;
use zchan::utils::Spinlock;
use zchan::{array, bounded, unbounded, zero, Shutdown};

#[test]
fn both_sides_reach_the_same_channel() {
    let (s, r) = bounded::<i32>(2);
    let mut guard = s.lock();
    assert!(guard.deref_mut().chan.try_send(1, 0).is_ok());
    guard.unlock();
    let mut guard = r.lock();
    assert_eq!(guard.deref().chan.capacity(), Some(2));
    assert_eq!(guard.deref_mut().chan.try_recv(), Ok(1));
    guard.unlock();
}

#[test]
fn the_kinds_of_channels() {
    let (s, _r) = unbounded::<i32>();
    let guard = s.lock();
    assert_eq!(guard.deref().chan.capacity(), None);
    assert!(guard.deref().chan.is_empty());
    assert!(!guard.deref().chan.is_shutdown());
    guard.unlock();
    let (_s, r) = zero::<i32>();
    let guard = r.lock();
    assert_eq!(guard.deref().chan.capacity(), Some(0));
    guard.unlock();
}

#[test]
fn sides_of_one_channel_are_equal() {
    let (s, r) = unbounded::<i32>();
    let (t, q) = unbounded::<i32>();
    let mut guard = s.lock();
    let other = s.acquire(&mut guard).unwrap();
    guard.unlock();
    assert!(s == other);
    assert!(s != t);
    let mut guard = r.lock();
    let other = r.acquire(&mut guard).unwrap();
    guard.unlock();
    assert!(r == other);
    assert!(r != q);
}

#[test]
fn the_last_sender_closes_the_channel() {
    let (s, r) = bounded::<i32>(2);
    let mut guard = s.lock();
    let other = s.acquire(&mut guard).unwrap();
    assert_eq!(guard.deref().senders, 2);
    assert!(guard.deref_mut().chan.try_send(1, 0).is_ok());
    assert!(!s.leave(&mut guard));
    assert!(!guard.deref().chan.is_shutdown());
    assert!(!other.leave(&mut guard));
    assert!(guard.deref().chan.is_shutdown());
    assert!(other.acquire(&mut guard).is_none());
    guard.unlock();
    let mut guard = r.lock();
    assert_eq!(guard.deref_mut().chan.try_recv(), Ok(1));
    assert_eq!(guard.deref_mut().chan.try_recv(), Err(TryRecvError::Disconnected));
    assert!(r.leave(&mut guard));
    guard.unlock();
}

#[test]
fn the_last_receiver_closes_the_channel() {
    let (s, r) = unbounded::<i32>();
    let mut guard = r.lock();
    let other = r.acquire(&mut guard).unwrap();
    assert!(!r.leave(&mut guard));
    assert!(!guard.deref().chan.is_shutdown());
    assert!(!other.leave(&mut guard));
    assert!(guard.deref().chan.is_shutdown());
    guard.unlock();
    let mut guard = s.lock();
    assert!(guard.deref_mut().chan.try_send(1).unwrap_err().is_closed());
    assert!(s.leave(&mut guard));
    guard.unlock();
}

#[test]
fn counts_do_not_overflow() {
    let mut counter = Counter::new(array::Channel::<i32>::with_capacity(1));
    counter.senders = usize::MAX;
    assert!(!counter.acquire_sender());
    assert_eq!(counter.senders, usize::MAX);
    counter.receivers = usize::MAX;
    assert!(!counter.acquire_receiver());
    assert_eq!(counter.receivers, usize::MAX);
    assert!(!counter.release_sender(|chan| chan.shutdown()));
    assert!(counter.acquire_sender());
}

#[test]
fn a_lock_is_held_by_one_at_a_time() {
    let lock = Spinlock::new(Counter::new(array::Channel::<u64>::with_capacity(400)));
    thread::scope(|scope| {
        for i in 0..4 {
            let lock = &lock;
            scope.spawn(move |_| {
                for _ in 0..100 {
                    let mut guard = lock.lock();
                    assert!(guard.deref_mut().chan.try_send(i, 0).is_ok());
                    guard.unlock();
                }
            });
        }
    })
    .unwrap();
    let guard = lock.lock();
    assert_eq!(guard.deref().chan.len(), 400);
    guard.unlock();
}

#[test]
fn threads_pass_messages_in_order() {
    let (s, r) = unbounded::<u64>();
    let mut expected: u64 = 0;
    thread::scope(|scope| {
        scope.spawn(|_| {
            for i in 0..500 {
                let mut guard = s.lock();
                assert!(guard.deref_mut().chan.try_send(i).is_ok());
                guard.unlock();
            }
            let mut guard = s.lock();
            s.leave(&mut guard);
            guard.unlock();
        });
        loop {
            let mut guard = r.lock();
            let res = guard.deref_mut().chan.try_recv();
            guard.unlock();
            match res {
                Ok(msg) => {
                    assert_eq!(msg, expected);
                    expected += 1;
                }
                Err(TryRecvError::Empty) => {}
                Err(TryRecvError::Disconnected) => break,
            }
        }
    })
    .unwrap();
    assert_eq!(expected, 500);
}

#[test]
fn a_new_channel_has_one_reference_on_either_side() {
    let (s, r) = unbounded::<i32>();
    let mut guard = r.lock();
    assert_eq!(guard.deref().senders, 1);
    assert_eq!(guard.deref().receivers, 1);
    assert!(!guard.deref().destroy);
    assert_eq!(guard.deref().chan.len(), 0);
    assert_eq!(guard.deref_mut().chan.try_recv(), Err(TryRecvError::Empty));
    guard.unlock();
    let mut guard = s.lock();
    assert!(!s.leave(&mut guard));
    assert!(guard.deref().chan.is_shutdown());
    guard.unlock();
    let (s, r) = zero::<i32>();
    let mut guard = s.lock();
    assert_eq!(guard.deref().senders, 1);
    assert!(!guard.deref().chan.is_shutdown());
    assert!(guard.deref_mut().chan.try_send(5, 1).unwrap_err().is_full());
    guard.unlock();
    let mut guard = r.lock();
    assert_eq!(guard.deref_mut().chan.try_recv(1), Err(TryRecvError::Empty));
    guard.unlock();
}

#[test]
fn what_the_last_release_does_is_up_to_the_caller() {
    let (s, r) = bounded::<i32>(2);
    let mut guard = s.lock();
    let other = s.acquire(&mut guard).unwrap();
    assert!(!s.release(&mut guard, |_| panic!("not the last sender")));
    assert_eq!(guard.deref().senders, 1);
    assert!(!other.release(&mut guard, |chan| chan.try_send(7, 0).is_ok()));
    assert_eq!(guard.deref().senders, 0);
    assert!(guard.deref().destroy);
    assert!(!guard.deref().chan.is_shutdown());
    assert_eq!(guard.deref_mut().chan.try_recv(), Ok(7));
    assert!(r.release(&mut guard, |chan| chan.shutdown()));
    assert!(guard.deref().chan.is_shutdown());
    guard.unlock();
}
