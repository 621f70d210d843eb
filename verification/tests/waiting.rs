//! Tasks and threads that wait.
use zchan::context::Contexts;
use zchan::select::{Operation, Selected};
use zchan::waker::Waker;
use zchan::{AtomicSerialWaker, MAX_WAITING_TASKS};

#[test]
fn the_first_task_in_the_queue_is_notified() {
    let mut waker = AtomicSerialWaker::new();
    waker.register(1);
    waker.wake();
    assert_eq!(waker.take_notified(), vec![1]);
    assert_eq!(waker.take_notified(), Vec::<u64>::new());
}

#[test]
fn a_wake_up_that_finds_no_task_is_owed() {
    let mut waker = AtomicSerialWaker::default();
    waker.wake();
    waker.wake();
    assert_eq!(waker.take_notified(), Vec::<u64>::new());
    waker.register(1);
    waker.register(2);
    waker.register(3);
    assert_eq!(waker.take_notified(), vec![1, 2]);
    waker.wake();
    assert_eq!(waker.take_notified(), vec![3]);
}

#[test]
fn a_full_queue_notifies_at_once() {
    let mut waker = AtomicSerialWaker::new();
    assert_eq!(MAX_WAITING_TASKS, 4);
    for task in 1..5 {
        waker.register(task);
    }
    assert_eq!(waker.take_notified(), Vec::<u64>::new());
    waker.register(5);
    assert_eq!(waker.take_notified(), vec![5]);
    waker.wake_all();
    assert_eq!(waker.take_notified(), vec![1, 2, 3, 4]);
    waker.wake_all();
    assert_eq!(waker.take_notified(), Vec::<u64>::new());
}

#[test]
fn tasks_are_notified_in_the_order_in_which_they_came() {
    let mut waker = AtomicSerialWaker::new();
    waker.register(1);
    waker.register(2);
    waker.register(3);
    waker.wake();
    assert_eq!(waker.take_notified(), vec![1]);
    waker.register(4);
    waker.wake_all();
    assert_eq!(waker.take_notified(), vec![2, 3, 4]);
    waker.register(1);
    waker.register(2);
    waker.register(3);
    waker.wake_all();
    assert_eq!(waker.take_notified(), vec![1, 2, 3]);
}

#[test]
fn notifications_are_answered_one_by_one() {
    let mut waker = AtomicSerialWaker::new();
    assert!(!waker.answer());
    waker.register(1);
    assert!(!waker.answer());
    waker.wake();
    assert!(waker.answer());
    assert!(!waker.answer());
}

#[test]
fn the_first_thread_to_wait_is_selected_first() {
    let mut contexts = Contexts::new();
    let mut waker = Waker::new();
    let a = contexts.enter(1);
    let b = contexts.enter(2);
    let c = contexts.enter(3);
    waker.register(Operation::hook(11), a);
    waker.register_with_packet(Operation::hook(12), 40, b);
    waker.register(Operation::hook(13), c);
    assert!(waker.can_select(&contexts, 1));
    let entry = waker.try_select(&mut contexts, 1).unwrap();
    assert_eq!(entry.packet, 40);
    assert!(entry.oper == Operation::hook(12));
    assert_eq!(contexts.selected(b), Selected::Operation(Operation::hook(12)));
    assert_eq!(contexts.take_unparked(), vec![2]);
    let entry = waker.try_select(&mut contexts, 2).unwrap();
    assert!(entry.oper == Operation::hook(11));
    assert!(!waker.can_select(&contexts, 3));
    assert!(waker.try_select(&mut contexts, 3).is_none());
    assert!(waker.unregister(Operation::hook(13)).is_some());
    assert!(waker.unregister(Operation::hook(13)).is_none());
    assert!(!waker.can_select(&contexts, 1));
    assert!(waker.try_select(&mut contexts, 1).is_none());
}

#[test]
fn a_context_is_selected_once() {
    let mut contexts = Contexts::new();
    let mut waker = Waker::new();
    let a = contexts.enter(1);
    waker.register(Operation::hook(11), a);
    waker.register(Operation::hook(12), a);
    assert!(waker.try_select(&mut contexts, 2).is_some());
    assert!(!waker.can_select(&contexts, 2));
    assert!(waker.try_select(&mut contexts, 2).is_none());
    assert_eq!(
        contexts.try_select(a, Selected::Disconnected),
        Err(Selected::Operation(Operation::hook(11)))
    );
}

#[test]
fn disconnecting_tells_those_who_wait_and_keeps_their_entries() {
    let mut contexts = Contexts::new();
    let mut waker = Waker::new();
    let a = contexts.enter(1);
    let b = contexts.enter(2);
    waker.register(Operation::hook(11), a);
    waker.register(Operation::hook(12), b);
    assert_eq!(contexts.try_select(b, Selected::Aborted), Ok(()));
    waker.disconnect(&mut contexts);
    assert_eq!(contexts.selected(a), Selected::Disconnected);
    assert_eq!(contexts.selected(b), Selected::Aborted);
    assert_eq!(contexts.take_unparked(), vec![1]);
    assert!(waker.unregister(Operation::hook(11)).is_some());
    assert!(waker.unregister(Operation::hook(12)).is_some());
}
