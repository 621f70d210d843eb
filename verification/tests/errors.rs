//! What the errors say and hold.
use crossbeam::channel::{SendError as ClosedSend, TrySendError as FailedSend};
use zchan::{ErrorKind, RecvTimeoutError, SendError, SendTimeoutError, TrySendError};

#[test]
fn a_failed_send_keeps_its_message_and_its_reason() {
    let full: TrySendError<i32> = TrySendError::from(FailedSend::Full(3));
    assert!(full.is_full());
    assert!(!full.is_closed());
    assert_eq!(full.to_string(), "no available capacity");
    assert_eq!(full.into_inner(), 3);

    let closed: TrySendError<i32> = TrySendError::from(FailedSend::Disconnected(4));
    assert!(closed.is_closed());
    assert!(!closed.is_full());
    assert_eq!(closed.to_string(), "channel closed");
    assert_eq!(closed.into_inner(), 4);
}

#[test]
fn a_send_into_a_closed_channel_keeps_its_message() {
    let closed: TrySendError<&str> = TrySendError::from(ClosedSend("message"));
    assert!(matches!(closed.kind, ErrorKind::Closed));
    assert_eq!(closed.into_inner(), "message");
}

#[test]
fn errors_say_what_happened() {
    assert_eq!(SendError.to_string(), "channel closed");
    let late: SendTimeoutError<i32> = SendTimeoutError::Timeout(1);
    let gone: SendTimeoutError<i32> = SendTimeoutError::Disconnected(1);
    assert_eq!(late.to_string(), "timed out waiting on send operation");
    assert_eq!(gone.to_string(), "sending on a disconnected channel");
    assert_eq!(late.description(), "sending on an empty and disconnected channel");
    assert!(late != gone);
    assert!(RecvTimeoutError::Timeout != RecvTimeoutError::Disconnected);
}
