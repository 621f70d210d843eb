//! Errors of the channel operations.
use crossbeam::channel::{SendError as ClosedSend, TrySendError as FailedSend};
use vstd::prelude::*;

verus! {

/// The error of `crossbeam::channel::Sender::try_send`; its two variants are public.
#[verifier::external_type_specification]
#[verifier::reject_recursive_types(T)]
pub struct ExFailedSend<T>(FailedSend<T>);

/// The error of `crossbeam::channel::Sender::send`; its one field is public.
#[verifier::external_type_specification]
#[verifier::reject_recursive_types(T)]
pub struct ExClosedSend<T>(ClosedSend<T>);

/// `crossbeam::channel::SendError::into_inner`: unwraps the message.
pub assume_specification<T>[ ClosedSend::<T>::into_inner ](err: ClosedSend<T>) -> (value: T)
    ensures
        value == err.0,
;

/// The item could not be sent because the channel is closed.
#[derive(Debug)]
pub struct SendError;

impl SendError {
    /// What the error says.
    pub fn to_string(&self) -> (text: String)
        ensures
            text@ == "channel closed"@,
    {
        "channel closed".to_owned()
    }
}

/// The message could not be sent in time, or not at all.
#[derive(PartialEq, Eq, Clone, Copy)]
pub enum SendTimeoutError<T> {
    /// The message could not be sent because the channel is full and the operation timed out.
    ///
    /// If this is a zero-capacity channel, then the error indicates that there was no receiver
    /// available to receive the message and the operation timed out.
    Timeout(T),
    /// The message could not be sent because the channel is disconnected.
    Disconnected(T),
}

impl<T> SendTimeoutError<T> {
    /// What the error says.
    pub fn to_string(&self) -> (text: String)
        ensures
            text@ == match *self {
                SendTimeoutError::Timeout(_) => "timed out waiting on send operation"@,
                SendTimeoutError::Disconnected(_) => "sending on a disconnected channel"@,
            },
    {
        match self {
            SendTimeoutError::Timeout(_) => "timed out waiting on send operation".to_owned(),
            SendTimeoutError::Disconnected(_) => "sending on a disconnected channel".to_owned(),
        }
    }

    /// What an error of this kind is about.
    pub fn description(&self) -> (text: &'static str)
        ensures
            text@ == "sending on an empty and disconnected channel"@,
    {
        "sending on an empty and disconnected channel"
    }
}

/// No message could be received in time, or none at all.
#[derive(Debug, PartialEq, Eq, Clone, Copy, Structural)]
pub enum RecvTimeoutError {
    /// No message came in time.
    Timeout,
    /// The channel is empty and disconnected.
    Disconnected,
}

/// The message could not be sent at once.
#[derive(Debug)]
pub struct TrySendError<T> {
    /// Why it could not.
    pub kind: ErrorKind,
    /// The message.
    pub value: T,
}

/// Why a message could not be sent at once.
#[derive(Debug)]
pub enum ErrorKind {
    /// The channel is closed.
    Closed,
    /// There is no room in the channel.
    NoCapacity,
}

impl<T> TrySendError<T> {
    /// What the error says.
    pub fn to_string(&self) -> (text: String)
        ensures
            text@ == match self.kind {
                ErrorKind::Closed => "channel closed"@,
                ErrorKind::NoCapacity => "no available capacity"@,
            },
    {
        match self.kind {
            ErrorKind::Closed => "channel closed".to_owned(),
            ErrorKind::NoCapacity => "no available capacity".to_owned(),
        }
    }

    /// Gives the message back.
    pub fn into_inner(self) -> (value: T)
        ensures
            value == self.value,
    {
        self.value
    }

    /// Whether the message could not be sent because the channel is closed.
    pub fn is_closed(&self) -> (closed: bool)
        ensures
            closed == (self.kind is Closed),
    {
        if let ErrorKind::Closed = self.kind {
            true
        } else {
            false
        }
    }

    /// Whether the message could not be sent because the channel is full.
    pub fn is_full(&self) -> (full: bool)
        ensures
            full == (self.kind is NoCapacity),
    {
        if let ErrorKind::NoCapacity = self.kind {
            true
        } else {
            false
        }
    }
}

impl<T> From<FailedSend<T>> for TrySendError<T> {
    fn from(err: FailedSend<T>) -> (res: TrySendError<T>) {
        match err {
            FailedSend::Full(value) => TrySendError { kind: ErrorKind::NoCapacity, value },
            FailedSend::Disconnected(value) => TrySendError { kind: ErrorKind::Closed, value },
        }
    }
}

impl<T> vstd::std_specs::convert::FromSpecImpl<FailedSend<T>> for TrySendError<T> {
    open spec fn obeys_from_spec() -> bool {
        true
    }

    open spec fn from_spec(err: FailedSend<T>) -> TrySendError<T> {
        match err {
            FailedSend::Full(value) => TrySendError { kind: ErrorKind::NoCapacity, value },
            FailedSend::Disconnected(value) => TrySendError { kind: ErrorKind::Closed, value },
        }
    }
}

impl<T> From<ClosedSend<T>> for TrySendError<T> {
    fn from(err: ClosedSend<T>) -> (res: TrySendError<T>) {
        TrySendError { kind: ErrorKind::Closed, value: err.into_inner() }
    }
}

impl<T> vstd::std_specs::convert::FromSpecImpl<ClosedSend<T>> for TrySendError<T> {
    open spec fn obeys_from_spec() -> bool {
        true
    }

    open spec fn from_spec(err: ClosedSend<T>) -> TrySendError<T> {
        TrySendError { kind: ErrorKind::Closed, value: err.0 }
    }
}

} // verus!
