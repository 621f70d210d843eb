//! The poll results of the crate `futures`.
use futures::{Async, AsyncSink};
use vstd::prelude::*;

verus! {

/// Whether a value is ready: both variants are public.
#[verifier::external_type_specification]
#[verifier::reject_recursive_types(T)]
pub struct ExAsync<T>(Async<T>);

/// Whether a sink has taken an item: both variants are public.
#[verifier::external_type_specification]
#[verifier::reject_recursive_types(T)]
pub struct ExAsyncSink<T>(AsyncSink<T>);

/// Why a receive that does not wait got no message: both variants are public.
#[verifier::external_type_specification]
pub struct ExTryRecvError(std::sync::mpsc::TryRecvError);

} // verus!
