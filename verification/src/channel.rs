//! The queue through which state updates reach a `Context`.
//!
//! Updates are sent from any thread, so what the queue holds at a given moment
//! depends on timing: the items here promise nothing about the messages they
//! hand back or count.
use crossbeam_channel::{Receiver, Sender};
use vstd::prelude::*;

verus! {

#[verifier::external_type_specification]
#[verifier::external_body]
#[verifier::reject_recursive_types(T)]
pub struct ExSender<T>(Sender<T>);

#[verifier::external_type_specification]
#[verifier::external_body]
#[verifier::reject_recursive_types(T)]
pub struct ExReceiver<T>(Receiver<T>);

/// Calls `crossbeam_channel::unbounded`: a new queue without a bound on its length.
/// Nothing is claimed of the two ends.
#[verifier::external_body]
pub(crate) fn unbounded_queue<T>() -> (Sender<T>, Receiver<T>) {
    crossbeam_channel::unbounded()
}

/// Calls `Receiver::len`: the number of messages waiting at the moment of the
/// call. Other threads may send at any time, so nothing is claimed of it.
#[verifier::external_body]
pub(crate) fn queue_len<T>(rx: &Receiver<T>) -> usize {
    rx.len()
}

/// Calls `Receiver::try_recv`: the next waiting message, or `None` when there is
/// none at the moment of the call (or every sender is gone). Nothing is claimed
/// of which message comes back.
#[verifier::external_body]
pub(crate) fn queue_try_take<T>(rx: &Receiver<T>) -> Option<T> {
    match rx.try_recv() {
        Ok(m) => Some(m),
        Err(_) => None,
    }
}

} // verus!
