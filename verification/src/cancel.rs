//! Trusted surface over std's mpsc channel. The pathfinder uses it for one
//! thing only: a single-slot cancellation token sent to an in-flight
//! computation pass.
use vstd::prelude::*;

verus! {

#[verifier::external_type_specification]
#[verifier::external_body]
#[verifier::reject_recursive_types(T)]
pub struct ExSender<T>(std::sync::mpsc::Sender<T>);

#[verifier::external_type_specification]
#[verifier::external_body]
#[verifier::reject_recursive_types(T)]
pub struct ExReceiver<T>(std::sync::mpsc::Receiver<T>);

/// Relies on std::sync::mpsc::channel: creates a connected sender/receiver
/// pair. The channel's state is outside the program's values, so nothing
/// more is stated.
pub assume_specification<T>[ std::sync::mpsc::channel::<T> ]() -> (std::sync::mpsc::Sender<
    T,
>, std::sync::mpsc::Receiver<T>);

/// Relies on std::sync::mpsc::Receiver::try_recv, which without blocking
/// reports a pending message, an empty channel, or a hung-up channel. A
/// pending token or a hang-up both mean the pass is stale. Whether either
/// has happened depends on the senders, so nothing is promised of the
/// result; callers must cope with both answers.
#[verifier::external_body]
pub(crate) fn poll_cancelled(r: &std::sync::mpsc::Receiver<()>) -> bool {
    match r.try_recv() {
        Ok(_) => true,
        Err(std::sync::mpsc::TryRecvError::Disconnected) => true,
        Err(std::sync::mpsc::TryRecvError::Empty) => false,
    }
}

} // verus!
