//! Bounded multi-producer channels of `crossbeam-channel`, as the engine's
//! ingress and sequencing queues use them.
//!
//! A channel is shared between threads, so what a receive or a length gives
//! back depends on what other threads did meanwhile: those calls promise
//! nothing of their result. A failed send hands the message back.

use vstd::prelude::*;

verus! {

#[verifier::external_type_specification]
#[verifier::external_body]
#[verifier::reject_recursive_types(T)]
pub struct ExSender<T>(crossbeam_channel::Sender<T>);

#[verifier::external_type_specification]
#[verifier::external_body]
#[verifier::reject_recursive_types(T)]
pub struct ExReceiver<T>(crossbeam_channel::Receiver<T>);

/// Why a message was not sent; it carries the message back.
#[derive(Debug, Clone, Copy, PartialEq, Eq, Structural)]
pub enum QueueSendError<T> {
    /// The channel holds as many messages as it can.
    Full(T),
    /// Every receiver is gone.
    Disconnected(T),
}

/// The largest capacity a bounded channel is asked for: below it the
/// channel's internal lap counter cannot overflow on any target.
pub const MAX_CHANNEL_CAPACITY: usize = 0x3fff_ffff;

/// `crossbeam_channel::bounded`: a channel holding at most `cap` messages
/// (a rendezvous channel when `cap` is 0). It panics only for capacities
/// whose lap counter would overflow, which `requires` leaves out.
#[verifier::external_body]
pub(crate) fn channel_bounded<T>(cap: usize) -> (r: (crossbeam_channel::Sender<T>, crossbeam_channel::Receiver<T>))
    requires
        cap <= MAX_CHANNEL_CAPACITY,
{
    crossbeam_channel::bounded(cap)
}

/// `Sender::try_send`: sends without blocking, or returns the message in
/// the error when the channel is full or disconnected.
#[verifier::external_body]
pub(crate) fn channel_try_send<T>(tx: &crossbeam_channel::Sender<T>, msg: T) -> (r: Result<(), QueueSendError<T>>)
    ensures
        r matches Err(QueueSendError::Full(m)) ==> m == msg,
        r matches Err(QueueSendError::Disconnected(m)) ==> m == msg,
{
    match tx.try_send(msg) {
        Ok(()) => Ok(()),
        Err(crossbeam_channel::TrySendError::Full(m)) => Err(QueueSendError::Full(m)),
        Err(crossbeam_channel::TrySendError::Disconnected(m)) => Err(QueueSendError::Disconnected(m)),
    }
}

/// `Receiver::try_recv`: the next message if one is waiting, else `None`.
#[verifier::external_body]
pub(crate) fn channel_try_recv<T>(rx: &crossbeam_channel::Receiver<T>) -> (r: Option<T>) {
    rx.try_recv().ok()
}

/// `Receiver::len`: how many messages wait at the moment of the call.
#[verifier::external_body]
pub(crate) fn channel_len<T>(rx: &crossbeam_channel::Receiver<T>) -> (r: usize) {
    rx.len()
}

/// `Receiver::is_empty`: whether no message waits at the moment of the call.
#[verifier::external_body]
pub(crate) fn channel_is_empty<T>(rx: &crossbeam_channel::Receiver<T>) -> (r: bool) {
    rx.is_empty()
}

/// `Sender::clone`: another handle on the same channel.
#[verifier::external_body]
pub(crate) fn sender_clone<T>(tx: &crossbeam_channel::Sender<T>) -> (r: crossbeam_channel::Sender<T>) {
    tx.clone()
}

/// `Receiver::clone`: another handle on the same channel.
#[verifier::external_body]
pub(crate) fn receiver_clone<T>(rx: &crossbeam_channel::Receiver<T>) -> (r: crossbeam_channel::Receiver<T>) {
    rx.clone()
}

} // verus!
