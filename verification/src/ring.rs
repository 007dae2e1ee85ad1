//! Bounded non-blocking order ingress queue carrying already-allocated
//! order-pool indices from admission to the single matching consumer.

use vstd::prelude::*;
use crate::channel::{channel_bounded, channel_try_send, channel_try_recv, channel_len, channel_is_empty,
    sender_clone, receiver_clone, QueueSendError, MAX_CHANNEL_CAPACITY};
use crate::constants::RING_BUFFER_SIZE;
use crate::engine::{IngressError, MatchingEngine};
use crate::execution::discarded;

verus! {

pub struct OrderQueue {
    pub tx: crossbeam_channel::Sender<u32>,
    pub rx: crossbeam_channel::Receiver<u32>,
}

impl OrderQueue {
    /// A queue holding at most `RING_BUFFER_SIZE` indices.
    pub fn new() -> (r: OrderQueue) {
        let (tx, rx) = channel_bounded(RING_BUFFER_SIZE);
        OrderQueue { tx, rx }
    }

    /// A queue holding at most `capacity` indices (a rendezvous queue when
    /// `capacity` is 0).
    pub fn with_capacity(capacity: usize) -> (r: OrderQueue)
        requires
            capacity <= MAX_CHANNEL_CAPACITY,
    {
        let (tx, rx) = channel_bounded(capacity);
        OrderQueue { tx, rx }
    }

    /// Non-blocking enqueue. A full or disconnected queue hands the index
    /// back so the pool slot can be released.
    pub fn try_send(&self, idx: u32) -> (r: Result<(), QueueSendError<u32>>)
        ensures
            r matches Err(QueueSendError::Full(m)) ==> m == idx,
            r matches Err(QueueSendError::Disconnected(m)) ==> m == idx,
    {
        channel_try_send(&self.tx, idx)
    }

    /// The next waiting index, if any.
    pub fn try_recv(&self) -> (r: Option<u32>) {
        channel_try_recv(&self.rx)
    }

    pub fn len(&self) -> (r: usize) {
        channel_len(&self.rx)
    }

    pub fn is_empty(&self) -> (r: bool) {
        channel_is_empty(&self.rx)
    }
}

impl Clone for OrderQueue {
    /// Another pair of handles on the same queue.
    fn clone(&self) -> (r: OrderQueue) {
        OrderQueue { tx: sender_clone(&self.tx), rx: receiver_clone(&self.rx) }
    }
}

impl Default for OrderQueue {
    fn default() -> (r: OrderQueue) {
        OrderQueue::new()
    }
}

/// The ingress queue under the name existing callers use; it is a bounded
/// channel rather than a ring.
pub type RingBuffer = OrderQueue;

impl MatchingEngine {
    /// Hands accepted record `pool_index` to the matching consumer. A full or
    /// disconnected queue gives the pool slot back to this engine at once,
    /// so ingress saturation never leaks a reserved slot.
    pub fn enqueue_order(&mut self, queue: &OrderQueue, pool_index: u32) -> (r: Result<(), IngressError>)
        requires
            old(self).wf(),
            old(self).pool.is_allocated(pool_index),
            !old(self).held(pool_index),
        ensures
            final(self).wf(),
            r is Ok ==> *final(self) == *old(self),
            r is Err ==> discarded(*old(self), *final(self), pool_index),
            final(self).trades == old(self).trades,
            final(self).last_events == old(self).last_events,
    {
        match queue.try_send(pool_index) {
            Ok(()) => Ok(()),
            Err(QueueSendError::Full(idx)) => {
                self.discard(idx);
                Err(IngressError::QueueFull)
            },
            Err(QueueSendError::Disconnected(idx)) => {
                self.discard(idx);
                Err(IngressError::QueueDisconnected)
            },
        }
    }
}

} // verus!
