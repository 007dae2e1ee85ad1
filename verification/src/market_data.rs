//! Market data: depth snapshots of a book and a sequenced publisher with a
//! bounded queue per subscriber, whose readers detect gaps.

use vstd::prelude::*;
use std::collections::VecDeque;
use crate::book::{OrderBook, PriceLevel};

verus! {

#[derive(Debug, Clone, Copy, PartialEq, Eq, Structural)]
pub struct DepthLevel {
    pub price: u32,
    pub quantity: u32,
    pub order_count: u32,
}

#[derive(Debug, Clone, PartialEq, Eq)]
pub struct DepthSnapshot {
    pub instrument_id: u16,
    pub sequence: u64,
    pub bids: Vec<DepthLevel>,
    pub asks: Vec<DepthLevel>,
}

#[derive(Debug, Clone, PartialEq, Eq)]
pub enum MarketDataEvent {
    Snapshot(DepthSnapshot),
    Delta { instrument_id: u16, sequence: u64, bids: Vec<DepthLevel>, asks: Vec<DepthLevel> },
}

/// What an event is: whether it is a snapshot, its instrument, its
/// sequence number and its levels.
pub struct EventView {
    pub snapshot: bool,
    pub instrument_id: u16,
    pub sequence: u64,
    pub bids: Seq<DepthLevel>,
    pub asks: Seq<DepthLevel>,
}

impl View for MarketDataEvent {
    type V = EventView;

    open spec fn view(&self) -> EventView {
        match self {
            MarketDataEvent::Snapshot(s) => EventView { snapshot: true, instrument_id: s.instrument_id, sequence: s.sequence, bids: s.bids@, asks: s.asks@ },
            MarketDataEvent::Delta { instrument_id, sequence, bids, asks } =>
                EventView { snapshot: false, instrument_id: *instrument_id, sequence: *sequence, bids: bids@, asks: asks@ },
        }
    }
}

#[derive(Debug, Clone, Copy, PartialEq, Eq, Structural)]
pub enum MarketDataError {
    Gap { expected: u64, received: u64 },
    OutOfOrder { expected: u64, received: u64 },
}

fn copy_levels(levels: &Vec<DepthLevel>) -> (r: Vec<DepthLevel>)
    ensures
        r@ == levels@,
{
    let mut out: Vec<DepthLevel> = Vec::new();
    let mut i: usize = 0;
    while i < levels.len()
        invariant
            i <= levels@.len(),
            out@ == levels@.take(i as int),
        decreases levels.len() - i,
    {
        out.push(levels[i]);
        proof {
            assert(out@ =~= levels@.take(i as int + 1));
        }
        i = i + 1;
    }
    proof {
        assert(levels@.take(levels@.len() as int) =~= levels@);
    }
    out
}

impl MarketDataEvent {
    pub fn sequence(&self) -> (r: u64)
        ensures
            r == self@.sequence,
    {
        match self {
            MarketDataEvent::Snapshot(snapshot) => snapshot.sequence,
            MarketDataEvent::Delta { sequence, .. } => *sequence,
        }
    }

    pub fn instrument_id(&self) -> (r: u16)
        ensures
            r == self@.instrument_id,
    {
        match self {
            MarketDataEvent::Snapshot(snapshot) => snapshot.instrument_id,
            MarketDataEvent::Delta { instrument_id, .. } => *instrument_id,
        }
    }

    /// An event with the same content.
    fn duplicate(&self) -> (r: MarketDataEvent)
        ensures
            r@ == self@,
    {
        match self {
            MarketDataEvent::Snapshot(s) => MarketDataEvent::Snapshot(DepthSnapshot {
                instrument_id: s.instrument_id,
                sequence: s.sequence,
                bids: copy_levels(&s.bids),
                asks: copy_levels(&s.asks),
            }),
            MarketDataEvent::Delta { instrument_id, sequence, bids, asks } => MarketDataEvent::Delta {
                instrument_id: *instrument_id,
                sequence: *sequence,
                bids: copy_levels(bids),
                asks: copy_levels(asks),
            },
        }
    }
}

/// Publishes sequenced events to every subscriber's bounded queue.
#[derive(Debug)]
pub struct MarketDataPublisher {
    next_sequence: u64,
    subscribers: Vec<VecDeque<MarketDataEvent>>,
    capacity: usize,
}

/// What a publisher is: the next delta's sequence number, each
/// subscriber's queue of events, oldest first, and the queues' capacity.
pub struct PublisherView {
    pub next_sequence: u64,
    pub queues: Seq<Seq<EventView>>,
    pub capacity: usize,
}

/// The events of a queue as views.
pub open spec fn queue_view(q: Seq<MarketDataEvent>) -> Seq<EventView> {
    q.map_values(|e: MarketDataEvent| e@)
}

impl View for MarketDataPublisher {
    type V = PublisherView;

    closed spec fn view(&self) -> PublisherView {
        PublisherView {
            next_sequence: self.next_sequence,
            queues: Seq::new(self.subscribers@.len(), |i: int| queue_view(self.subscribers@[i]@)),
            capacity: self.capacity,
        }
    }
}

/// No queue is over capacity, and the capacity is positive.
pub open spec fn publisher_wf(p: PublisherView) -> bool {
    &&& p.capacity > 0
    &&& forall|i: int| 0 <= i < p.queues.len() ==> (#[trigger] p.queues[i]).len() <= p.capacity
}

/// A queue after an event is offered to it: a full queue drops its oldest
/// event first.
pub open spec fn offer(q: Seq<EventView>, e: EventView, capacity: usize) -> Seq<EventView> {
    if q.len() == capacity { q.drop_first().push(e) } else { q.push(e) }
}

/// Every queue after an event is offered to all of them.
pub open spec fn broadcast(p: PublisherView, e: EventView) -> Seq<Seq<EventView>> {
    Seq::new(p.queues.len(), |i: int| offer(p.queues[i], e, p.capacity))
}

/// Reading the oldest event of a queue that is expected to carry
/// `expected`: nothing when the queue is empty; a gap, keeping the event,
/// when it is ahead; out of order, dropping it, when it is behind.
pub open spec fn spec_poll(q: Seq<EventView>, expected: u64) -> (Seq<EventView>, Result<Option<EventView>, MarketDataError>) {
    if q.len() == 0 {
        (q, Ok(None))
    } else if q[0].sequence > expected {
        (q, Err(MarketDataError::Gap { expected, received: q[0].sequence }))
    } else if q[0].sequence < expected {
        (q.drop_first(), Err(MarketDataError::OutOfOrder { expected, received: q[0].sequence }))
    } else {
        (q.drop_first(), Ok(Some(q[0])))
    }
}

impl MarketDataPublisher {
    /// A publisher without subscribers whose first delta is number 1.
    pub fn new(subscriber_capacity: usize) -> (r: MarketDataPublisher)
        requires
            subscriber_capacity > 0,
        ensures
            r@ == (PublisherView { next_sequence: 1, queues: Seq::empty(), capacity: subscriber_capacity }),
            publisher_wf(r@),
    {
        let r = MarketDataPublisher { next_sequence: 1, subscribers: Vec::new(), capacity: subscriber_capacity };
        proof {
            assert(r@.queues =~= Seq::<Seq<EventView>>::empty());
        }
        r
    }

    /// Adds a subscriber with an empty queue and returns its id.
    pub fn subscribe(&mut self) -> (r: usize)
        requires
            publisher_wf(old(self)@),
        ensures
            r == old(self)@.queues.len(),
            final(self)@ == (PublisherView { queues: old(self)@.queues.push(Seq::empty()), ..old(self)@ }),
            publisher_wf(final(self)@),
    {
        let id = self.subscribers.len();
        self.subscribers.push(VecDeque::with_capacity(self.capacity));
        proof {
            assert(queue_view(self.subscribers@[id as int]@) =~= Seq::<EventView>::empty());
            assert(self@.queues =~= old(self)@.queues.push(Seq::empty()));
        }
        id
    }

    fn deliver(&mut self, event: &MarketDataEvent)
        requires
            publisher_wf(old(self)@),
        ensures
            final(self)@ == (PublisherView { queues: broadcast(old(self)@, event@), ..old(self)@ }),
            publisher_wf(final(self)@),
    {
        let ghost s = self@;
        let mut i: usize = 0;
        while i < self.subscribers.len()
            invariant
                i <= self.subscribers@.len(),
                self.subscribers@.len() == s.queues.len(),
                self.capacity == s.capacity,
                self.next_sequence == s.next_sequence,
                publisher_wf(s),
                forall|k: int| 0 <= k < i ==> #[trigger] queue_view(self.subscribers@[k]@) == offer(s.queues[k], event@, s.capacity),
                forall|k: int| i <= k < s.queues.len() ==> #[trigger] queue_view(self.subscribers@[k]@) == s.queues[k],
            decreases self.subscribers.len() - i,
        {
            let ghost before = self.subscribers@[i as int]@;
            let copy = event.duplicate();
            if self.subscribers[i].len() == self.capacity {
                self.subscribers[i].pop_front();
            }
            self.subscribers[i].push_back(copy);
            proof {
                assert(s.queues[i as int] == queue_view(before));
                assert(queue_view(self.subscribers@[i as int]@) =~= offer(s.queues[i as int], event@, s.capacity));
            }
            i = i + 1;
        }
        proof {
            assert(self@.queues =~= broadcast(s, event@));
        }
    }

    /// Publishes a delta under the next sequence number and returns it.
    pub fn publish_delta(&mut self, instrument_id: u16, bids: Vec<DepthLevel>, asks: Vec<DepthLevel>) -> (r: u64)
        requires
            publisher_wf(old(self)@),
            old(self)@.next_sequence < u64::MAX,
        ensures
            r == old(self)@.next_sequence,
            final(self)@ == (PublisherView {
                next_sequence: (old(self)@.next_sequence + 1) as u64,
                queues: broadcast(old(self)@, EventView { snapshot: false, instrument_id, sequence: r, bids: bids@, asks: asks@ }),
                ..old(self)@
            }),
            publisher_wf(final(self)@),
    {
        let sequence = self.next_sequence;
        self.next_sequence = self.next_sequence + 1;
        let event = MarketDataEvent::Delta { instrument_id, sequence, bids, asks };
        self.deliver(&event);
        sequence
    }

    /// Publishes a snapshot under its own sequence number, which deltas
    /// then continue after.
    pub fn publish_snapshot(&mut self, snapshot: DepthSnapshot) -> (r: u64)
        requires
            publisher_wf(old(self)@),
        ensures
            r == snapshot.sequence,
            final(self)@ == (PublisherView {
                next_sequence: ({
                    let after: u64 = if snapshot.sequence == u64::MAX { u64::MAX } else { (snapshot.sequence + 1) as u64 };
                    if old(self)@.next_sequence >= after { old(self)@.next_sequence } else { after }
                }),
                queues: broadcast(old(self)@, EventView { snapshot: true, instrument_id: snapshot.instrument_id, sequence: snapshot.sequence, bids: snapshot.bids@, asks: snapshot.asks@ }),
                ..old(self)@
            }),
            publisher_wf(final(self)@),
    {
        let sequence = snapshot.sequence;
        let after = sequence.saturating_add(1);
        if after > self.next_sequence {
            self.next_sequence = after;
        }
        let event = MarketDataEvent::Snapshot(snapshot);
        self.deliver(&event);
        sequence
    }

    /// Reads a subscriber's oldest event; see `spec_poll`.
    pub fn poll(&mut self, subscriber_id: usize, expected_sequence: u64) -> (r: Result<Option<MarketDataEvent>, MarketDataError>)
        requires
            publisher_wf(old(self)@),
            subscriber_id < old(self)@.queues.len(),
        ensures
            ({
                let (q, res) = spec_poll(old(self)@.queues[subscriber_id as int], expected_sequence);
                &&& final(self)@ == (PublisherView { queues: old(self)@.queues.update(subscriber_id as int, q), ..old(self)@ })
                &&& match r {
                    Ok(Some(e)) => res == Ok::<Option<EventView>, MarketDataError>(Some(e@)),
                    Ok(None) => res == Ok::<Option<EventView>, MarketDataError>(None),
                    Err(err) => res == Err::<Option<EventView>, MarketDataError>(err),
                }
            }),
            publisher_wf(final(self)@),
    {
        let ghost s = self@;
        let ghost q0 = self.subscribers@[subscriber_id as int]@;
        let event = match self.subscribers[subscriber_id].pop_front() {
            Some(e) => e,
            None => {
                proof {
                    assert(self@.queues =~= s.queues.update(subscriber_id as int, s.queues[subscriber_id as int]));
                }
                return Ok(None);
            },
        };
        let received = event.sequence();
        if received > expected_sequence {
            self.subscribers[subscriber_id].push_front(event);
            proof {
                assert(self.subscribers@[subscriber_id as int]@ =~= q0);
                assert(self@.queues =~= s.queues.update(subscriber_id as int, s.queues[subscriber_id as int]));
            }
            return Err(MarketDataError::Gap { expected: expected_sequence, received });
        }
        proof {
            assert(queue_view(self.subscribers@[subscriber_id as int]@) =~= s.queues[subscriber_id as int].drop_first());
            assert(self@.queues =~= s.queues.update(subscriber_id as int, s.queues[subscriber_id as int].drop_first()));
        }
        if received < expected_sequence {
            return Err(MarketDataError::OutOfOrder { expected: expected_sequence, received });
        }
        Ok(Some(event))
    }

    /// Events waiting for a subscriber; 0 for an unknown one.
    pub fn queue_depth(&self, subscriber_id: usize) -> (r: usize)
        ensures
            r == (if subscriber_id < self@.queues.len() { self@.queues[subscriber_id as int].len() } else { 0 }),
    {
        if subscriber_id < self.subscribers.len() {
            self.subscribers[subscriber_id].len()
        } else {
            0
        }
    }
}

/// A price level as depth: its price, total volume and number of orders.
pub open spec fn depth_of(e: (u32, PriceLevel)) -> DepthLevel {
    DepthLevel { price: e.0, quantity: e.1.volume, order_count: e.1.order_count }
}

/// The full depth of a book: bids best (highest) first, asks best
/// (lowest) first, each level aggregated.
pub fn full_depth_snapshot(instrument_id: u16, sequence: u64, book: &OrderBook) -> (r: DepthSnapshot)
    ensures
        r.instrument_id == instrument_id,
        r.sequence == sequence,
        r.bids@ == Seq::new(book.bids.entries@.len(), |i: int| depth_of(book.bids.entries@[book.bids.entries@.len() - 1 - i])),
        r.asks@ == Seq::new(book.asks.entries@.len(), |i: int| depth_of(book.asks.entries@[i])),
{
    let n = book.bids.entries.len();
    let mut bids: Vec<DepthLevel> = Vec::new();
    let mut i: usize = 0;
    while i < n
        invariant
            n == book.bids.entries@.len(),
            i <= n,
            bids@ == Seq::new(i as nat, |k: int| depth_of(book.bids.entries@[n - 1 - k])),
        decreases n - i,
    {
        let (price, level) = book.bids.entries[n - 1 - i];
        bids.push(DepthLevel { price, quantity: level.volume, order_count: level.order_count });
        proof {
            assert(bids@ =~= Seq::new(i as nat + 1, |k: int| depth_of(book.bids.entries@[n - 1 - k])));
        }
        i = i + 1;
    }
    let m = book.asks.entries.len();
    let mut asks: Vec<DepthLevel> = Vec::new();
    let mut j: usize = 0;
    while j < m
        invariant
            m == book.asks.entries@.len(),
            j <= m,
            asks@ == Seq::new(j as nat, |k: int| depth_of(book.asks.entries@[k])),
        decreases m - j,
    {
        let (price, level) = book.asks.entries[j];
        asks.push(DepthLevel { price, quantity: level.volume, order_count: level.order_count });
        proof {
            assert(asks@ =~= Seq::new(j as nat + 1, |k: int| depth_of(book.asks.entries@[k])));
        }
        j = j + 1;
    }
    DepthSnapshot { instrument_id, sequence, bids, asks }
}

/// A subscriber that reads in order sees every published event exactly
/// once: an event carrying the expected number is handed out and leaves
/// the queue, and one ahead of it stays queued.
pub proof fn lemma_poll_in_order(q: Seq<EventView>, expected: u64)
    requires
        q.len() > 0,
    ensures
        q[0].sequence == expected ==> spec_poll(q, expected) == (q.drop_first(), Ok::<Option<EventView>, MarketDataError>(Some(q[0]))),
        q[0].sequence > expected ==> spec_poll(q, expected).0 == q,
{
}

} // verus!
