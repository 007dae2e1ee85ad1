//! Single-writer matching engine: admission, sequencing and price-time
//! matching across the instrument books.

use vstd::prelude::*;
use crate::book::{OrderBook, PriceLadder, order_key, appended, same_but_links, lemma_appended_holds, lemma_appended_keeps, lemma_appended_only};
use crate::matching::{opposite_priority, fills_of, full_fills, fill_total, spec_fills, spec_trades, keys_of, resting_as_before, same_but_state, match_outcome, match_incoming};
use crate::command::{CommandRejectReason, ExchangeEvent, OrderCommand, OrderSide, spec_side_from_wire, spec_command_from_packet};
use crate::constants::{MAX_INSTRUMENTS, MAX_ORDERS, NULL_ORDER, INITIAL_TRADE_CAPACITY, FREE_LIST_END};
use crate::instrument::{Instrument, InstrumentRegistry, MarketType, SOVEREIGN_COUNT, sovereigns, registered_by, spec_spot_id, spec_future_id};
use crate::order::{ClientOrderId, ExchangeOrderId, OrderPacket};
use crate::pool::{CommandKind, Order, OrderPool, PoolError, spec_order_from_command};
use crate::sequence::SequenceNumber;

verus! {

broadcast use {vstd::std_specs::btree::group_btree_axioms, vstd::laws_cmp::group_laws_cmp};

#[derive(Debug, Clone, Copy, PartialEq, Eq, Structural)]
pub struct Trade {
    pub buyer: u32,
    pub seller: u32,
    pub price: u32,
    pub qty: u32,
    pub instrument_id: u16,
    pub buyer_exchange_order_id: u64,
    pub seller_exchange_order_id: u64,
    pub buyer_client_order_id: u64,
    pub seller_client_order_id: u64,
    pub buyer_sequence_number: u64,
    pub seller_sequence_number: u64,
    /// Deterministic logical exchange time: the incoming command's
    /// sequence number, never wall-clock time.
    pub timestamp: u64,
}

#[derive(Debug, Clone, Copy, PartialEq, Eq, Structural)]
pub enum OrderAcceptError {
    InvalidInstrument(u16),
    InvalidSide(u8),
    DuplicateClientOrderId {
        instrument_id: u16,
        account_id: u32,
        client_order_id: ClientOrderId,
    },
    UnknownOrder {
        instrument_id: u16,
        account_id: u32,
        client_order_id: ClientOrderId,
    },
    ExchangeOrderIdExhausted,
    SequenceNumberExhausted,
    OrderPoolExhausted,
}

/// The reject reason an admission error reports.
pub open spec fn spec_reject_reason(e: OrderAcceptError) -> CommandRejectReason {
    match e {
        OrderAcceptError::InvalidInstrument(_) => CommandRejectReason::InvalidInstrument,
        OrderAcceptError::InvalidSide(_) => CommandRejectReason::InvalidSide,
        OrderAcceptError::DuplicateClientOrderId { .. } => CommandRejectReason::DuplicateClientOrderId,
        OrderAcceptError::UnknownOrder { .. } => CommandRejectReason::UnknownOrder,
        OrderAcceptError::ExchangeOrderIdExhausted => CommandRejectReason::ExchangeOrderIdExhausted,
        OrderAcceptError::SequenceNumberExhausted => CommandRejectReason::SequenceNumberExhausted,
        OrderAcceptError::OrderPoolExhausted => CommandRejectReason::OrderPoolExhausted,
    }
}

impl OrderAcceptError {
    pub fn reason(self) -> (r: CommandRejectReason)
        ensures
            r == spec_reject_reason(self),
    {
        match self {
            OrderAcceptError::InvalidInstrument(_) => CommandRejectReason::InvalidInstrument,
            OrderAcceptError::InvalidSide(_) => CommandRejectReason::InvalidSide,
            OrderAcceptError::DuplicateClientOrderId { .. } => CommandRejectReason::DuplicateClientOrderId,
            OrderAcceptError::UnknownOrder { .. } => CommandRejectReason::UnknownOrder,
            OrderAcceptError::ExchangeOrderIdExhausted => CommandRejectReason::ExchangeOrderIdExhausted,
            OrderAcceptError::SequenceNumberExhausted => CommandRejectReason::SequenceNumberExhausted,
            OrderAcceptError::OrderPoolExhausted => CommandRejectReason::OrderPoolExhausted,
        }
    }
}

#[derive(Debug, Clone, Copy, PartialEq, Eq, Structural)]
pub struct AcceptedOrder {
    pub pool_index: u32,
    pub exchange_order_id: ExchangeOrderId,
    pub sequence_number: SequenceNumber,
}

#[derive(Debug, Clone, Copy, PartialEq, Eq, Structural)]
pub enum IngressError {
    QueueFull,
    QueueDisconnected,
}

pub struct MatchingEngine {
    pub pool: OrderPool,
    pub books: Vec<OrderBook>,
    pub instruments: InstrumentRegistry,
    pub trades: Vec<Trade>,
    pub trade_count: usize,
    pub last_events: Vec<ExchangeEvent>,
    pub event_count: usize,
    /// Exchange order id the next new or replace command receives.
    pub next_exchange_order_id: u64,
    /// Sequence number the next accepted command receives.
    pub next_sequence_number: u64,
}

/// `(instrument, account, client order id)` a command is admitted under.
pub open spec fn command_identity(c: OrderCommand) -> (u16, u32, u64) {
    match c {
        OrderCommand::New(o) => (o.instrument_id, o.account_id, o.client_order_id.0),
        OrderCommand::Cancel(o) => (o.instrument_id, o.account_id, o.client_order_id.0),
        OrderCommand::Replace(o) => (o.instrument_id, o.account_id, o.new_client_order_id.0),
    }
}

impl MatchingEngine {
    /// `idx` rests in some book.
    pub open spec fn held(&self, idx: u32) -> bool {
        exists|b: int| 0 <= b < self.books@.len() && #[trigger] self.books@[b].holds(idx)
    }

    #[verifier::opaque]
    pub open spec fn wf(&self) -> bool {
        &&& self.pool.wf()
        &&& self.books@.len() == MAX_INSTRUMENTS
        &&& self.instruments.wf()
        &&& forall|b: int| 0 <= b < self.books@.len() ==> (#[trigger] self.books@[b]).wf(&self.pool)
        &&& forall|b: int, j: u32| 0 <= b < self.books@.len() && #[trigger] self.books@[b].holds(j)
            ==> self.pool.data@[j as int].instrument_id == b
    }

    /// Books and instruments in order, with a pool whose free-list head is
    /// the end marker: every admission that gets as far as the pool is
    /// refused as exhausted.
    pub open spec fn exhausted_pool(&self) -> bool {
        &&& self.pool.free_head == FREE_LIST_END
        &&& self.books@.len() == MAX_INSTRUMENTS
        &&& self.instruments.wf()
    }

    /// The admission decision for `c`: the error it is rejected with, or the
    /// identity it is accepted under.
    pub open spec fn admission(&self, c: OrderCommand) -> Result<AcceptedOrder, OrderAcceptError> {
        let (iid, account_id, coid) = command_identity(c);
        let map = self.books@[iid as int].order_map@;
        if self.instruments.lookup(iid) is None {
            Err(OrderAcceptError::InvalidInstrument(iid))
        } else if c is New && map.contains_key((account_id, coid)) {
            Err(OrderAcceptError::DuplicateClientOrderId { instrument_id: iid, account_id, client_order_id: ClientOrderId(coid) })
        } else if c is Cancel && !map.contains_key((account_id, coid)) {
            Err(OrderAcceptError::UnknownOrder { instrument_id: iid, account_id, client_order_id: ClientOrderId(coid) })
        } else if c is Replace && !map.contains_key((account_id, c->Replace_0.target_client_order_id.0)) {
            Err(OrderAcceptError::UnknownOrder { instrument_id: iid, account_id, client_order_id: c->Replace_0.target_client_order_id })
        } else if c is Replace && coid != c->Replace_0.target_client_order_id.0 && map.contains_key((account_id, coid)) {
            Err(OrderAcceptError::DuplicateClientOrderId { instrument_id: iid, account_id, client_order_id: ClientOrderId(coid) })
        } else if self.next_sequence_number == u64::MAX {
            Err(OrderAcceptError::SequenceNumberExhausted)
        } else if !(c is Cancel) && self.next_exchange_order_id == u64::MAX {
            Err(OrderAcceptError::ExchangeOrderIdExhausted)
        } else if self.pool.free_head == FREE_LIST_END {
            Err(OrderAcceptError::OrderPoolExhausted)
        } else {
            Ok(AcceptedOrder {
                pool_index: self.pool.free_list@[0],
                exchange_order_id: ExchangeOrderId(if c is Cancel { 0 } else { self.next_exchange_order_id }),
                sequence_number: SequenceNumber(self.next_sequence_number),
            })
        }
    }

    /// An engine with the sovereign seed universe registered, every book
    /// empty and sequencing at its first values.
    pub fn new() -> (r: MatchingEngine)
        ensures
            r.wf(),
            r.next_exchange_order_id == 1,
            r.next_sequence_number == 1,
            r.pool.allocated_count == 0,
            r.pool.free_head == 1,
            r.pool.free_list@ == Seq::new((MAX_ORDERS - 1) as nat, |j: int| (j + 1) as u32),
            r.trades@.len() == 0,
            r.last_events@.len() == 0,
            r.trade_count == 0,
            r.event_count == 0,
            forall|b: int| 0 <= b < MAX_INSTRUMENTS ==> (#[trigger] r.books@[b]).order_map@.len() == 0,
            forall|b: int, j: u32| 0 <= b < MAX_INSTRUMENTS ==> !#[trigger] r.books@[b].holds(j),
            forall|id: u16| #[trigger] r.instruments.lookup(id) is Some <==> id < 2 * SOVEREIGN_COUNT,
            forall|s: u16| s < SOVEREIGN_COUNT ==> (#[trigger] r.instruments.lookup(spec_spot_id(s)))->0.market_type == MarketType::Spot
                && r.instruments.lookup(spec_future_id(s))->0.market_type == MarketType::Future,
    {
        let pool = OrderPool::new();
        let mut books: Vec<OrderBook> = Vec::with_capacity(MAX_INSTRUMENTS);
        let mut i: usize = 0;
        while i < MAX_INSTRUMENTS
            invariant
                i <= MAX_INSTRUMENTS,
                books@.len() == i,
                pool.wf(),
                forall|b: int| 0 <= b < i ==> (#[trigger] books@[b]).wf(&pool),
                forall|b: int| 0 <= b < i ==> (#[trigger] books@[b]).order_map@.len() == 0,
                forall|b: int, j: u32| 0 <= b < i ==> !#[trigger] books@[b].holds(j),
            decreases MAX_INSTRUMENTS - i,
        {
            let book = OrderBook::new();
            books.push(book);
            i = i + 1;
        }
        proof {
            reveal(MatchingEngine::wf);
        }
        let seeds = sovereigns();
        let instruments = InstrumentRegistry::from_sovereigns(seeds.as_slice());
        proof {
            assert forall|id: u16| #[trigger] registered_by(seeds@, 12, id) <==> id < 2 * SOVEREIGN_COUNT by {
                if id < 2 * SOVEREIGN_COUNT {
                    let k: int = id as int / 2;
                    assert(seeds@[k].id == k);
                    assert(id == spec_spot_id(seeds@[k].id) || id == spec_future_id(seeds@[k].id));
                }
                if registered_by(seeds@, 12, id) {
                    let k = choose|k: int| 0 <= k < 12 && (id == spec_spot_id(#[trigger] seeds@[k].id) || id == spec_future_id(seeds@[k].id));
                    assert(seeds@[k].id == k);
                }
            }
            assert forall|s: u16| s < SOVEREIGN_COUNT implies (#[trigger] instruments.lookup(spec_spot_id(s)))->0.market_type == MarketType::Spot
                && instruments.lookup(spec_future_id(s))->0.market_type == MarketType::Future by {
                assert(seeds@[s as int].id == s);
                assert(crate::instrument::pair_registered(instruments, seeds@[s as int]));
            }
        }
        MatchingEngine {
            pool,
            books,
            instruments,
            trades: Vec::with_capacity(INITIAL_TRADE_CAPACITY),
            trade_count: 0,
            last_events: Vec::with_capacity(INITIAL_TRADE_CAPACITY + 4),
            event_count: 0,
            next_exchange_order_id: 1,
            next_sequence_number: 1,
        }
    }
}

impl MatchingEngine {
    pub fn instrument(&self, id: u16) -> (r: Option<&Instrument>)
        ensures
            match r {
                Some(i) => self.instruments.lookup(id) == Some(*i),
                None => self.instruments.lookup(id) is None,
            },
    {
        self.instruments.get(id)
    }

    pub fn book(&self, id: u16) -> (r: Option<&OrderBook>)
        ensures
            match r {
                Some(b) => id < self.books@.len() && *b == self.books@[id as int],
                None => id >= self.books@.len(),
            },
    {
        if (id as usize) < self.books.len() {
            Some(&self.books[id as usize])
        } else {
            None
        }
    }

    pub fn book_mut(&mut self, id: u16) -> (r: Option<&mut OrderBook>)
        ensures
            match r {
                Some(b) => {
                    &&& id < old(self).books@.len()
                    &&& *b == old(self).books@[id as int]
                    &&& final(self).books@ == old(self).books@.update(id as int, *final(b))
                },
                None => id >= old(self).books@.len() && *final(self) == *old(self),
            },
    {
        if (id as usize) < self.books.len() {
            Some(&mut self.books[id as usize])
        } else {
            None
        }
    }
}

/// Books other than `except` stay well formed when none of their records
/// changes or is freed.
pub proof fn lemma_books_frame(books: Seq<OrderBook>, p1: &OrderPool, p2: &OrderPool, except: int)
    requires
        forall|b: int| 0 <= b < books.len() && b != except ==> (#[trigger] books[b]).wf(p1),
        forall|b: int, j: u32| 0 <= b < books.len() && b != except && #[trigger] books[b].holds(j)
            ==> p2.data@[j as int] == p1.data@[j as int] && p2.is_allocated(j),
    ensures
        forall|b: int| 0 <= b < books.len() && b != except ==> (#[trigger] books[b]).wf(p2),
{
    assert forall|b: int| 0 <= b < books.len() && b != except implies (#[trigger] books[b]).wf(p2) by {
        assert forall|j: u32| #[trigger] books[b].holds(j) implies p2.data@[j as int] == p1.data@[j as int] && p2.is_allocated(j) by {}
        books[b].lemma_book_frame(p1, p2);
    }
}

/// A resting record is allocated.
pub proof fn lemma_held_allocated(book: &OrderBook, pool: &OrderPool, j: u32)
    requires
        book.wf(pool),
        book.holds(j),
    ensures
        pool.is_allocated(j),
{
    if book.bids.holds(j) {
        let (a, b) = choose|a: int, b: int| 0 <= a < book.bids.queues@.len() && 0 <= b < book.bids.queues@[a].len() && #[trigger] book.bids.queues@[a][b] == j;
    } else {
        let (a, b) = choose|a: int, b: int| 0 <= a < book.asks.queues@.len() && 0 <= b < book.asks.queues@[a].len() && #[trigger] book.asks.queues@[a][b] == j;
    }
}

/// What engine well-formedness says of the pool and the tables.
pub proof fn lemma_wf_pool(e: MatchingEngine)
    requires
        e.wf(),
    ensures
        e.pool.wf(),
        e.books@.len() == MAX_INSTRUMENTS,
        e.instruments.wf(),
        e.pool.data@.len() == MAX_ORDERS,
{
    reveal(MatchingEngine::wf);
}

/// Well-formedness reads only the pool, the books and the instruments.
pub proof fn lemma_wf_frame(e0: MatchingEngine, e1: MatchingEngine)
    requires
        e0.wf(),
        e1.pool == e0.pool,
        e1.books@ == e0.books@,
        e1.instruments == e0.instruments,
    ensures
        e1.wf(),
{
    reveal(MatchingEngine::wf);
}

/// What engine well-formedness says of one book.
pub proof fn lemma_wf_book(e: MatchingEngine, iid: int)
    requires
        e.wf(),
        0 <= iid < MAX_INSTRUMENTS,
    ensures
        e.pool.wf(),
        e.books@.len() == MAX_INSTRUMENTS,
        e.instruments.wf(),
        e.pool.data@.len() == MAX_ORDERS,
        e.books@[iid].wf(&e.pool),
        forall|j: u32| #[trigger] e.books@[iid].holds(j) ==> e.pool.data@[j as int].instrument_id == iid,
{
    reveal(MatchingEngine::wf);
}

/// An engine step that changes only book `iid`, the records it held and
/// record `extra` keeps the engine well formed.
pub proof fn lemma_engine_step(e0: MatchingEngine, e1: MatchingEngine, iid: int, extra: u32)
    requires
        e0.wf(),
        e1.pool.wf(),
        e1.instruments == e0.instruments,
        e1.books@.len() == e0.books@.len(),
        0 <= iid < e0.books@.len(),
        forall|b: int| 0 <= b < e0.books@.len() && b != iid ==> #[trigger] e1.books@[b] == e0.books@[b],
        e1.books@[iid].wf(&e1.pool),
        forall|b: int| 0 <= b < e0.books@.len() && b != iid ==> !(#[trigger] e0.books@[b]).holds(extra),
        forall|j: u32| e0.pool.is_allocated(j) && !e0.books@[iid].holds(j) && j != extra
            ==> e1.pool.data@[j as int] == e0.pool.data@[j as int] && #[trigger] e1.pool.is_allocated(j),
        forall|j: u32| #[trigger] e1.books@[iid].holds(j) ==> e0.books@[iid].holds(j) || j == extra,
        forall|j: int| 0 <= j < e0.pool.data@.len() ==> (#[trigger] e1.pool.data@[j]).instrument_id == e0.pool.data@[j].instrument_id,
        e1.books@[iid].holds(extra) ==> e0.pool.data@[extra as int].instrument_id == iid,
    ensures
        e1.wf(),
{
    reveal(MatchingEngine::wf);
    assert forall|b: int, j: u32| 0 <= b < e1.books@.len() && b != iid && #[trigger] e1.books@[b].holds(j)
        implies e1.pool.data@[j as int] == e0.pool.data@[j as int] && e1.pool.is_allocated(j) by {
        assert(e0.books@[b].holds(j));
        lemma_held_allocated(&e0.books@[b], &e0.pool, j);
        if e0.books@[iid].holds(j) {
            assert(e0.pool.data@[j as int].instrument_id == iid);
        }
        assert(e1.pool.is_allocated(j));
    }
    assert forall|b: int| 0 <= b < e1.books@.len() && b != iid implies (#[trigger] e1.books@[b]).wf(&e0.pool) by {
        assert(e1.books@[b] == e0.books@[b]);
    }
    lemma_books_frame(e1.books@, &e0.pool, &e1.pool, iid);
    assert forall|b: int| 0 <= b < e1.books@.len() implies (#[trigger] e1.books@[b]).wf(&e1.pool) by {
        if b != iid {
            assert(e1.books@[b].wf(&e1.pool));
        }
    }
    assert forall|b: int, j: u32| 0 <= b < e1.books@.len() && #[trigger] e1.books@[b].holds(j)
        implies e1.pool.data@[j as int].instrument_id == b by {
        if b == iid {
            if j != extra {
                assert(e0.books@[iid].holds(j));
                lemma_held_allocated(&e0.books@[iid], &e0.pool, j);
            }
        } else {
            assert(e0.books@[b].holds(j));
            lemma_held_allocated(&e0.books@[b], &e0.pool, j);
        }
    }
}

impl MatchingEngine {
    /// Admits a command atomically with respect to sequence and order
    /// identity and pool capacity: a rejected command consumes nothing.
    pub fn accept_command(&mut self, command: &OrderCommand) -> (r: Result<AcceptedOrder, OrderAcceptError>)
        requires
            old(self).wf() || old(self).exhausted_pool(),
        ensures
            old(self).wf() ==> final(self).wf(),
            r == old(self).admission(*command),
            r is Err ==> *final(self) == *old(self),
            r matches Ok(a) ==> {
                &&& final(self).pool.data@ == old(self).pool.data@.update(a.pool_index as int,
                    spec_order_from_command(*command, a.exchange_order_id.0, a.sequence_number.0))
                &&& final(self).pool.free_list@ == old(self).pool.free_list@.drop_first()
                &&& final(self).pool.allocated_count == old(self).pool.allocated_count + 1
                &&& final(self).pool.is_allocated(a.pool_index)
                &&& !final(self).held(a.pool_index)
                &&& final(self).next_sequence_number == old(self).next_sequence_number + 1
                &&& final(self).next_exchange_order_id == old(self).next_exchange_order_id + (if command is Cancel { 0int } else { 1 })
                &&& final(self).books == old(self).books
                &&& final(self).instruments == old(self).instruments
                &&& final(self).trades == old(self).trades
                &&& final(self).last_events == old(self).last_events
                &&& final(self).trade_count == old(self).trade_count
                &&& final(self).event_count == old(self).event_count
            },
    {
        proof {
            reveal(MatchingEngine::wf);
        }
        let (instrument_id, account_id, client_order_id) = match *command {
            OrderCommand::New(o) => (o.instrument_id, o.account_id, o.client_order_id),
            OrderCommand::Cancel(o) => (o.instrument_id, o.account_id, o.client_order_id),
            OrderCommand::Replace(o) => (o.instrument_id, o.account_id, o.new_client_order_id),
        };
        if !self.instruments.contains(instrument_id) {
            return Err(OrderAcceptError::InvalidInstrument(instrument_id));
        }
        let book = &self.books[instrument_id as usize];
        match *command {
            OrderCommand::New(_) => {
                if book.contains_order(account_id, client_order_id) {
                    return Err(OrderAcceptError::DuplicateClientOrderId { instrument_id, account_id, client_order_id });
                }
            },
            OrderCommand::Cancel(_) => {
                if !book.contains_order(account_id, client_order_id) {
                    return Err(OrderAcceptError::UnknownOrder { instrument_id, account_id, client_order_id });
                }
            },
            OrderCommand::Replace(o) => {
                if !book.contains_order(account_id, o.target_client_order_id) {
                    return Err(OrderAcceptError::UnknownOrder { instrument_id, account_id, client_order_id: o.target_client_order_id });
                }
                if o.new_client_order_id.0 != o.target_client_order_id.0 && book.contains_order(account_id, o.new_client_order_id) {
                    return Err(OrderAcceptError::DuplicateClientOrderId { instrument_id, account_id, client_order_id: o.new_client_order_id });
                }
            },
        }
        let sequence = self.next_sequence_number;
        let next_sequence = match sequence.checked_add(1) {
            Some(n) => n,
            None => return Err(OrderAcceptError::SequenceNumberExhausted),
        };
        let is_cancel = match command {
            OrderCommand::Cancel(_) => true,
            _ => false,
        };
        let exchange_order_id = if is_cancel {
            ExchangeOrderId(0)
        } else {
            let id = self.next_exchange_order_id;
            if id.checked_add(1).is_none() {
                return Err(OrderAcceptError::ExchangeOrderIdExhausted);
            }
            ExchangeOrderId(id)
        };
        if self.pool.free_head == FREE_LIST_END {
            return Err(OrderAcceptError::OrderPoolExhausted);
        }
        let ghost pool0 = self.pool;
        let pool_index = match self.pool.allocate_from_command(command, exchange_order_id, SequenceNumber(sequence)) {
            Ok(i) => i,
            Err(PoolError::Exhausted) => return Err(OrderAcceptError::OrderPoolExhausted),
        };
        proof {
            assert(pool0.free_list@.contains(pool_index));
            assert forall|b: int, j: u32| 0 <= b < self.books@.len() && #[trigger] self.books@[b].holds(j)
                implies self.pool.data@[j as int] == pool0.data@[j as int] && self.pool.is_allocated(j) by {
                lemma_held_allocated(&self.books@[b], &pool0, j);
                if self.pool.free_list@.contains(j) {
                    let t = choose|t: int| 0 <= t < self.pool.free_list@.len() && self.pool.free_list@[t] == j;
                    assert(pool0.free_list@[t + 1] == j);
                }
            }
            lemma_books_frame(self.books@, &pool0, &self.pool, -1);
            assert forall|b: int| 0 <= b < self.books@.len() implies !(#[trigger] self.books@[b]).holds(pool_index) by {
                if self.books@[b].holds(pool_index) {
                    lemma_held_allocated(&self.books@[b], &pool0, pool_index);
                }
            }
        }
        self.next_sequence_number = next_sequence;
        if !is_cancel {
            self.next_exchange_order_id = exchange_order_id.0 + 1;
        }
        Ok(AcceptedOrder { pool_index, exchange_order_id, sequence_number: SequenceNumber(sequence) })
    }

    /// Decodes a packet and admits the command it carries.
    pub fn accept_order(&mut self, packet: &OrderPacket) -> (r: Result<AcceptedOrder, OrderAcceptError>)
        requires
            old(self).wf(),
        ensures
            final(self).wf(),
            match spec_command_from_packet(*packet) {
                Ok(c) => r == old(self).admission(c),
                Err(_) => r == Err::<AcceptedOrder, OrderAcceptError>(OrderAcceptError::InvalidSide(packet.side)) && *final(self) == *old(self),
            },
            r is Err ==> *final(self) == *old(self),
    {
        match OrderCommand::from_packet(packet) {
            Ok(command) => self.accept_command(&command),
            Err(_) => Err(OrderAcceptError::InvalidSide(packet.side)),
        }
    }
}

impl MatchingEngine {
    pub(crate) fn push_event(&mut self, event: ExchangeEvent)
        ensures
            old(self).wf() ==> final(self).wf(),
            final(self).last_events@ == old(self).last_events@.push(event),
            final(self).event_count == final(self).last_events@.len(),
            final(self).pool == old(self).pool,
            final(self).books == old(self).books,
            final(self).instruments == old(self).instruments,
            final(self).trades == old(self).trades,
            final(self).trade_count == old(self).trade_count,
            final(self).next_sequence_number == old(self).next_sequence_number,
            final(self).next_exchange_order_id == old(self).next_exchange_order_id,
    {
        self.last_events.push(event);
        self.event_count = self.last_events.len();
        proof {
            reveal(MatchingEngine::wf);
        }
    }

    pub fn events(&self) -> (r: &[ExchangeEvent])
        ensures
            r@ == self.last_events@,
    {
        self.last_events.as_slice()
    }

}

} // verus!
