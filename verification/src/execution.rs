//! Execution of one incoming order record: matching it against its book,
//! resting or freeing it, and reporting what happened.

use vstd::prelude::*;
use crate::book::{OrderBook, PriceLadder, order_key, appended, same_but_links, lemma_appended_holds, lemma_appended_only, volumes_within, removed_from};
use crate::command::{ExchangeEvent, OrderSide};
use crate::constants::{MAX_INSTRUMENTS, MAX_ORDERS, NULL_ORDER};
use crate::engine::{MatchingEngine, Trade, lemma_wf_book, lemma_wf_pool, lemma_wf_frame, lemma_engine_step, lemma_held_allocated, lemma_books_frame};
use crate::matching::{lemma_fill_total_nonneg, opposite_priority, fills_of, full_fills, fill_total, spec_trades, keys_of, resting_as_before, same_but_state, match_outcome, match_incoming};
use crate::order::{ClientOrderId, ExchangeOrderId};
use crate::pool::Order;
use crate::sequence::SequenceNumber;

verus! {

/// The event reporting a trade.
pub open spec fn trade_event(t: Trade) -> ExchangeEvent {
    ExchangeEvent::Trade {
        buyer: t.buyer,
        seller: t.seller,
        instrument_id: t.instrument_id,
        buyer_exchange_order_id: ExchangeOrderId(t.buyer_exchange_order_id),
        seller_exchange_order_id: ExchangeOrderId(t.seller_exchange_order_id),
        buyer_client_order_id: ClientOrderId(t.buyer_client_order_id),
        seller_client_order_id: ClientOrderId(t.seller_client_order_id),
        buyer_sequence_number: SequenceNumber(t.buyer_sequence_number),
        seller_sequence_number: SequenceNumber(t.seller_sequence_number),
        price: t.price,
        qty: t.qty,
        timestamp: t.timestamp,
    }
}

/// The events reporting trades `ts`, in order.
pub open spec fn trade_events(ts: Seq<Trade>) -> Seq<ExchangeEvent> {
    ts.map_values(|t: Trade| trade_event(t))
}

/// The event reporting that record `o` was accepted for matching.
pub open spec fn accepted_event(o: Order) -> ExchangeEvent {
    ExchangeEvent::OrderAccepted {
        instrument_id: o.instrument_id,
        account_id: o.account_id,
        client_order_id: ClientOrderId(o.client_order_id),
        exchange_order_id: ExchangeOrderId(o.exchange_order_id),
        sequence_number: SequenceNumber(o.sequence_number),
        side: if o.side == 0 { OrderSide::Buy } else { OrderSide::Sell },
        price: o.price,
        quantity: o.quantity,
        client_timestamp: o.client_timestamp,
    }
}

/// The ladder an order of `side` rests on (0 = bids).
pub open spec fn own_ladder(book: OrderBook, side: u8) -> PriceLadder {
    if side == 0 { book.bids } else { book.asks }
}

/// The ladder an order of `side` trades against.
pub open spec fn other_ladder(book: OrderBook, side: u8) -> PriceLadder {
    if side == 0 { book.asks } else { book.bids }
}

/// Quantity incoming record `idx` keeps once matched on `e`.
pub open spec fn left_after_match(e: MatchingEngine, idx: u32) -> int {
    let d = e.pool.data@;
    let o = d[idx as int];
    let buy = o.side == 0;
    o.remaining - fill_total(fills_of(d, opposite_priority(&e.books@[o.instrument_id as int], buy), idx, buy))
}

/// What matching and then resting or dropping incoming record `idx` of
/// state `e0` leads to in `e1`: the trades, the book of its instrument and
/// the pool's records and free list.
#[verifier::opaque]
pub open spec fn match_rest_outcome(e0: MatchingEngine, e1: MatchingEngine, idx: u32) -> bool {
    let d0 = e0.pool.data@;
    let o = d0[idx as int];
    let iid = o.instrument_id as int;
    let buy = o.side == 0;
    let b0 = e0.books@[iid];
    let b1 = e1.books@[iid];
    let prio0 = opposite_priority(&b0, buy);
    let fills = fills_of(d0, prio0, idx, buy);
    let k = full_fills(d0, fills);
    let left = left_after_match(e0, idx);
    let freed = prio0.take(k);
    &&& e1.trades@ == e0.trades@ + spec_trades(d0, idx, fills, o.instrument_id, buy)
    &&& e1.books@ == e0.books@.update(iid, b1)
    &&& opposite_priority(&b1, buy) == prio0.skip(k)
    &&& resting_as_before(e1.pool.data@, d0, prio0.skip(k), if fills.len() > k { fills.last().1 as int } else { 0 })
    &&& forall|j: int| 0 <= j < d0.len() ==> same_but_state(#[trigger] e1.pool.data@[j], d0[j])
    &&& forall|j: int| 0 <= j < d0.len() && j != idx && !prio0.contains(j as u32) ==> same_but_links(#[trigger] e1.pool.data@[j], d0[j])
    &&& left > 0 ==> {
        &&& appended(&own_ladder(b0, o.side), &own_ladder(b1, o.side), idx, o.price, left as u32)
        &&& b1.order_map@ == b0.order_map@.remove_keys(keys_of(d0, freed)).insert(order_key(o), idx)
        &&& e1.pool.free_list@ == freed.reverse() + e0.pool.free_list@
        &&& e1.pool.data@[idx as int].remaining == left
    }
    &&& left == 0 ==> {
        &&& own_ladder(b1, o.side) == own_ladder(b0, o.side)
        &&& b1.order_map@ == b0.order_map@.remove_keys(keys_of(d0, freed))
        &&& e1.pool.free_list@ == seq![idx] + freed.reverse() + e0.pool.free_list@
    }
    &&& e1.instruments == e0.instruments
    &&& e1.next_sequence_number == e0.next_sequence_number
    &&& e1.next_exchange_order_id == e0.next_exchange_order_id
}

/// What matching incoming record `idx` of `e0` does, as `e1` shows it:
/// the trades printed and the opposite side of its book consumed.
#[verifier::opaque]
pub open spec fn matched(e0: MatchingEngine, e1: MatchingEngine, idx: u32) -> bool {
    let d0 = e0.pool.data@;
    let o = d0[idx as int];
    let iid = o.instrument_id as int;
    let buy = o.side == 0;
    let b0 = e0.books@[iid];
    let b1 = e1.books@[iid];
    let prio0 = opposite_priority(&b0, buy);
    let k = full_fills(d0, fills_of(d0, prio0, idx, buy));
    &&& e1.books@ == e0.books@.update(iid, b1)
    &&& match_outcome(d0, e1.pool.data@, prio0, opposite_priority(&b1, buy), e0.trades@, e1.trades@, idx, o.instrument_id, buy)
    &&& forall|j: int| 0 <= j < d0.len() && j != idx && !prio0.contains(j as u32) ==> same_but_links(#[trigger] e1.pool.data@[j], d0[j])
    &&& own_ladder(b1, o.side) == own_ladder(b0, o.side)
    &&& e1.pool.free_list@ == prio0.take(k).reverse() + e0.pool.free_list@
    &&& b1.order_map@ == b0.order_map@.remove_keys(keys_of(d0, prio0.take(k)))
    &&& e1.instruments == e0.instruments
    &&& e1.next_sequence_number == e0.next_sequence_number
    &&& e1.next_exchange_order_id == e0.next_exchange_order_id
}

/// What resting or freeing record `idx` of `e0` does, as `e1` shows it.
#[verifier::opaque]
pub open spec fn rested(e0: MatchingEngine, e1: MatchingEngine, idx: u32) -> bool {
    let d0 = e0.pool.data@;
    let o = d0[idx as int];
    let iid = o.instrument_id as int;
    let b0 = e0.books@[iid];
    let b1 = e1.books@[iid];
    &&& e1.books@ == e0.books@.update(iid, b1)
    &&& forall|j: int| 0 <= j < d0.len() ==> same_but_links(#[trigger] e1.pool.data@[j], d0[j])
    &&& o.remaining > 0 ==> {
        &&& appended(&own_ladder(b0, o.side), &own_ladder(b1, o.side), idx, o.price, o.remaining)
        &&& other_ladder(b1, o.side) == other_ladder(b0, o.side)
        &&& b1.order_map@ == b0.order_map@.insert(order_key(o), idx)
        &&& e1.pool.free_list@ == e0.pool.free_list@
    }
    &&& o.remaining == 0 ==> {
        &&& b1 == b0
        &&& e1.pool.free_list@ == seq![idx] + e0.pool.free_list@
    }
    &&& e1.instruments == e0.instruments
    &&& e1.next_sequence_number == e0.next_sequence_number
    &&& e1.next_exchange_order_id == e0.next_exchange_order_id
}

/// Matching then resting makes up `match_rest_outcome`.
#[verifier::rlimit(50)]
#[verifier::spinoff_prover]
pub proof fn lemma_match_rest(e0: MatchingEngine, e1: MatchingEngine, e2: MatchingEngine, idx: u32)
    requires
        matched(e0, e1, idx),
        rested(e1, e2, idx),
        e2.trades == e1.trades,
        e1.pool.data@[idx as int].remaining == left_after_match(e0, idx),
        e1.pool.data@[idx as int] == (Order { remaining: e1.pool.data@[idx as int].remaining, ..e0.pool.data@[idx as int] }),
        e0.pool.data@[idx as int].side <= 1,
        e1.pool.data@.len() == e0.pool.data@.len(),
        e0.pool.data@[idx as int].instrument_id < e0.books@.len(),
        e1.books@.len() == e0.books@.len(),
        idx < e0.pool.data@.len(),
        e0.wf(),
    ensures
        match_rest_outcome(e0, e2, idx),
{
    reveal(match_rest_outcome);
    lemma_wf_pool(e0);
    lemma_wf_book(e0, e0.pool.data@[idx as int].instrument_id as int);
    if e0.pool.data@[idx as int].side == 0 {
        e0.books@[e0.pool.data@[idx as int].instrument_id as int].lemma_ask_priority_held(&e0.pool);
    } else {
        e0.books@[e0.pool.data@[idx as int].instrument_id as int].lemma_bid_priority_held(&e0.pool);
    }
    reveal(matched);
    reveal(rested);
    let d0 = e0.pool.data@;
    let o = d0[idx as int];
    let iid = o.instrument_id as int;
    let buy = o.side == 0;
    let b1 = e1.books@[iid];
    let b2 = e2.books@[iid];
    assert(e1.pool.data@[idx as int].instrument_id == o.instrument_id);
    assert(opposite_priority(&b2, buy) == opposite_priority(&b1, buy)) by {
        if o.remaining - fill_total(fills_of(d0, opposite_priority(&e0.books@[iid], buy), idx, buy)) > 0 {
            assert(other_ladder(b2, o.side) == other_ladder(b1, o.side));
        }
    }
    assert forall|j: int| 0 <= j < d0.len() implies same_but_state(#[trigger] e2.pool.data@[j], d0[j]) by {
        assert(same_but_links(e2.pool.data@[j], e1.pool.data@[j]));
        assert(same_but_state(e1.pool.data@[j], d0[j]));
    }
    assert(e2.books@ =~= e0.books@.update(iid, b2));
    let prio0 = opposite_priority(&e0.books@[iid], buy);
    assert forall|j: int| 0 <= j < d0.len() && j != idx && !prio0.contains(j as u32) implies same_but_links(#[trigger] e2.pool.data@[j], d0[j]) by {
        assert(same_but_links(e2.pool.data@[j], e1.pool.data@[j]));
        assert(same_but_links(e1.pool.data@[j], d0[j]));
    }
    let fills = fills_of(d0, prio0, idx, buy);
    let k = full_fills(d0, fills);
    let np = prio0.skip(k);
    let cut = if fills.len() > k { fills.last().1 as int } else { 0 };
    assert forall|t: int| 0 <= t < np.len() implies e2.pool.data@[#[trigger] np[t] as int].remaining == d0[np[t] as int].remaining - (if t == 0 { cut } else { 0 }) by {
        assert(e1.pool.data@[np[t] as int].remaining == d0[np[t] as int].remaining - (if t == 0 { cut } else { 0 }));
        assert(same_but_links(e2.pool.data@[np[t] as int], e1.pool.data@[np[t] as int]));
    }
    assert(seq![idx] + (prio0.take(k).reverse() + e0.pool.free_list@) =~= seq![idx] + prio0.take(k).reverse() + e0.pool.free_list@);
}

/// `match_rest_outcome` reads neither the events nor their count.
pub proof fn lemma_outcome_frame(a0: MatchingEngine, a1: MatchingEngine, b0: MatchingEngine, b1: MatchingEngine, idx: u32)
    requires
        match_rest_outcome(a0, a1, idx),
        b0.pool == a0.pool,
        b0.books == a0.books,
        b0.trades == a0.trades,
        b0.instruments == a0.instruments,
        b0.next_sequence_number == a0.next_sequence_number,
        b0.next_exchange_order_id == a0.next_exchange_order_id,
        b1.pool == a1.pool,
        b1.books == a1.books,
        b1.trades == a1.trades,
        b1.instruments == a1.instruments,
        b1.next_sequence_number == a1.next_sequence_number,
        b1.next_exchange_order_id == a1.next_exchange_order_id,
    ensures
        match_rest_outcome(b0, b1, idx),
{
    reveal(match_rest_outcome);
}

/// The acceptance event of record `o`.
pub fn accepted_event_of(o: &Order) -> (e: ExchangeEvent)
    ensures
        e == accepted_event(*o),
{
    ExchangeEvent::OrderAccepted {
        instrument_id: o.instrument_id,
        account_id: o.account_id,
        client_order_id: ClientOrderId(o.client_order_id),
        exchange_order_id: ExchangeOrderId(o.exchange_order_id),
        sequence_number: SequenceNumber(o.sequence_number),
        side: if o.side == 0 { OrderSide::Buy } else { OrderSide::Sell },
        price: o.price,
        quantity: o.quantity,
        client_timestamp: o.client_timestamp,
    }
}

/// `match_rest_outcome`, with the acceptance and trade events reported.
#[verifier::opaque]
pub open spec fn new_order_outcome(e0: MatchingEngine, e1: MatchingEngine, idx: u32) -> bool {
    &&& match_rest_outcome(e0, e1, idx)
    &&& e1.last_events@ == e0.last_events@ + seq![accepted_event(e0.pool.data@[idx as int])] + trade_events(e1.trades@.skip(e0.trades@.len() as int))
}

/// What `execute_new` needs of incoming record `idx`: allocated, resting
/// nowhere, unlinked, an order of a registered instrument, and the level it
/// would rest on has room for what is left of it.
pub open spec fn can_execute(e: MatchingEngine, idx: u32) -> bool {
    let o = e.pool.data@[idx as int];
    &&& e.pool.is_allocated(idx)
    &&& !e.held(idx)
    &&& o.side <= 1
    &&& e.instruments.lookup(o.instrument_id) is Some
    &&& o.next == NULL_ORDER
    &&& o.prev == NULL_ORDER
    &&& rest_fits(e, idx)
}

/// The level record `idx` would rest on after matching on `e` has room for
/// what is left of it.
#[verifier::opaque]
pub open spec fn rest_fits(e: MatchingEngine, idx: u32) -> bool {
    let o = e.pool.data@[idx as int];
    left_after_match(e, idx) > 0 ==>
        own_ladder(e.books@[o.instrument_id as int], o.side).volume_at(o.price) + left_after_match(e, idx) <= u32::MAX
}

/// `can_execute` reads neither the outputs nor the counters.
pub proof fn lemma_can_execute_frame(e0: MatchingEngine, e1: MatchingEngine, idx: u32)
    requires
        can_execute(e0, idx),
        e1.pool == e0.pool,
        e1.books@ == e0.books@,
        e1.instruments == e0.instruments,
    ensures
        can_execute(e1, idx),
{
    reveal(rest_fits);
    if e1.held(idx) {
        let b = choose|b: int| 0 <= b < e1.books@.len() && #[trigger] e1.books@[b].holds(idx);
        assert(e0.books@[b].holds(idx));
    }
    assert(left_after_match(e1, idx) == left_after_match(e0, idx));
}

impl MatchingEngine {
    /// Matches incoming record `idx` against the opposite side of its book.
    #[verifier::rlimit(100)]
    #[verifier::spinoff_prover]
    pub(crate) fn match_step(&mut self, idx: u32)
        requires
            old(self).wf(),
            can_execute(*old(self), idx),
        ensures
            final(self).wf(),
            matched(*old(self), *final(self), idx),
            final(self).pool.data@[idx as int].remaining == left_after_match(*old(self), idx),
            final(self).pool.is_allocated(idx),
            !final(self).held(idx),
            final(self).pool.data@[idx as int] == (Order { remaining: final(self).pool.data@[idx as int].remaining, ..old(self).pool.data@[idx as int] }),
            final(self).last_events == old(self).last_events,
            final(self).event_count == old(self).event_count,
            final(self).trade_count == old(self).trade_count,
    {
        let ghost e0 = *self;
        let ghost d0 = self.pool.data@;
        proof {
            lemma_wf_pool(e0);
        }
        let iid = self.pool.data[idx as usize].instrument_id;
        let buy = self.pool.data[idx as usize].side == 0;
        let ghost b0 = self.books@[iid as int];
        proof {
            assert(iid < MAX_INSTRUMENTS);
            lemma_wf_book(e0, iid as int);
            assert(!self.books@[iid as int].holds(idx));
        }
        match_incoming(&mut self.pool, &mut self.books[iid as usize], &mut self.trades, iid, idx, buy);
        let ghost b2 = self.books@[iid as int];
        let ghost prio0 = opposite_priority(&b0, buy);
        let ghost k = full_fills(d0, fills_of(d0, prio0, idx, buy));
        proof {
            assert(left_after_match(e0, idx) == d0[idx as int].remaining - fill_total(fills_of(d0, prio0, idx, buy)));
            assert(match_outcome(d0, self.pool.data@, prio0, opposite_priority(&b2, buy), e0.trades@, self.trades@, idx, iid, buy));
            assert(fill_total(fills_of(d0, prio0, idx, buy)) <= d0[idx as int].remaining);
            let x = d0[idx as int].remaining - fill_total(fills_of(d0, prio0, idx, buy));
            assert(self.pool.data@[idx as int] == (Order { remaining: x as u32, ..d0[idx as int] }));
            lemma_fill_total_nonneg(fills_of(d0, prio0, idx, buy));
            assert(0 <= x <= u32::MAX);
            assert(x as u32 == x);
            assert(self.pool.data@[idx as int].remaining == left_after_match(e0, idx));
            reveal(matched);
            if buy { b0.lemma_ask_priority_held(&e0.pool); } else { b0.lemma_bid_priority_held(&e0.pool); }
            assert forall|j: u32| prio0.take(k).contains(j) implies #[trigger] b0.holds(j) by {
                let t = choose|t: int| 0 <= t < prio0.take(k).len() && prio0.take(k)[t] == j;
                assert(prio0[t] == j);
            }
            assert forall|j: u32| e0.pool.is_allocated(j) && !b0.holds(j) && j != idx implies #[trigger] self.pool.is_allocated(j) by {
                if self.pool.free_list@.contains(j) {
                    let t = choose|t: int| 0 <= t < self.pool.free_list@.len() && self.pool.free_list@[t] == j;
                    if t < k {
                        assert(prio0.take(k).reverse()[t] == j);
                        assert(prio0.take(k).contains(j));
                    } else {
                        assert(e0.pool.free_list@[t - k] == j);
                    }
                }
            }
            assert forall|b: int| 0 <= b < e0.books@.len() && b != iid implies !(#[trigger] e0.books@[b]).holds(idx) by {}
            assert forall|j: int| 0 <= j < d0.len() implies (#[trigger] self.pool.data@[j]).instrument_id == d0[j].instrument_id by {
                assert(same_but_state(self.pool.data@[j], d0[j]));
            }
            lemma_engine_step(e0, *self, iid as int, idx);
            assert forall|b: int| 0 <= b < self.books@.len() implies !(#[trigger] self.books@[b]).holds(idx) by {
                if b != iid {
                    assert(self.books@[b] == e0.books@[b]);
                }
            }
        }
    }

    /// Rests what is left of incoming record `idx` on its own side of its
    /// book, or frees the record when nothing is left.
    #[verifier::rlimit(100)]
    #[verifier::spinoff_prover]
    pub(crate) fn rest_step(&mut self, idx: u32)
        requires
            old(self).wf(),
            old(self).pool.is_allocated(idx),
            !old(self).held(idx),
            old(self).pool.data@[idx as int].side <= 1,
            old(self).instruments.lookup(old(self).pool.data@[idx as int].instrument_id) is Some,
            old(self).pool.data@[idx as int].next == NULL_ORDER,
            old(self).pool.data@[idx as int].prev == NULL_ORDER,
            old(self).pool.data@[idx as int].remaining > 0 ==>
                own_ladder(old(self).books@[old(self).pool.data@[idx as int].instrument_id as int], old(self).pool.data@[idx as int].side)
                    .volume_at(old(self).pool.data@[idx as int].price) + old(self).pool.data@[idx as int].remaining <= u32::MAX,
        ensures
            final(self).wf(),
            rested(*old(self), *final(self), idx),
            final(self).trades == old(self).trades,
            final(self).last_events == old(self).last_events,
            final(self).event_count == old(self).event_count,
            final(self).trade_count == old(self).trade_count,
    {
        let ghost e0 = *self;
        let ghost d0 = self.pool.data@;
        proof {
            lemma_wf_pool(e0);
        }
        let iid = self.pool.data[idx as usize].instrument_id;
        let ghost o = d0[idx as int];
        let ghost b0 = self.books@[iid as int];
        proof {
            assert(iid < MAX_INSTRUMENTS);
            lemma_wf_book(e0, iid as int);
            assert(!b0.holds(idx));
            assert forall|b: int| 0 <= b < e0.books@.len() && b != iid implies !(#[trigger] e0.books@[b]).holds(idx) by {}
        }
        if self.pool.data[idx as usize].remaining > 0 {
            self.books[iid as usize].insert_limit(idx, &mut self.pool);
            proof {
                reveal(rested);
                let b3 = self.books@[iid as int];
                if o.side == 0 {
                    lemma_appended_holds(&b0.bids, &b3.bids, idx, o.price, o.remaining);
                    assert forall|j: u32| #[trigger] b3.holds(j) implies j == idx || b0.holds(j) by {
                        if b3.bids.holds(j) {
                            lemma_appended_only(&b0.bids, &b3.bids, idx, o.price, o.remaining, j);
                        }
                    }
                } else {
                    lemma_appended_holds(&b0.asks, &b3.asks, idx, o.price, o.remaining);
                    assert forall|j: u32| #[trigger] b3.holds(j) implies j == idx || b0.holds(j) by {
                        if b3.asks.holds(j) {
                            lemma_appended_only(&b0.asks, &b3.asks, idx, o.price, o.remaining, j);
                        }
                    }
                }
                assert forall|j: int| 0 <= j < d0.len() implies (#[trigger] self.pool.data@[j]).instrument_id == d0[j].instrument_id by {
                    assert(same_but_links(self.pool.data@[j], d0[j]));
                }
                assert forall|j: u32| e0.pool.is_allocated(j) && !b0.holds(j) && j != idx implies #[trigger] self.pool.is_allocated(j) by {}
                lemma_engine_step(e0, *self, iid as int, idx);
            }
        } else {
            self.pool.deallocate(idx);
            proof {
                reveal(rested);
                b0.lemma_book_frame_free(d0, &self.pool, idx);
                assert forall|j: u32| e0.pool.is_allocated(j) && !b0.holds(j) && j != idx implies #[trigger] self.pool.is_allocated(j) by {}
                lemma_engine_step(e0, *self, iid as int, idx);
            }
        }
        proof {
            assert(self.books@ =~= e0.books@.update(iid as int, self.books@[iid as int]));
            reveal(rested);
        }
    }

    /// Matches incoming record `idx` against its book, then rests what is
    /// left of it or frees it.
    #[verifier::spinoff_prover]
    pub(crate) fn match_and_rest(&mut self, idx: u32)
        requires
            old(self).wf(),
            can_execute(*old(self), idx),
        ensures
            final(self).wf(),
            match_rest_outcome(*old(self), *final(self), idx),
            final(self).trades@.len() >= old(self).trades@.len(),
            final(self).last_events == old(self).last_events,
            final(self).event_count == old(self).event_count,
            final(self).trade_count == old(self).trade_count,
    {
        let ghost e0 = *self;
        proof {
            reveal(rest_fits);
        }
        self.match_step(idx);
        let ghost e1 = *self;
        proof {
            reveal(matched);
            lemma_wf_pool(e1);
        }
        self.rest_step(idx);
        proof {
            lemma_wf_pool(e0);
            lemma_match_rest(e0, e1, *self, idx);
            reveal(match_rest_outcome);
        }
    }

    /// Reports incoming record `idx` as accepted, matches it, rests or frees
    /// it, and reports its trades.
    #[verifier::rlimit(50)]
    #[verifier::spinoff_prover]
    #[verifier::rlimit(100)]
    pub(crate) fn execute_new(&mut self, idx: u32)
        requires
            old(self).wf(),
            can_execute(*old(self), idx),
        ensures
            final(self).wf(),
            new_order_outcome(*old(self), *final(self), idx),
            final(self).trade_count == final(self).trades@.len(),
            final(self).event_count == final(self).last_events@.len(),
    {
        let ghost e0 = *self;
        proof {
            lemma_wf_pool(e0);
        }
        let t0 = self.trades.len();
        let o = self.pool.data[idx as usize];
        self.push_event(accepted_event_of(&o));
        let ghost ev1 = self.last_events@;
        proof {
            assert(ev1 =~= e0.last_events@ + seq![accepted_event(e0.pool.data@[idx as int])]);
        }
        let ghost e1 = *self;
        proof {
            lemma_can_execute_frame(e0, e1, idx);
        }
        self.match_and_rest(idx);
        let ghost e2 = *self;
        self.report_trades(t0);
        let ghost e3 = *self;
        self.trade_count = self.trades.len();
        proof {
            lemma_wf_frame(e3, *self);
            lemma_outcome_frame(e1, e2, e0, *self, idx);
            reveal(new_order_outcome);
        }
    }

    /// Reports the trades from position `t0` on, in order.
    #[verifier::spinoff_prover]
    pub(crate) fn report_trades(&mut self, t0: usize)
        requires
            t0 <= old(self).trades@.len(),
        ensures
            final(self).last_events@ == old(self).last_events@ + trade_events(old(self).trades@.skip(t0 as int)),
            final(self).event_count == final(self).last_events@.len(),
            old(self).wf() ==> final(self).wf(),
            final(self).pool == old(self).pool,
            final(self).books == old(self).books,
            final(self).trades == old(self).trades,
            final(self).instruments == old(self).instruments,
            final(self).next_sequence_number == old(self).next_sequence_number,
            final(self).next_exchange_order_id == old(self).next_exchange_order_id,
            final(self).trade_count == old(self).trade_count,
    {
        let ghost e0 = *self;
        let n = self.trades.len();
        let mut i: usize = t0;
        proof {
            assert(self.trades@.skip(t0 as int).take(0) =~= Seq::<Trade>::empty());
            assert(self.last_events@ + trade_events(Seq::<Trade>::empty()) =~= self.last_events@);
        }
        while i < n
            invariant
                t0 <= i <= n,
                n == self.trades@.len(),
                self.last_events@ == e0.last_events@ + trade_events(self.trades@.skip(t0 as int).take(i - t0)),
                self.event_count == self.last_events@.len() || i == t0,
                e0.wf() ==> self.wf(),
                self.pool == e0.pool,
                self.books == e0.books,
                self.trades == e0.trades,
                self.instruments == e0.instruments,
                self.next_sequence_number == e0.next_sequence_number,
                self.next_exchange_order_id == e0.next_exchange_order_id,
                self.trade_count == e0.trade_count,
            decreases n - i,
        {
            let t = self.trades[i];
            self.push_event(ExchangeEvent::Trade {
                buyer: t.buyer,
                seller: t.seller,
                instrument_id: t.instrument_id,
                buyer_exchange_order_id: ExchangeOrderId(t.buyer_exchange_order_id),
                seller_exchange_order_id: ExchangeOrderId(t.seller_exchange_order_id),
                buyer_client_order_id: ClientOrderId(t.buyer_client_order_id),
                seller_client_order_id: ClientOrderId(t.seller_client_order_id),
                buyer_sequence_number: SequenceNumber(t.buyer_sequence_number),
                seller_sequence_number: SequenceNumber(t.seller_sequence_number),
                price: t.price,
                qty: t.qty,
                timestamp: t.timestamp,
            });
            proof {
                let ts = self.trades@.skip(t0 as int);
                assert(ts.take(i + 1 - t0) =~= ts.take(i - t0).push(t));
                assert(trade_events(ts.take(i + 1 - t0)) =~= trade_events(ts.take(i - t0)).push(trade_event(t)));
            }
            i = i + 1;
        }
        self.event_count = self.last_events.len();
        proof {
            assert(self.trades@.skip(t0 as int).take(n - t0) =~= self.trades@.skip(t0 as int));
            reveal(MatchingEngine::wf);
        }
    }
}

/// `e1` is `e0` with book `iid`'s resting order of client identity `key`
/// cancelled and its record freed: the order leaves its place in its
/// level's FIFO, every other order keeps its place, and the other side of
/// the book is untouched.
pub open spec fn cancelled(e0: MatchingEngine, e1: MatchingEngine, iid: u16, key: (u32, u64)) -> bool {
    let b0 = e0.books@[iid as int];
    let b1 = e1.books@[iid as int];
    let t = b0.order_map@[key];
    &&& b0.order_map@.contains_key(key)
    &&& e1.books@ == e0.books@.update(iid as int, b1)
    &&& b1.order_map@ == b0.order_map@.remove(key)
    &&& (forall|j: u32| #[trigger] b1.holds(j) <==> b0.holds(j) && j != t)
    &&& volumes_within(b1, b0)
    &&& removed_from(b0, b1, t, e0.pool.data@[t as int].side)
    &&& e1.pool.data@.len() == e0.pool.data@.len()
    &&& e1.pool.free_list@ == seq![t] + e0.pool.free_list@
    &&& e1.pool.allocated_count == e0.pool.allocated_count - 1
    &&& (forall|j: int| 0 <= j < e0.pool.data@.len() ==> same_but_links(#[trigger] e1.pool.data@[j], e0.pool.data@[j]))
    &&& (forall|j: int| 0 <= j < e0.pool.data@.len() && !b0.holds(j as u32) ==> #[trigger] e1.pool.data@[j] == e0.pool.data@[j])
    &&& e1.instruments == e0.instruments
    &&& e1.next_sequence_number == e0.next_sequence_number
    &&& e1.next_exchange_order_id == e0.next_exchange_order_id
}

/// `e1` is `e0` in every respect.
pub open spec fn unchanged(e0: MatchingEngine, e1: MatchingEngine) -> bool {
    &&& e1.pool == e0.pool
    &&& e1.books@ == e0.books@
    &&& e1.instruments == e0.instruments
    &&& e1.next_sequence_number == e0.next_sequence_number
    &&& e1.next_exchange_order_id == e0.next_exchange_order_id
}

/// `e1` is `e0` with record `idx` given back to the pool.
pub open spec fn discarded(e0: MatchingEngine, e1: MatchingEngine, idx: u32) -> bool {
    &&& e1.books@ == e0.books@
    &&& e1.pool.free_list@ == seq![idx] + e0.pool.free_list@
    &&& e1.pool.data@ == e0.pool.data@.update(idx as int, Order { next: e0.pool.free_head, ..e0.pool.data@[idx as int] })
    &&& e1.pool.allocated_count == e0.pool.allocated_count - 1
    &&& e1.instruments == e0.instruments
    &&& e1.next_sequence_number == e0.next_sequence_number
    &&& e1.next_exchange_order_id == e0.next_exchange_order_id
}

impl MatchingEngine {
    /// Gives allocated record `idx`, which rests nowhere, back to the pool.
    #[verifier::spinoff_prover]
    pub(crate) fn discard(&mut self, idx: u32)
        requires
            old(self).wf(),
            old(self).pool.is_allocated(idx),
            !old(self).held(idx),
        ensures
            final(self).wf(),
            discarded(*old(self), *final(self), idx),
            final(self).trades == old(self).trades,
            final(self).last_events == old(self).last_events,
            final(self).trade_count == old(self).trade_count,
            final(self).event_count == old(self).event_count,
    {
        let ghost e0 = *self;
        proof {
            lemma_wf_pool(e0);
        }
        self.pool.deallocate(idx);
        proof {
            reveal(MatchingEngine::wf);
            assert forall|b: int, j: u32| 0 <= b < self.books@.len() && #[trigger] self.books@[b].holds(j)
                implies self.pool.data@[j as int] == e0.pool.data@[j as int] && self.pool.is_allocated(j) by {
                lemma_held_allocated(&self.books@[b], &e0.pool, j);
                assert(j != idx);
            }
            lemma_books_frame(self.books@, &e0.pool, &self.pool, -1);
        }
    }

    /// Cancels the resting order of a client identity in an instrument's
    /// book; false when the instrument is not registered or the book has no
    /// such order.
    #[verifier::spinoff_prover]
    pub fn cancel_order(&mut self, instrument_id: u16, account_id: u32, client_order_id: ClientOrderId) -> (r: bool)
        requires
            old(self).wf(),
        ensures
            final(self).wf(),
            r == (old(self).instruments.lookup(instrument_id) is Some
                && old(self).books@[instrument_id as int].order_map@.contains_key((account_id, client_order_id.0))),
            !r ==> unchanged(*old(self), *final(self)),
            r ==> cancelled(*old(self), *final(self), instrument_id, (account_id, client_order_id.0)),
            final(self).trades == old(self).trades,
            final(self).last_events == old(self).last_events,
            final(self).trade_count == old(self).trade_count,
            final(self).event_count == old(self).event_count,
    {
        let ghost e0 = *self;
        if !self.instruments.contains(instrument_id) {
            return false;
        }
        proof {
            lemma_wf_pool(e0);
            assert(instrument_id < MAX_INSTRUMENTS);
            lemma_wf_book(e0, instrument_id as int);
        }
        let ghost b0 = self.books@[instrument_id as int];
        let r = self.books[instrument_id as usize].cancel_order(account_id, client_order_id, &mut self.pool);
        proof {
            let t = b0.order_map@[(account_id, client_order_id.0)];
            assert forall|b: int| 0 <= b < e0.books@.len() && b != instrument_id implies !(#[trigger] e0.books@[b]).holds(0) by {
                if e0.books@[b].holds(0) {
                    lemma_wf_book(e0, b);
                    lemma_held_allocated(&e0.books@[b], &e0.pool, 0);
                }
            }
            assert forall|j: u32| e0.pool.is_allocated(j) && !b0.holds(j) && j != 0 implies #[trigger] self.pool.is_allocated(j) by {
                if r { assert(j != t); }
            }
            assert forall|j: int| 0 <= j < e0.pool.data@.len() implies (#[trigger] self.pool.data@[j]).instrument_id == e0.pool.data@[j].instrument_id by {
                assert(same_but_links(self.pool.data@[j], e0.pool.data@[j]));
            }
            lemma_engine_step(e0, *self, instrument_id as int, 0);
            assert(self.books@ =~= e0.books@.update(instrument_id as int, self.books@[instrument_id as int]));
            if !r {
                assert(self.books@ =~= e0.books@);
            }
        }
        r
    }

    /// Same as `cancel_order`.
    pub fn remove_order_by_id(&mut self, instrument_id: u16, account_id: u32, client_order_id: ClientOrderId) -> (r: bool)
        requires
            old(self).wf(),
        ensures
            final(self).wf(),
            r == (old(self).instruments.lookup(instrument_id) is Some
                && old(self).books@[instrument_id as int].order_map@.contains_key((account_id, client_order_id.0))),
            !r ==> unchanged(*old(self), *final(self)),
            r ==> cancelled(*old(self), *final(self), instrument_id, (account_id, client_order_id.0)),
            final(self).trades == old(self).trades,
            final(self).last_events == old(self).last_events,
            final(self).trade_count == old(self).trade_count,
            final(self).event_count == old(self).event_count,
    {
        self.cancel_order(instrument_id, account_id, client_order_id)
    }
}

/// The event reporting a cancelled order.
pub open spec fn cancelled_event(o: Order) -> ExchangeEvent {
    ExchangeEvent::OrderCancelled {
        instrument_id: o.instrument_id,
        account_id: o.account_id,
        client_order_id: ClientOrderId(o.client_order_id),
        sequence_number: SequenceNumber(o.sequence_number),
    }
}

/// The event reporting a replaced order.
pub open spec fn replaced_event(o: Order) -> ExchangeEvent {
    ExchangeEvent::OrderReplaced {
        instrument_id: o.instrument_id,
        account_id: o.account_id,
        old_client_order_id: ClientOrderId(o.replace_target_client_order_id),
        new_client_order_id: ClientOrderId(o.client_order_id),
        exchange_order_id: ExchangeOrderId(o.exchange_order_id),
        sequence_number: SequenceNumber(o.sequence_number),
    }
}

/// `e1` is `e0` with no trades and no events reported.
pub open spec fn cleared(e0: MatchingEngine, e1: MatchingEngine) -> bool {
    &&& e1.pool == e0.pool
    &&& e1.books@ == e0.books@
    &&& e1.trades@.len() == 0
    &&& e1.last_events@.len() == 0
    &&& e1.trade_count == 0
    &&& e1.event_count == 0
    &&& e1.instruments == e0.instruments
    &&& e1.next_sequence_number == e0.next_sequence_number
    &&& e1.next_exchange_order_id == e0.next_exchange_order_id
}

/// `e1` is `e0` with the command kind of record `idx` set to a new order.
pub open spec fn made_new(e0: MatchingEngine, e1: MatchingEngine, idx: u32) -> bool {
    &&& e1.pool.data@ == e0.pool.data@.update(idx as int, Order { command_kind: 0, ..e0.pool.data@[idx as int] })
    &&& e1.pool.free_list@ == e0.pool.free_list@
    &&& e1.pool.allocated_count == e0.pool.allocated_count
    &&& e1.books@ == e0.books@
    &&& e1.instruments == e0.instruments
    &&& e1.next_sequence_number == e0.next_sequence_number
    &&& e1.next_exchange_order_id == e0.next_exchange_order_id
}

/// A replace record `idx` that goes on as a new order finds room on the
/// level it would rest on, whatever state the cancel of its target leaves.
#[verifier::opaque]
pub open spec fn replace_fits(e: MatchingEngine, idx: u32) -> bool {
    let o = e.pool.data@[idx as int];
    forall|c: MatchingEngine, n: MatchingEngine|
        #![trigger cancelled(e, c, o.instrument_id, (o.account_id, o.replace_target_client_order_id)), made_new(c, n, idx)]
        cancelled(e, c, o.instrument_id, (o.account_id, o.replace_target_client_order_id)) && made_new(c, n, idx) ==> rest_fits(n, idx)
}

/// What `process_order` needs of record `idx`: allocated, resting nowhere,
/// unlinked, and, where it goes on to be matched as a new order, room on
/// the level it would rest on.
pub open spec fn can_process(e: MatchingEngine, idx: u32) -> bool {
    let o = e.pool.data@[idx as int];
    let valid = e.instruments.lookup(o.instrument_id) is Some;
    &&& e.pool.is_allocated(idx)
    &&& !e.held(idx)
    &&& o.next == NULL_ORDER
    &&& o.prev == NULL_ORDER
    &&& (valid && o.command_kind == 0 && o.side <= 1 ==> rest_fits(e, idx))
    &&& (valid && o.command_kind == 2 && o.side <= 1 ==> replace_fits(e, idx))
}

/// Record `idx` of `m` is given back with nothing reported.
pub open spec fn dropped(m: MatchingEngine, e1: MatchingEngine, idx: u32) -> bool {
    &&& e1.trades@.len() == 0
    &&& e1.last_events@.len() == 0
    &&& discarded(m, e1, idx)
}

/// What processing cancel record `idx` of `m` does: the resting order of
/// its client identity, if any, is cancelled and reported, and the record
/// is given back.
#[verifier::opaque]
pub open spec fn cancel_case(m: MatchingEngine, e1: MatchingEngine, idx: u32) -> bool {
    let o = m.pool.data@[idx as int];
    let own = (o.account_id, o.client_order_id);
    let found = m.books@[o.instrument_id as int].order_map@.contains_key(own);
    &&& e1.trades@.len() == 0
    &&& e1.last_events@ == (if found { seq![cancelled_event(o)] } else { Seq::empty() })
    &&& exists|c: MatchingEngine|
        (if found { cancelled(m, c, o.instrument_id, own) } else { unchanged(m, c) })
        && #[trigger] discarded(c, e1, idx)
}

/// What processing replace record `idx` of `m` does: without a resting
/// target the record is given back; otherwise the target is cancelled, the
/// replacement is reported and goes on as a new order (or is given back
/// when its side is not an order side).
#[verifier::opaque]
pub open spec fn replace_case(m: MatchingEngine, e1: MatchingEngine, idx: u32) -> bool {
    let o = m.pool.data@[idx as int];
    let iid = o.instrument_id;
    let target = (o.account_id, o.replace_target_client_order_id);
    if !m.books@[iid as int].order_map@.contains_key(target) {
        dropped(m, e1, idx)
    } else if o.side <= 1 {
        exists|c: MatchingEngine, n: MatchingEngine| #[trigger] cancelled(m, c, iid, target) && #[trigger] made_new(c, n, idx)
            && n.trades@.len() == 0 && n.last_events@ == seq![replaced_event(o)] && new_order_outcome(n, e1, idx)
    } else {
        &&& e1.trades@.len() == 0
        &&& e1.last_events@ == seq![replaced_event(o)]
        &&& exists|c: MatchingEngine, n: MatchingEngine| #[trigger] cancelled(m, c, iid, target) && #[trigger] made_new(c, n, idx)
            && discarded(n, e1, idx)
    }
}

/// What processing record `idx` does to a state `m` whose trades and
/// events are cleared, as `e1` shows it.
pub open spec fn process_case(m: MatchingEngine, e1: MatchingEngine, idx: u32) -> bool {
    let o = m.pool.data@[idx as int];
    if m.instruments.lookup(o.instrument_id) is None {
        dropped(m, e1, idx)
    } else if o.command_kind == 1 {
        cancel_case(m, e1, idx)
    } else if o.command_kind == 2 {
        replace_case(m, e1, idx)
    } else if o.command_kind == 0 && o.side <= 1 {
        new_order_outcome(m, e1, idx)
    } else {
        dropped(m, e1, idx)
    }
}

/// What processing record `idx` of state `e0` leads to in `e1`: trades and
/// events are cleared, then the record is processed.
pub open spec fn process_outcome(e0: MatchingEngine, e1: MatchingEngine, idx: u32) -> bool {
    exists|m: MatchingEngine| cleared(e0, m) && #[trigger] process_case(m, e1, idx)
}

/// Replacing records that no book holds, or that stay the same, keeps the
/// engine well formed.
pub proof fn lemma_pool_frame(e0: MatchingEngine, e1: MatchingEngine)
    requires
        e0.wf(),
        e1.pool.wf(),
        e1.books@ == e0.books@,
        e1.instruments == e0.instruments,
        forall|j: u32| #[trigger] e0.held(j) ==> e1.pool.data@[j as int] == e0.pool.data@[j as int] && e1.pool.is_allocated(j),
    ensures
        e1.wf(),
{
    reveal(MatchingEngine::wf);
    assert forall|b: int, j: u32| 0 <= b < e1.books@.len() && #[trigger] e1.books@[b].holds(j)
        implies e1.pool.data@[j as int] == e0.pool.data@[j as int] && e1.pool.is_allocated(j) by {
        assert(e0.books@[b].holds(j));
        assert(e0.held(j));
    }
    lemma_books_frame(e1.books@, &e0.pool, &e1.pool, -1);
}

/// `cancelled` reads only the pool, the books, the instruments and the
/// sequencing counters of its first state.
pub proof fn lemma_cancelled_frame(e0: MatchingEngine, m: MatchingEngine, c: MatchingEngine, iid: u16, key: (u32, u64))
    requires
        cancelled(m, c, iid, key),
        m.pool == e0.pool,
        m.books@ == e0.books@,
        m.instruments == e0.instruments,
        m.next_sequence_number == e0.next_sequence_number,
        m.next_exchange_order_id == e0.next_exchange_order_id,
    ensures
        cancelled(e0, c, iid, key),
{
    assert(c.books@ =~= e0.books@.update(iid as int, c.books@[iid as int]));
}

/// Rewriting a record that no book holds keeps the engine well formed.
pub proof fn lemma_update_unheld(e0: MatchingEngine, e1: MatchingEngine, idx: u32)
    requires
        e0.wf(),
        !e0.held(idx),
        idx < e0.pool.data@.len(),
        e1.pool.wf(),
        e1.pool.data@ == e0.pool.data@.update(idx as int, e1.pool.data@[idx as int]),
        e1.pool.free_list@ == e0.pool.free_list@,
        e1.books@ == e0.books@,
        e1.instruments == e0.instruments,
    ensures
        e1.wf(),
{
    lemma_wf_pool(e0);
    assert forall|j: u32| #[trigger] e0.held(j) implies e1.pool.data@[j as int] == e0.pool.data@[j as int] && e1.pool.is_allocated(j) by {
        let b = choose|b: int| 0 <= b < e0.books@.len() && #[trigger] e0.books@[b].holds(j);
        lemma_wf_book(e0, b);
        lemma_held_allocated(&e0.books@[b], &e0.pool, j);
        assert(j != idx);
        assert(j < e0.pool.data@.len());
        assert(e1.pool.data@[j as int] == e0.pool.data@[j as int]);
        assert(e1.pool.is_allocated(j));
    }
    lemma_pool_frame(e0, e1);
}

/// Clearing the outputs changes nothing `process_order` needs.
#[verifier::spinoff_prover]
pub proof fn lemma_cleared_keeps(e0: MatchingEngine, m: MatchingEngine, idx: u32)
    requires
        e0.wf(),
        cleared(e0, m),
        can_process(e0, idx),
    ensures
        m.wf(),
        can_process(m, idx),
{
    reveal(MatchingEngine::wf);
    assert forall|j: u32| #[trigger] m.held(j) <==> e0.held(j) by {
        if e0.held(j) {
            let b = choose|b: int| 0 <= b < e0.books@.len() && #[trigger] e0.books@[b].holds(j);
            assert(m.books@[b].holds(j));
        }
        if m.held(j) {
            let b = choose|b: int| 0 <= b < m.books@.len() && #[trigger] m.books@[b].holds(j);
            assert(e0.books@[b].holds(j));
        }
    }
    let o = e0.pool.data@[idx as int];
    reveal(replace_fits);
    reveal(rest_fits);
    if e0.instruments.lookup(o.instrument_id) is Some && o.command_kind == 2 && o.side <= 1 {
        assert forall|c: MatchingEngine, n: MatchingEngine|
            #![trigger cancelled(m, c, o.instrument_id, (o.account_id, o.replace_target_client_order_id)), made_new(c, n, idx)]
            cancelled(m, c, o.instrument_id, (o.account_id, o.replace_target_client_order_id)) && made_new(c, n, idx) implies rest_fits(n, idx) by {
            lemma_cancelled_frame(e0, m, c, o.instrument_id, (o.account_id, o.replace_target_client_order_id));
        }
    }
    if e0.instruments.lookup(o.instrument_id) is Some && o.command_kind == 0 && o.side <= 1 {
        assert(left_after_match(m, idx) == left_after_match(e0, idx));
    }
}

impl MatchingEngine {
    /// Processes a cancel record `idx` of a registered instrument.
    #[verifier::spinoff_prover]
    #[verifier::rlimit(100)]
    fn process_cancel(&mut self, idx: u32)
        requires
            old(self).wf(),
            can_process(*old(self), idx),
            old(self).pool.data@[idx as int].command_kind == 1,
            old(self).instruments.lookup(old(self).pool.data@[idx as int].instrument_id) is Some,
            old(self).trades@.len() == 0,
            old(self).last_events@.len() == 0,
            old(self).event_count == 0,
        ensures
            final(self).wf(),
            cancel_case(*old(self), *final(self), idx),
            final(self).trades@.len() == 0,
            final(self).trade_count == old(self).trade_count,
            final(self).event_count == final(self).last_events@.len(),
    {
        let ghost m = *self;
        proof {
            lemma_wf_pool(m);
        }
        let o = self.pool.data[idx as usize];
        let instrument_id = o.instrument_id;
        let account_id = o.account_id;
        let client_order_id = ClientOrderId(o.client_order_id);
        proof {
            assert(instrument_id < MAX_INSTRUMENTS);
        }
        let done = self.cancel_order(instrument_id, account_id, client_order_id);
        let ghost c = *self;
        proof {
            lemma_not_held_after_cancel(m, c, instrument_id, (account_id, client_order_id.0), idx, done);
        }
        if done {
            self.push_event(ExchangeEvent::OrderCancelled {
                instrument_id,
                account_id,
                client_order_id,
                sequence_number: SequenceNumber(o.sequence_number),
            });
        }
        let ghost c2 = *self;
        self.discard(idx);
        proof {
            if done {
                assert(self.last_events@ =~= seq![cancelled_event(o)]);
            } else {
                assert(self.last_events@ =~= Seq::<ExchangeEvent>::empty());
            }
            assert(discarded(c, *self, idx));
            reveal(cancel_case);
        }
    }

    /// Processes a replace record `idx` of a registered instrument.
    /// Cancels the target of replace record `idx` and, when there was one,
    /// turns the record into a new order and reports the replacement.
    /// Returns whether the target rested, with the state right after the
    /// cancel.
    #[verifier::spinoff_prover]
    #[verifier::rlimit(100)]
    fn replace_target(&mut self, idx: u32) -> (r: (bool, Ghost<MatchingEngine>))
        requires
            old(self).wf(),
            can_process(*old(self), idx),
            old(self).pool.data@[idx as int].command_kind == 2,
            old(self).instruments.lookup(old(self).pool.data@[idx as int].instrument_id) is Some,
            old(self).trades@.len() == 0,
            old(self).last_events@.len() == 0,
        ensures
            final(self).wf(),
            final(self).pool.is_allocated(idx),
            !final(self).held(idx),
            ({
                let o = old(self).pool.data@[idx as int];
                let target = (o.account_id, o.replace_target_client_order_id);
                let found = old(self).books@[o.instrument_id as int].order_map@.contains_key(target);
                &&& r.0 == found
                &&& !found ==> unchanged(*old(self), *final(self)) && final(self).trades == old(self).trades
                    && final(self).last_events == old(self).last_events && final(self).event_count == old(self).event_count
                &&& found ==> {
                    &&& cancelled(*old(self), r.1@, o.instrument_id, target)
                    &&& made_new(r.1@, *final(self), idx)
                    &&& final(self).trades@.len() == 0
                    &&& final(self).last_events@ == seq![replaced_event(o)]
                    &&& final(self).event_count == final(self).last_events@.len()
                    &&& final(self).pool.data@[idx as int] == (Order { command_kind: 0, ..o })
                }
            }),
            final(self).trade_count == old(self).trade_count,
    {
        let ghost m = *self;
        proof {
            lemma_wf_pool(m);
        }
        let o = self.pool.data[idx as usize];
        let instrument_id = o.instrument_id;
        let account_id = o.account_id;
        let client_order_id = ClientOrderId(o.client_order_id);
        let target = ClientOrderId(o.replace_target_client_order_id);
        proof {
            assert(instrument_id < MAX_INSTRUMENTS);
        }
        let done = self.cancel_order(instrument_id, account_id, target);
        let ghost c = *self;
        proof {
            lemma_not_held_after_cancel(m, c, instrument_id, (account_id, target.0), idx, done);
        }
        if !done {
            return (false, Ghost(c));
        }
        proof {
            lemma_wf_pool(c);
        }
        let mut rec = self.pool.data[idx as usize];
        rec.command_kind = 0;
        self.pool.set_order(idx, rec);
        proof {
            lemma_update_unheld(c, *self, idx);
            assert(made_new(c, *self, idx));
        }
        self.push_event(ExchangeEvent::OrderReplaced {
            instrument_id,
            account_id,
            old_client_order_id: target,
            new_client_order_id: client_order_id,
            exchange_order_id: ExchangeOrderId(o.exchange_order_id),
            sequence_number: SequenceNumber(o.sequence_number),
        });
        proof {
            assert(self.last_events@ =~= seq![replaced_event(o)]);
            assert(!self.held(idx)) by {
                if self.held(idx) {
                    let b = choose|b: int| 0 <= b < self.books@.len() && #[trigger] self.books@[b].holds(idx);
                    assert(c.books@[b].holds(idx));
                }
            }
        }
        (true, Ghost(c))
    }

    /// Processes a replace record `idx` of a registered instrument.
    #[verifier::spinoff_prover]
    #[verifier::rlimit(100)]
    fn process_replace(&mut self, idx: u32)
        requires
            old(self).wf(),
            can_process(*old(self), idx),
            old(self).pool.data@[idx as int].command_kind == 2,
            old(self).instruments.lookup(old(self).pool.data@[idx as int].instrument_id) is Some,
            old(self).trades@.len() == 0,
            old(self).last_events@.len() == 0,
            old(self).event_count == 0,
            old(self).trade_count == 0,
        ensures
            final(self).wf(),
            replace_case(*old(self), *final(self), idx),
            final(self).trade_count == final(self).trades@.len(),
            final(self).event_count == final(self).last_events@.len(),
    {
        let ghost m = *self;
        proof {
            lemma_wf_pool(m);
        }
        let side = self.pool.data[idx as usize].side;
        let (done, Ghost(c)) = self.replace_target(idx);
        let ghost n = *self;
        if !done {
            self.discard(idx);
            proof {
                reveal(replace_case);
            }
            return;
        }
        if side > 1 {
            self.discard(idx);
            proof {
                reveal(replace_case);
            }
            return;
        }
        proof {
            reveal(replace_fits);
            assert(rest_fits(n, idx));
            assert(can_execute(n, idx));
        }
        self.execute_new(idx);
        proof {
            reveal(replace_case);
        }
    }

    /// Processes accepted record `idx`: a cancel cancels, a replace cancels
    /// its target and goes on as a new order, a new order is matched and
    /// rests or is freed. Returns the number of trades.
    #[verifier::spinoff_prover]
    #[verifier::rlimit(100)]
    pub fn process_order(&mut self, idx: u32) -> (r: usize)
        requires
            old(self).wf(),
            can_process(*old(self), idx),
        ensures
            final(self).wf(),
            r == final(self).trades@.len(),
            final(self).trade_count == r,
            final(self).event_count == final(self).last_events@.len(),
            process_outcome(*old(self), *final(self), idx),
    {
        let ghost e0 = *self;
        self.trades.clear();
        self.trade_count = 0;
        self.last_events.clear();
        self.event_count = 0;
        let ghost m = *self;
        proof {
            lemma_cleared_keeps(e0, m, idx);
            lemma_wf_pool(m);
        }
        let o = self.pool.data[idx as usize];
        if !self.instruments.contains(o.instrument_id) {
            self.discard(idx);
        } else if o.command_kind == 1 {
            self.process_cancel(idx);
        } else if o.command_kind == 2 {
            self.process_replace(idx);
        } else if o.command_kind != 0 || o.side > 1 {
            self.discard(idx);
        } else {
            self.execute_new(idx);
        }
        proof {
            assert(cleared(e0, m));
            assert(process_case(m, *self, idx));
        }
        self.trade_count
    }

    /// Same as `process_order`.
    pub fn process_command(&mut self, idx: u32) -> (r: usize)
        requires
            old(self).wf(),
            can_process(*old(self), idx),
        ensures
            final(self).wf(),
            r == final(self).trades@.len(),
            final(self).trade_count == r,
            final(self).event_count == final(self).last_events@.len(),
            process_outcome(*old(self), *final(self), idx),
    {
        self.process_order(idx)
    }
}

/// After a cancel, a record no book held is still held by none and still
/// allocated.
#[verifier::spinoff_prover]
pub proof fn lemma_not_held_after_cancel(e0: MatchingEngine, e1: MatchingEngine, iid: u16, key: (u32, u64), idx: u32, done: bool)
    requires
        e0.wf(),
        !e0.held(idx),
        e0.pool.is_allocated(idx),
        done ==> cancelled(e0, e1, iid, key),
        !done ==> unchanged(e0, e1),
        iid < MAX_INSTRUMENTS,
    ensures
        !e1.held(idx),
        e1.pool.is_allocated(idx),
        e1.pool.data@[idx as int] == e0.pool.data@[idx as int],
{
    lemma_wf_pool(e0);
    if e1.held(idx) {
        let b = choose|b: int| 0 <= b < e1.books@.len() && #[trigger] e1.books@[b].holds(idx);
        if done && b == iid {
            assert(e0.books@[b].holds(idx));
        } else {
            assert(e0.books@[b].holds(idx));
        }
    }
    if done {
        let t = e0.books@[iid as int].order_map@[key];
        lemma_wf_book(e0, iid as int);
        assert(e0.books@[iid as int].holds(t));
        assert(!e0.books@[iid as int].holds(idx));
        assert(t != idx);
        assert(e1.pool.free_list@ == seq![t] + e0.pool.free_list@);
        if e1.pool.free_list@.contains(idx) {
            let k = choose|k: int| 0 <= k < e1.pool.free_list@.len() && e1.pool.free_list@[k] == idx;
            assert(e0.pool.free_list@[k - 1] == idx);
        }
    }
}

} // verus!
