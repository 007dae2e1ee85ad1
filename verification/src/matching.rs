//! Price-time matching of one incoming record against one book.

use vstd::prelude::*;
use crate::book::{OrderBook, PriceLadder, PriceLevel, order_key, flatten, flatten_rev, same_but_links, removed_at, queue_wf, ladder_wf, lemma_flatten_pop_front, lemma_flatten_rev_pop_front, lemma_flatten_no_dup, lemma_flatten_rev_no_dup, lemma_flatten_member, lemma_flatten_rev_member};
use crate::command::{CommandRejectReason, ExchangeEvent, OrderCommand, OrderSide};
use crate::constants::{MAX_INSTRUMENTS, MAX_ORDERS, NULL_ORDER, INITIAL_TRADE_CAPACITY};
use crate::pool::{CommandKind, Order, OrderPool, PoolError};
use crate::engine::{MatchingEngine, Trade};

verus! {

broadcast use {vstd::std_specs::btree::group_btree_axioms, vstd::laws_cmp::group_laws_cmp};

/// A resting record at `price` can trade with an incoming order on the
/// given side limited at `limit`.
pub open spec fn crosses(buy: bool, limit: u32, price: u32) -> bool {
    if buy { price <= limit } else { price >= limit }
}

/// The fills an incoming order with `rem` left receives against resting
/// records `prio` in priority order: `(record, quantity)` pairs, stopping
/// when the order is filled, the book runs out or the price no longer crosses.
pub open spec fn spec_fills(data: Seq<Order>, prio: Seq<u32>, buy: bool, limit: u32, rem: u32) -> Seq<(u32, u32)>
    decreases prio.len(),
{
    if rem == 0 || prio.len() == 0 || !crosses(buy, limit, data[prio[0] as int].price) {
        Seq::empty()
    } else {
        let h = prio[0];
        let hr = data[h as int].remaining;
        if rem < hr {
            seq![(h, rem)]
        } else {
            seq![(h, hr)] + spec_fills(data, prio.drop_first(), buy, limit, (rem - hr) as u32)
        }
    }
}

/// Number of fills that use up their resting record.
pub open spec fn full_fills(data: Seq<Order>, fills: Seq<(u32, u32)>) -> int {
    if fills.len() > 0 && fills.last().1 < data[fills.last().0 as int].remaining {
        fills.len() - 1
    } else {
        fills.len() as int
    }
}

/// Total filled quantity.
pub open spec fn fill_total(fills: Seq<(u32, u32)>) -> int
    decreases fills.len(),
{
    if fills.len() == 0 { 0 } else { fill_total(fills.drop_last()) + fills.last().1 }
}

/// A total of quantities is never negative.
pub proof fn lemma_fill_total_nonneg(fills: Seq<(u32, u32)>)
    ensures
        fill_total(fills) >= 0,
    decreases fills.len(),
{
    if fills.len() > 0 {
        lemma_fill_total_nonneg(fills.drop_last());
    }
}

/// The trade printed when `incoming` takes `qty` from `resting`.
pub open spec fn spec_trade(data: Seq<Order>, incoming: u32, resting: u32, qty: u32, instrument_id: u16, buy: bool) -> Trade {
    let i = data[incoming as int];
    let r = data[resting as int];
    let b = if buy { i } else { r };
    let s = if buy { r } else { i };
    Trade {
        buyer: b.account_id,
        seller: s.account_id,
        price: r.price,
        qty,
        instrument_id,
        buyer_exchange_order_id: b.exchange_order_id,
        seller_exchange_order_id: s.exchange_order_id,
        buyer_client_order_id: b.client_order_id,
        seller_client_order_id: s.client_order_id,
        buyer_sequence_number: b.sequence_number,
        seller_sequence_number: s.sequence_number,
        timestamp: i.sequence_number,
    }
}

pub open spec fn spec_trades(data: Seq<Order>, incoming: u32, fills: Seq<(u32, u32)>, instrument_id: u16, buy: bool) -> Seq<Trade> {
    fills.map_values(|f: (u32, u32)| spec_trade(data, incoming, f.0, f.1, instrument_id, buy))
}

/// Client identities of the records `s`.
pub open spec fn keys_of(data: Seq<Order>, s: Seq<u32>) -> Set<(u32, u64)> {
    s.map_values(|i: u32| order_key(data[i as int])).to_set()
}

/// `a` and `b` agree on everything but quantity left and FIFO links.
pub open spec fn same_but_state(a: Order, b: Order) -> bool {
    a == (Order { next: a.next, prev: a.prev, remaining: a.remaining, ..b })
}

/// Matching takes resting records strictly in priority order, each at a
/// price that crosses the incoming limit, for a positive quantity when the
/// records have some left, and never more in all than the incoming order
/// has.
pub proof fn lemma_fills_in_priority_within_limit(data: Seq<Order>, prio: Seq<u32>, buy: bool, limit: u32, rem: u32)
    requires
        forall|k: int| 0 <= k < prio.len() ==> 0 <= #[trigger] prio[k] < data.len() && data[prio[k] as int].remaining > 0,
    ensures
        ({
            let fills = spec_fills(data, prio, buy, limit, rem);
            &&& fills.len() <= prio.len()
            &&& forall|k: int| 0 <= k < fills.len() ==> (#[trigger] fills[k]).0 == prio[k]
                && crosses(buy, limit, data[prio[k] as int].price)
                && fills[k].1 > 0
            &&& fill_total(fills) <= rem
        }),
    decreases prio.len(),
{
    let fills = spec_fills(data, prio, buy, limit, rem);
    if rem == 0 || prio.len() == 0 || !crosses(buy, limit, data[prio[0] as int].price) {
    } else {
        let h = prio[0];
        let hr = data[h as int].remaining;
        if rem < hr {
            assert(fills =~= seq![(h, rem)]);
            assert(fill_total(fills) == fill_total(seq![(h, rem)].drop_last()) + rem);
            assert(seq![(h, rem)].drop_last() =~= Seq::<(u32, u32)>::empty());
        } else {
            let rest = spec_fills(data, prio.drop_first(), buy, limit, (rem - hr) as u32);
            lemma_fills_in_priority_within_limit(data, prio.drop_first(), buy, limit, (rem - hr) as u32);
            assert(fills == seq![(h, hr)] + rest);
            assert forall|k: int| 0 <= k < fills.len() implies (#[trigger] fills[k]).0 == prio[k]
                && crosses(buy, limit, data[prio[k] as int].price) && fills[k].1 > 0 by {
                if k > 0 {
                    assert(fills[k] == rest[k - 1]);
                    assert(prio.drop_first()[k - 1] == prio[k]);
                }
            }
            lemma_fill_total_prepend((h, hr), rest);
        }
    }
}

/// Putting one fill in front adds its quantity to the total.
pub proof fn lemma_fill_total_prepend(f: (u32, u32), rest: Seq<(u32, u32)>)
    ensures
        fill_total(seq![f] + rest) == f.1 + fill_total(rest),
    decreases rest.len(),
{
    if rest.len() == 0 {
        assert(seq![f] + rest =~= seq![f]);
        assert(seq![f].drop_last() =~= Seq::<(u32, u32)>::empty());
        assert(fill_total(Seq::<(u32, u32)>::empty()) == 0);
        assert(fill_total(seq![f]) == fill_total(seq![f].drop_last()) + seq![f].last().1);
    } else {
        lemma_fill_total_prepend(f, rest.drop_last());
        assert((seq![f] + rest).drop_last() =~= seq![f] + rest.drop_last());
        assert((seq![f] + rest).last() == rest.last());
    }
}

/// Every trade an incoming order prints is at the resting order's price,
/// which is no worse than the incoming limit, for a positive quantity.
pub proof fn lemma_trades_within_limit(data: Seq<Order>, incoming: u32, prio: Seq<u32>, buy: bool, instrument_id: u16)
    requires
        0 <= incoming < data.len(),
        forall|k: int| 0 <= k < prio.len() ==> 0 <= #[trigger] prio[k] < data.len() && data[prio[k] as int].remaining > 0,
    ensures
        ({
            let limit = data[incoming as int].price;
            let fills = spec_fills(data, prio, buy, limit, data[incoming as int].remaining);
            let ts = spec_trades(data, incoming, fills, instrument_id, buy);
            forall|k: int| 0 <= k < ts.len() ==> {
                &&& (#[trigger] ts[k]).price == data[prio[k] as int].price
                &&& (buy ==> ts[k].price <= limit)
                &&& (!buy ==> ts[k].price >= limit)
                &&& ts[k].qty > 0
                &&& ts[k].instrument_id == instrument_id
            }
        }),
{
    let limit = data[incoming as int].price;
    lemma_fills_in_priority_within_limit(data, prio, buy, limit, data[incoming as int].remaining);
}

/// One step of the fill recursion.
pub proof fn lemma_fills_step(data: Seq<Order>, prio: Seq<u32>, buy: bool, limit: u32, rem: u32)
    requires
        rem > 0,
        prio.len() > 0,
        crosses(buy, limit, data[prio[0] as int].price),
    ensures
        ({
            let h = prio[0];
            let hr = data[h as int].remaining;
            let f = spec_fills(data, prio, buy, limit, rem);
            &&& f.len() > 0
            &&& rem < hr ==> f == seq![(h, rem)]
            &&& rem >= hr ==> f[0] == (h, hr) && f.drop_first() == spec_fills(data, prio.drop_first(), buy, limit, (rem - hr) as u32)
        }),
{
    let h = prio[0];
    let hr = data[h as int].remaining;
    if rem >= hr {
        let rest = spec_fills(data, prio.drop_first(), buy, limit, (rem - hr) as u32);
        assert((seq![(h, hr)] + rest).drop_first() =~= rest);
    }
}


/// The incoming record rests nowhere and every resting record of `book`
/// has the remaining quantity it had in `d0`, except the oldest one, which
/// lost `cut`.
pub open spec fn resting_as_before(data: Seq<Order>, d0: Seq<Order>, prio: Seq<u32>, cut: int) -> bool {
    forall|t: int| 0 <= t < prio.len() ==> data[#[trigger] prio[t] as int].remaining == d0[prio[t] as int].remaining - (if t == 0 { cut } else { 0 })
}

/// What matching an incoming record does to the opposite side: the trades
/// printed, the quantity the incoming record keeps, which resting records
/// are used up and how much the next one loses.
pub open spec fn match_outcome(
    d0: Seq<Order>, d1: Seq<Order>, prio0: Seq<u32>, prio1: Seq<u32>,
    trades0: Seq<Trade>, trades1: Seq<Trade>, inc: u32, instrument_id: u16, buy: bool,
) -> bool {
    let fills = spec_fills(d0, prio0, buy, d0[inc as int].price, d0[inc as int].remaining);
    let k = full_fills(d0, fills);
    &&& trades1 == trades0 + spec_trades(d0, inc, fills, instrument_id, buy)
    &&& fill_total(fills) <= d0[inc as int].remaining
    &&& d1[inc as int] == (Order { remaining: (d0[inc as int].remaining - fill_total(fills)) as u32, ..d0[inc as int] })
    &&& 0 <= k <= prio0.len()
    &&& prio1 == prio0.skip(k)
    &&& resting_as_before(d1, d0, prio1, if fills.len() > k { fills.last().1 as int } else { 0 })
    &&& (fills.len() - k == 0 || fills.len() - k == 1)
    &&& (fills.len() - k == 1 ==> fills.last().0 == prio0[k])
    &&& forall|t: int| 0 <= t < k ==> (#[trigger] d1[prio0[t] as int]).remaining == 0
    &&& forall|j: int| 0 <= j < d0.len() ==> same_but_state(#[trigger] d1[j], d0[j])
}

/// Removes the oldest record of the best ask level and zeroes its quantity.
fn consume_best_ask(book: &mut OrderBook, pool: &mut OrderPool, h: u32)
    requires
        old(pool).wf(),
        old(book).wf(old(pool)),
        old(book).asks.queues@.len() > 0,
        h == old(book).asks.queues@[0][0],
    ensures
        final(pool).wf(),
        final(book).wf(final(pool)),
        final(book).bids == old(book).bids,
        final(book).ask_priority() == old(book).ask_priority().drop_first(),
        old(book).ask_priority().len() > 0 && old(book).ask_priority()[0] == h,
        final(book).order_map@ == old(book).order_map@.remove(order_key(old(pool).data@[h as int])),
        forall|j: u32| #[trigger] final(book).holds(j) <==> old(book).holds(j) && j != h,
        final(pool).free_list@ == seq![h] + old(pool).free_list@,
        final(pool).allocated_count == old(pool).allocated_count - 1,
        final(pool).data@[h as int].remaining == 0,
        forall|j: int| 0 <= j < old(pool).data@.len() ==> same_but_state(#[trigger] final(pool).data@[j], old(pool).data@[j]),
        forall|j: int| 0 <= j < old(pool).data@.len() && !old(book).holds(j as u32) ==> #[trigger] final(pool).data@[j] == old(pool).data@[j],
        forall|j: int| 0 <= j < old(pool).data@.len() && j != h ==> (#[trigger] final(pool).data@[j]).remaining == old(pool).data@[j].remaining,
{
    let ghost book1 = *book;
    let ghost d1 = pool.data@;
    proof {
        let q0 = book.asks.queues@[0];
        assert(queue_wf(q0, book.asks.entries@[0].0, book.asks.entries@[0].1, 1, d1));
        assert(book.asks.holds(h));
        lemma_flatten_pop_front(book.asks.queues@, if q0.len() == 1 { book.asks.queues@.remove(0) } else { book.asks.queues@.update(0, q0.remove(0)) });
    }
    book.remove_order(h, pool);
    let ghost d2 = pool.data@;
    pool.clear_remaining(h);
    proof {
        assert(1 <= h < MAX_ORDERS) by {
            let q0 = book1.asks.queues@[0];
            assert(queue_wf(q0, book1.asks.entries@[0].0, book1.asks.entries@[0].1, 1, d1));
        }
        book.lemma_book_frame_free(d2, pool, h);
        let (a, b) = choose|a: int, b: int| 0 <= a < book1.asks.queues@.len() && 0 <= b < book1.asks.queues@[a].len()
            && book1.asks.queues@[a][b] == h
            && removed_at(&book1.asks, &book.asks, a, b)
            && (1u8 == 0 ==> book.asks == book1.asks)
            && (1u8 != 0 ==> book.bids == book1.bids);
        book1.asks.lemma_held_unique(1, d1, a, b, 0, 0);
        lemma_flatten_pop_front(book1.asks.queues@, book.asks.queues@);
        assert forall|j: int| 0 <= j < d1.len() implies same_but_state(#[trigger] pool.data@[j], d1[j]) by {
            assert(same_but_links(d2[j], d1[j]));
        }
    }
}

/// Removes the oldest record of the best bid level and zeroes its quantity.
fn consume_best_bid(book: &mut OrderBook, pool: &mut OrderPool, h: u32)
    requires
        old(pool).wf(),
        old(book).wf(old(pool)),
        old(book).bids.queues@.len() > 0,
        h == old(book).bids.queues@.last()[0],
    ensures
        final(pool).wf(),
        final(book).wf(final(pool)),
        final(book).asks == old(book).asks,
        final(book).bid_priority() == old(book).bid_priority().drop_first(),
        old(book).bid_priority().len() > 0 && old(book).bid_priority()[0] == h,
        final(book).order_map@ == old(book).order_map@.remove(order_key(old(pool).data@[h as int])),
        forall|j: u32| #[trigger] final(book).holds(j) <==> old(book).holds(j) && j != h,
        final(pool).free_list@ == seq![h] + old(pool).free_list@,
        final(pool).allocated_count == old(pool).allocated_count - 1,
        final(pool).data@[h as int].remaining == 0,
        forall|j: int| 0 <= j < old(pool).data@.len() ==> same_but_state(#[trigger] final(pool).data@[j], old(pool).data@[j]),
        forall|j: int| 0 <= j < old(pool).data@.len() && !old(book).holds(j as u32) ==> #[trigger] final(pool).data@[j] == old(pool).data@[j],
        forall|j: int| 0 <= j < old(pool).data@.len() && j != h ==> (#[trigger] final(pool).data@[j]).remaining == old(pool).data@[j].remaining,
{
    let ghost book1 = *book;
    let ghost d1 = pool.data@;
    let ghost last = book.bids.queues@.len() - 1;
    proof {
        let ql = book.bids.queues@[last];
        assert(queue_wf(ql, book.bids.entries@[last].0, book.bids.entries@[last].1, 0, d1));
        assert(book.bids.queues@[last][0] == h);
        assert(book.bids.holds(h));
        lemma_flatten_rev_pop_front(book.bids.queues@, if ql.len() == 1 { book.bids.queues@.remove(last) } else { book.bids.queues@.update(last, ql.remove(0)) });
    }
    book.remove_order(h, pool);
    let ghost d2 = pool.data@;
    pool.clear_remaining(h);
    proof {
        assert(1 <= h < MAX_ORDERS) by {
            let ql = book1.bids.queues@[last];
            assert(queue_wf(ql, book1.bids.entries@[last].0, book1.bids.entries@[last].1, 0, d1));
        }
        book.lemma_book_frame_free(d2, pool, h);
        let (a, b) = choose|a: int, b: int| 0 <= a < book1.bids.queues@.len() && 0 <= b < book1.bids.queues@[a].len()
            && book1.bids.queues@[a][b] == h
            && removed_at(&book1.bids, &book.bids, a, b)
            && (0u8 == 0 ==> book.asks == book1.asks)
            && (0u8 != 0 ==> book.bids == book1.bids);
        book1.bids.lemma_held_unique(0, d1, a, b, last, 0);
        lemma_flatten_rev_pop_front(book1.bids.queues@, book.bids.queues@);
        assert forall|j: int| 0 <= j < d1.len() implies same_but_state(#[trigger] pool.data@[j], d1[j]) by {
            assert(same_but_links(d2[j], d1[j]));
        }
    }
}


pub proof fn lemma_take_step(prio: Seq<u32>, k: int, fl: Seq<u32>)
    requires
        0 <= k < prio.len(),
    ensures
        prio.take(k + 1).reverse() + fl == seq![prio[k]] + (prio.take(k).reverse() + fl),
        forall|j: u32| #[trigger] prio.take(k + 1).contains(j) <==> prio.take(k).contains(j) || j == prio[k],
        prio.skip(k + 1) == prio.skip(k).drop_first(),
        prio.skip(k)[0] == prio[k],
{
    let a = prio.take(k + 1).reverse() + fl;
    let b = seq![prio[k]] + (prio.take(k).reverse() + fl);
    assert(a =~= b);
    assert forall|j: u32| #[trigger] prio.take(k + 1).contains(j) <==> prio.take(k).contains(j) || j == prio[k] by {
        if prio.take(k + 1).contains(j) {
            let t = choose|t: int| 0 <= t < k + 1 && #[trigger] prio.take(k + 1)[t] == j;
            if t < k { assert(prio.take(k)[t] == j); }
        }
        if prio.take(k).contains(j) {
            let t = choose|t: int| 0 <= t < k && #[trigger] prio.take(k)[t] == j;
            assert(prio.take(k + 1)[t] == j);
        }
        if j == prio[k] {
            assert(prio.take(k + 1)[k] == j);
        }
    }
    assert(prio.skip(k + 1) =~= prio.skip(k).drop_first());
}

pub proof fn lemma_keys_step<V>(d: Seq<Order>, prio: Seq<u32>, k: int, m: Map<(u32, u64), V>)
    requires
        0 <= k < prio.len(),
    ensures
        m.remove_keys(keys_of(d, prio.take(k))).remove(order_key(d[prio[k] as int])) == m.remove_keys(keys_of(d, prio.take(k + 1))),
{
    let f = |i: u32| order_key(d[i as int]);
    assert(prio.take(k + 1).map_values(f) =~= prio.take(k).map_values(f).push(f(prio[k])));
    prio.take(k).map_values(f).lemma_push_to_set_commute(f(prio[k]));
    assert(keys_of(d, prio.take(k + 1)) =~= keys_of(d, prio.take(k)).insert(order_key(d[prio[k] as int])));
    assert(m.remove_keys(keys_of(d, prio.take(k))).remove(order_key(d[prio[k] as int])) =~= m.remove_keys(keys_of(d, prio.take(k + 1))));
}

pub proof fn lemma_fills_prefix(fills: Seq<(u32, u32)>, n: int)
    requires
        0 <= n < fills.len(),
    ensures
        fill_total(fills.take(n + 1)) == fill_total(fills.take(n)) + fills[n].1,
        fills.skip(n)[0] == fills[n],
        fills.skip(n + 1) == fills.skip(n).drop_first(),
        fills.take(n + 1) == fills.take(n).push(fills[n]),
{
    assert(fills.take(n + 1).drop_last() =~= fills.take(n));
    assert(fills.skip(n + 1) =~= fills.skip(n).drop_first());
    assert(fills.take(n + 1) =~= fills.take(n).push(fills[n]));
}

pub proof fn lemma_trades_push(d: Seq<Order>, inc: u32, fills: Seq<(u32, u32)>, n: int, iid: u16, buy: bool)
    requires
        0 <= n < fills.len(),
    ensures
        spec_trades(d, inc, fills.take(n + 1), iid, buy) == spec_trades(d, inc, fills.take(n), iid, buy).push(spec_trade(d, inc, fills[n].0, fills[n].1, iid, buy)),
{
    assert(fills.take(n + 1) =~= fills.take(n).push(fills[n]));
    assert(spec_trades(d, inc, fills.take(n + 1), iid, buy) =~= spec_trades(d, inc, fills.take(n), iid, buy).push(spec_trade(d, inc, fills[n].0, fills[n].1, iid, buy)));
}

/// The resting records an incoming order on side `buy` trades against,
/// in execution priority.
pub open spec fn opposite_priority(book: &OrderBook, buy: bool) -> Seq<u32> {
    if buy { book.ask_priority() } else { book.bid_priority() }
}

/// Best opposite price and its oldest record, if the opposite side has any.
fn best_opposite(book: &OrderBook, pool: &OrderPool, buy: bool) -> (r: Option<(u32, u32)>)
    requires
        pool.wf(),
        book.wf(pool),
    ensures
        r is None <==> opposite_priority(book, buy).len() == 0,
        r matches Some((p, h)) ==> h == opposite_priority(book, buy)[0] && p == pool.data@[h as int].price,
{
    if buy {
        match book.best_ask_head() {
            Some(h) => {
                let ghost q0 = book.asks.queues@[0];
                proof {
                    assert(queue_wf(q0, book.asks.entries@[0].0, book.asks.entries@[0].1, 1, pool.data@));
                    lemma_flatten_pop_front(book.asks.queues@, if q0.len() == 1 { book.asks.queues@.remove(0) } else { book.asks.queues@.update(0, q0.remove(0)) });
                }
                let p = book.asks.entries[0].0;
                Some((p, h))
            },
            None => None,
        }
    } else {
        match book.best_bid_head() {
            Some(h) => {
                let ghost last = book.bids.queues@.len() - 1;
                let ghost ql = book.bids.queues@[last];
                proof {
                    assert(queue_wf(ql, book.bids.entries@[last].0, book.bids.entries@[last].1, 0, pool.data@));
                    lemma_flatten_rev_pop_front(book.bids.queues@, if ql.len() == 1 { book.bids.queues@.remove(last) } else { book.bids.queues@.update(last, ql.remove(0)) });
                }
                let p = book.bids.entries[book.bids.entries.len() - 1].0;
                Some((p, h))
            },
            None => None,
        }
    }
}

/// Fills incoming record `inc` against the oldest record at the best
/// opposite price, prints the trade, and takes the resting record out of
/// the book when it is used up.  Returns whether it was used up.
#[verifier::rlimit(50)]
fn fill_best(pool: &mut OrderPool, book: &mut OrderBook, trades: &mut Vec<Trade>, instrument_id: u16, inc: u32, buy: bool) -> (used_up: bool)
    requires
        old(pool).wf(),
        old(book).wf(old(pool)),
        old(pool).is_allocated(inc),
        !old(book).holds(inc),
        old(pool).data@[inc as int].remaining > 0,
        opposite_priority(old(book), buy).len() > 0,
    ensures
        final(pool).wf(),
        final(book).wf(final(pool)),
        buy ==> final(book).bids == old(book).bids,
        !buy ==> final(book).asks == old(book).asks,
        ({
            let d = old(pool).data@;
            let prio = opposite_priority(old(book), buy);
            let h = prio[0];
            let ir = d[inc as int].remaining;
            let hr = d[h as int].remaining;
            let q = if ir < hr { ir } else { hr };
            &&& used_up == (hr <= ir)
            &&& h != inc
            &&& old(book).holds(h)
            &&& final(trades)@ == old(trades)@.push(spec_trade(d, inc, h, q, instrument_id, buy))
            &&& final(pool).data@[inc as int] == (Order { remaining: (ir - q) as u32, ..d[inc as int] })
            &&& final(pool).data@[h as int].remaining == hr - q
            &&& forall|j: int| 0 <= j < d.len() ==> same_but_state(#[trigger] final(pool).data@[j], d[j])
            &&& forall|j: int| 0 <= j < d.len() && j != inc && !old(book).holds(j as u32) ==> #[trigger] final(pool).data@[j] == d[j]
            &&& forall|j: int| 0 <= j < d.len() && j != inc && j != h ==> (#[trigger] final(pool).data@[j]).remaining == d[j].remaining
            &&& used_up ==> {
                &&& opposite_priority(final(book), buy) == prio.drop_first()
                &&& final(book).order_map@ == old(book).order_map@.remove(order_key(d[h as int]))
                &&& (forall|j: u32| #[trigger] final(book).holds(j) <==> old(book).holds(j) && j != h)
                &&& final(pool).free_list@ == seq![h] + old(pool).free_list@
                &&& final(pool).allocated_count == old(pool).allocated_count - 1
            }
            &&& !used_up ==> {
                &&& opposite_priority(final(book), buy) == prio
                &&& final(book).order_map@ == old(book).order_map@
                &&& (forall|j: u32| #[trigger] final(book).holds(j) <==> old(book).holds(j))
                &&& final(pool).free_list@ == old(pool).free_list@
                &&& final(pool).allocated_count == old(pool).allocated_count
            }
        }),
{
    let ghost d = pool.data@;
    let ghost book0 = *book;
    let h = match best_opposite(book, pool, buy) {
        Some((_, h)) => h,
        None => {
            proof { assert(false); }
            return false;
        },
    };
    proof {
        if buy { book.lemma_ask_priority_held(pool); } else { book.lemma_bid_priority_held(pool); }
        assert(book.holds(h));
    }
    let in_rem = pool.data[inc as usize].remaining;
    let h_rem = pool.data[h as usize].remaining;
    let fill_qty = if in_rem < h_rem { in_rem } else { h_rem };
    let mut incoming = pool.data[inc as usize];
    incoming.remaining = in_rem - fill_qty;
    let ghost pool_before = *pool;
    pool.set_order(inc, incoming);
    proof {
        book.lemma_book_frame(&pool_before, pool);
    }
    let i = &pool.data[inc as usize];
    let r = &pool.data[h as usize];
    let trade = if buy {
        Trade {
            buyer: i.account_id,
            seller: r.account_id,
            price: r.price,
            qty: fill_qty,
            instrument_id,
            buyer_exchange_order_id: i.exchange_order_id,
            seller_exchange_order_id: r.exchange_order_id,
            buyer_client_order_id: i.client_order_id,
            seller_client_order_id: r.client_order_id,
            buyer_sequence_number: i.sequence_number,
            seller_sequence_number: r.sequence_number,
            timestamp: i.sequence_number,
        }
    } else {
        Trade {
            buyer: r.account_id,
            seller: i.account_id,
            price: r.price,
            qty: fill_qty,
            instrument_id,
            buyer_exchange_order_id: r.exchange_order_id,
            seller_exchange_order_id: i.exchange_order_id,
            buyer_client_order_id: r.client_order_id,
            seller_client_order_id: i.client_order_id,
            buyer_sequence_number: r.sequence_number,
            seller_sequence_number: i.sequence_number,
            timestamp: i.sequence_number,
        }
    };
    trades.push(trade);
    let ghost book_mid = *book;
    if fill_qty == h_rem {
        if buy {
            consume_best_ask(book, pool, h);
        } else {
            consume_best_bid(book, pool, h);
        }
        true
    } else {
        let ghost pool1 = *pool;
        if buy {
            book.asks.reduce_head(0, fill_qty, pool, 1);
            proof {
                assert forall|x: int, y: int| 0 <= x < book.bids.queues@.len() && 0 <= y < book.bids.queues@[x].len()
                    implies pool1.data@[#[trigger] book.bids.queues@[x][y] as int] == pool.data@[book.bids.queues@[x][y] as int] by {
                    book.bids.lemma_held_price(0, pool1.data@, x, y);
                    book_mid.asks.lemma_held_price(1, pool1.data@, 0, 0);
                }
                book.bids.lemma_wf_frame(0, pool1.data@, pool.data@);
            }
        } else {
            let last = book.bids.entries.len() - 1;
            book.bids.reduce_head(last, fill_qty, pool, 0);
            proof {
                assert forall|x: int, y: int| 0 <= x < book.asks.queues@.len() && 0 <= y < book.asks.queues@[x].len()
                    implies pool1.data@[#[trigger] book.asks.queues@[x][y] as int] == pool.data@[book.asks.queues@[x][y] as int] by {
                    book.asks.lemma_held_price(1, pool1.data@, x, y);
                    book_mid.bids.lemma_held_price(0, pool1.data@, last as int, 0);
                }
                book.asks.lemma_wf_frame(1, pool1.data@, pool.data@);
            }
        }
        proof {
            book.lemma_map_frame_remaining(pool1.data@, pool.data@);
            assert forall|j: u32| #[trigger] book.holds(j) <==> book_mid.holds(j) by {
                if book_mid.asks.holds(j) {
                    let (a, b) = choose|a: int, b: int| 0 <= a < book_mid.asks.queues@.len() && 0 <= b < book_mid.asks.queues@[a].len() && #[trigger] book_mid.asks.queues@[a][b] == j;
                    assert(book.asks.queues@[a][b] == j);
                }
                if book.asks.holds(j) {
                    let (a, b) = choose|a: int, b: int| 0 <= a < book.asks.queues@.len() && 0 <= b < book.asks.queues@[a].len() && #[trigger] book.asks.queues@[a][b] == j;
                    assert(book_mid.asks.queues@[a][b] == j);
                }
                if book_mid.bids.holds(j) {
                    let (a, b) = choose|a: int, b: int| 0 <= a < book_mid.bids.queues@.len() && 0 <= b < book_mid.bids.queues@[a].len() && #[trigger] book_mid.bids.queues@[a][b] == j;
                    assert(book.bids.queues@[a][b] == j);
                }
                if book.bids.holds(j) {
                    let (a, b) = choose|a: int, b: int| 0 <= a < book.bids.queues@.len() && 0 <= b < book.bids.queues@[a].len() && #[trigger] book.bids.queues@[a][b] == j;
                    assert(book_mid.bids.queues@[a][b] == j);
                }
            }
        }
        false
    }
}

/// The fills of incoming record `inc` against `prio0` in the state `d0`.
pub open spec fn fills_of(d0: Seq<Order>, prio0: Seq<u32>, inc: u32, buy: bool) -> Seq<(u32, u32)> {
    spec_fills(d0, prio0, buy, d0[inc as int].price, d0[inc as int].remaining)
}

/// Records in state `d` after matching `inc`, starting from `d0`, has used
/// up the first `k` records of `prio0` and printed `n` fills.
#[verifier::opaque]
pub open spec fn match_progress(d0: Seq<Order>, d: Seq<Order>, prio0: Seq<u32>, inc: u32, buy: bool, k: int, n: int) -> bool {
    let fills0 = fills_of(d0, prio0, inc, buy);
    &&& d.len() == d0.len()
    &&& 0 <= k <= prio0.len()
    &&& (n == k || (n == k + 1 && d[inc as int].remaining == 0))
    &&& n <= fills0.len()
    &&& d[inc as int] == (Order { remaining: d[inc as int].remaining, ..d0[inc as int] })
    &&& resting_as_before(d, d0, prio0.skip(k), if n == k { 0 } else { fills0[k].1 as int })
    &&& (n == k + 1 ==> fills0[k].0 == prio0[k] && fills0[k].1 < d0[prio0[k] as int].remaining)
    &&& (forall|t: int| 0 <= t < k ==> #[trigger] fills0[t] == (prio0[t], d0[prio0[t] as int].remaining))
    &&& fills0.skip(n) == spec_fills(d0, prio0.skip(k), buy, d0[inc as int].price, d[inc as int].remaining)
    &&& d0[inc as int].remaining == d[inc as int].remaining + fill_total(fills0.take(n))
    &&& (forall|t: int| 0 <= t < k ==> (#[trigger] d[prio0[t] as int]).remaining == 0)
    &&& (forall|j: int| 0 <= j < d0.len() ==> same_but_state(#[trigger] d[j], d0[j]))
}

pub proof fn lemma_progress_start(d0: Seq<Order>, prio0: Seq<u32>, inc: u32, buy: bool)
    requires
        0 <= inc < d0.len(),
    ensures
        match_progress(d0, d0, prio0, inc, buy, 0, 0),
{
    reveal(match_progress);
    let fills0 = fills_of(d0, prio0, inc, buy);
    assert(prio0.skip(0) =~= prio0);
    assert(fills0.skip(0) =~= fills0);
    assert(fills0.take(0) =~= Seq::<(u32, u32)>::empty());
}

/// What `match_progress` says of the records when no fill is left.
pub proof fn lemma_progress_done(d0: Seq<Order>, d: Seq<Order>, prio0: Seq<u32>, inc: u32, buy: bool, k: int, n: int)
    requires
        match_progress(d0, d, prio0, inc, buy, k, n),
        n == fills_of(d0, prio0, inc, buy).len(),
    ensures
        ({
            let fills = fills_of(d0, prio0, inc, buy);
            &&& k == full_fills(d0, fills)
            &&& fill_total(fills) <= d0[inc as int].remaining
            &&& d[inc as int] == (Order { remaining: (d0[inc as int].remaining - fill_total(fills)) as u32, ..d0[inc as int] })
            &&& 0 <= k <= prio0.len()
            &&& resting_as_before(d, d0, prio0.skip(k), if fills.len() > k { fills.last().1 as int } else { 0 })
            &&& (fills.len() - k == 0 || fills.len() - k == 1)
            &&& (fills.len() - k == 1 ==> fills.last().0 == prio0[k])
            &&& forall|t: int| 0 <= t < k ==> (#[trigger] d[prio0[t] as int]).remaining == 0
            &&& forall|j: int| 0 <= j < d0.len() ==> same_but_state(#[trigger] d[j], d0[j])
        }),
{
    reveal(match_progress);
    let fills = fills_of(d0, prio0, inc, buy);
    assert(fills.take(n) =~= fills);
    if n == k + 1 {
        assert(fills.drop_last() =~= fills.take(k));
    } else if n > 0 {
        assert(fills[n - 1] == (prio0[n - 1], d0[prio0[n - 1] as int].remaining));
    }
}

/// One fill of `inc` against the record `prio0[k]`, turning state `dm`
/// into `d1`, advances the progress by one fill.
#[verifier::rlimit(50)]
pub proof fn lemma_progress_step(
    d0: Seq<Order>, dm: Seq<Order>, d1: Seq<Order>, prio0: Seq<u32>, inc: u32, buy: bool, k: int, used_up: bool, instrument_id: u16,
)
    requires
        match_progress(d0, dm, prio0, inc, buy, k, k),
        prio0.no_duplicates(),
        forall|t: int| 0 <= t < prio0.len() ==> #[trigger] prio0[t] != inc && prio0[t] < d0.len(),
        d1.len() == d0.len(),
        0 <= inc < d0.len(),
        0 <= k < prio0.len(),
        dm[inc as int].remaining > 0,
        crosses(buy, d0[inc as int].price, dm[prio0[k] as int].price),
        ({
            let h = prio0[k];
            let ir = dm[inc as int].remaining;
            let hr = dm[h as int].remaining;
            let q = if ir < hr { ir } else { hr };
            &&& used_up == (hr <= ir)
            &&& d1[inc as int] == (Order { remaining: (ir - q) as u32, ..dm[inc as int] })
            &&& d1[h as int].remaining == hr - q
            &&& forall|j: int| 0 <= j < d0.len() ==> same_but_state(#[trigger] d1[j], dm[j])
            &&& forall|j: int| 0 <= j < d0.len() && j != inc && j != h ==> (#[trigger] d1[j]).remaining == dm[j].remaining
        }),
    ensures
        ({
            let fills0 = fills_of(d0, prio0, inc, buy);
            let h = prio0[k];
            let ir = dm[inc as int].remaining;
            let hr = dm[h as int].remaining;
            let q = if ir < hr { ir } else { hr };
            &&& k < fills0.len()
            &&& fills0[k] == (h, q)
            &&& fill_total(fills0.take(k + 1)) == fill_total(fills0.take(k)) + q
            &&& fills0.take(k + 1) == fills0.take(k).push((h, q))
            &&& spec_trade(dm, inc, h, q, instrument_id, buy) == spec_trade(d0, inc, h, q, instrument_id, buy)
            &&& used_up ==> match_progress(d0, d1, prio0, inc, buy, k + 1, k + 1)
            &&& !used_up ==> match_progress(d0, d1, prio0, inc, buy, k, k + 1)
        }),
{
    reveal(match_progress);
    let fills0 = fills_of(d0, prio0, inc, buy);
    let limit = d0[inc as int].price;
    let prio = prio0.skip(k);
    let h = prio0[k];
    let ir = dm[inc as int].remaining;
    assert(prio[0] == h);
    assert(dm[h as int].remaining == d0[h as int].remaining - 0);
    assert(same_but_state(dm[h as int], d0[h as int]));
    lemma_fills_step(d0, prio, buy, limit, ir);
    lemma_fills_prefix(fills0, k);
    assert forall|j: int| 0 <= j < d0.len() implies same_but_state(#[trigger] d1[j], d0[j]) by {
        assert(same_but_state(d1[j], dm[j]));
        assert(same_but_state(dm[j], d0[j]));
    }
    if used_up {
        assert(prio0.skip(k + 1) =~= prio.drop_first());
        let np = prio0.skip(k + 1);
        assert forall|t: int| 0 <= t < np.len() implies d1[#[trigger] np[t] as int].remaining == d0[np[t] as int].remaining - (if t == 0 { 0int } else { 0 }) by {
            assert(np[t] == prio[t + 1]);
            assert(prio[t + 1] != prio[0]);
            assert(prio0[k + t + 1] != inc);
        }
        assert forall|t: int| 0 <= t < k + 1 implies (#[trigger] d1[prio0[t] as int]).remaining == 0 by {
            if t < k {
                assert(prio0[t] != h);
                assert(prio0[t] != inc);
            }
        }
        assert forall|t: int| 0 <= t < k + 1 implies #[trigger] fills0[t] == (prio0[t], d0[prio0[t] as int].remaining) by {}
    } else {
        assert forall|t: int| 0 <= t < prio.len() implies d1[#[trigger] prio[t] as int].remaining == d0[prio[t] as int].remaining - (if t == 0 { fills0[k].1 as int } else { 0 }) by {
            if t != 0 {
                assert(prio[t] != prio[0]);
                assert(prio0[k + t] != inc);
            }
        }
        assert(fills0.skip(k + 1) =~= Seq::<(u32, u32)>::empty());
        assert forall|t: int| 0 <= t < k implies (#[trigger] d1[prio0[t] as int]).remaining == 0 by {
            assert(prio0[t] != prio0[k]);
            assert(prio0[t] != inc);
        }
    }
}

/// The facts of `match_progress` the matching loop reads directly.
pub proof fn lemma_progress_facts(d0: Seq<Order>, d: Seq<Order>, prio0: Seq<u32>, inc: u32, buy: bool, k: int, n: int, h: u32)
    requires
        match_progress(d0, d, prio0, inc, buy, k, n),
        0 <= h < d0.len(),
    ensures
        ({
            let fills0 = fills_of(d0, prio0, inc, buy);
            &&& d[inc as int].remaining > 0 ==> n == k
            &&& d[inc as int].remaining == 0 ==> n == fills0.len()
            &&& 0 <= k <= prio0.len()
            &&& n <= fills0.len()
            &&& fills0.skip(n) == spec_fills(d0, prio0.skip(k), buy, d0[inc as int].price, d[inc as int].remaining)
            &&& same_but_state(d[h as int], d0[h as int])
        }),
{
    reveal(match_progress);
    let fills0 = fills_of(d0, prio0, inc, buy);
    if d[inc as int].remaining == 0 {
        assert(fills0.skip(n).len() == 0);
    }
}

/// Matches incoming record `inc` (a buy when `buy`) against the opposite
/// side of `book`, best price first and oldest first within a price,
/// appending the trades.
#[verifier::rlimit(100)]
pub(crate) fn match_incoming(pool: &mut OrderPool, book: &mut OrderBook, trades: &mut Vec<Trade>, instrument_id: u16, inc: u32, buy: bool)
    requires
        old(pool).wf(),
        old(book).wf(old(pool)),
        old(pool).is_allocated(inc),
        !old(book).holds(inc),
    ensures
        final(pool).wf(),
        final(book).wf(final(pool)),
        buy ==> final(book).bids == old(book).bids,
        !buy ==> final(book).asks == old(book).asks,
        match_outcome(old(pool).data@, final(pool).data@, opposite_priority(old(book), buy), opposite_priority(final(book), buy),
            old(trades)@, final(trades)@, inc, instrument_id, buy),
        ({
            let d0 = old(pool).data@;
            let prio0 = opposite_priority(old(book), buy);
            let k = full_fills(d0, spec_fills(d0, prio0, buy, d0[inc as int].price, d0[inc as int].remaining));
            &&& final(pool).free_list@ == prio0.take(k).reverse() + old(pool).free_list@
            &&& final(pool).allocated_count == old(pool).allocated_count - k
            &&& final(book).order_map@ == old(book).order_map@.remove_keys(keys_of(d0, prio0.take(k)))
            &&& forall|j: u32| #[trigger] final(book).holds(j) <==> old(book).holds(j) && !prio0.take(k).contains(j)
            &&& forall|j: int| 0 <= j < d0.len() && j != inc && !old(book).holds(j as u32) ==> #[trigger] final(pool).data@[j] == d0[j]
            &&& forall|j: int| 0 <= j < d0.len() && j != inc && !prio0.contains(j as u32) ==> same_but_links(#[trigger] final(pool).data@[j], d0[j])
        }),
{
    let ghost d0 = pool.data@;
    let ghost prio0 = opposite_priority(book, buy);
    let ghost fills0 = fills_of(d0, prio0, inc, buy);
    let ghost trades0 = trades@;
    let ghost book0 = *book;
    let ghost pool0 = *pool;
    let ghost mut k: int = 0;
    let ghost mut n: int = 0;
    proof {
        if buy {
            lemma_flatten_no_dup(book.asks.entries@, book.asks.queues@, 1, d0);
            book.lemma_ask_priority_held(pool);
        } else {
            lemma_flatten_rev_no_dup(book.bids.entries@, book.bids.queues@, 0, d0);
            book.lemma_bid_priority_held(pool);
        }
        lemma_progress_start(d0, prio0, inc, buy);
        assert(prio0.skip(0) =~= prio0);
        assert(prio0.take(0).reverse() =~= Seq::<u32>::empty());
        assert(keys_of(d0, prio0.take(0)) =~= Set::<(u32, u64)>::empty());
        assert(book.order_map@.remove_keys(Set::empty()) =~= book.order_map@);
        assert(fills0.take(0) =~= Seq::<(u32, u32)>::empty());
        assert(spec_trades(d0, inc, fills0.take(0), instrument_id, buy) =~= Seq::<Trade>::empty());
        assert(trades@ + Seq::<Trade>::empty() =~= trades@);
        assert(pool.free_list@ =~= Seq::<u32>::empty() + pool.free_list@);
    }
    let incoming_price = pool.data[inc as usize].price;
    while pool.data[inc as usize].remaining > 0
        invariant
            pool.wf(),
            book.wf(pool),
            pool.is_allocated(inc),
            !book.holds(inc),
            buy ==> book.bids == book0.bids,
            !buy ==> book.asks == book0.asks,
            prio0.no_duplicates(),
            d0.len() == MAX_ORDERS,
            forall|t: int| 0 <= t < prio0.len() ==> book0.holds(#[trigger] prio0[t]),
            forall|t: int| 0 <= t < prio0.len() ==> #[trigger] prio0[t] != inc && prio0[t] < d0.len(),
            incoming_price == d0[inc as int].price,
            fills0 == fills_of(d0, prio0, inc, buy),
            match_progress(d0, pool.data@, prio0, inc, buy, k, n),
            pool.data@[inc as int].remaining == 0 ==> n == fills0.len(),
            forall|j: int| 0 <= j < d0.len() && j != inc && !book0.holds(j as u32) ==> #[trigger] pool.data@[j] == d0[j],
            forall|j: int| 0 <= j < d0.len() && j != inc && !prio0.contains(j as u32) ==> same_but_links(#[trigger] pool.data@[j], d0[j]),
            opposite_priority(book, buy) == prio0.skip(k),
            trades@ == trades0 + spec_trades(d0, inc, fills0.take(n), instrument_id, buy),
            pool.free_list@ == prio0.take(k).reverse() + pool0.free_list@,
            pool.allocated_count == pool0.allocated_count - k,
            book.order_map@ == book0.order_map@.remove_keys(keys_of(d0, prio0.take(k))),
            forall|j: u32| #[trigger] book.holds(j) <==> book0.holds(j) && !prio0.take(k).contains(j),
        ensures
            n == fills0.len(),
        decreases pool.data@[inc as int].remaining,
    {
        let ghost prio = prio0.skip(k);
        let (best_price, h) = match best_opposite(book, pool, buy) {
            Some(x) => x,
            None => {
                proof {
                    lemma_progress_facts(d0, pool.data@, prio0, inc, buy, k, n, inc);
                    assert(fills0.skip(n).len() == 0);
                }
                break;
            },
        };
        proof {
            lemma_progress_facts(d0, pool.data@, prio0, inc, buy, k, n, h);
            assert(h == prio[0] && prio[0] == prio0[k]);
        }
        if (buy && incoming_price < best_price) || (!buy && incoming_price > best_price) {
            proof {
                assert(fills0.skip(n).len() == 0);
            }
            break;
        }
        let ghost pool_mid = *pool;
        let ghost book_mid = *book;
        proof {
            assert(n == k);
            lemma_take_step(prio0, k, pool0.free_list@);
            lemma_keys_step(d0, prio0, k, book0.order_map@);
        }
        let used_up = fill_best(pool, book, trades, instrument_id, inc, buy);
        proof {
            lemma_progress_step(d0, pool_mid.data@, pool.data@, prio0, inc, buy, k, used_up, instrument_id);
            lemma_trades_push(d0, inc, fills0, n, instrument_id, buy);
            assert forall|j: int| 0 <= j < d0.len() && j != inc && !book0.holds(j as u32) implies #[trigger] pool.data@[j] == d0[j] by {
                assert(!book_mid.holds(j as u32));
                assert(pool_mid.data@[j] == d0[j]);
            }
            assert forall|j: int| 0 <= j < d0.len() && j != inc && !prio0.contains(j as u32) implies same_but_links(#[trigger] pool.data@[j], d0[j]) by {
                assert(j != h) by {
                    assert(prio0.contains(prio0[k]));
                }
                assert(same_but_links(pool_mid.data@[j], d0[j]));
                assert(same_but_state(pool.data@[j], pool_mid.data@[j]));
                assert(pool.data@[j].remaining == pool_mid.data@[j].remaining);
            }
            if used_up {
                assert forall|j: u32| #[trigger] book.holds(j) <==> book0.holds(j) && !prio0.take(k + 1).contains(j) by {
                    assert(book.holds(j) <==> book_mid.holds(j) && j != h);
                    assert(book_mid.holds(j) <==> book0.holds(j) && !prio0.take(k).contains(j));
                    assert(prio0.take(k + 1).contains(j) <==> prio0.take(k).contains(j) || j == prio0[k]);
                }
                assert(order_key(pool_mid.data@[h as int]) == order_key(d0[h as int]));
                k = k + 1;
            }
            n = n + 1;
            lemma_progress_facts(d0, pool.data@, prio0, inc, buy, k, n, inc);
        }
    }
    proof {
        lemma_progress_done(d0, pool.data@, prio0, inc, buy, k, n);
        assert(fills0.take(n) =~= fills0);
    }
}


/// `t` prints order `b` as its buy side and order `s` as its sell side:
/// every buyer field comes from `b` and every seller field from `s`.
pub open spec fn trade_sides(t: Trade, b: Order, s: Order) -> bool {
    &&& t.buyer == b.account_id
    &&& t.buyer_exchange_order_id == b.exchange_order_id
    &&& t.buyer_client_order_id == b.client_order_id
    &&& t.buyer_sequence_number == b.sequence_number
    &&& t.seller == s.account_id
    &&& t.seller_exchange_order_id == s.exchange_order_id
    &&& t.seller_client_order_id == s.client_order_id
    &&& t.seller_sequence_number == s.sequence_number
}

/// Whichever side is the aggressor, each trade takes all its buyer fields
/// from the buying order and all its seller fields from the selling one:
/// the incoming order is the buyer exactly when it buys, the resting order
/// it filled against is the other party, the trade is at the resting
/// order's price for the filled quantity, and it is stamped with the
/// incoming order's sequence number.
pub proof fn lemma_trade_parties(data: Seq<Order>, incoming: u32, fills: Seq<(u32, u32)>, instrument_id: u16, buy: bool)
    ensures
        forall|k: int| 0 <= k < fills.len() ==> {
            let t = #[trigger] spec_trades(data, incoming, fills, instrument_id, buy)[k];
            let inc = data[incoming as int];
            let res = data[fills[k].0 as int];
            &&& buy ==> trade_sides(t, inc, res)
            &&& !buy ==> trade_sides(t, res, inc)
            &&& t.price == res.price
            &&& t.qty == fills[k].1
            &&& t.instrument_id == instrument_id
            &&& t.timestamp == inc.sequence_number
        },
        spec_trades(data, incoming, fills, instrument_id, buy).len() == fills.len(),
{
}

/// Every trade that matching an incoming order appends names that order
/// and a resting order as its two parties, the incoming one on the buy side
/// exactly when it is a buy, with each party's account, order ids and
/// sequence number kept together, at the resting order's price.
pub proof fn lemma_matched_trade_parties(e0: MatchingEngine, e1: MatchingEngine, idx: u32)
    requires
        crate::execution::match_rest_outcome(e0, e1, idx),
    ensures
        forall|k: int| #![trigger e1.trades@[k]] e0.trades@.len() <= k < e1.trades@.len() ==> exists|j: u32| #![trigger e0.pool.data@[j as int]] {
            let t = e1.trades@[k];
            let inc = e0.pool.data@[idx as int];
            let res = e0.pool.data@[j as int];
            &&& (inc.side == 0 ==> trade_sides(t, inc, res))
            &&& (inc.side != 0 ==> trade_sides(t, res, inc))
            &&& t.price == res.price
            &&& t.instrument_id == inc.instrument_id
        },
{
    reveal(crate::execution::match_rest_outcome);
    let d0 = e0.pool.data@;
    let o = d0[idx as int];
    let buy = o.side == 0;
    let prio0 = opposite_priority(&e0.books@[o.instrument_id as int], buy);
    let fills = fills_of(d0, prio0, idx, buy);
    let new = spec_trades(d0, idx, fills, o.instrument_id, buy);
    lemma_trade_parties(d0, idx, fills, o.instrument_id, buy);
    assert forall|k: int| #![trigger e1.trades@[k]] e0.trades@.len() <= k < e1.trades@.len() implies exists|j: u32| #![trigger e0.pool.data@[j as int]] {
        let t = e1.trades@[k];
        let inc = e0.pool.data@[idx as int];
        let res = e0.pool.data@[j as int];
        &&& (inc.side == 0 ==> trade_sides(t, inc, res))
        &&& (inc.side != 0 ==> trade_sides(t, res, inc))
        &&& t.price == res.price
        &&& t.instrument_id == inc.instrument_id
    } by {
        let m = k - e0.trades@.len();
        assert(e1.trades@[k] == new[m]);
        let j = fills[m].0;
        let t = new[m];
        assert(buy ==> trade_sides(t, o, d0[j as int]));
    }
}

} // verus!
