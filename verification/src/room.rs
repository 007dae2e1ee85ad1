//! How much of an incoming order matching would fill, read off the price
//! levels it trades against, so that the quantity left to rest is known
//! before the order is admitted.

use vstd::prelude::*;
use crate::book::{OrderBook, PriceLevel, flatten, flatten_rev, queue_wf, sum_remaining, lemma_sum_first, lemma_sum_nonneg};
use crate::matching::{crosses, fill_total, spec_fills};
use crate::pool::Order;

verus! {

/// Volume of the levels `es`, taken in priority order, that cross `limit`
/// for an incoming order on side `buy`, up to the first that does not.
pub open spec fn levels_cross(es: Seq<(u32, PriceLevel)>, buy: bool, limit: u32) -> int
    decreases es.len(),
{
    if es.len() == 0 || !crosses(buy, limit, es[0].0) {
        0
    } else {
        es[0].1.volume + levels_cross(es.drop_first(), buy, limit)
    }
}

/// The levels an incoming order on side `buy` trades against, in
/// priority order: asks from the lowest, bids from the highest.
pub open spec fn opposite_levels(book: OrderBook, buy: bool) -> Seq<(u32, PriceLevel)> {
    if buy { book.asks.entries@ } else { book.bids.entries@.reverse() }
}

/// The quantity matching against `book` would fill of an order for `qty`
/// on side `buy` limited at `limit`.
pub open spec fn fill_against(book: OrderBook, buy: bool, limit: u32, qty: u32) -> int {
    let v = levels_cross(opposite_levels(book, buy), buy, limit);
    if v < qty { v } else { qty as int }
}

/// Remaining quantity of the records `prio`, in order, that cross `limit`,
/// up to the first that does not.
pub open spec fn records_cross(d: Seq<Order>, prio: Seq<u32>, buy: bool, limit: u32) -> int
    decreases prio.len(),
{
    if prio.len() == 0 || !crosses(buy, limit, d[prio[0] as int].price) {
        0
    } else {
        d[prio[0] as int].remaining + records_cross(d, prio.drop_first(), buy, limit)
    }
}

/// Crossing volume is never negative.
pub proof fn lemma_levels_cross_nonneg(es: Seq<(u32, PriceLevel)>, buy: bool, limit: u32)
    ensures
        levels_cross(es, buy, limit) >= 0,
    decreases es.len(),
{
    if es.len() > 0 {
        lemma_levels_cross_nonneg(es.drop_first(), buy, limit);
    }
}

/// Crossing remaining quantity is never negative.
pub proof fn lemma_records_cross_nonneg(d: Seq<Order>, prio: Seq<u32>, buy: bool, limit: u32)
    ensures
        records_cross(d, prio, buy, limit) >= 0,
    decreases prio.len(),
{
    if prio.len() > 0 {
        lemma_records_cross_nonneg(d, prio.drop_first(), buy, limit);
    }
}

/// Matching fills the incoming quantity or everything that crosses,
/// whichever is less.
pub proof fn lemma_fill_total_is_min(d: Seq<Order>, prio: Seq<u32>, buy: bool, limit: u32, rem: u32)
    ensures
        fill_total(spec_fills(d, prio, buy, limit, rem)) == (if records_cross(d, prio, buy, limit) < rem {
            records_cross(d, prio, buy, limit)
        } else {
            rem as int
        }),
    decreases prio.len(),
{
    lemma_records_cross_nonneg(d, prio, buy, limit);
    let fills = spec_fills(d, prio, buy, limit, rem);
    if rem == 0 || prio.len() == 0 || !crosses(buy, limit, d[prio[0] as int].price) {
        assert(fill_total(fills) == 0);
    } else {
        let h = prio[0];
        let hr = d[h as int].remaining;
        lemma_records_cross_nonneg(d, prio.drop_first(), buy, limit);
        if rem < hr {
            crate::matching::lemma_fill_total_prepend((h, rem), Seq::empty());
            assert(seq![(h, rem)] + Seq::<(u32, u32)>::empty() =~= seq![(h, rem)]);
        } else {
            let rest = spec_fills(d, prio.drop_first(), buy, limit, (rem - hr) as u32);
            lemma_fill_total_is_min(d, prio.drop_first(), buy, limit, (rem - hr) as u32);
            crate::matching::lemma_fill_total_prepend((h, hr), rest);
        }
    }
}

/// Records of one price ahead of others: they all cross or none does.
pub proof fn lemma_records_cross_split(d: Seq<Order>, q: Seq<u32>, r: Seq<u32>, price: u32, buy: bool, limit: u32)
    requires
        q.len() > 0,
        forall|k: int| 0 <= k < q.len() ==> d[#[trigger] q[k] as int].price == price,
    ensures
        records_cross(d, q + r, buy, limit) == (if crosses(buy, limit, price) {
            sum_remaining(d, q) + records_cross(d, r, buy, limit)
        } else {
            0
        }),
    decreases q.len(),
{
    lemma_sum_first(d, q);
    assert((q + r)[0] == q[0]);
    assert((q + r).drop_first() =~= q.drop_first() + r);
    if q.len() > 1 {
        assert forall|k: int| 0 <= k < q.drop_first().len() implies d[#[trigger] q.drop_first()[k] as int].price == price by {
            assert(q.drop_first()[k] == q[k + 1]);
        }
        lemma_records_cross_split(d, q.drop_first(), r, price, buy, limit);
    } else {
        assert(q.drop_first() + r =~= r);
        assert(sum_remaining(d, q.drop_first()) == 0);
    }
}

/// The crossing volume of well-formed levels is the crossing remaining
/// quantity of their records in priority order.
pub proof fn lemma_levels_records_cross(qs: Seq<Seq<u32>>, es: Seq<(u32, PriceLevel)>, side: u8, d: Seq<Order>, buy: bool, limit: u32)
    requires
        qs.len() == es.len(),
        forall|i: int| 0 <= i < qs.len() ==> queue_wf(#[trigger] qs[i], es[i].0, es[i].1, side, d),
    ensures
        records_cross(d, flatten(qs), buy, limit) == levels_cross(es, buy, limit),
    decreases qs.len(),
{
    if qs.len() > 0 {
        assert(queue_wf(qs[0], es[0].0, es[0].1, side, d));
        assert(flatten(qs) == qs[0] + flatten(qs.drop_first()));
        lemma_records_cross_split(d, qs[0], flatten(qs.drop_first()), es[0].0, buy, limit);
        assert forall|i: int| 0 <= i < qs.drop_first().len() implies queue_wf(#[trigger] qs.drop_first()[i], es.drop_first()[i].0, es.drop_first()[i].1, side, d) by {
            assert(qs.drop_first()[i] == qs[i + 1]);
            assert(es.drop_first()[i] == es[i + 1]);
            assert(queue_wf(qs[i + 1], es[i + 1].0, es[i + 1].1, side, d));
        }
        lemma_levels_records_cross(qs.drop_first(), es.drop_first(), side, d, buy, limit);
    } else {
        assert(flatten(qs) =~= Seq::<u32>::empty());
    }
}

/// What matching an incoming order against a well-formed book fills is
/// read off the levels it trades against.
pub proof fn lemma_fill_against(book: OrderBook, pool: &crate::pool::OrderPool, d: Seq<Order>, buy: bool, limit: u32, qty: u32)
    requires
        book.wf(pool),
        d == pool.data@,
    ensures
        fill_total(spec_fills(d, crate::matching::opposite_priority(&book, buy), buy, limit, qty)) == fill_against(book, buy, limit, qty),
{
    let prio = crate::matching::opposite_priority(&book, buy);
    lemma_fill_total_is_min(d, prio, buy, limit, qty);
    if buy {
        lemma_levels_records_cross(book.asks.queues@, book.asks.entries@, 1, d, buy, limit);
    } else {
        let qs = book.bids.queues@;
        let es = book.bids.entries@;
        crate::shape::lemma_flatten_rev_reverse(qs);
        let n = qs.len();
        assert forall|i: int| 0 <= i < qs.reverse().len() implies queue_wf(#[trigger] qs.reverse()[i], es.reverse()[i].0, es.reverse()[i].1, 0, d) by {
            assert(qs.reverse()[i] == qs[n - 1 - i]);
            assert(es.reverse()[i] == es[n - 1 - i]);
            assert(queue_wf(qs[n - 1 - i], es[n - 1 - i].0, es[n - 1 - i].1, 0, d));
        }
        lemma_levels_records_cross(qs.reverse(), es.reverse(), 0, d, buy, limit);
    }
}

/// Computes how much of an order for `qty` on side `buy` limited at
/// `limit` matching against `book` would fill.
pub fn crossing_fill(book: &OrderBook, buy: bool, limit: u32, qty: u32) -> (r: u32)
    ensures
        r == fill_against(*book, buy, limit, qty),
{
    let ghost levels = opposite_levels(*book, buy);
    proof {
        lemma_levels_cross_nonneg(levels, buy, limit);
    }
    if qty == 0 {
        return 0;
    }
    let es = if buy { &book.asks.entries } else { &book.bids.entries };
    let n = es.len();
    let mut acc: u64 = 0;
    let mut i: usize = 0;
    proof {
        assert(levels.skip(0) =~= levels);
    }
    while i < n
        invariant_except_break
            acc < qty,
        invariant
            n == es@.len(),
            levels.len() == n,
            forall|k: int| 0 <= k < n ==> #[trigger] levels[k] == (if buy { es@[k] } else { es@[n - 1 - k] }),
            i <= n,
            levels_cross(levels, buy, limit) == acc + levels_cross(levels.skip(i as int), buy, limit),
        ensures
            levels_cross(levels, buy, limit) == acc + levels_cross(levels.skip(i as int), buy, limit),
            i == n || acc >= qty || levels_cross(levels.skip(i as int), buy, limit) == 0,
        decreases n - i,
    {
        let level = if buy { es[i] } else { es[n - 1 - i] };
        let ghost rest = levels.skip(i as int);
        proof {
            assert(rest[0] == level);
            assert(rest.drop_first() =~= levels.skip(i + 1));
        }
        let crossing = if buy { level.0 <= limit } else { level.0 >= limit };
        if !crossing {
            break;
        }
        acc = acc + level.1.volume as u64;
        i = i + 1;
        if acc >= qty as u64 {
            break;
        }
    }
    proof {
        lemma_levels_cross_nonneg(levels.skip(i as int), buy, limit);
        if i == n {
            assert(levels.skip(i as int).len() == 0);
        }
    }
    if acc < qty as u64 { acc as u32 } else { qty }
}

} // verus!
