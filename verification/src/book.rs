//! Central limit order book of one instrument: price levels on each side,
//! each a FIFO of pool records linked through the records' `next`/`prev`.

use vstd::prelude::*;
use std::collections::BTreeMap;
use crate::constants::{MAX_ORDERS, NULL_ORDER};
use crate::order::ClientOrderId;
use crate::pool::{Order, OrderPool, lemma_slot_list_len};

verus! {

broadcast use {vstd::std_specs::btree::group_btree_axioms, vstd::laws_cmp::group_laws_cmp};

#[derive(Clone, Copy, Debug, PartialEq, Eq, Structural)]
pub struct PriceLevel {
    pub head: u32,
    pub tail: u32,
    pub volume: u32,
    pub order_count: u32,
}

impl PriceLevel {
    pub fn new() -> (r: PriceLevel)
        ensures
            r == (PriceLevel { head: NULL_ORDER, tail: NULL_ORDER, volume: 0, order_count: 0 }),
    {
        PriceLevel { head: NULL_ORDER, tail: NULL_ORDER, volume: 0, order_count: 0 }
    }
}

/// Total remaining quantity of the records `q` names.
pub open spec fn sum_remaining(data: Seq<Order>, q: Seq<u32>) -> int
    decreases q.len(),
{
    if q.len() == 0 {
        0
    } else {
        sum_remaining(data, q.drop_last()) + data[q.last() as int].remaining
    }
}

pub proof fn lemma_sum_nonneg(data: Seq<Order>, q: Seq<u32>)
    ensures
        sum_remaining(data, q) >= 0,
    decreases q.len(),
{
    if q.len() > 0 {
        lemma_sum_nonneg(data, q.drop_last());
    }
}

/// The sum only reads the records that `q` names.
pub proof fn lemma_sum_frame(d1: Seq<Order>, d2: Seq<Order>, q: Seq<u32>)
    requires
        forall|k: int| 0 <= k < q.len() ==> d1[#[trigger] q[k] as int].remaining == d2[q[k] as int].remaining,
    ensures
        sum_remaining(d1, q) == sum_remaining(d2, q),
    decreases q.len(),
{
    if q.len() > 0 {
        let p = q.drop_last();
        assert forall|k: int| 0 <= k < p.len() implies d1[#[trigger] p[k] as int].remaining == d2[p[k] as int].remaining by {
            assert(p[k] == q[k]);
        }
        lemma_sum_frame(d1, d2, p);
        assert(q.last() == q[q.len() - 1]);
    }
}

/// Splitting off the first element.
pub proof fn lemma_sum_first(data: Seq<Order>, q: Seq<u32>)
    requires
        q.len() > 0,
    ensures
        sum_remaining(data, q) == data[q[0] as int].remaining + sum_remaining(data, q.drop_first()),
    decreases q.len(),
{
    assert(sum_remaining(data, q) == sum_remaining(data, q.drop_last()) + data[q.last() as int].remaining);
    if q.len() > 1 {
        lemma_sum_first(data, q.drop_last());
        assert(q.drop_last().drop_first() =~= q.drop_first().drop_last());
        assert(q.drop_first().last() == q.last());
        assert(q.drop_last()[0] == q[0]);
        assert(sum_remaining(data, q.drop_first()) == sum_remaining(data, q.drop_first().drop_last())
            + data[q.drop_first().last() as int].remaining);
    } else {
        assert(q.drop_first().len() == 0);
        assert(q.drop_last().len() == 0);
        assert(q.last() == q[0]);
        assert(sum_remaining(data, q.drop_last()) == 0);
        assert(sum_remaining(data, q.drop_first()) == 0);
    }
}

/// Removing the element at position `j`.
pub proof fn lemma_sum_remove(data: Seq<Order>, q: Seq<u32>, j: int)
    requires
        0 <= j < q.len(),
    ensures
        sum_remaining(data, q.remove(j)) == sum_remaining(data, q) - data[q[j] as int].remaining,
    decreases q.len(),
{
    if j == q.len() - 1 {
        assert(q.remove(j) =~= q.drop_last());
    } else {
        lemma_sum_remove(data, q.drop_last(), j);
        assert(q.remove(j).drop_last() =~= q.drop_last().remove(j));
        assert(q.remove(j).last() == q.last());
    }
}

/// A price level's FIFO `q` is linked and summarised correctly.
pub open spec fn queue_wf(q: Seq<u32>, price: u32, level: PriceLevel, side: u8, data: Seq<Order>) -> bool {
    &&& q.len() > 0
    &&& q.no_duplicates()
    &&& level.head == q[0]
    &&& level.tail == q.last()
    &&& level.order_count == q.len()
    &&& level.volume == sum_remaining(data, q)
    &&& forall|k: int| 0 <= k < q.len() ==> 1 <= #[trigger] q[k] < MAX_ORDERS
    &&& forall|k: int| 0 <= k < q.len() ==> {
        let o = #[trigger] data[q[k] as int];
        &&& o.side == side
        &&& o.price == price
        &&& o.remaining > 0
        &&& o.next == (if k + 1 < q.len() { q[k + 1] } else { NULL_ORDER })
        &&& o.prev == (if k > 0 { q[k - 1] } else { NULL_ORDER })
    }
}

pub open spec fn prices_sorted(e: Seq<(u32, PriceLevel)>) -> bool {
    forall|i: int, j: int| 0 <= i < j < e.len() ==> #[trigger] e[i].0 < #[trigger] e[j].0
}

/// Levels `e` with FIFOs `qs`, sorted by price, each well formed.
pub open spec fn ladder_wf(e: Seq<(u32, PriceLevel)>, qs: Seq<Seq<u32>>, side: u8, data: Seq<Order>) -> bool {
    &&& e.len() == qs.len()
    &&& prices_sorted(e)
    &&& forall|i: int| 0 <= i < e.len() ==> queue_wf(#[trigger] qs[i], e[i].0, e[i].1, side, data)
}

/// Replacing level `a` by a well-formed level at the same price, with the
/// other levels' records unchanged, keeps the ladder well formed.
pub proof fn lemma_ladder_replace(
    e: Seq<(u32, PriceLevel)>, qs: Seq<Seq<u32>>, a: int, level: PriceLevel, q: Seq<u32>,
    side: u8, d0: Seq<Order>, d1: Seq<Order>,
)
    requires
        ladder_wf(e, qs, side, d0),
        0 <= a < e.len(),
        queue_wf(q, e[a].0, level, side, d1),
        forall|x: int, k: int| 0 <= x < qs.len() && x != a && 0 <= k < qs[x].len() ==> #[trigger] d1[qs[x][k] as int] == d0[qs[x][k] as int],
    ensures
        ladder_wf(e.update(a, (e[a].0, level)), qs.update(a, q), side, d1),
{
    let ne = e.update(a, (e[a].0, level));
    let nqs = qs.update(a, q);
    assert forall|i: int, j: int| 0 <= i < j < ne.len() implies #[trigger] ne[i].0 < #[trigger] ne[j].0 by {
        assert(e[i].0 < e[j].0);
    }
    assert forall|x: int| 0 <= x < ne.len() implies queue_wf(#[trigger] nqs[x], ne[x].0, ne[x].1, side, d1) by {
        if x != a {
            lemma_queue_frame(qs[x], e[x].0, e[x].1, side, d0, d1, qs, x);
        }
    }
}

/// Dropping level `a`, with the other levels' records unchanged, keeps
/// the ladder well formed.
pub proof fn lemma_ladder_drop(
    e: Seq<(u32, PriceLevel)>, qs: Seq<Seq<u32>>, a: int, side: u8, d0: Seq<Order>, d1: Seq<Order>,
)
    requires
        ladder_wf(e, qs, side, d0),
        0 <= a < e.len(),
        forall|x: int, k: int| 0 <= x < qs.len() && x != a && 0 <= k < qs[x].len() ==> #[trigger] d1[qs[x][k] as int] == d0[qs[x][k] as int],
    ensures
        ladder_wf(e.remove(a), qs.remove(a), side, d1),
{
    let ne = e.remove(a);
    let nqs = qs.remove(a);
    assert forall|i: int, j: int| 0 <= i < j < ne.len() implies #[trigger] ne[i].0 < #[trigger] ne[j].0 by {
        let oi = if i >= a { i + 1 } else { i };
        let oj = if j >= a { j + 1 } else { j };
        assert(e[oi].0 < e[oj].0);
    }
    assert forall|x: int| 0 <= x < ne.len() implies queue_wf(#[trigger] nqs[x], ne[x].0, ne[x].1, side, d1) by {
        let ox = if x >= a { x + 1 } else { x };
        lemma_queue_frame(qs[ox], e[ox].0, e[ox].1, side, d0, d1, qs, ox);
    }
}

/// A FIFO's well-formedness only reads its own records.
pub proof fn lemma_queue_frame(
    q: Seq<u32>, price: u32, level: PriceLevel, side: u8, d0: Seq<Order>, d1: Seq<Order>,
    qs: Seq<Seq<u32>>, x: int,
)
    requires
        queue_wf(q, price, level, side, d0),
        0 <= x < qs.len(),
        qs[x] == q,
        forall|k: int| 0 <= k < qs[x].len() ==> #[trigger] d1[qs[x][k] as int] == d0[qs[x][k] as int],
    ensures
        queue_wf(q, price, level, side, d1),
{
    assert forall|k: int| 0 <= k < q.len() implies #[trigger] d1[q[k] as int] == d0[q[k] as int] by {
        assert(qs[x][k] == q[k]);
    }
    assert forall|k: int| 0 <= k < q.len() implies d0[#[trigger] q[k] as int].remaining == d1[q[k] as int].remaining by {
        assert(d1[q[k] as int] == d0[q[k] as int]);
    }
    lemma_sum_frame(d0, d1, q);
}

/// The price levels of one side, in increasing price order.
pub struct PriceLadder {
    pub entries: Vec<(u32, PriceLevel)>,
    /// The FIFO of pool records at each entry.
    pub queues: Ghost<Seq<Seq<u32>>>,
}

impl PriceLadder {
    pub open spec fn sorted(&self) -> bool {
        prices_sorted(self.entries@)
    }

    pub open spec fn wf(&self, side: u8, data: Seq<Order>) -> bool {
        ladder_wf(self.entries@, self.queues@, side, data)
    }

    /// `idx` rests somewhere on this side.
    pub open spec fn holds(&self, idx: u32) -> bool {
        exists|a: int, b: int| 0 <= a < self.queues@.len() && 0 <= b < self.queues@[a].len() && #[trigger] self.queues@[a][b] == idx
    }

    /// Records on this side read the same in `d1` and `d2`.
    pub open spec fn same_records(&self, d1: Seq<Order>, d2: Seq<Order>) -> bool {
        forall|a: int, b: int| 0 <= a < self.queues@.len() && 0 <= b < self.queues@[a].len() ==> d1[#[trigger] self.queues@[a][b] as int] == d2[self.queues@[a][b] as int]
    }

    /// The price levels as a map from price to level.
    pub open spec fn level_map(&self) -> Map<u32, PriceLevel> {
        Map::new(
            |p: u32| exists|i: int| 0 <= i < self.entries@.len() && self.entries@[i].0 == p,
            |p: u32| self.entries@[choose|i: int| 0 <= i < self.entries@.len() && self.entries@[i].0 == p].1,
        )
    }

    pub fn new() -> (r: PriceLadder)
        ensures
            r.entries@.len() == 0,
            r.queues@.len() == 0,
    {
        PriceLadder { entries: Vec::new(), queues: Ghost(Seq::empty()) }
    }

    /// Number of price levels.
    pub fn len(&self) -> (r: usize)
        ensures
            r == self.entries@.len(),
    {
        self.entries.len()
    }

    pub fn is_empty(&self) -> (r: bool)
        ensures
            r == (self.entries@.len() == 0),
    {
        self.entries.len() == 0
    }

    /// Where `price` is (`Ok`) or would be inserted (`Err`).
    pub fn position(&self, price: u32) -> (r: Result<usize, usize>)
        requires
            self.sorted(),
        ensures
            match r {
                Ok(i) => i < self.entries@.len() && self.entries@[i as int].0 == price,
                Err(i) => {
                    &&& i <= self.entries@.len()
                    &&& forall|k: int| 0 <= k < i ==> #[trigger] self.entries@[k].0 < price
                    &&& forall|k: int| i <= k < self.entries@.len() ==> #[trigger] self.entries@[k].0 > price
                },
            },
    {
        let mut lo: usize = 0;
        let mut hi: usize = self.entries.len();
        while lo < hi
            invariant
                self.sorted(),
                0 <= lo <= hi <= self.entries@.len(),
                forall|k: int| 0 <= k < lo ==> #[trigger] self.entries@[k].0 < price,
                forall|k: int| hi <= k < self.entries@.len() ==> #[trigger] self.entries@[k].0 > price,
            decreases hi - lo,
        {
            let mid = lo + (hi - lo) / 2;
            let p = self.entries[mid].0;
            if p == price {
                return Ok(mid);
            } else if p < price {
                lo = mid + 1;
            } else {
                hi = mid;
            }
        }
        Err(lo)
    }

    /// The level at `price`, if any.
    pub fn get(&self, price: &u32) -> (r: Option<&PriceLevel>)
        requires
            self.sorted(),
        ensures
            match r {
                Some(l) => exists|i: int| 0 <= i < self.entries@.len() && self.entries@[i] == (*price, *l),
                None => forall|i: int| 0 <= i < self.entries@.len() ==> #[trigger] self.entries@[i].0 != *price,
            },
    {
        match self.position(*price) {
            Ok(i) => Some(&self.entries[i].1),
            Err(_) => None,
        }
    }

    /// Lowest price, if any.
    pub fn first_price(&self) -> (r: Option<u32>)
        ensures
            r == (if self.entries@.len() == 0 { None } else { Some(self.entries@[0].0) }),
    {
        if self.entries.len() == 0 {
            None
        } else {
            Some(self.entries[0].0)
        }
    }

    /// Highest price, if any.
    pub fn last_price(&self) -> (r: Option<u32>)
        ensures
            r == (if self.entries@.len() == 0 { None } else { Some(self.entries@.last().0) }),
    {
        let n = self.entries.len();
        if n == 0 {
            None
        } else {
            Some(self.entries[n - 1].0)
        }
    }
}


/// `new` is `old` with `idx` appended to the FIFO at `price`, a fresh level
/// being created at its sorted place when there was none.
pub open spec fn appended(old: &PriceLadder, new: &PriceLadder, idx: u32, price: u32, rem: u32) -> bool {
    if old.has_price(price) {
        let i = old.index_of(price);
        let l = old.entries@[i].1;
        &&& new.entries@ == old.entries@.update(i, (price, PriceLevel {
            head: l.head,
            tail: idx,
            volume: (l.volume + rem) as u32,
            order_count: (l.order_count + 1) as u32,
        }))
        &&& new.queues@ == old.queues@.update(i, old.queues@[i].push(idx))
    } else {
        exists|i: int| 0 <= i <= old.entries@.len()
            && new.entries@ == old.entries@.insert(i, (price, PriceLevel { head: idx, tail: idx, volume: rem, order_count: 1 }))
            && new.queues@ == old.queues@.insert(i, seq![idx])
    }
}

/// `new` is `old` without the record at entry `a`, position `b`; the level
/// goes away when that was its only record.
pub open spec fn removed_at(old: &PriceLadder, new: &PriceLadder, a: int, b: int) -> bool {
    let q = old.queues@[a];
    if q.len() == 1 {
        &&& new.entries@ == old.entries@.remove(a)
        &&& new.queues@ == old.queues@.remove(a)
    } else {
        &&& new.entries@ == old.entries@.update(a, (old.entries@[a].0, new.entries@[a].1))
        &&& new.queues@ == old.queues@.update(a, q.remove(b))
    }
}

/// Taking one record off a level never raises the volume at any price,
/// so long as the records keep their remaining quantities.
pub proof fn lemma_removed_volumes(
    l0: &PriceLadder, l1: &PriceLadder, a: int, b: int, side: u8, d0: Seq<Order>, d1: Seq<Order>,
)
    requires
        l0.wf(side, d0),
        l1.wf(side, d1),
        0 <= a < l0.queues@.len(),
        0 <= b < l0.queues@[a].len(),
        removed_at(l0, l1, a, b),
        forall|j: int| 0 <= j < MAX_ORDERS ==> #[trigger] d1[j].remaining == d0[j].remaining,
    ensures
        forall|p: u32| #[trigger] l1.volume_at(p) <= l0.volume_at(p),
{
    assert forall|p: u32| #[trigger] l1.volume_at(p) <= l0.volume_at(p) by {
        if l1.has_price(p) {
            let i = l1.index_of(p);
            let q = l0.queues@[a];
            let oi = if q.len() == 1 && i >= a { i + 1 } else { i };
            assert(l0.entries@[oi].0 == p);
            assert(l0.has_price(p));
            let j = l0.index_of(p);
            if j != oi {
                if j < oi {
                    assert(l0.entries@[j].0 < l0.entries@[oi].0);
                } else {
                    assert(l0.entries@[oi].0 < l0.entries@[j].0);
                }
            }
            if q.len() != 1 && i == a {
                let nq = q.remove(b);
                assert(l1.queues@[a] == nq);
                assert(queue_wf(l1.queues@[a], l1.entries@[a].0, l1.entries@[a].1, side, d1));
                assert(queue_wf(q, l0.entries@[a].0, l0.entries@[a].1, side, d0));
                assert forall|k: int| 0 <= k < nq.len() implies d1[#[trigger] nq[k] as int].remaining == d0[nq[k] as int].remaining by {
                    assert(nq[k] == (if k < b { q[k] } else { q[k + 1] }));
                }
                lemma_sum_frame(d1, d0, nq);
                lemma_sum_remove(d0, q, b);
            }
        }
    }
}

/// `b1` is `b0` with resting record `idx` taken off its place in the
/// FIFO of its level on `side`; the other side is untouched.
pub open spec fn removed_from(b0: OrderBook, b1: OrderBook, idx: u32, side: u8) -> bool {
    &&& exists|a: int, b: int| 0 <= a < b0.ladder(side).queues@.len() && 0 <= b < b0.ladder(side).queues@[a].len()
        && #[trigger] b0.ladder(side).queues@[a][b] == idx
        && removed_at(b0.ladder(side), b1.ladder(side), a, b)
    &&& (side == 0 ==> b1.asks == b0.asks)
    &&& (side != 0 ==> b1.bids == b0.bids)
}

/// No level of `b1` holds more volume than the level at the same price and
/// side of `b0`.
pub open spec fn volumes_within(b1: OrderBook, b0: OrderBook) -> bool {
    forall|s: u8, p: u32| #[trigger] b1.ladder(s).volume_at(p) <= b0.ladder(s).volume_at(p)
}

/// `a` and `b` agree on everything but their FIFO links.
pub open spec fn same_but_links(a: Order, b: Order) -> bool {
    a == (Order { next: a.next, prev: a.prev, ..b })
}

impl PriceLadder {
    /// Every record on this side is allocated in `pool`.
    pub open spec fn all_allocated(&self, pool: &OrderPool) -> bool {
        forall|a: int, b: int| 0 <= a < self.queues@.len() && 0 <= b < self.queues@[a].len() ==> pool.is_allocated(#[trigger] self.queues@[a][b])
    }

    /// Index of the level at `price`.
    pub open spec fn index_of(&self, price: u32) -> int {
        choose|i: int| 0 <= i < self.entries@.len() && self.entries@[i].0 == price
    }

    /// The level at `price` exists.
    pub open spec fn has_price(&self, price: u32) -> bool {
        exists|i: int| 0 <= i < self.entries@.len() && self.entries@[i].0 == price
    }

    /// Total resting volume at `price` (zero when there is no level).
    pub open spec fn volume_at(&self, price: u32) -> int {
        if self.has_price(price) { self.entries@[self.index_of(price)].1.volume as int } else { 0 }
    }

    /// Records held at entry `a` sit at that entry's price.
    pub proof fn lemma_held_price(&self, side: u8, data: Seq<Order>, a: int, b: int)
        requires
            self.wf(side, data),
            0 <= a < self.queues@.len(),
            0 <= b < self.queues@[a].len(),
        ensures
            data[self.queues@[a][b] as int].price == self.entries@[a].0,
            data[self.queues@[a][b] as int].side == side,
    {
        assert(queue_wf(self.queues@[a], self.entries@[a].0, self.entries@[a].1, side, data));
    }

    /// A record is held at one place only.
    pub proof fn lemma_held_unique(&self, side: u8, data: Seq<Order>, a1: int, b1: int, a2: int, b2: int)
        requires
            self.wf(side, data),
            0 <= a1 < self.queues@.len(),
            0 <= b1 < self.queues@[a1].len(),
            0 <= a2 < self.queues@.len(),
            0 <= b2 < self.queues@[a2].len(),
            self.queues@[a1][b1] == self.queues@[a2][b2],
        ensures
            a1 == a2 && b1 == b2,
    {
        self.lemma_held_price(side, data, a1, b1);
        self.lemma_held_price(side, data, a2, b2);
        if a1 != a2 {
            if a1 < a2 {
                assert(self.entries@[a1].0 < self.entries@[a2].0);
            } else {
                assert(self.entries@[a2].0 < self.entries@[a1].0);
            }
        }
        assert(queue_wf(self.queues@[a1], self.entries@[a1].0, self.entries@[a1].1, side, data));
    }

    /// Well-formedness only reads the records this side holds.
    pub proof fn lemma_wf_frame(&self, side: u8, d1: Seq<Order>, d2: Seq<Order>)
        requires
            self.wf(side, d1),
            self.same_records(d1, d2),
        ensures
            self.wf(side, d2),
    {
        assert forall|i: int| 0 <= i < self.entries@.len() implies queue_wf(#[trigger] self.queues@[i], self.entries@[i].0, self.entries@[i].1, side, d2) by {
            let q = self.queues@[i];
            assert(queue_wf(q, self.entries@[i].0, self.entries@[i].1, side, d1));
            assert forall|k: int| 0 <= k < q.len() implies d1[#[trigger] q[k] as int].remaining == d2[q[k] as int].remaining by {
                assert(d1[self.queues@[i][k] as int] == d2[self.queues@[i][k] as int]);
            }
            lemma_sum_frame(d1, d2, q);
            assert forall|k: int| 0 <= k < q.len() implies #[trigger] d2[q[k] as int] == d1[q[k] as int] by {
                assert(d1[self.queues@[i][k] as int] == d2[self.queues@[i][k] as int]);
            }
        }
    }

    #[verifier::rlimit(40)]
    fn append_to_level(&mut self, i: usize, idx: u32, pool: &mut OrderPool, side: u8)
        requires
            old(pool).wf(),
            old(self).wf(side, old(pool).data@),
            old(self).all_allocated(old(pool)),
            old(pool).is_allocated(idx),
            !old(self).holds(idx),
            old(pool).data@[idx as int].side == side,
            old(pool).data@[idx as int].remaining > 0,
            old(pool).data@[idx as int].next == NULL_ORDER,
            old(pool).data@[idx as int].prev == NULL_ORDER,
            i < old(self).entries@.len(),
            old(self).entries@[i as int].0 == old(pool).data@[idx as int].price,
            old(self).entries@[i as int].1.volume + old(pool).data@[idx as int].remaining <= u32::MAX,
        ensures
            final(pool).wf(),
            final(self).wf(side, final(pool).data@),
            final(self).all_allocated(final(pool)),
            final(pool).free_list@ == old(pool).free_list@,
            final(pool).free_head == old(pool).free_head,
            final(pool).allocated_count == old(pool).allocated_count,
            final(pool).data@.len() == old(pool).data@.len(),
            forall|j: int| 0 <= j < old(pool).data@.len() ==> same_but_links(#[trigger] final(pool).data@[j], old(pool).data@[j]),
            forall|j: int| 0 <= j < old(pool).data@.len() && j != idx && !old(self).holds(j as u32) ==> #[trigger] final(pool).data@[j] == old(pool).data@[j],
            ({
                let price = old(pool).data@[idx as int].price;
                let rem = old(pool).data@[idx as int].remaining;
                let l = old(self).entries@[i as int].1;
                &&& final(self).entries@ == old(self).entries@.update(i as int, (price, PriceLevel {
                    head: l.head,
                    tail: idx,
                    volume: (l.volume + rem) as u32,
                    order_count: (l.order_count + 1) as u32,
                }))
                &&& final(self).queues@ == old(self).queues@.update(i as int, old(self).queues@[i as int].push(idx))
            }),
    {
        let ghost d0 = pool.data@;
        let price = pool.data[idx as usize].price;
        let remaining = pool.data[idx as usize].remaining;
            let ghost q = self.queues@[i as int];
            proof {
                assert(self.has_price(price));
                let j = self.index_of(price);
                if j != i as int {
                    if j < i { assert(self.entries@[j].0 < self.entries@[i as int].0); }
                    else { assert(self.entries@[i as int].0 < self.entries@[j].0); }
                }
                assert(queue_wf(q, price, self.entries@[i as int].1, side, d0));
                lemma_slot_list_len(q);
                assert(self.queues@[i as int][q.len() - 1] == q.last());
            }
            let level = self.entries[i].1;
            let tail = level.tail;
            let mut t = pool.data[tail as usize];
            t.next = idx;
            pool.set_order(tail, t);
            let mut o = pool.data[idx as usize];
            o.prev = tail;
            pool.set_order(idx, o);
            let new_level = PriceLevel {
                head: level.head,
                tail: idx,
                volume: level.volume + remaining,
                order_count: level.order_count + 1,
            };
            self.entries.set(i, (price, new_level));
            self.queues = Ghost(self.queues@.update(i as int, q.push(idx)));
            proof {
                let d1 = pool.data@;
                let nq = q.push(idx);
                assert(!q.contains(idx)) by {
                    if q.contains(idx) {
                        let b = choose|b: int| 0 <= b < q.len() && q[b] == idx;
                        assert(old(self).queues@[i as int][b] == idx);
                    }
                }
                assert(tail != idx);
                assert forall|k: int| 0 <= k < q.len() implies d0[#[trigger] q[k] as int].remaining == d1[q[k] as int].remaining by {}
                lemma_sum_frame(d0, d1, q);
                assert(nq.drop_last() =~= q);
                assert(queue_wf(nq, price, new_level, side, d1)) by {
                    assert forall|k: int| 0 <= k < nq.len() implies {
                        let o = #[trigger] d1[nq[k] as int];
                        &&& o.side == side
                        &&& o.price == price
                        &&& o.remaining > 0
                        &&& o.next == (if k + 1 < nq.len() { nq[k + 1] } else { NULL_ORDER })
                        &&& o.prev == (if k > 0 { nq[k - 1] } else { NULL_ORDER })
                    } by {
                        if k < q.len() {
                            assert(nq[k] == q[k]);
                            if k + 1 < q.len() { assert(nq[k + 1] == q[k + 1]); }
                            if k > 0 { assert(nq[k - 1] == q[k - 1]); }
                            if q[k] == tail { assert(k == q.len() - 1); }
                        } else {
                            assert(nq[k - 1] == q.last());
                        }
                    }
                    assert forall|a: int, b: int| 0 <= a < nq.len() && 0 <= b < nq.len() && a != b implies nq[a] != nq[b] by {
                        if a < q.len() && b < q.len() {
                            assert(q[a] != q[b]);
                        } else if a < q.len() {
                            assert(q.contains(q[a]));
                        } else if b < q.len() {
                            assert(q.contains(q[b]));
                        }
                    }
                }
                assert forall|x: int| 0 <= x < self.entries@.len() && x != i implies queue_wf(#[trigger] self.queues@[x], self.entries@[x].0, self.entries@[x].1, side, d1) by {
                    let qx = self.queues@[x];
                    assert(qx == old(self).queues@[x]);
                    assert(queue_wf(qx, self.entries@[x].0, self.entries@[x].1, side, d0));
                    assert forall|k: int| 0 <= k < qx.len() implies #[trigger] d1[qx[k] as int] == d0[qx[k] as int] by {
                        old(self).lemma_held_price(side, d0, x, k);
                        old(self).lemma_held_price(side, d0, i as int, q.len() - 1);
                        assert(old(self).queues@[x][k] == qx[k]);
                    }
                    assert forall|k: int| 0 <= k < qx.len() implies d0[#[trigger] qx[k] as int].remaining == d1[qx[k] as int].remaining by {
                        assert(d1[qx[k] as int] == d0[qx[k] as int]);
                    }
                    lemma_sum_frame(d0, d1, qx);
                }
                assert forall|a: int, b: int| 0 <= a < self.queues@.len() && 0 <= b < self.queues@[a].len() implies pool.is_allocated(#[trigger] self.queues@[a][b]) by {
                    if a == i as int && b == q.len() {
                    } else {
                        assert(self.queues@[a][b] == old(self).queues@[a][b]);
                    }
                }
                assert forall|j: int| 0 <= j < d0.len() && j != idx && !old(self).holds(j as u32) implies #[trigger] d1[j] == d0[j] by {
                    if j == tail {
                        assert(old(self).queues@[i as int][q.len() - 1] == tail);
                    }
                }
            }
    }

    #[verifier::rlimit(40)]
    fn insert_level(&mut self, i: usize, idx: u32, pool: &OrderPool, side: u8)
        requires
            pool.data@.len() == MAX_ORDERS,
            old(self).wf(side, pool.data@),
            old(self).all_allocated(pool),
            pool.is_allocated(idx),
            pool.data@[idx as int].side == side,
            pool.data@[idx as int].remaining > 0,
            pool.data@[idx as int].next == NULL_ORDER,
            pool.data@[idx as int].prev == NULL_ORDER,
            i <= old(self).entries@.len(),
            forall|k: int| 0 <= k < i ==> #[trigger] old(self).entries@[k].0 < pool.data@[idx as int].price,
            forall|k: int| i <= k < old(self).entries@.len() ==> #[trigger] old(self).entries@[k].0 > pool.data@[idx as int].price,
        ensures
            final(self).wf(side, pool.data@),
            final(self).all_allocated(pool),
            ({
                let price = pool.data@[idx as int].price;
                let rem = pool.data@[idx as int].remaining;
                &&& final(self).entries@ == old(self).entries@.insert(i as int, (price, PriceLevel { head: idx, tail: idx, volume: rem, order_count: 1 }))
                &&& final(self).queues@ == old(self).queues@.insert(i as int, seq![idx])
            }),
    {
        let ghost d0 = pool.data@;
        let price = pool.data[idx as usize].price;
        let remaining = pool.data[idx as usize].remaining;
        let level = PriceLevel { head: idx, tail: idx, volume: remaining, order_count: 1 };
        self.entries.insert(i, (price, level));
        self.queues = Ghost(self.queues@.insert(i as int, seq![idx]));
        proof {
            let nq = seq![idx];
            assert(nq.drop_last() =~= Seq::<u32>::empty());
            assert(sum_remaining(d0, nq.drop_last()) == 0);
            assert(queue_wf(nq, price, level, side, d0));
            assert forall|x: int| 0 <= x < self.entries@.len() implies queue_wf(#[trigger] self.queues@[x], self.entries@[x].0, self.entries@[x].1, side, d0) by {
                if x < i {
                    assert(self.queues@[x] == old(self).queues@[x]);
                    assert(self.entries@[x] == old(self).entries@[x]);
                } else if x > i {
                    assert(self.queues@[x] == old(self).queues@[x - 1]);
                    assert(self.entries@[x] == old(self).entries@[x - 1]);
                }
            }
            assert forall|a: int, b: int| 0 <= a < self.queues@.len() && 0 <= b < self.queues@[a].len() implies pool.is_allocated(#[trigger] self.queues@[a][b]) by {
                if a < i {
                    assert(self.queues@[a] == old(self).queues@[a]);
                } else if a > i {
                    assert(self.queues@[a] == old(self).queues@[a - 1]);
                }
            }
            assert forall|a: int, b: int| 0 <= a < b < self.entries@.len() implies #[trigger] self.entries@[a].0 < #[trigger] self.entries@[b].0 by {
                if a < i && b < i {
                    assert(old(self).entries@[a].0 < old(self).entries@[b].0);
                } else if a < i && b == i {
                    assert(old(self).entries@[a].0 < price);
                } else if a < i {
                    assert(old(self).entries@[a].0 < price);
                    assert(old(self).entries@[b - 1].0 > price);
                } else if a == i {
                    assert(old(self).entries@[b - 1].0 > price);
                } else {
                    assert(old(self).entries@[a - 1].0 < old(self).entries@[b - 1].0);
                }
            }
        }
    }

    /// Appends allocated record `idx` to the tail of the level at its price,
    /// creating the level if needed.
    pub fn append_order(&mut self, idx: u32, pool: &mut OrderPool, side: u8)
        requires
            old(pool).wf(),
            old(self).wf(side, old(pool).data@),
            old(self).all_allocated(old(pool)),
            old(pool).is_allocated(idx),
            !old(self).holds(idx),
            old(pool).data@[idx as int].side == side,
            old(pool).data@[idx as int].remaining > 0,
            old(pool).data@[idx as int].next == NULL_ORDER,
            old(pool).data@[idx as int].prev == NULL_ORDER,
            old(self).volume_at(old(pool).data@[idx as int].price) + old(pool).data@[idx as int].remaining <= u32::MAX,
        ensures
            final(pool).wf(),
            final(self).wf(side, final(pool).data@),
            final(self).all_allocated(final(pool)),
            final(pool).free_list@ == old(pool).free_list@,
            final(pool).free_head == old(pool).free_head,
            final(pool).allocated_count == old(pool).allocated_count,
            final(pool).data@.len() == old(pool).data@.len(),
            forall|j: int| 0 <= j < old(pool).data@.len() ==> same_but_links(#[trigger] final(pool).data@[j], old(pool).data@[j]),
            forall|j: int| 0 <= j < old(pool).data@.len() && j != idx && !old(self).holds(j as u32) ==> #[trigger] final(pool).data@[j] == old(pool).data@[j],
            appended(old(self), final(self), idx, old(pool).data@[idx as int].price, old(pool).data@[idx as int].remaining),
    {
        let price = pool.data[idx as usize].price;
        match self.position(price) {
            Ok(i) => {
                proof {
                    assert(self.has_price(price));
                    let j = self.index_of(price);
                    if j != i as int {
                        if j < i { assert(self.entries@[j].0 < self.entries@[i as int].0); }
                        else { assert(self.entries@[i as int].0 < self.entries@[j].0); }
                    }
                }
                self.append_to_level(i, idx, pool, side);
            },
            Err(i) => {
                proof {
                    assert(!self.has_price(price)) by {
                        if self.has_price(price) {
                            let j = choose|j: int| 0 <= j < self.entries@.len() && self.entries@[j].0 == price;
                            if j < i { } else { }
                        }
                    }
                }
                self.insert_level(i, idx, pool, side);
                proof {
                    assert(self.entries@ == old(self).entries@.insert(i as int, (price, PriceLevel { head: idx, tail: idx, volume: pool.data@[idx as int].remaining, order_count: 1 })));
                    assert(appended(old(self), self, idx, price, pool.data@[idx as int].remaining));
                }
            },
        }
    }
}


impl PriceLadder {
    /// Unlinks record `idx`, held at entry `a` position `b`, drops the level
    /// when it empties, and frees the record.
    #[verifier::rlimit(60)]
    pub fn remove_held(&mut self, a: usize, Ghost(b): Ghost<int>, idx: u32, pool: &mut OrderPool, side: u8)
        requires
            old(pool).wf(),
            old(self).wf(side, old(pool).data@),
            old(self).all_allocated(old(pool)),
            a < old(self).queues@.len(),
            0 <= b < old(self).queues@[a as int].len(),
            old(self).queues@[a as int][b] == idx,
        ensures
            final(pool).wf(),
            final(self).wf(side, final(pool).data@),
            final(self).all_allocated(final(pool)),
            final(pool).free_list@ == seq![idx] + old(pool).free_list@,
            final(pool).allocated_count == old(pool).allocated_count - 1,
            final(pool).data@.len() == old(pool).data@.len(),
            forall|j: int| 0 <= j < old(pool).data@.len() ==> same_but_links(#[trigger] final(pool).data@[j], old(pool).data@[j]),
            forall|j: int| 0 <= j < old(pool).data@.len() && !old(self).holds(j as u32) ==> #[trigger] final(pool).data@[j] == old(pool).data@[j],
            removed_at(old(self), final(self), a as int, b),
    {
        let ghost d0 = pool.data@;
        let ghost q = self.queues@[a as int];
        let ghost e0 = self.entries@;
        let ghost qs0 = self.queues@;
        proof {
            assert(queue_wf(q, self.entries@[a as int].0, self.entries@[a as int].1, side, d0));
            if b > 0 { assert(qs0[a as int][b - 1] == q[b - 1]); }
            if b + 1 < q.len() { assert(qs0[a as int][b + 1] == q[b + 1]); }
        }
        let (prev, next) = unlink(pool, idx, Ghost(q), Ghost(b));
        let remaining = pool.data[idx as usize].remaining;
        let price = self.entries[a].0;
        let level = self.entries[a].1;
        let mut new_level = level;
        if prev == NULL_ORDER {
            new_level.head = next;
        }
        if next == NULL_ORDER {
            new_level.tail = prev;
        }
        new_level.volume = level.volume.saturating_sub(remaining);
        new_level.order_count = level.order_count.saturating_sub(1);
        let ghost d1 = pool.data@;
        let ghost nq = q.remove(b);
        proof {
            lemma_sum_remove(d0, q, b);
            lemma_sum_nonneg(d0, nq);
            // records on other levels are untouched
            assert forall|x: int, k: int| 0 <= x < qs0.len() && x != a && 0 <= k < qs0[x].len()
                implies #[trigger] d1[qs0[x][k] as int] == d0[qs0[x][k] as int] by {
                old(self).lemma_held_price(side, d0, x, k);
                old(self).lemma_held_price(side, d0, a as int, b);
                if b > 0 { old(self).lemma_held_price(side, d0, a as int, b - 1); }
                if b + 1 < q.len() { old(self).lemma_held_price(side, d0, a as int, b + 1); }
                if x < a { assert(e0[x].0 < e0[a as int].0); } else { assert(e0[a as int].0 < e0[x].0); }
            }
        }
        if new_level.head == NULL_ORDER || new_level.order_count == 0 {
            self.entries.remove(a);
            self.queues = Ghost(self.queues@.remove(a as int));
            proof {
                lemma_ladder_drop(e0, qs0, a as int, side, d0, d1);
            }
        } else {
            self.entries.set(a, (price, new_level));
            self.queues = Ghost(self.queues@.update(a as int, nq));
            proof {
                lemma_queue_after_unlink(q, b, price, level, new_level, side, d0, d1);
                lemma_ladder_replace(e0, qs0, a as int, new_level, nq, side, d0, d1);
            }
        }
        let ghost e1 = self.entries@;
        let ghost qs1 = self.queues@;
        pool.deallocate(idx);
        proof {
            let d2 = pool.data@;
            assert forall|k: int| 0 <= k < nq.len() implies #[trigger] nq[k] != idx by {
                if k < b { assert(q[k] != q[b]); } else { assert(q[k + 1] != q[b]); }
            }
            // idx no longer rests anywhere, so freeing it leaves the ladder intact
            assert forall|x: int, k: int| 0 <= x < qs1.len() && 0 <= k < qs1[x].len()
                implies #[trigger] qs1[x][k] != idx && old(self).holds(qs1[x][k]) by {
                let ox = if q.len() == 1 && x >= a { x + 1 } else { x };
                if ox == a && q.len() > 1 {
                    let kk = if k < b { k } else { k + 1 };
                    assert(qs1[x][k] == nq[k]);
                    assert(nq[k] == q[kk]);
                    assert(qs0[a as int][kk] == q[kk]);
                } else {
                    assert(qs1[x][k] == qs0[ox][k]);
                    old(self).lemma_held_price(side, d0, ox, k);
                    old(self).lemma_held_price(side, d0, a as int, b);
                    if ox < a { assert(e0[ox].0 < e0[a as int].0); } else { assert(e0[a as int].0 < e0[ox].0); }
                }
            }
            assert forall|x: int| 0 <= x < e1.len() implies queue_wf(#[trigger] qs1[x], e1[x].0, e1[x].1, side, d2) by {
                assert(queue_wf(qs1[x], e1[x].0, e1[x].1, side, d1));
                assert forall|k: int| 0 <= k < qs1[x].len() implies #[trigger] d2[qs1[x][k] as int] == d1[qs1[x][k] as int] by {
                    assert(qs1[x][k] != idx);
                }
                lemma_queue_frame(qs1[x], e1[x].0, e1[x].1, side, d1, d2, qs1, x);
            }
            assert forall|x: int, k: int| 0 <= x < qs1.len() && 0 <= k < qs1[x].len() implies pool.is_allocated(#[trigger] qs1[x][k]) by {
                let (ox, kk) = choose|ox: int, kk: int| 0 <= ox < qs0.len() && 0 <= kk < qs0[ox].len() && #[trigger] qs0[ox][kk] == qs1[x][k];
                assert(old(pool).is_allocated(qs0[ox][kk]));
                assert(qs1[x][k] != idx);
                assert(!(seq![idx] + old(pool).free_list@).contains(qs1[x][k]));
            }
            assert forall|j: int| 0 <= j < d0.len() && !old(self).holds(j as u32) implies #[trigger] d2[j] == d0[j] by {
                if j == prev && b > 0 { assert(qs0[a as int][b - 1] == prev); }
                if j == next && b + 1 < q.len() { assert(qs0[a as int][b + 1] == next); }
                if j == idx { assert(qs0[a as int][b] == idx); }
            }
        }
    }
}

/// Links `idx`'s FIFO neighbours to each other; returns them.
fn unlink(pool: &mut OrderPool, idx: u32, Ghost(q): Ghost<Seq<u32>>, Ghost(b): Ghost<int>) -> (r: (u32, u32))
    requires
        old(pool).wf(),
        0 <= b < q.len(),
        q[b] == idx,
        q.no_duplicates(),
        forall|k: int| 0 <= k < q.len() ==> old(pool).is_allocated(#[trigger] q[k]),
        forall|k: int| 0 <= k < q.len() ==> {
            let o = #[trigger] old(pool).data@[q[k] as int];
            &&& o.next == (if k + 1 < q.len() { q[k + 1] } else { NULL_ORDER })
            &&& o.prev == (if k > 0 { q[k - 1] } else { NULL_ORDER })
        },
    ensures
        final(pool).wf(),
        final(pool).free_list@ == old(pool).free_list@,
        final(pool).allocated_count == old(pool).allocated_count,
        final(pool).data@.len() == old(pool).data@.len(),
        r.0 == (if b > 0 { q[b - 1] } else { NULL_ORDER }),
        r.1 == (if b + 1 < q.len() { q[b + 1] } else { NULL_ORDER }),
        forall|j: int| 0 <= j < old(pool).data@.len() ==> same_but_links(#[trigger] final(pool).data@[j], old(pool).data@[j]),
        forall|j: int| 0 <= j < old(pool).data@.len() && !(r.0 != NULL_ORDER && j == r.0) && !(r.1 != NULL_ORDER && j == r.1) ==> #[trigger] final(pool).data@[j] == old(pool).data@[j],
        b > 0 ==> final(pool).data@[q[b - 1] as int].next == r.1,
        b + 1 < q.len() ==> final(pool).data@[q[b + 1] as int].prev == r.0,
        b > 0 ==> final(pool).data@[q[b - 1] as int].prev == old(pool).data@[q[b - 1] as int].prev,
        b + 1 < q.len() ==> final(pool).data@[q[b + 1] as int].next == old(pool).data@[q[b + 1] as int].next,
{
    proof {
        assert(q[b] == idx);
    }
    let prev = pool.data[idx as usize].prev;
    let next = pool.data[idx as usize].next;
    proof {
        if b > 0 && b + 1 < q.len() { assert(q[b - 1] != q[b + 1]); }
    }
    if prev != NULL_ORDER {
        let mut p = pool.data[prev as usize];
        p.next = next;
        pool.set_order(prev, p);
    }
    if next != NULL_ORDER {
        let mut n = pool.data[next as usize];
        n.prev = prev;
        pool.set_order(next, n);
    }
    (prev, next)
}

/// After unlinking position `b`, the shortened FIFO is well formed with the
/// level summary recomputed.
#[verifier::rlimit(40)]
proof fn lemma_queue_after_unlink(
    q: Seq<u32>, b: int, price: u32, level: PriceLevel, new_level: PriceLevel, side: u8,
    d0: Seq<Order>, d1: Seq<Order>,
)
    requires
        queue_wf(q, price, level, side, d0),
        q.len() > 1,
        0 <= b < q.len(),
        new_level.head == (if b == 0 { q[1] } else { q[0] }),
        new_level.tail == (if b == q.len() - 1 { q[b - 1] } else { q.last() }),
        new_level.volume == level.volume - d0[q[b] as int].remaining,
        new_level.order_count == level.order_count - 1,
        forall|k: int| 0 <= k < q.len() ==> same_but_links(#[trigger] d1[q[k] as int], d0[q[k] as int]),
        forall|k: int| 0 <= k < q.len() && k != b - 1 && k != b + 1 ==> #[trigger] d1[q[k] as int] == d0[q[k] as int],
        b > 0 ==> d1[q[b - 1] as int].next == (if b + 1 < q.len() { q[b + 1] } else { NULL_ORDER }),
        b + 1 < q.len() ==> d1[q[b + 1] as int].prev == (if b > 0 { q[b - 1] } else { NULL_ORDER }),
        b > 0 ==> d1[q[b - 1] as int].prev == d0[q[b - 1] as int].prev,
        b + 1 < q.len() ==> d1[q[b + 1] as int].next == d0[q[b + 1] as int].next,
    ensures
        queue_wf(q.remove(b), price, new_level, side, d1),
{
    let nq = q.remove(b);
    lemma_sum_remove(d0, q, b);
    assert forall|k: int| 0 <= k < nq.len() implies d0[#[trigger] nq[k] as int].remaining == d1[nq[k] as int].remaining by {
        let kk = if k < b { k } else { k + 1 };
        assert(nq[k] == q[kk]);
        assert(same_but_links(d1[q[kk] as int], d0[q[kk] as int]));
    }
    lemma_sum_frame(d0, d1, nq);
    assert forall|k: int| 0 <= k < nq.len() implies {
        let r = #[trigger] d1[nq[k] as int];
        &&& r.side == side
        &&& r.price == price
        &&& r.remaining > 0
        &&& r.next == (if k + 1 < nq.len() { nq[k + 1] } else { NULL_ORDER })
        &&& r.prev == (if k > 0 { nq[k - 1] } else { NULL_ORDER })
    } by {
        let kk = if k < b { k } else { k + 1 };
        assert(nq[k] == q[kk]);
        assert(same_but_links(d1[q[kk] as int], d0[q[kk] as int]));
        if k + 1 < nq.len() {
            let kn = if k + 1 < b { k + 1 } else { k + 2 };
            assert(nq[k + 1] == q[kn]);
        }
        if k > 0 {
            let kp = if k - 1 < b { k - 1 } else { k };
            assert(nq[k - 1] == q[kp]);
        }
    }
    lemma_remove_no_dup(q, b);
    if b == 0 { assert(nq[0] == q[1]); } else { assert(nq[0] == q[0]); }
    if b == q.len() - 1 { assert(nq.last() == q[b - 1]); } else { assert(nq.last() == q.last()); }
}

pub proof fn lemma_remove_no_dup(q: Seq<u32>, b: int)
    requires
        q.no_duplicates(),
        0 <= b < q.len(),
    ensures
        q.remove(b).no_duplicates(),
        forall|k: int| 0 <= k < q.len() - 1 ==> #[trigger] q.remove(b)[k] != q[b],
{
    let nq = q.remove(b);
    assert forall|x: int, y: int| 0 <= x < nq.len() && 0 <= y < nq.len() && x != y implies nq[x] != nq[y] by {
        let xx = if x < b { x } else { x + 1 };
        let yy = if y < b { y } else { y + 1 };
        assert(q[xx] != q[yy]);
    }
    assert forall|k: int| 0 <= k < q.len() - 1 implies #[trigger] nq[k] != q[b] by {
        let kk = if k < b { k } else { k + 1 };
        assert(q[kk] != q[b]);
    }
}


/// Central limit order book for exactly one instrument.
///
/// Client identity is unique within the book by `(account_id,
/// client_order_id)`. FIFO at a price level is canonical exchange sequence
/// order: `insert_limit` appends to the tail, so the single-writer matcher
/// must receive accepted commands in ascending sequence order.
pub struct OrderBook {
    /// Buy levels, lowest price first.
    pub bids: PriceLadder,
    /// Sell levels, lowest price first.
    pub asks: PriceLadder,
    /// Resting record of each `(account_id, client_order_id)`.
    pub order_map: BTreeMap<(u32, u64), u32>,
}

/// Key under which a record is looked up.
pub open spec fn order_key(o: Order) -> (u32, u64) {
    (o.account_id, o.client_order_id)
}

impl OrderBook {
    /// The ladder of `side` (0 = bids, otherwise asks).
    pub open spec fn ladder(&self, side: u8) -> &PriceLadder {
        if side == 0 { &self.bids } else { &self.asks }
    }

    /// `idx` rests in this book.
    pub open spec fn holds(&self, idx: u32) -> bool {
        self.bids.holds(idx) || self.asks.holds(idx)
    }

    pub open spec fn map_wf(&self, data: Seq<Order>) -> bool {
        forall|k: (u32, u64)| #[trigger] self.order_map@.contains_key(k) ==> {
            let i = self.order_map@[k];
            &&& self.holds(i)
            &&& order_key(data[i as int]) == k
        }
    }

    pub open spec fn wf(&self, pool: &OrderPool) -> bool {
        &&& self.bids.wf(0, pool.data@)
        &&& self.asks.wf(1, pool.data@)
        &&& self.bids.all_allocated(pool)
        &&& self.asks.all_allocated(pool)
        &&& self.map_wf(pool.data@)
    }

    pub fn new() -> (r: OrderBook)
        ensures
            r.bids.entries@.len() == 0,
            r.bids.queues@.len() == 0,
            r.asks.entries@.len() == 0,
            r.asks.queues@.len() == 0,
            r.order_map@ == Map::<(u32, u64), u32>::empty(),
            forall|pool: &OrderPool| #[trigger] r.wf(pool),
    {
        OrderBook { bids: PriceLadder::new(), asks: PriceLadder::new(), order_map: BTreeMap::new() }
    }

    pub fn contains_order(&self, account_id: u32, client_order_id: ClientOrderId) -> (r: bool)
        ensures
            r == self.order_map@.contains_key((account_id, client_order_id.0)),
    {
        self.order_map.contains_key(&(account_id, client_order_id.0))
    }

    /// Rests allocated record `idx` at the tail of its price level on its
    /// side and indexes it by client identity.
    pub fn insert_limit(&mut self, idx: u32, pool: &mut OrderPool)
        requires
            old(pool).wf(),
            old(self).wf(old(pool)),
            old(pool).is_allocated(idx),
            !old(self).holds(idx),
            old(pool).data@[idx as int].side <= 1,
            old(pool).data@[idx as int].remaining > 0,
            old(pool).data@[idx as int].next == NULL_ORDER,
            old(pool).data@[idx as int].prev == NULL_ORDER,
            old(self).ladder(old(pool).data@[idx as int].side).volume_at(old(pool).data@[idx as int].price)
                + old(pool).data@[idx as int].remaining <= u32::MAX,
        ensures
            final(pool).wf(),
            final(self).wf(final(pool)),
            final(pool).free_list@ == old(pool).free_list@,
            final(pool).allocated_count == old(pool).allocated_count,
            forall|j: int| 0 <= j < old(pool).data@.len() ==> same_but_links(#[trigger] final(pool).data@[j], old(pool).data@[j]),
            forall|j: int| 0 <= j < old(pool).data@.len() && j != idx && !old(self).holds(j as u32) ==> #[trigger] final(pool).data@[j] == old(pool).data@[j],
            final(self).order_map@ == old(self).order_map@.insert(order_key(old(pool).data@[idx as int]), idx),
            ({
                let o = old(pool).data@[idx as int];
                if o.side == 0 {
                    &&& appended(&old(self).bids, &final(self).bids, idx, o.price, o.remaining)
                    &&& final(self).asks == old(self).asks
                } else {
                    &&& appended(&old(self).asks, &final(self).asks, idx, o.price, o.remaining)
                    &&& final(self).bids == old(self).bids
                }
            }),
    {
        let ghost d0 = pool.data@;
        let side = pool.data[idx as usize].side;
        let key = (pool.data[idx as usize].account_id, pool.data[idx as usize].client_order_id);
        if side == 0 {
            proof { assert(!self.bids.holds(idx)); }
            self.bids.append_order(idx, pool, 0);
            proof {
                assert(self.asks.same_records(d0, pool.data@)) by {
                    assert forall|a: int, b: int| 0 <= a < self.asks.queues@.len() && 0 <= b < self.asks.queues@[a].len()
                        implies d0[#[trigger] self.asks.queues@[a][b] as int] == pool.data@[self.asks.queues@[a][b] as int] by {
                        self.asks.lemma_held_price(1, d0, a, b);
                        let j = self.asks.queues@[a][b];
                        if old(self).bids.holds(j) {
                            let (x, y) = choose|x: int, y: int| 0 <= x < old(self).bids.queues@.len() && 0 <= y < old(self).bids.queues@[x].len() && #[trigger] old(self).bids.queues@[x][y] == j;
                            old(self).bids.lemma_held_price(0, d0, x, y);
                        }
                    }
                }
                self.asks.lemma_wf_frame(1, d0, pool.data@);
                assert forall|i: u32| #[trigger] self.asks.holds(i) implies pool.is_allocated(i) by {}
            }
        } else {
            proof { assert(!self.asks.holds(idx)); }
            self.asks.append_order(idx, pool, 1);
            proof {
                assert(self.bids.same_records(d0, pool.data@)) by {
                    assert forall|a: int, b: int| 0 <= a < self.bids.queues@.len() && 0 <= b < self.bids.queues@[a].len()
                        implies d0[#[trigger] self.bids.queues@[a][b] as int] == pool.data@[self.bids.queues@[a][b] as int] by {
                        self.bids.lemma_held_price(0, d0, a, b);
                        let j = self.bids.queues@[a][b];
                        if old(self).asks.holds(j) {
                            let (x, y) = choose|x: int, y: int| 0 <= x < old(self).asks.queues@.len() && 0 <= y < old(self).asks.queues@[x].len() && #[trigger] old(self).asks.queues@[x][y] == j;
                            old(self).asks.lemma_held_price(1, d0, x, y);
                        }
                    }
                }
                self.bids.lemma_wf_frame(0, d0, pool.data@);
            }
        }
        self.order_map.insert(key, idx);
        proof {
            let d1 = pool.data@;
            assert(self.holds(idx)) by {
                if side == 0 {
                    lemma_appended_holds(&old(self).bids, &self.bids, idx, d0[idx as int].price, d0[idx as int].remaining);
                } else {
                    lemma_appended_holds(&old(self).asks, &self.asks, idx, d0[idx as int].price, d0[idx as int].remaining);
                }
            }
            assert forall|k: (u32, u64)| #[trigger] self.order_map@.contains_key(k) implies {
                let i = self.order_map@[k];
                &&& self.holds(i)
                &&& order_key(d1[i as int]) == k
            } by {
                if k != key {
                    let i = old(self).order_map@[k];
                    assert(self.order_map@[k] == i);
                    if side == 0 && old(self).bids.holds(i) {
                        lemma_appended_keeps(&old(self).bids, &self.bids, idx, d0[idx as int].price, d0[idx as int].remaining, i);
                    } else if side != 0 && old(self).asks.holds(i) {
                        lemma_appended_keeps(&old(self).asks, &self.asks, idx, d0[idx as int].price, d0[idx as int].remaining, i);
                    }
                    assert(same_but_links(d1[i as int], d0[i as int]));
                }
            }
        }
    }
}

/// The appended record rests on the new ladder.
pub proof fn lemma_appended_holds(old: &PriceLadder, new: &PriceLadder, idx: u32, price: u32, rem: u32)
    requires
        old.entries@.len() == old.queues@.len(),
        appended(old, new, idx, price, rem),
    ensures
        new.holds(idx),
{
    if old.has_price(price) {
        let i = old.index_of(price);
        assert(new.queues@[i][old.queues@[i].len() as int] == idx);
    } else {
        let i = choose|i: int| 0 <= i <= old.entries@.len()
            && new.entries@ == old.entries@.insert(i, (price, PriceLevel { head: idx, tail: idx, volume: rem, order_count: 1 }))
            && new.queues@ == old.queues@.insert(i, seq![idx]);
        assert(new.queues@[i][0] == idx);
    }
}

/// Appending keeps every record that already rested.
pub proof fn lemma_appended_keeps(old: &PriceLadder, new: &PriceLadder, idx: u32, price: u32, rem: u32, j: u32)
    requires
        old.entries@.len() == old.queues@.len(),
        appended(old, new, idx, price, rem),
        old.holds(j),
    ensures
        new.holds(j),
{
    let (a, b) = choose|a: int, b: int| 0 <= a < old.queues@.len() && 0 <= b < old.queues@[a].len() && #[trigger] old.queues@[a][b] == j;
    if old.has_price(price) {
        let i = old.index_of(price);
        if a == i {
            assert(new.queues@[a][b] == j);
        } else {
            assert(new.queues@[a][b] == j);
        }
    } else {
        let i = choose|i: int| 0 <= i <= old.entries@.len()
            && new.entries@ == old.entries@.insert(i, (price, PriceLevel { head: idx, tail: idx, volume: rem, order_count: 1 }))
            && new.queues@ == old.queues@.insert(i, seq![idx]);
        if a < i {
            assert(new.queues@[a][b] == j);
        } else {
            assert(new.queues@[a + 1][b] == j);
        }
    }
}


/// Appending adds no record but `idx`.
pub proof fn lemma_appended_only(old: &PriceLadder, new: &PriceLadder, idx: u32, price: u32, rem: u32, j: u32)
    requires
        old.entries@.len() == old.queues@.len(),
        appended(old, new, idx, price, rem),
        new.holds(j),
    ensures
        old.holds(j) || j == idx,
{
    let (a, b) = choose|a: int, b: int| 0 <= a < new.queues@.len() && 0 <= b < new.queues@[a].len() && #[trigger] new.queues@[a][b] == j;
    if old.has_price(price) {
        let i = old.index_of(price);
        if a != i || b < old.queues@[a].len() {
            assert(old.queues@[a][b] == j);
        }
    } else {
        let i = choose|i: int| 0 <= i <= old.entries@.len()
            && new.entries@ == old.entries@.insert(i, (price, PriceLevel { head: idx, tail: idx, volume: rem, order_count: 1 }))
            && new.queues@ == old.queues@.insert(i, seq![idx]);
        if a < i {
            assert(old.queues@[a][b] == j);
        } else if a > i {
            assert(old.queues@[a - 1][b] == j);
        }
    }
}

/// Removing keeps every other record that rested.
pub proof fn lemma_removed_keeps(old: &PriceLadder, new: &PriceLadder, a: int, b: int, j: u32)
    requires
        old.entries@.len() == old.queues@.len(),
        0 <= a < old.queues@.len(),
        0 <= b < old.queues@[a].len(),
        old.queues@[a].no_duplicates(),
        removed_at(old, new, a, b),
        old.holds(j),
        old.queues@[a][b] != j,
    ensures
        new.holds(j),
{
    let (x, y) = choose|x: int, y: int| 0 <= x < old.queues@.len() && 0 <= y < old.queues@[x].len() && #[trigger] old.queues@[x][y] == j;
    let q = old.queues@[a];
    if x == a {
        assert(q.len() > 1);
        let yy = if y < b { y } else { y - 1 };
        assert(y != b);
        assert(new.queues@[a][yy] == q.remove(b)[yy]);
    } else if q.len() == 1 {
        if x < a { assert(new.queues@[x][y] == j); } else { assert(new.queues@[x - 1][y] == j); }
    } else {
        assert(new.queues@[x][y] == j);
    }
}

/// Removing a record means it no longer rests, given it rested once.
pub proof fn lemma_removed_gone(old: &PriceLadder, new: &PriceLadder, side: u8, data: Seq<Order>, a: int, b: int)
    requires
        old.wf(side, data),
        0 <= a < old.queues@.len(),
        0 <= b < old.queues@[a].len(),
        removed_at(old, new, a, b),
    ensures
        !new.holds(old.queues@[a][b]),
        forall|j: u32| #[trigger] new.holds(j) ==> old.holds(j),
{
    let idx = old.queues@[a][b];
    let q = old.queues@[a];
    assert(queue_wf(q, old.entries@[a].0, old.entries@[a].1, side, data));
    assert forall|j: u32| #[trigger] new.holds(j) implies old.holds(j) && j != idx by {
        let (x, y) = choose|x: int, y: int| 0 <= x < new.queues@.len() && 0 <= y < new.queues@[x].len() && #[trigger] new.queues@[x][y] == j;
        if q.len() == 1 {
            let ox = if x >= a { x + 1 } else { x };
            assert(old.queues@[ox][y] == j);
            if ox != a && j == idx {
                old.lemma_held_unique(side, data, ox, y, a, b);
            }
        } else if x == a {
            let yy = if y < b { y } else { y + 1 };
            assert(old.queues@[a][yy] == j);
            assert(q[yy] != q[b]);
        } else {
            assert(old.queues@[x][y] == j);
            if j == idx { old.lemma_held_unique(side, data, x, y, a, b); }
        }
    }
}

impl OrderBook {
    /// Unlinks resting record `idx`, drops its level if it empties, forgets
    /// its client identity and frees the record.
    pub fn remove_order(&mut self, idx: u32, pool: &mut OrderPool)
        requires
            old(pool).wf(),
            old(self).wf(old(pool)),
            old(self).holds(idx),
        ensures
            final(pool).wf(),
            final(self).wf(final(pool)),
            final(pool).free_list@ == seq![idx] + old(pool).free_list@,
            final(pool).allocated_count == old(pool).allocated_count - 1,
            forall|j: int| 0 <= j < old(pool).data@.len() ==> same_but_links(#[trigger] final(pool).data@[j], old(pool).data@[j]),
            forall|j: int| 0 <= j < old(pool).data@.len() && !old(self).holds(j as u32) ==> #[trigger] final(pool).data@[j] == old(pool).data@[j],
            final(self).order_map@ == old(self).order_map@.remove(order_key(old(pool).data@[idx as int])),
            !final(self).holds(idx),
            forall|j: u32| #[trigger] final(self).holds(j) <==> old(self).holds(j) && j != idx,
            volumes_within(*final(self), *old(self)),
            removed_from(*old(self), *final(self), idx, old(pool).data@[idx as int].side),
            ({
                let side = old(pool).data@[idx as int].side;
                exists|a: int, b: int| 0 <= a < old(self).ladder(side).queues@.len() && 0 <= b < old(self).ladder(side).queues@[a].len()
                    && old(self).ladder(side).queues@[a][b] == idx
                    && removed_at(old(self).ladder(side), final(self).ladder(side), a, b)
                    && (side == 0 ==> final(self).asks == old(self).asks)
                    && (side != 0 ==> final(self).bids == old(self).bids)
            }),
    {
        let ghost d0 = pool.data@;
        let side = pool.data[idx as usize].side;
        let price = pool.data[idx as usize].price;
        let key = (pool.data[idx as usize].account_id, pool.data[idx as usize].client_order_id);
        let ghost (a0, b0) = if side == 0 {
            choose|a: int, b: int| 0 <= a < self.bids.queues@.len() && 0 <= b < self.bids.queues@[a].len() && #[trigger] self.bids.queues@[a][b] == idx
        } else {
            choose|a: int, b: int| 0 <= a < self.asks.queues@.len() && 0 <= b < self.asks.queues@[a].len() && #[trigger] self.asks.queues@[a][b] == idx
        };
        proof {
            if side == 0 {
                if !self.bids.holds(idx) {
                    let (x, y) = choose|x: int, y: int| 0 <= x < self.asks.queues@.len() && 0 <= y < self.asks.queues@[x].len() && #[trigger] self.asks.queues@[x][y] == idx;
                    self.asks.lemma_held_price(1, d0, x, y);
                }
            } else {
                if !self.asks.holds(idx) {
                    let (x, y) = choose|x: int, y: int| 0 <= x < self.bids.queues@.len() && 0 <= y < self.bids.queues@[x].len() && #[trigger] self.bids.queues@[x][y] == idx;
                    self.bids.lemma_held_price(0, d0, x, y);
                }
            }
        }
        if side == 0 {
            proof {
                if self.asks.holds(idx) {
                    let (x, y) = choose|x: int, y: int| 0 <= x < self.asks.queues@.len() && 0 <= y < self.asks.queues@[x].len() && #[trigger] self.asks.queues@[x][y] == idx;
                    self.asks.lemma_held_price(1, d0, x, y);
                }
                self.bids.lemma_held_price(0, d0, a0, b0);
            }
            let a = match self.bids.position(price) {
                Ok(a) => a,
                Err(i) => {
                    proof {
                        if a0 < i { } else { }
                    }
                    0
                },
            };
            proof {
                if a as int != a0 {
                    if a < a0 { assert(self.bids.entries@[a as int].0 < self.bids.entries@[a0].0); }
                    else { assert(self.bids.entries@[a0].0 < self.bids.entries@[a as int].0); }
                }
            }
            self.bids.remove_held(a, Ghost(b0), idx, pool, 0);
            proof {
                lemma_removed_gone(&old(self).bids, &self.bids, 0, d0, a0, b0);
                assert(self.asks.same_records(d0, pool.data@)) by {
                    assert forall|x: int, y: int| 0 <= x < self.asks.queues@.len() && 0 <= y < self.asks.queues@[x].len()
                        implies d0[#[trigger] self.asks.queues@[x][y] as int] == pool.data@[self.asks.queues@[x][y] as int] by {
                        self.asks.lemma_held_price(1, d0, x, y);
                        let j = self.asks.queues@[x][y];
                        if old(self).bids.holds(j) {
                            let (u, v) = choose|u: int, v: int| 0 <= u < old(self).bids.queues@.len() && 0 <= v < old(self).bids.queues@[u].len() && #[trigger] old(self).bids.queues@[u][v] == j;
                            old(self).bids.lemma_held_price(0, d0, u, v);
                        }
                    }
                }
                self.asks.lemma_wf_frame(1, d0, pool.data@);
                assert forall|x: int, y: int| 0 <= x < self.asks.queues@.len() && 0 <= y < self.asks.queues@[x].len()
                    implies pool.is_allocated(#[trigger] self.asks.queues@[x][y]) by {
                    assert(old(pool).is_allocated(self.asks.queues@[x][y]));
                    self.asks.lemma_held_price(1, d0, x, y);
                    assert(self.asks.queues@[x][y] != idx);
                    assert(!(seq![idx] + old(pool).free_list@).contains(self.asks.queues@[x][y]));
                }
            }
        } else {
            proof {
                if self.bids.holds(idx) {
                    let (x, y) = choose|x: int, y: int| 0 <= x < self.bids.queues@.len() && 0 <= y < self.bids.queues@[x].len() && #[trigger] self.bids.queues@[x][y] == idx;
                    self.bids.lemma_held_price(0, d0, x, y);
                }
                self.asks.lemma_held_price(1, d0, a0, b0);
            }
            let a = match self.asks.position(price) {
                Ok(a) => a,
                Err(i) => {
                    proof {
                        if a0 < i { } else { }
                    }
                    0
                },
            };
            proof {
                if a as int != a0 {
                    if a < a0 { assert(self.asks.entries@[a as int].0 < self.asks.entries@[a0].0); }
                    else { assert(self.asks.entries@[a0].0 < self.asks.entries@[a as int].0); }
                }
            }
            self.asks.remove_held(a, Ghost(b0), idx, pool, 1);
            proof {
                lemma_removed_gone(&old(self).asks, &self.asks, 1, d0, a0, b0);
                assert(self.bids.same_records(d0, pool.data@)) by {
                    assert forall|x: int, y: int| 0 <= x < self.bids.queues@.len() && 0 <= y < self.bids.queues@[x].len()
                        implies d0[#[trigger] self.bids.queues@[x][y] as int] == pool.data@[self.bids.queues@[x][y] as int] by {
                        self.bids.lemma_held_price(0, d0, x, y);
                        let j = self.bids.queues@[x][y];
                        if old(self).asks.holds(j) {
                            let (u, v) = choose|u: int, v: int| 0 <= u < old(self).asks.queues@.len() && 0 <= v < old(self).asks.queues@[u].len() && #[trigger] old(self).asks.queues@[u][v] == j;
                            old(self).asks.lemma_held_price(1, d0, u, v);
                        }
                    }
                }
                self.bids.lemma_wf_frame(0, d0, pool.data@);
                assert forall|x: int, y: int| 0 <= x < self.bids.queues@.len() && 0 <= y < self.bids.queues@[x].len()
                    implies pool.is_allocated(#[trigger] self.bids.queues@[x][y]) by {
                    assert(old(pool).is_allocated(self.bids.queues@[x][y]));
                    self.bids.lemma_held_price(0, d0, x, y);
                    assert(self.bids.queues@[x][y] != idx);
                    assert(!(seq![idx] + old(pool).free_list@).contains(self.bids.queues@[x][y]));
                }
            }
        }
        self.order_map.remove(&key);
        proof {
            let d1 = pool.data@;
            assert(old(self).ladder(side).queues@[a0][b0] == idx);
            assert(removed_at(old(self).ladder(side), self.ladder(side), a0, b0));
            assert forall|j: int| 0 <= j < MAX_ORDERS implies #[trigger] d1[j].remaining == d0[j].remaining by {
                assert(same_but_links(d1[j], d0[j]));
            }
            lemma_removed_volumes(old(self).ladder(side), self.ladder(side), a0, b0, side, d0, d1);
            assert forall|s: u8, p: u32| #[trigger] self.ladder(s).volume_at(p) <= old(self).ladder(s).volume_at(p) by {
                if (s == 0) != (side == 0) {
                    assert(self.ladder(s) == old(self).ladder(s));
                }
            }
            assert forall|j: u32| #[trigger] self.holds(j) <==> old(self).holds(j) && j != idx by {
                if side == 0 {
                    if old(self).bids.holds(j) && j != idx {
                        lemma_removed_keeps(&old(self).bids, &self.bids, a0, b0, j);
                    }
                    if old(self).asks.holds(j) {
                        assert(self.asks.holds(j));
                    }
                } else {
                    if old(self).asks.holds(j) && j != idx {
                        lemma_removed_keeps(&old(self).asks, &self.asks, a0, b0, j);
                    }
                    if old(self).bids.holds(j) {
                        assert(self.bids.holds(j));
                    }
                }
            }
            assert forall|k: (u32, u64)| #[trigger] self.order_map@.contains_key(k) implies {
                let i = self.order_map@[k];
                &&& self.holds(i)
                &&& order_key(d1[i as int]) == k
            } by {
                let i = old(self).order_map@[k];
                assert(i != idx);
                assert(old(self).holds(i));
                assert(same_but_links(d1[i as int], d0[i as int]));
            }
        }
    }
}


impl OrderBook {
    /// Removes the resting order of a client identity; false when the book
    /// has none.
    pub fn remove_order_by_id(&mut self, account_id: u32, client_order_id: ClientOrderId, pool: &mut OrderPool) -> (r: bool)
        requires
            old(pool).wf(),
            old(self).wf(old(pool)),
        ensures
            final(pool).wf(),
            final(self).wf(final(pool)),
            r == old(self).order_map@.contains_key((account_id, client_order_id.0)),
            !r ==> *final(self) == *old(self) && *final(pool) == *old(pool),
            r ==> {
                let idx = old(self).order_map@[(account_id, client_order_id.0)];
                &&& final(pool).free_list@ == seq![idx] + old(pool).free_list@
                &&& final(pool).allocated_count == old(pool).allocated_count - 1
                &&& final(self).order_map@ == old(self).order_map@.remove((account_id, client_order_id.0))
                &&& forall|j: u32| #[trigger] final(self).holds(j) <==> old(self).holds(j) && j != idx
                &&& removed_from(*old(self), *final(self), idx, old(pool).data@[idx as int].side)
            },
            volumes_within(*final(self), *old(self)),
            forall|j: int| 0 <= j < old(pool).data@.len() ==> same_but_links(#[trigger] final(pool).data@[j], old(pool).data@[j]),
            forall|j: int| 0 <= j < old(pool).data@.len() && !old(self).holds(j as u32) ==> #[trigger] final(pool).data@[j] == old(pool).data@[j],
    {
        let key = (account_id, client_order_id.0);
        let idx = match self.order_map.get(&key) {
            Some(i) => *i,
            None => return false,
        };
        self.remove_order(idx, pool);
        true
    }

    /// Cancels the resting order of a client identity; false when the book
    /// has none.
    pub fn cancel_order(&mut self, account_id: u32, client_order_id: ClientOrderId, pool: &mut OrderPool) -> (r: bool)
        requires
            old(pool).wf(),
            old(self).wf(old(pool)),
        ensures
            final(pool).wf(),
            final(self).wf(final(pool)),
            r == old(self).order_map@.contains_key((account_id, client_order_id.0)),
            !r ==> *final(self) == *old(self) && *final(pool) == *old(pool),
            r ==> {
                let idx = old(self).order_map@[(account_id, client_order_id.0)];
                &&& final(pool).free_list@ == seq![idx] + old(pool).free_list@
                &&& final(pool).allocated_count == old(pool).allocated_count - 1
                &&& final(self).order_map@ == old(self).order_map@.remove((account_id, client_order_id.0))
                &&& forall|j: u32| #[trigger] final(self).holds(j) <==> old(self).holds(j) && j != idx
                &&& removed_from(*old(self), *final(self), idx, old(pool).data@[idx as int].side)
            },
            volumes_within(*final(self), *old(self)),
            forall|j: int| 0 <= j < old(pool).data@.len() ==> same_but_links(#[trigger] final(pool).data@[j], old(pool).data@[j]),
            forall|j: int| 0 <= j < old(pool).data@.len() && !old(self).holds(j as u32) ==> #[trigger] final(pool).data@[j] == old(pool).data@[j],
    {
        self.remove_order_by_id(account_id, client_order_id, pool)
    }

    /// Highest bid price.
    pub fn best_bid(&self) -> (r: Option<u32>)
        ensures
            r == (if self.bids.entries@.len() == 0 { None } else { Some(self.bids.entries@.last().0) }),
    {
        self.bids.last_price()
    }

    /// Lowest ask price.
    pub fn best_ask(&self) -> (r: Option<u32>)
        ensures
            r == (if self.asks.entries@.len() == 0 { None } else { Some(self.asks.entries@[0].0) }),
    {
        self.asks.first_price()
    }

    /// Oldest record at the highest bid.
    pub fn best_bid_head(&self) -> (r: Option<u32>)
        ensures
            r == (if self.bids.entries@.len() == 0 { None } else { Some(self.bids.entries@.last().1.head) }),
    {
        let n = self.bids.entries.len();
        if n == 0 {
            None
        } else {
            Some(self.bids.entries[n - 1].1.head)
        }
    }

    /// Oldest record at the lowest ask.
    pub fn best_ask_head(&self) -> (r: Option<u32>)
        ensures
            r == (if self.asks.entries@.len() == 0 { None } else { Some(self.asks.entries@[0].1.head) }),
    {
        if self.asks.entries.len() == 0 {
            None
        } else {
            Some(self.asks.entries[0].1.head)
        }
    }

    /// Number of bid and ask levels.
    pub fn total_levels(&self) -> (r: (usize, usize))
        ensures
            r == (self.bids.entries@.len() as usize, self.asks.entries@.len() as usize),
    {
        (self.bids.entries.len(), self.asks.entries.len())
    }
}


/// Records of all levels, level by level from the first.
pub open spec fn flatten(qs: Seq<Seq<u32>>) -> Seq<u32>
    decreases qs.len(),
{
    if qs.len() == 0 {
        Seq::empty()
    } else {
        qs[0] + flatten(qs.drop_first())
    }
}

/// Records of all levels, level by level from the last.
pub open spec fn flatten_rev(qs: Seq<Seq<u32>>) -> Seq<u32>
    decreases qs.len(),
{
    if qs.len() == 0 {
        Seq::empty()
    } else {
        qs.last() + flatten_rev(qs.drop_last())
    }
}

impl OrderBook {
    /// Resting sell records in execution priority: price, then time.
    pub open spec fn ask_priority(&self) -> Seq<u32> {
        flatten(self.asks.queues@)
    }

    /// Resting buy records in execution priority: price, then time.
    pub open spec fn bid_priority(&self) -> Seq<u32> {
        flatten_rev(self.bids.queues@)
    }
}

/// Taking the first record of the first level drops the first element.
pub proof fn lemma_flatten_pop_front(qs: Seq<Seq<u32>>, nqs: Seq<Seq<u32>>)
    requires
        qs.len() > 0,
        qs[0].len() > 0,
        (qs[0].len() == 1 && nqs == qs.remove(0)) || (qs[0].len() > 1 && nqs == qs.update(0, qs[0].remove(0))),
    ensures
        flatten(qs).len() > 0,
        flatten(qs)[0] == qs[0][0],
        flatten(nqs) == flatten(qs).drop_first(),
{
    assert(flatten(qs) == qs[0] + flatten(qs.drop_first()));
    if qs[0].len() == 1 {
        assert(nqs =~= qs.drop_first());
        assert(flatten(qs).drop_first() =~= flatten(qs.drop_first()));
    } else {
        assert(nqs.drop_first() =~= qs.drop_first());
        assert(flatten(nqs) == nqs[0] + flatten(nqs.drop_first()));
        assert(flatten(qs).drop_first() =~= qs[0].remove(0) + flatten(qs.drop_first()));
    }
}

/// Taking the first record of the last level drops the first element.
pub proof fn lemma_flatten_rev_pop_front(qs: Seq<Seq<u32>>, nqs: Seq<Seq<u32>>)
    requires
        qs.len() > 0,
        qs.last().len() > 0,
        (qs.last().len() == 1 && nqs == qs.remove(qs.len() - 1))
            || (qs.last().len() > 1 && nqs == qs.update(qs.len() - 1, qs.last().remove(0))),
    ensures
        flatten_rev(qs).len() > 0,
        flatten_rev(qs)[0] == qs.last()[0],
        flatten_rev(nqs) == flatten_rev(qs).drop_first(),
{
    assert(flatten_rev(qs) == qs.last() + flatten_rev(qs.drop_last()));
    if qs.last().len() == 1 {
        assert(nqs =~= qs.drop_last());
        assert(flatten_rev(qs).drop_first() =~= flatten_rev(qs.drop_last()));
    } else {
        assert(nqs.drop_last() =~= qs.drop_last());
        assert(flatten_rev(nqs) == nqs.last() + flatten_rev(nqs.drop_last()));
        assert(flatten_rev(qs).drop_first() =~= qs.last().remove(0) + flatten_rev(qs.drop_last()));
    }
}

/// Every element of the flattening sits in some level.
pub proof fn lemma_flatten_member(qs: Seq<Seq<u32>>, k: int)
    requires
        0 <= k < flatten(qs).len(),
    ensures
        exists|a: int, b: int| 0 <= a < qs.len() && 0 <= b < qs[a].len() && #[trigger] qs[a][b] == flatten(qs)[k],
    decreases qs.len(),
{
    assert(flatten(qs) == qs[0] + flatten(qs.drop_first()));
    if k < qs[0].len() {
        assert(qs[0][k] == flatten(qs)[k]);
    } else {
        lemma_flatten_member(qs.drop_first(), k - qs[0].len());
        let (a, b) = choose|a: int, b: int| 0 <= a < qs.drop_first().len() && 0 <= b < qs.drop_first()[a].len()
            && #[trigger] qs.drop_first()[a][b] == flatten(qs.drop_first())[k - qs[0].len()];
        assert(qs[a + 1][b] == flatten(qs)[k]);
    }
}

/// Every element of the reverse flattening sits in some level.
pub proof fn lemma_flatten_rev_member(qs: Seq<Seq<u32>>, k: int)
    requires
        0 <= k < flatten_rev(qs).len(),
    ensures
        exists|a: int, b: int| 0 <= a < qs.len() && 0 <= b < qs[a].len() && #[trigger] qs[a][b] == flatten_rev(qs)[k],
    decreases qs.len(),
{
    assert(flatten_rev(qs) == qs.last() + flatten_rev(qs.drop_last()));
    if k < qs.last().len() {
        assert(qs[qs.len() - 1][k] == flatten_rev(qs)[k]);
    } else {
        lemma_flatten_rev_member(qs.drop_last(), k - qs.last().len());
        let (a, b) = choose|a: int, b: int| 0 <= a < qs.drop_last().len() && 0 <= b < qs.drop_last()[a].len()
            && #[trigger] qs.drop_last()[a][b] == flatten_rev(qs.drop_last())[k - qs.last().len()];
        assert(qs[a][b] == flatten_rev(qs)[k]);
    }
}

impl PriceLadder {
    /// Takes `fill` off the oldest record of level `a`, which keeps some
    /// quantity, and off the level's volume.
    pub fn reduce_head(&mut self, a: usize, fill: u32, pool: &mut OrderPool, side: u8)
        requires
            old(pool).wf(),
            old(self).wf(side, old(pool).data@),
            old(self).all_allocated(old(pool)),
            a < old(self).entries@.len(),
            fill < old(pool).data@[old(self).queues@[a as int][0] as int].remaining,
        ensures
            final(pool).wf(),
            final(self).wf(side, final(pool).data@),
            final(self).all_allocated(final(pool)),
            final(pool).free_list@ == old(pool).free_list@,
            final(pool).allocated_count == old(pool).allocated_count,
            final(self).queues@ == old(self).queues@,
            final(self).entries@.len() == old(self).entries@.len(),
            forall|x: int| 0 <= x < old(self).entries@.len() ==> (#[trigger] final(self).entries@[x]).0 == old(self).entries@[x].0,
            ({
                let h = old(self).queues@[a as int][0];
                final(pool).data@ == old(pool).data@.update(h as int, Order {
                    remaining: (old(pool).data@[h as int].remaining - fill) as u32,
                    ..old(pool).data@[h as int]
                })
            }),
    {
        let ghost d0 = pool.data@;
        let ghost q = self.queues@[a as int];
        proof {
            assert(queue_wf(q, self.entries@[a as int].0, self.entries@[a as int].1, side, d0));
            assert(self.queues@[a as int][0] == q[0]);
            lemma_sum_first(d0, q);
            lemma_sum_nonneg(d0, q.drop_first());
        }
        let price = self.entries[a].0;
        let level = self.entries[a].1;
        let h = level.head;
        let mut o = pool.data[h as usize];
        o.remaining = o.remaining - fill;
        pool.set_order(h, o);
        let new_level = PriceLevel { volume: level.volume.saturating_sub(fill), ..level };
        self.entries.set(a, (price, new_level));
        proof {
            let d1 = pool.data@;
            assert(q.drop_first().len() == q.len() - 1);
            assert forall|k: int| 0 <= k < q.drop_first().len() implies d0[#[trigger] q.drop_first()[k] as int].remaining == d1[q.drop_first()[k] as int].remaining by {
                assert(q.drop_first()[k] == q[k + 1]);
                assert(q[k + 1] != q[0]);
            }
            lemma_sum_frame(d0, d1, q.drop_first());
            lemma_sum_first(d1, q);
            assert(queue_wf(q, price, new_level, side, d1)) by {
                assert forall|k: int| 0 <= k < q.len() implies {
                    let r = #[trigger] d1[q[k] as int];
                    &&& r.side == side
                    &&& r.price == price
                    &&& r.remaining > 0
                    &&& r.next == (if k + 1 < q.len() { q[k + 1] } else { NULL_ORDER })
                    &&& r.prev == (if k > 0 { q[k - 1] } else { NULL_ORDER })
                } by {
                    if k != 0 { assert(q[k] != q[0]); }
                }
            }
            assert forall|x: int, k: int| 0 <= x < self.queues@.len() && x != a && 0 <= k < self.queues@[x].len()
                implies #[trigger] d1[self.queues@[x][k] as int] == d0[self.queues@[x][k] as int] by {
                old(self).lemma_held_price(side, d0, x, k);
                old(self).lemma_held_price(side, d0, a as int, 0);
                if x < a { assert(self.entries@[x].0 < self.entries@[a as int].0); }
                else { assert(self.entries@[a as int].0 < self.entries@[x].0); }
            }
            lemma_ladder_replace(old(self).entries@, old(self).queues@, a as int, new_level, q, side, d0, d1);
            assert(old(self).queues@.update(a as int, q) =~= old(self).queues@);
            assert(self.entries@ =~= old(self).entries@.update(a as int, (old(self).entries@[a as int].0, new_level)));
        }
    }
}


/// Dropping the first level keeps a ladder well formed.
pub proof fn lemma_ladder_drop_first(e: Seq<(u32, PriceLevel)>, qs: Seq<Seq<u32>>, side: u8, data: Seq<Order>)
    requires
        ladder_wf(e, qs, side, data),
        e.len() > 0,
    ensures
        ladder_wf(e.drop_first(), qs.drop_first(), side, data),
{
    assert forall|x: int| 0 <= x < e.drop_first().len() implies queue_wf(#[trigger] qs.drop_first()[x], e.drop_first()[x].0, e.drop_first()[x].1, side, data) by {
        assert(queue_wf(qs[x + 1], e[x + 1].0, e[x + 1].1, side, data));
    }
    assert forall|i: int, j: int| 0 <= i < j < e.drop_first().len() implies #[trigger] e.drop_first()[i].0 < #[trigger] e.drop_first()[j].0 by {
        assert(e[i + 1].0 < e[j + 1].0);
    }
}

/// Dropping the last level keeps a ladder well formed.
pub proof fn lemma_ladder_drop_last(e: Seq<(u32, PriceLevel)>, qs: Seq<Seq<u32>>, side: u8, data: Seq<Order>)
    requires
        ladder_wf(e, qs, side, data),
        e.len() > 0,
    ensures
        ladder_wf(e.drop_last(), qs.drop_last(), side, data),
{
    assert forall|x: int| 0 <= x < e.drop_last().len() implies queue_wf(#[trigger] qs.drop_last()[x], e.drop_last()[x].0, e.drop_last()[x].1, side, data) by {
        assert(queue_wf(qs[x], e[x].0, e[x].1, side, data));
    }
    assert forall|i: int, j: int| 0 <= i < j < e.drop_last().len() implies #[trigger] e.drop_last()[i].0 < #[trigger] e.drop_last()[j].0 by {
        assert(e[i].0 < e[j].0);
    }
}

/// The flattening of a well-formed ladder names each record once, and
/// every record it names sits at a level price not below the first's.
pub proof fn lemma_flatten_no_dup(e: Seq<(u32, PriceLevel)>, qs: Seq<Seq<u32>>, side: u8, data: Seq<Order>)
    requires
        ladder_wf(e, qs, side, data),
    ensures
        flatten(qs).no_duplicates(),
        e.len() > 0 ==> forall|k: int| 0 <= k < flatten(qs).len() ==> data[#[trigger] flatten(qs)[k] as int].price >= e[0].0,
    decreases qs.len(),
{
    if qs.len() > 0 {
        let f = flatten(qs);
        let rest = flatten(qs.drop_first());
        assert(f == qs[0] + rest);
        lemma_ladder_drop_first(e, qs, side, data);
        lemma_flatten_no_dup(e.drop_first(), qs.drop_first(), side, data);
        assert(queue_wf(qs[0], e[0].0, e[0].1, side, data));
        assert forall|k: int| 0 <= k < rest.len() implies data[#[trigger] rest[k] as int].price > e[0].0 by {
            lemma_flatten_member(qs.drop_first(), k);
            let (a, b) = choose|a: int, b: int| 0 <= a < qs.drop_first().len() && 0 <= b < qs.drop_first()[a].len() && #[trigger] qs.drop_first()[a][b] == rest[k];
            assert(queue_wf(qs[a + 1], e[a + 1].0, e[a + 1].1, side, data));
            assert(qs[a + 1][b] == rest[k]);
            assert(e[0].0 < e[a + 1].0);
        }
        assert forall|x: int, y: int| 0 <= x < f.len() && 0 <= y < f.len() && x != y implies f[x] != f[y] by {
            let n0 = qs[0].len() as int;
            if x < n0 && y < n0 {
            } else if x < n0 {
                assert(data[f[y] as int].price > e[0].0);
            } else if y < n0 {
                assert(data[f[x] as int].price > e[0].0);
            } else {
                assert(rest[x - n0] != rest[y - n0]);
            }
        }
        assert forall|k: int| 0 <= k < f.len() implies data[#[trigger] f[k] as int].price >= e[0].0 by {
            if k >= qs[0].len() { assert(data[rest[k - qs[0].len()] as int].price > e[0].0); }
        }
    }
}

/// The reverse flattening of a well-formed ladder names each record once.
pub proof fn lemma_flatten_rev_no_dup(e: Seq<(u32, PriceLevel)>, qs: Seq<Seq<u32>>, side: u8, data: Seq<Order>)
    requires
        ladder_wf(e, qs, side, data),
    ensures
        flatten_rev(qs).no_duplicates(),
        e.len() > 0 ==> forall|k: int| 0 <= k < flatten_rev(qs).len() ==> data[#[trigger] flatten_rev(qs)[k] as int].price <= e.last().0,
    decreases qs.len(),
{
    if qs.len() > 0 {
        let f = flatten_rev(qs);
        let rest = flatten_rev(qs.drop_last());
        let n = qs.len() - 1;
        assert(f == qs.last() + rest);
        lemma_ladder_drop_last(e, qs, side, data);
        lemma_flatten_rev_no_dup(e.drop_last(), qs.drop_last(), side, data);
        assert(queue_wf(qs[n], e[n].0, e[n].1, side, data));
        assert forall|k: int| 0 <= k < rest.len() implies data[#[trigger] rest[k] as int].price < e.last().0 by {
            lemma_flatten_rev_member(qs.drop_last(), k);
            let (a, b) = choose|a: int, b: int| 0 <= a < qs.drop_last().len() && 0 <= b < qs.drop_last()[a].len() && #[trigger] qs.drop_last()[a][b] == rest[k];
            assert(queue_wf(qs[a], e[a].0, e[a].1, side, data));
            assert(qs[a][b] == rest[k]);
            assert(e[a].0 < e[n].0);
        }
        assert forall|x: int, y: int| 0 <= x < f.len() && 0 <= y < f.len() && x != y implies f[x] != f[y] by {
            let n0 = qs.last().len() as int;
            if x < n0 && y < n0 {
                assert(qs[n][x] != qs[n][y]);
            } else if x < n0 {
                assert(data[f[y] as int].price < e.last().0);
                assert(f[x] == qs[n][x]);
            } else if y < n0 {
                assert(data[f[x] as int].price < e.last().0);
                assert(f[y] == qs[n][y]);
            } else {
                assert(rest[x - n0] != rest[y - n0]);
            }
        }
        assert forall|k: int| 0 <= k < f.len() implies data[#[trigger] f[k] as int].price <= e.last().0 by {
            if k >= qs.last().len() { assert(data[rest[k - qs.last().len()] as int].price < e.last().0); }
            else { assert(f[k] == qs[n][k]); }
        }
    }
}


impl OrderBook {
    /// Well-formedness only reads the records the book holds and whether
    /// they are allocated.
    pub proof fn lemma_book_frame(&self, p1: &OrderPool, p2: &OrderPool)
        requires
            self.wf(p1),
            forall|j: u32| #[trigger] self.holds(j) ==> p2.data@[j as int] == p1.data@[j as int] && p2.is_allocated(j),
        ensures
            self.wf(p2),
    {
        assert(self.bids.same_records(p1.data@, p2.data@)) by {
            assert forall|a: int, b: int| 0 <= a < self.bids.queues@.len() && 0 <= b < self.bids.queues@[a].len()
                implies p1.data@[#[trigger] self.bids.queues@[a][b] as int] == p2.data@[self.bids.queues@[a][b] as int] by {
                assert(self.holds(self.bids.queues@[a][b]));
            }
        }
        assert(self.asks.same_records(p1.data@, p2.data@)) by {
            assert forall|a: int, b: int| 0 <= a < self.asks.queues@.len() && 0 <= b < self.asks.queues@[a].len()
                implies p1.data@[#[trigger] self.asks.queues@[a][b] as int] == p2.data@[self.asks.queues@[a][b] as int] by {
                assert(self.holds(self.asks.queues@[a][b]));
            }
        }
        self.bids.lemma_wf_frame(0, p1.data@, p2.data@);
        self.asks.lemma_wf_frame(1, p1.data@, p2.data@);
        assert forall|a: int, b: int| 0 <= a < self.bids.queues@.len() && 0 <= b < self.bids.queues@[a].len()
            implies p2.is_allocated(#[trigger] self.bids.queues@[a][b]) by {
            assert(self.holds(self.bids.queues@[a][b]));
        }
        assert forall|a: int, b: int| 0 <= a < self.asks.queues@.len() && 0 <= b < self.asks.queues@[a].len()
            implies p2.is_allocated(#[trigger] self.asks.queues@[a][b]) by {
            assert(self.holds(self.asks.queues@[a][b]));
        }
        assert forall|k: (u32, u64)| #[trigger] self.order_map@.contains_key(k) implies {
            let i = self.order_map@[k];
            &&& self.holds(i)
            &&& order_key(p2.data@[i as int]) == k
        } by {}
    }

    /// Everything the flattened ask priority names rests in the book.
    pub proof fn lemma_ask_priority_held(&self, pool: &OrderPool)
        requires
            self.wf(pool),
        ensures
            forall|t: int| 0 <= t < self.ask_priority().len() ==> self.holds(#[trigger] self.ask_priority()[t]),
            forall|t: int| 0 <= t < self.ask_priority().len() ==> 1 <= #[trigger] self.ask_priority()[t] < MAX_ORDERS,
    {
        assert forall|t: int| 0 <= t < self.ask_priority().len() implies self.holds(#[trigger] self.ask_priority()[t])
            && 1 <= self.ask_priority()[t] < MAX_ORDERS by {
            lemma_flatten_member(self.asks.queues@, t);
            let (a, b) = choose|a: int, b: int| 0 <= a < self.asks.queues@.len() && 0 <= b < self.asks.queues@[a].len()
                && #[trigger] self.asks.queues@[a][b] == flatten(self.asks.queues@)[t];
            assert(self.asks.holds(self.ask_priority()[t]));
            assert(queue_wf(self.asks.queues@[a], self.asks.entries@[a].0, self.asks.entries@[a].1, 1, pool.data@));
        }
    }

    /// Everything the flattened bid priority names rests in the book.
    pub proof fn lemma_bid_priority_held(&self, pool: &OrderPool)
        requires
            self.wf(pool),
        ensures
            forall|t: int| 0 <= t < self.bid_priority().len() ==> self.holds(#[trigger] self.bid_priority()[t]),
            forall|t: int| 0 <= t < self.bid_priority().len() ==> 1 <= #[trigger] self.bid_priority()[t] < MAX_ORDERS,
    {
        assert forall|t: int| 0 <= t < self.bid_priority().len() implies self.holds(#[trigger] self.bid_priority()[t])
            && 1 <= self.bid_priority()[t] < MAX_ORDERS by {
            lemma_flatten_rev_member(self.bids.queues@, t);
            let (a, b) = choose|a: int, b: int| 0 <= a < self.bids.queues@.len() && 0 <= b < self.bids.queues@[a].len()
                && #[trigger] self.bids.queues@[a][b] == flatten_rev(self.bids.queues@)[t];
            assert(self.bids.holds(self.bid_priority()[t]));
            assert(queue_wf(self.bids.queues@[a], self.bids.entries@[a].0, self.bids.entries@[a].1, 0, pool.data@));
        }
    }
}


impl OrderBook {
    /// Changing a record that the book does not hold keeps it well formed.
    pub proof fn lemma_book_frame_free(&self, d1: Seq<Order>, p2: &OrderPool, h: u32)
        requires
            self.bids.wf(0, d1),
            self.asks.wf(1, d1),
            self.map_wf(d1),
            !self.holds(h),
            h < d1.len(),
            d1.len() == MAX_ORDERS,
            p2.data@ == d1.update(h as int, p2.data@[h as int]),
            forall|j: u32| #[trigger] self.holds(j) ==> p2.is_allocated(j),
        ensures
            self.wf(p2),
    {
        assert(self.bids.same_records(d1, p2.data@)) by {
            assert forall|a: int, b: int| 0 <= a < self.bids.queues@.len() && 0 <= b < self.bids.queues@[a].len()
                implies d1[#[trigger] self.bids.queues@[a][b] as int] == p2.data@[self.bids.queues@[a][b] as int] by {
                assert(queue_wf(self.bids.queues@[a], self.bids.entries@[a].0, self.bids.entries@[a].1, 0, d1));
                assert(self.holds(self.bids.queues@[a][b]));
            }
        }
        assert(self.asks.same_records(d1, p2.data@)) by {
            assert forall|a: int, b: int| 0 <= a < self.asks.queues@.len() && 0 <= b < self.asks.queues@[a].len()
                implies d1[#[trigger] self.asks.queues@[a][b] as int] == p2.data@[self.asks.queues@[a][b] as int] by {
                assert(queue_wf(self.asks.queues@[a], self.asks.entries@[a].0, self.asks.entries@[a].1, 1, d1));
                assert(self.holds(self.asks.queues@[a][b]));
            }
        }
        self.bids.lemma_wf_frame(0, d1, p2.data@);
        self.asks.lemma_wf_frame(1, d1, p2.data@);
        assert forall|a: int, b: int| 0 <= a < self.bids.queues@.len() && 0 <= b < self.bids.queues@[a].len()
            implies p2.is_allocated(#[trigger] self.bids.queues@[a][b]) by {
            assert(self.holds(self.bids.queues@[a][b]));
        }
        assert forall|a: int, b: int| 0 <= a < self.asks.queues@.len() && 0 <= b < self.asks.queues@[a].len()
            implies p2.is_allocated(#[trigger] self.asks.queues@[a][b]) by {
            assert(self.holds(self.asks.queues@[a][b]));
        }
        assert forall|k: (u32, u64)| #[trigger] self.order_map@.contains_key(k) implies {
            let i = self.order_map@[k];
            &&& self.holds(i)
            &&& order_key(p2.data@[i as int]) == k
        } by {
            let i = self.order_map@[k];
            assert(i != h);
        }
    }
}


impl OrderBook {
    /// The client-identity index only reads record identities.
    pub proof fn lemma_map_frame_remaining(&self, d1: Seq<Order>, d2: Seq<Order>)
        requires
            self.map_wf(d1),
            forall|j: u32| #[trigger] self.holds(j) ==> order_key(d2[j as int]) == order_key(d1[j as int]),
        ensures
            self.map_wf(d2),
    {
        assert forall|k: (u32, u64)| #[trigger] self.order_map@.contains_key(k) implies {
            let i = self.order_map@[k];
            &&& self.holds(i)
            &&& order_key(d2[i as int]) == k
        } by {}
    }
}

} // verus!
