//! Replay is deterministic: the state an engine reaches depends on nothing
//! but the state it started from and the commands it replays.
//!
//! Two engines are alike when their books rest the same records at the same
//! places, those records agree on everything but their FIFO links, their
//! free lists agree and so do their registered instruments and sequencing
//! counters. Admitting and processing one command keeps engines alike, and
//! alike engines have equal fingerprints.

use vstd::prelude::*;
use crate::book::{OrderBook, PriceLadder, PriceLevel, same_but_links};
use crate::command::OrderCommand;
use crate::engine::{AcceptedOrder, MatchingEngine, OrderAcceptError, lemma_wf_pool, lemma_wf_book};
use crate::pool::Order;
use crate::replication::accept_effect;
use crate::durable::{replay_step, replay_trace, replayed, replay_fits};
use crate::fingerprint::{spec_fingerprint, books_values, orders_values, order_values, book_entries, sorted_listing, lemma_listing_exists};
use crate::matching::{opposite_priority, fills_of, full_fills, fill_total, keys_of, same_but_state};
use crate::execution::{left_after_match, match_rest_outcome, own_ladder};
use crate::book::{flatten, flatten_rev, lemma_flatten_member, lemma_flatten_rev_member};
use crate::shape::{grouped, lemma_flatten_unique, lemma_flatten_rev_unique, lemma_pos_in_flatten, lemma_pos_in_flatten_rev};

verus! {

/// The prices of a ladder's levels, in ladder order.
pub open spec fn prices_of(e: Seq<(u32, PriceLevel)>) -> Seq<u32> {
    e.map_values(|x: (u32, PriceLevel)| x.0)
}

/// Two ladders have levels at the same prices holding the same records in
/// the same FIFO order.
pub open spec fn same_ladder_shape(l1: PriceLadder, l2: PriceLadder) -> bool {
    &&& l1.queues@ == l2.queues@
    &&& prices_of(l1.entries@) == prices_of(l2.entries@)
}

/// Two books rest the same records at the same places under the same keys.
pub open spec fn same_book_shape(b1: OrderBook, b2: OrderBook) -> bool {
    &&& same_ladder_shape(b1.bids, b2.bids)
    &&& same_ladder_shape(b1.asks, b2.asks)
    &&& b1.order_map@ == b2.order_map@
}

/// The records resting on `l` read the same in `d1` and `d2`, links aside.
#[verifier::opaque]
pub open spec fn rests_alike(l: PriceLadder, d1: Seq<Order>, d2: Seq<Order>) -> bool {
    forall|a: int, k: int| 0 <= a < l.queues@.len() && 0 <= k < l.queues@[a].len()
        ==> same_but_links(d1[#[trigger] l.queues@[a][k] as int], d2[l.queues@[a][k] as int])
}

/// Both sides of `b` rest records that read the same in `d1` and `d2`.
pub open spec fn book_rests_alike(b: OrderBook, d1: Seq<Order>, d2: Seq<Order>) -> bool {
    rests_alike(b.bids, d1, d2) && rests_alike(b.asks, d1, d2)
}

/// `e1` and `e2` are alike: same resting records at the same places, read
/// the same, same free slots in the same order, same registered
/// instruments and same sequencing counters.
pub open spec fn same_state(e1: MatchingEngine, e2: MatchingEngine) -> bool {
    &&& e1.books@.len() == e2.books@.len()
    &&& forall|b: int| 0 <= b < e1.books@.len() ==> same_book_shape(#[trigger] e1.books@[b], e2.books@[b])
    &&& forall|b: int| 0 <= b < e1.books@.len() ==> book_rests_alike(#[trigger] e1.books@[b], e1.pool.data@, e2.pool.data@)
    &&& e1.pool.free_list@ == e2.pool.free_list@
    &&& forall|id: u16| (#[trigger] e1.instruments.lookup(id) is Some) == (e2.instruments.lookup(id) is Some)
    &&& e1.next_sequence_number == e2.next_sequence_number
    &&& e1.next_exchange_order_id == e2.next_exchange_order_id
}

/// Alike engines decide every admission alike.
pub proof fn lemma_admission_same(e1: MatchingEngine, e2: MatchingEngine, c: OrderCommand)
    requires
        e1.wf(),
        e2.wf(),
        same_state(e1, e2),
    ensures
        e1.admission(c) == e2.admission(c),
{
    lemma_wf_pool(e1);
    lemma_wf_pool(e2);
    let iid = crate::engine::command_identity(c).0;
    assert(e1.instruments.lookup(iid) is Some == e2.instruments.lookup(iid) is Some);
    if e1.instruments.lookup(iid) is Some {
        assert(same_book_shape(e1.books@[iid as int], e2.books@[iid as int]));
    }
}

/// A record that rests in some book is `held`.
pub proof fn lemma_rests_held(e: MatchingEngine, b: int, side: u8, a: int, k: int)
    requires
        0 <= b < e.books@.len(),
        0 <= a < e.books@[b].ladder(side).queues@.len(),
        0 <= k < e.books@[b].ladder(side).queues@[a].len(),
    ensures
        e.held(e.books@[b].ladder(side).queues@[a][k]),
{
    let j = e.books@[b].ladder(side).queues@[a][k];
    if side == 0 {
        assert(e.books@[b].bids.holds(j));
    } else {
        assert(e.books@[b].asks.holds(j));
    }
    assert(e.books@[b].holds(j));
}

/// Admitting one command into alike engines leaves them alike, with the
/// same admitted record.
pub proof fn lemma_accept_same(
    e1: MatchingEngine, e2: MatchingEngine, c: OrderCommand, m1: MatchingEngine, m2: MatchingEngine, a: AcceptedOrder,
)
    requires
        e1.wf(),
        e2.wf(),
        same_state(e1, e2),
        e1.admission(c) == Ok::<AcceptedOrder, OrderAcceptError>(a),
        accept_effect(e1, c, m1, a),
        accept_effect(e2, c, m2, a),
    ensures
        same_state(m1, m2),
        m1.pool.data@[a.pool_index as int] == m2.pool.data@[a.pool_index as int],
{
    lemma_wf_pool(e1);
    lemma_wf_pool(m1);
    lemma_wf_pool(e2);
    lemma_wf_pool(m2);
    reveal(rests_alike);
    let idx = a.pool_index;
    assert forall|b: int| 0 <= b < m1.books@.len() implies book_rests_alike(#[trigger] m1.books@[b], m1.pool.data@, m2.pool.data@) by {
        assert(book_rests_alike(e1.books@[b], e1.pool.data@, e2.pool.data@));
        assert(same_book_shape(e1.books@[b], e2.books@[b]));
        assert forall|x: int, k: int| 0 <= x < m1.books@[b].bids.queues@.len() && 0 <= k < m1.books@[b].bids.queues@[x].len()
            implies same_but_links(m1.pool.data@[#[trigger] m1.books@[b].bids.queues@[x][k] as int], m2.pool.data@[m1.books@[b].bids.queues@[x][k] as int]) by {
            lemma_rests_held(m1, b, 0, x, k);
            lemma_rests_held(m2, b, 0, x, k);
            lemma_wf_book(m1, b);
            assert(crate::book::queue_wf(m1.books@[b].bids.queues@[x], m1.books@[b].bids.entries@[x].0, m1.books@[b].bids.entries@[x].1, 0, m1.pool.data@));
            let j = m1.books@[b].bids.queues@[x][k];
            assert(m2.books@[b].bids.queues@[x][k] == j);
            assert(j != idx);
            assert(m1.pool.data@[j as int] == e1.pool.data@[j as int]);
            assert(m2.pool.data@[j as int] == e2.pool.data@[j as int]);
            assert(e1.books@[b].bids.queues@[x][k] == j);
        }
        assert forall|x: int, k: int| 0 <= x < m1.books@[b].asks.queues@.len() && 0 <= k < m1.books@[b].asks.queues@[x].len()
            implies same_but_links(m1.pool.data@[#[trigger] m1.books@[b].asks.queues@[x][k] as int], m2.pool.data@[m1.books@[b].asks.queues@[x][k] as int]) by {
            lemma_rests_held(m1, b, 1, x, k);
            lemma_rests_held(m2, b, 1, x, k);
            lemma_wf_book(m1, b);
            assert(crate::book::queue_wf(m1.books@[b].asks.queues@[x], m1.books@[b].asks.entries@[x].0, m1.books@[b].asks.entries@[x].1, 1, m1.pool.data@));
            let j = m1.books@[b].asks.queues@[x][k];
            assert(m2.books@[b].asks.queues@[x][k] == j);
            assert(j != idx);
            assert(m1.pool.data@[j as int] == e1.pool.data@[j as int]);
            assert(m2.pool.data@[j as int] == e2.pool.data@[j as int]);
            assert(e1.books@[b].asks.queues@[x][k] == j);
        }
    }
}


/// Every record a ladder rests is a record of some held position: a record
/// at a ladder position is held by its book.
pub proof fn lemma_pos_holds(book: OrderBook, side: u8, a: int, k: int)
    requires
        0 <= a < book.ladder(side).queues@.len(),
        0 <= k < book.ladder(side).queues@[a].len(),
    ensures
        book.holds(book.ladder(side).queues@[a][k]),
        book.ladder(side).holds(book.ladder(side).queues@[a][k]),
{
    let j = book.ladder(side).queues@[a][k];
    if side == 0 {
        assert(book.bids.holds(j));
    } else {
        assert(book.asks.holds(j));
    }
}

/// A record a book of a wf engine holds is an allocated slot of its pool.
pub proof fn lemma_held_in_range(e: MatchingEngine, b: int, j: u32)
    requires
        e.wf(),
        0 <= b < e.books@.len(),
        e.books@[b].holds(j),
    ensures
        1 <= j < e.pool.data@.len(),
        e.pool.is_allocated(j),
        e.held(j),
{
    lemma_wf_pool(e);
    lemma_wf_book(e, b);
    crate::engine::lemma_held_allocated(&e.books@[b], &e.pool, j);
}

/// A record a wf engine holds reads alike in alike engines.
pub proof fn lemma_held_alike(e1: MatchingEngine, e2: MatchingEngine, b: int, j: u32)
    requires
        e1.wf(),
        same_state(e1, e2),
        0 <= b < e1.books@.len(),
        e1.books@[b].holds(j),
    ensures
        same_but_links(e1.pool.data@[j as int], e2.pool.data@[j as int]),
        j < e1.pool.data@.len(),
        e2.books@[b].holds(j),
{
    lemma_wf_pool(e1);
    lemma_wf_book(e1, b);
    reveal(rests_alike);
    crate::engine::lemma_held_allocated(&e1.books@[b], &e1.pool, j);
    assert(book_rests_alike(e1.books@[b], e1.pool.data@, e2.pool.data@));
    assert(same_book_shape(e1.books@[b], e2.books@[b]));
    if e1.books@[b].bids.holds(j) {
        let (x, y) = choose|x: int, y: int| 0 <= x < e1.books@[b].bids.queues@.len() && 0 <= y < e1.books@[b].bids.queues@[x].len()
            && #[trigger] e1.books@[b].bids.queues@[x][y] == j;
        assert(e2.books@[b].bids.queues@[x][y] == j);
        assert(e2.books@[b].bids.holds(j));
    } else {
        let (x, y) = choose|x: int, y: int| 0 <= x < e1.books@[b].asks.queues@.len() && 0 <= y < e1.books@[b].asks.queues@[x].len()
            && #[trigger] e1.books@[b].asks.queues@[x][y] == j;
        assert(e2.books@[b].asks.queues@[x][y] == j);
        assert(e2.books@[b].asks.holds(j));
    }
}

/// Alike engines hold the same records.
pub proof fn lemma_held_same(e1: MatchingEngine, e2: MatchingEngine, j: u32)
    requires
        e1.wf(),
        e2.wf(),
        same_state(e1, e2),
    ensures
        e1.held(j) <==> e2.held(j),
{
    if e1.held(j) {
        let b = choose|b: int| 0 <= b < e1.books@.len() && #[trigger] e1.books@[b].holds(j);
        lemma_held_alike(e1, e2, b, j);
    }
    if e2.held(j) {
        let b = choose|b: int| 0 <= b < e2.books@.len() && #[trigger] e2.books@[b].holds(j);
        assert(same_book_shape(e1.books@[b], e2.books@[b]));
        if e2.books@[b].bids.holds(j) {
            let (x, y) = choose|x: int, y: int| 0 <= x < e2.books@[b].bids.queues@.len() && 0 <= y < e2.books@[b].bids.queues@[x].len()
                && #[trigger] e2.books@[b].bids.queues@[x][y] == j;
            assert(e1.books@[b].bids.queues@[x][y] == j);
            assert(e1.books@[b].bids.holds(j));
        } else {
            let (x, y) = choose|x: int, y: int| 0 <= x < e2.books@[b].asks.queues@.len() && 0 <= y < e2.books@[b].asks.queues@[x].len()
                && #[trigger] e2.books@[b].asks.queues@[x][y] == j;
            assert(e1.books@[b].asks.queues@[x][y] == j);
            assert(e1.books@[b].asks.holds(j));
        }
        assert(e1.books@[b].holds(j));
    }
}

/// A book whose records each read, links aside, as they did in a book of
/// an alike engine, reads alike.
#[verifier::spinoff_prover]
#[verifier::rlimit(40)]
pub proof fn lemma_book_carry(
    e1: MatchingEngine, e2: MatchingEngine, b: int, nb1: OrderBook, nb2: OrderBook, n1: Seq<Order>, n2: Seq<Order>,
)
    requires
        e1.wf(),
        same_state(e1, e2),
        0 <= b < e1.books@.len(),
        same_book_shape(nb1, nb2),
        forall|j: u32| #[trigger] nb1.holds(j) ==> e1.books@[b].holds(j),
        forall|j: u32| #[trigger] e1.books@[b].holds(j) ==> same_but_links(n1[j as int], e1.pool.data@[j as int]),
        forall|j: u32| #[trigger] e2.books@[b].holds(j) ==> same_but_links(n2[j as int], e2.pool.data@[j as int]),
    ensures
        book_rests_alike(nb1, n1, n2),
{
    reveal(rests_alike);
    assert forall|x: int, k: int| 0 <= x < nb1.bids.queues@.len() && 0 <= k < nb1.bids.queues@[x].len()
        implies same_but_links(n1[#[trigger] nb1.bids.queues@[x][k] as int], n2[nb1.bids.queues@[x][k] as int]) by {
        let j = nb1.bids.queues@[x][k];
        lemma_pos_holds(nb1, 0, x, k);
        lemma_held_alike(e1, e2, b, j);
    }
    assert forall|x: int, k: int| 0 <= x < nb1.asks.queues@.len() && 0 <= k < nb1.asks.queues@[x].len()
        implies same_but_links(n1[#[trigger] nb1.asks.queues@[x][k] as int], n2[nb1.asks.queues@[x][k] as int]) by {
        let j = nb1.asks.queues@[x][k];
        lemma_pos_holds(nb1, 1, x, k);
        lemma_held_alike(e1, e2, b, j);
    }
}

/// Giving a record back rewrites no other record.
#[verifier::spinoff_prover]
pub proof fn lemma_discarded_data(w: MatchingEngine, f: MatchingEngine, idx: u32)
    requires
        crate::execution::discarded(w, f, idx),
        idx < w.pool.data@.len(),
    ensures
        f.pool.data@.len() == w.pool.data@.len(),
        forall|j: int| 0 <= j < w.pool.data@.len() && j != idx ==> #[trigger] f.pool.data@[j] == w.pool.data@[j],
{
}

/// The ladder of `side` of a wf book is wf for the side its records are on.
pub proof fn lemma_side_ladder_wf(e: MatchingEngine, b: int, side: u8, a: int, k: int)
    requires
        e.wf(),
        0 <= b < e.books@.len(),
        0 <= a < e.books@[b].ladder(side).queues@.len(),
        0 <= k < e.books@[b].ladder(side).queues@[a].len(),
        e.pool.data@[e.books@[b].ladder(side).queues@[a][k] as int].side == side,
    ensures
        e.books@[b].ladder(side).wf(side, e.pool.data@),
        side == 0 || side == 1,
{
    lemma_wf_pool(e);
    lemma_wf_book(e, b);
    if side != 0 {
        e.books@[b].asks.lemma_held_price(1, e.pool.data@, a, k);
    }
}

/// Cancelling one resting order in alike engines leaves them alike.
#[verifier::spinoff_prover]
#[verifier::rlimit(40)]
pub proof fn lemma_cancelled_same(w1: MatchingEngine, w2: MatchingEngine, c1: MatchingEngine, c2: MatchingEngine, iid: u16, key: (u32, u64))
    requires
        w1.wf(),
        w2.wf(),
        same_state(w1, w2),
        iid < w1.books@.len(),
        crate::execution::cancelled(w1, c1, iid, key),
        crate::execution::cancelled(w2, c2, iid, key),
    ensures
        c1.books@.len() == w1.books@.len(),
        c2.books@.len() == w2.books@.len(),
        forall|b: int| 0 <= b < c1.books@.len() ==> same_book_shape(#[trigger] c1.books@[b], c2.books@[b]),
        forall|b: int| 0 <= b < c1.books@.len() ==> book_rests_alike(#[trigger] c1.books@[b], c1.pool.data@, c2.pool.data@),
        forall|b: int, j: u32| 0 <= b < c1.books@.len() && #[trigger] c1.books@[b].holds(j) ==> w1.books@[b].holds(j),
        forall|b: int, j: u32| 0 <= b < c2.books@.len() && #[trigger] c2.books@[b].holds(j) ==> w2.books@[b].holds(j),
        c1.pool.free_list@ == c2.pool.free_list@,
{
    lemma_wf_pool(w1);
    lemma_wf_pool(w2);
    let b0 = w1.books@[iid as int];
    let b0x = w2.books@[iid as int];
    let b1 = c1.books@[iid as int];
    let b1x = c2.books@[iid as int];
    assert(same_book_shape(b0, b0x));
    lemma_wf_book(w1, iid as int);
    let t = b0.order_map@[key];
    assert(b0.order_map@.contains_key(key));
    assert(b0.holds(t));
    lemma_held_alike(w1, w2, iid as int, t);
    let side = w1.pool.data@[t as int].side;
    assert(w2.pool.data@[t as int].side == side);
    let (a1, k1) = choose|a: int, k: int| 0 <= a < b0.ladder(side).queues@.len() && 0 <= k < b0.ladder(side).queues@[a].len()
        && #[trigger] b0.ladder(side).queues@[a][k] == t
        && crate::book::removed_at(b0.ladder(side), b1.ladder(side), a, k);
    let (a2, k2) = choose|a: int, k: int| 0 <= a < b0x.ladder(side).queues@.len() && 0 <= k < b0x.ladder(side).queues@[a].len()
        && #[trigger] b0x.ladder(side).queues@[a][k] == t
        && crate::book::removed_at(b0x.ladder(side), b1x.ladder(side), a, k);
    lemma_side_ladder_wf(w1, iid as int, side, a1, k1);
    assert(b0x.ladder(side).queues@ == b0.ladder(side).queues@);
    b0.ladder(side).lemma_held_unique(side, w1.pool.data@, a1, k1, a2, k2);
    assert(b1.ladder(side).queues@ == b1x.ladder(side).queues@);
    lemma_side_ladder_wf(w2, iid as int, side, a1, k1);
    let o1 = b0.ladder(side).entries@;
    let o2 = b0x.ladder(side).entries@;
    let n1 = b1.ladder(side).entries@;
    let n2 = b1x.ladder(side).entries@;
    assert(prices_of(o1) == prices_of(o2));
    assert(o1.len() == o2.len());
    assert forall|i: int| 0 <= i < o1.len() implies #[trigger] o1[i].0 == o2[i].0 by {
        assert(prices_of(o1)[i] == prices_of(o2)[i]);
    }
    assert(n1.len() == n2.len());
    assert forall|i: int| 0 <= i < n1.len() implies #[trigger] n1[i].0 == n2[i].0 by {
        if b0.ladder(side).queues@[a1].len() == 1 {
            if i < a1 {
                assert(n1[i] == o1[i] && n2[i] == o2[i]);
            } else {
                assert(n1[i] == o1[i + 1] && n2[i] == o2[i + 1]);
            }
        } else {
            if i != a1 {
                assert(n1[i] == o1[i] && n2[i] == o2[i]);
            }
        }
    }
    assert(prices_of(n1) =~= prices_of(n2));
    assert(same_book_shape(b1, b1x));
    assert forall|b: int| 0 <= b < c1.books@.len() implies same_book_shape(#[trigger] c1.books@[b], c2.books@[b]) by {
        if b != iid {
            assert(same_book_shape(w1.books@[b], w2.books@[b]));
        }
    }
    assert forall|b: int, j: u32| 0 <= b < c1.books@.len() && #[trigger] c1.books@[b].holds(j) implies w1.books@[b].holds(j) by {
    }
    assert forall|b: int, j: u32| 0 <= b < c2.books@.len() && #[trigger] c2.books@[b].holds(j) implies w2.books@[b].holds(j) by {
    }
    assert forall|b: int| 0 <= b < c1.books@.len() implies book_rests_alike(#[trigger] c1.books@[b], c1.pool.data@, c2.pool.data@) by {
        assert forall|j: u32| #[trigger] w1.books@[b].holds(j) implies same_but_links(c1.pool.data@[j as int], w1.pool.data@[j as int]) by {
            lemma_held_in_range(w1, b, j);
        }
        assert forall|j: u32| #[trigger] w2.books@[b].holds(j) implies same_but_links(c2.pool.data@[j as int], w2.pool.data@[j as int]) by {
            lemma_held_in_range(w2, b, j);
        }
        assert forall|j: u32| #[trigger] c1.books@[b].holds(j) implies w1.books@[b].holds(j) by {
        }
        lemma_book_carry(w1, w2, b, c1.books@[b], c2.books@[b], c1.pool.data@, c2.pool.data@);
    }
}

/// Giving back, in alike engines, a record that rests nowhere leaves them
/// alike once they are well formed again.
#[verifier::spinoff_prover]
pub proof fn lemma_discard_after(c1: MatchingEngine, c2: MatchingEngine, f1: MatchingEngine, f2: MatchingEngine, idx: u32)
    requires
        same_state(c1, c2),
        f1.wf(),
        f2.wf(),
        idx < c1.pool.data@.len(),
        idx < c2.pool.data@.len(),
        !c1.held(idx),
        crate::execution::discarded(c1, f1, idx),
        crate::execution::discarded(c2, f2, idx),
    ensures
        same_state(f1, f2),
{
    lemma_discarded_data(c1, f1, idx);
    lemma_discarded_data(c2, f2, idx);
    lemma_wf_pool(f1);
    lemma_wf_pool(f2);
    assert forall|b: int| 0 <= b < f1.books@.len() implies book_rests_alike(#[trigger] f1.books@[b], f1.pool.data@, f2.pool.data@) by {
        assert(book_rests_alike(c1.books@[b], c1.pool.data@, c2.pool.data@));
        assert(same_book_shape(c1.books@[b], c2.books@[b]));
        reveal(rests_alike);
        assert forall|x: int, k: int| 0 <= x < f1.books@[b].bids.queues@.len() && 0 <= k < f1.books@[b].bids.queues@[x].len()
            implies same_but_links(f1.pool.data@[#[trigger] f1.books@[b].bids.queues@[x][k] as int], f2.pool.data@[f1.books@[b].bids.queues@[x][k] as int]) by {
            let j = f1.books@[b].bids.queues@[x][k];
            lemma_pos_holds(f1.books@[b], 0, x, k);
            lemma_held_in_range(f1, b, j);
            assert(c1.held(j));
            assert(j != idx);
            assert(c2.books@[b].bids.queues@[x][k] == j);
        }
        assert forall|x: int, k: int| 0 <= x < f1.books@[b].asks.queues@.len() && 0 <= k < f1.books@[b].asks.queues@[x].len()
            implies same_but_links(f1.pool.data@[#[trigger] f1.books@[b].asks.queues@[x][k] as int], f2.pool.data@[f1.books@[b].asks.queues@[x][k] as int]) by {
            let j = f1.books@[b].asks.queues@[x][k];
            lemma_pos_holds(f1.books@[b], 1, x, k);
            lemma_held_in_range(f1, b, j);
            assert(c1.held(j));
            assert(j != idx);
            assert(c2.books@[b].asks.queues@[x][k] == j);
        }
    }
    assert forall|b: int| 0 <= b < f1.books@.len() implies same_book_shape(#[trigger] f1.books@[b], f2.books@[b]) by {
        assert(same_book_shape(c1.books@[b], c2.books@[b]));
    }
    assert forall|id: u16| (#[trigger] f1.instruments.lookup(id) is Some) == (f2.instruments.lookup(id) is Some) by {
        assert(c1.instruments.lookup(id) is Some == c2.instruments.lookup(id) is Some);
    }
}

/// Processing, in alike engines, the same cancel record leaves them alike.
#[verifier::spinoff_prover]
#[verifier::rlimit(40)]
pub proof fn lemma_cancel_case_same(
    w1: MatchingEngine, w2: MatchingEngine, m1: MatchingEngine, m2: MatchingEngine, e1: MatchingEngine, e2: MatchingEngine, idx: u32,
)
    requires
        w1.wf(),
        w2.wf(),
        same_state(w1, w2),
        !w1.held(idx),
        idx < w1.pool.data@.len(),
        w1.pool.data@[idx as int] == w2.pool.data@[idx as int],
        crate::execution::cleared(w1, m1),
        crate::execution::cleared(w2, m2),
        w1.instruments.lookup(w1.pool.data@[idx as int].instrument_id) is Some,
        crate::execution::cancel_case(m1, e1, idx),
        crate::execution::cancel_case(m2, e2, idx),
        e1.wf(),
        e2.wf(),
    ensures
        same_state(e1, e2),
{
    reveal(crate::execution::cancel_case);
    lemma_wf_pool(w1);
    lemma_wf_pool(w2);
    lemma_held_same(w1, w2, idx);
    let o = m1.pool.data@[idx as int];
    let iid = o.instrument_id;
    let own = (o.account_id, o.client_order_id);
    assert(same_book_shape(w1.books@[iid as int], w2.books@[iid as int]));
    let found = m1.books@[iid as int].order_map@.contains_key(own);
    assert(found == m2.books@[iid as int].order_map@.contains_key(own));
    let c1 = choose|c: MatchingEngine|
        (if found { crate::execution::cancelled(m1, c, iid, own) } else { crate::execution::unchanged(m1, c) })
        && #[trigger] crate::execution::discarded(c, e1, idx);
    let c2 = choose|c: MatchingEngine|
        (if found { crate::execution::cancelled(m2, c, iid, own) } else { crate::execution::unchanged(m2, c) })
        && #[trigger] crate::execution::discarded(c, e2, idx);
    if found {
        crate::execution::lemma_cancelled_frame(w1, m1, c1, iid, own);
        crate::execution::lemma_cancelled_frame(w2, m2, c2, iid, own);
        lemma_cancelled_same(w1, w2, c1, c2, iid, own);
        assert forall|id: u16| (#[trigger] c1.instruments.lookup(id) is Some) == (c2.instruments.lookup(id) is Some) by {
            assert(w1.instruments.lookup(id) is Some == w2.instruments.lookup(id) is Some);
        }
        assert(same_state(c1, c2));
        if c1.held(idx) {
            let b = choose|b: int| 0 <= b < c1.books@.len() && #[trigger] c1.books@[b].holds(idx);
            assert(w1.books@[b].holds(idx));
            assert(w1.held(idx));
        }
        lemma_discard_after(c1, c2, e1, e2, idx);
    } else {
        assert(same_state(c1, c2)) by {
            assert forall|id: u16| (#[trigger] c1.instruments.lookup(id) is Some) == (c2.instruments.lookup(id) is Some) by {
                assert(w1.instruments.lookup(id) is Some == w2.instruments.lookup(id) is Some);
            }
            assert forall|b: int| 0 <= b < c1.books@.len() implies same_book_shape(#[trigger] c1.books@[b], c2.books@[b]) by {
                assert(same_book_shape(w1.books@[b], w2.books@[b]));
            }
            assert forall|b: int| 0 <= b < c1.books@.len() implies book_rests_alike(#[trigger] c1.books@[b], c1.pool.data@, c2.pool.data@) by {
                assert(book_rests_alike(w1.books@[b], w1.pool.data@, w2.pool.data@));
            }
        }
        lemma_discard_after(c1, c2, e1, e2, idx);
    }
}

/// Records `prio` read alike, links aside, in `d1` and `d2`.
pub open spec fn seq_alike(prio: Seq<u32>, d1: Seq<Order>, d2: Seq<Order>) -> bool {
    forall|k: int| 0 <= k < prio.len() ==> same_but_links(d1[#[trigger] prio[k] as int], d2[prio[k] as int])
}

/// The fills against records that read alike are the same, and take the
/// records in priority order.
pub proof fn lemma_fills_same(d1: Seq<Order>, d2: Seq<Order>, prio: Seq<u32>, buy: bool, limit: u32, rem: u32)
    requires
        seq_alike(prio, d1, d2),
    ensures
        crate::matching::spec_fills(d1, prio, buy, limit, rem) == crate::matching::spec_fills(d2, prio, buy, limit, rem),
        crate::matching::spec_fills(d1, prio, buy, limit, rem).len() <= prio.len(),
        forall|i: int| 0 <= i < crate::matching::spec_fills(d1, prio, buy, limit, rem).len()
            ==> (#[trigger] crate::matching::spec_fills(d1, prio, buy, limit, rem)[i]).0 == prio[i],
    decreases prio.len(),
{
    if prio.len() > 0 {
        assert(same_but_links(d1[prio[0] as int], d2[prio[0] as int]));
        let hr = d1[prio[0] as int].remaining;
        if rem > 0 && crate::matching::crosses(buy, limit, d1[prio[0] as int].price) && rem >= hr {
            assert forall|k: int| 0 <= k < prio.drop_first().len() implies
                same_but_links(d1[#[trigger] prio.drop_first()[k] as int], d2[prio.drop_first()[k] as int]) by {
                assert(prio.drop_first()[k] == prio[k + 1]);
            }
            lemma_fills_same(d1, d2, prio.drop_first(), buy, limit, (rem - hr) as u32);
            let rest = crate::matching::spec_fills(d1, prio.drop_first(), buy, limit, (rem - hr) as u32);
            let all = crate::matching::spec_fills(d1, prio, buy, limit, rem);
            assert(all == seq![(prio[0], hr)] + rest);
            assert forall|i: int| 0 <= i < all.len() implies (#[trigger] all[i]).0 == prio[i] by {
                if i > 0 {
                    assert(all[i] == rest[i - 1]);
                    assert(prio.drop_first()[i - 1] == prio[i]);
                }
            }
        }
    }
}

/// The keys of records that read alike are the same.
pub proof fn lemma_keys_same(d1: Seq<Order>, d2: Seq<Order>, s: Seq<u32>)
    requires
        seq_alike(s, d1, d2),
    ensures
        crate::matching::keys_of(d1, s) == crate::matching::keys_of(d2, s),
{
    let m1 = s.map_values(|i: u32| crate::book::order_key(d1[i as int]));
    let m2 = s.map_values(|i: u32| crate::book::order_key(d2[i as int]));
    assert forall|k: int| 0 <= k < s.len() implies #[trigger] m1[k] == m2[k] by {
        assert(same_but_links(d1[s[k] as int], d2[s[k] as int]));
    }
    assert(m1 =~= m2);
}

/// Ladders with the same prices have the same price at each level.
pub proof fn lemma_prices_pointwise(e1: Seq<(u32, PriceLevel)>, e2: Seq<(u32, PriceLevel)>)
    requires
        prices_of(e1) == prices_of(e2),
    ensures
        e1.len() == e2.len(),
        forall|i: int| 0 <= i < e1.len() ==> #[trigger] e1[i].0 == e2[i].0,
{
    assert(prices_of(e1).len() == e1.len());
    assert forall|i: int| 0 <= i < e1.len() implies #[trigger] e1[i].0 == e2[i].0 by {
        assert(prices_of(e1)[i] == e1[i].0);
        assert(prices_of(e2)[i] == e2[i].0);
    }
}

/// Appending one record to ladders of the same shape, each ending sorted,
/// gives ladders of the same shape.
#[verifier::spinoff_prover]
pub proof fn lemma_appended_same(
    old1: PriceLadder, old2: PriceLadder, new1: PriceLadder, new2: PriceLadder, idx: u32, price: u32, r1: u32, r2: u32,
)
    requires
        same_ladder_shape(old1, old2),
        crate::book::appended(&old1, &new1, idx, price, r1),
        crate::book::appended(&old2, &new2, idx, price, r2),
        crate::book::prices_sorted(new1.entries@),
        crate::book::prices_sorted(new2.entries@),
    ensures
        same_ladder_shape(new1, new2),
{
    lemma_prices_pointwise(old1.entries@, old2.entries@);
    let o1 = old1.entries@;
    let o2 = old2.entries@;
    if old1.has_price(price) {
        let w = choose|i: int| 0 <= i < o1.len() && o1[i].0 == price;
        assert(o2[w].0 == price);
        assert(old2.has_price(price));
        let i1 = old1.index_of(price);
        let i2 = old2.index_of(price);
        assert(o1[i1].0 == price);
        assert(o2[i2].0 == price);
        assert(new1.entries@[i2] == o1[i2] || i2 == i1);
        if i1 != i2 {
            assert(new1.entries@[i2].0 == o1[i2].0);
            if i1 < i2 {
                assert(new1.entries@[i1].0 < new1.entries@[i2].0);
            } else {
                assert(new1.entries@[i2].0 < new1.entries@[i1].0);
            }
        }
        assert(new1.queues@ == new2.queues@);
        lemma_prices_pointwise(o1, o2);
        assert(prices_of(new1.entries@) =~= prices_of(new2.entries@)) by {
            assert forall|i: int| 0 <= i < new1.entries@.len() implies #[trigger] prices_of(new1.entries@)[i] == prices_of(new2.entries@)[i] by {
                assert(new1.entries@[i].0 == o1[i].0);
                assert(new2.entries@[i].0 == o2[i].0);
            }
        }
    } else {
        if old2.has_price(price) {
            let w = choose|i: int| 0 <= i < o2.len() && o2[i].0 == price;
            assert(o1[w].0 == price);
            assert(false);
        }
        let lv1 = PriceLevel { head: idx, tail: idx, volume: r1, order_count: 1 };
        let lv2 = PriceLevel { head: idx, tail: idx, volume: r2, order_count: 1 };
        let i1 = choose|i: int| 0 <= i <= o1.len() && new1.entries@ == o1.insert(i, (price, lv1)) && new1.queues@ == old1.queues@.insert(i, seq![idx]);
        let i2 = choose|i: int| 0 <= i <= o2.len() && new2.entries@ == o2.insert(i, (price, lv2)) && new2.queues@ == old2.queues@.insert(i, seq![idx]);
        let n1 = new1.entries@;
        let n2 = new2.entries@;
        if i1 < i2 {
            assert(n1[i1 + 1] == o1[i1]);
            assert(n1[i1].0 < n1[i1 + 1].0);
            assert(n2[i2 - 1] == o2[i2 - 1]);
            assert(n2[i2 - 1].0 < n2[i2].0);
            assert(n2[i1] == o2[i1]);
            if i1 < i2 - 1 {
                assert(n2[i1].0 < n2[i2 - 1].0);
            }
            assert(false);
        }
        if i2 < i1 {
            assert(n2[i2 + 1] == o2[i2]);
            assert(n2[i2].0 < n2[i2 + 1].0);
            assert(n1[i1 - 1] == o1[i1 - 1]);
            assert(n1[i1 - 1].0 < n1[i1].0);
            assert(n1[i2] == o1[i2]);
            if i2 < i1 - 1 {
                assert(n1[i2].0 < n1[i1 - 1].0);
            }
            assert(false);
        }
        assert(new1.queues@ == new2.queues@);
        assert(prices_of(n1) =~= prices_of(n2)) by {
            assert forall|i: int| 0 <= i < n1.len() implies #[trigger] prices_of(n1)[i] == prices_of(n2)[i] by {
                if i < i1 {
                    assert(n1[i] == o1[i] && n2[i] == o2[i]);
                } else if i > i1 {
                    assert(n1[i] == o1[i - 1] && n2[i] == o2[i - 1]);
                }
            }
        }
    }
}

/// The records an incoming order trades against read alike in alike
/// books.
pub proof fn lemma_prio_alike(b1: OrderBook, b2: OrderBook, d1: Seq<Order>, d2: Seq<Order>, buy: bool)
    requires
        same_book_shape(b1, b2),
        book_rests_alike(b1, d1, d2),
    ensures
        opposite_priority(&b1, buy) == opposite_priority(&b2, buy),
        seq_alike(opposite_priority(&b1, buy), d1, d2),
{
    reveal(rests_alike);
    let prio = opposite_priority(&b1, buy);
    assert forall|t: int| 0 <= t < prio.len() implies same_but_links(d1[#[trigger] prio[t] as int], d2[prio[t] as int]) by {
        if buy {
            lemma_flatten_member(b1.asks.queues@, t);
            let (a, k) = choose|a: int, k: int| 0 <= a < b1.asks.queues@.len() && 0 <= k < b1.asks.queues@[a].len()
                && #[trigger] b1.asks.queues@[a][k] == flatten(b1.asks.queues@)[t];
        } else {
            lemma_flatten_rev_member(b1.bids.queues@, t);
            let (a, k) = choose|a: int, k: int| 0 <= a < b1.bids.queues@.len() && 0 <= k < b1.bids.queues@[a].len()
                && #[trigger] b1.bids.queues@[a][k] == flatten_rev(b1.bids.queues@)[t];
        }
    }
}

/// Matching the same incoming record in alike engines computes the same
/// fills, the same count of used-up records and the same quantity left.
pub proof fn lemma_match_scalars(n1: MatchingEngine, n2: MatchingEngine, idx: u32)
    requires
        same_state(n1, n2),
        n1.pool.data@[idx as int] == n2.pool.data@[idx as int],
        n1.pool.data@[idx as int].instrument_id < n1.books@.len(),
    ensures
        ({
            let d1 = n1.pool.data@;
            let d2 = n2.pool.data@;
            let o = d1[idx as int];
            let buy = o.side == 0;
            let prio = opposite_priority(&n1.books@[o.instrument_id as int], buy);
            let fills = fills_of(d1, prio, idx, buy);
            &&& opposite_priority(&n2.books@[o.instrument_id as int], buy) == prio
            &&& seq_alike(prio, d1, d2)
            &&& fills_of(d2, prio, idx, buy) == fills
            &&& fills.len() <= prio.len()
            &&& (forall|i: int| 0 <= i < fills.len() ==> (#[trigger] fills[i]).0 == prio[i])
            &&& full_fills(d2, fills) == full_fills(d1, fills)
            &&& left_after_match(n2, idx) == left_after_match(n1, idx)
        }),
{
    let d1 = n1.pool.data@;
    let d2 = n2.pool.data@;
    let o = d1[idx as int];
    let iid = o.instrument_id as int;
    let buy = o.side == 0;
    assert(same_book_shape(n1.books@[iid], n2.books@[iid]));
    assert(book_rests_alike(n1.books@[iid], d1, d2));
    lemma_prio_alike(n1.books@[iid], n2.books@[iid], d1, d2, buy);
    let prio = opposite_priority(&n1.books@[iid], buy);
    lemma_fills_same(d1, d2, prio, buy, o.price, o.remaining);
    let fills = fills_of(d1, prio, idx, buy);
    if fills.len() > 0 {
        let l = fills.len() - 1;
        assert(fills[l].0 == prio[l]);
        assert(same_but_links(d1[prio[l] as int], d2[prio[l] as int]));
    }
}

/// The fills never take more than the incoming order has.
pub proof fn lemma_fills_bounded(d: Seq<Order>, prio: Seq<u32>, buy: bool, limit: u32, rem: u32)
    ensures
        0 <= fill_total(crate::matching::spec_fills(d, prio, buy, limit, rem)) <= rem,
    decreases prio.len(),
{
    let fills = crate::matching::spec_fills(d, prio, buy, limit, rem);
    crate::matching::lemma_fill_total_nonneg(fills);
    if rem == 0 || prio.len() == 0 || !crate::matching::crosses(buy, limit, d[prio[0] as int].price) {
        assert(fill_total(fills) == 0);
    } else {
        let h = prio[0];
        let hr = d[h as int].remaining;
        if rem < hr {
            crate::matching::lemma_fill_total_prepend((h, rem), Seq::empty());
            assert(seq![(h, rem)] + Seq::<(u32, u32)>::empty() =~= seq![(h, rem)]);
        } else {
            let rest = crate::matching::spec_fills(d, prio.drop_first(), buy, limit, (rem - hr) as u32);
            lemma_fills_bounded(d, prio.drop_first(), buy, limit, (rem - hr) as u32);
            crate::matching::lemma_fill_total_prepend((h, hr), rest);
        }
    }
}

/// A well-formed ladder groups its records by the prices of its levels.
pub proof fn lemma_ladder_grouped(l: PriceLadder, side: u8, d: Seq<Order>)
    requires
        l.wf(side, d),
    ensures
        grouped(l.queues@, prices_of(l.entries@), d),
        crate::book::prices_sorted(l.entries@),
{
    let qs = l.queues@;
    let ps = prices_of(l.entries@);
    assert forall|i: int, k: int| 0 <= i < qs.len() && 0 <= k < qs[i].len() implies d[#[trigger] qs[i][k] as int].price == ps[i] by {
        l.lemma_held_price(side, d, i, k);
    }
    assert forall|i: int| 0 <= i < ps.len() - 1 implies #[trigger] ps[i] != ps[i + 1] by {
        assert(l.entries@[i].0 < l.entries@[i + 1].0);
    }
    assert forall|i: int| 0 <= i < qs.len() implies (#[trigger] qs[i]).len() > 0 by {
        assert(crate::book::queue_wf(qs[i], l.entries@[i].0, l.entries@[i].1, side, d));
    }
}

/// Records that read alike keep reading alike in a prefix.
pub proof fn lemma_seq_alike_take(prio: Seq<u32>, d1: Seq<Order>, d2: Seq<Order>, k: int)
    requires
        seq_alike(prio, d1, d2),
        0 <= k <= prio.len(),
    ensures
        seq_alike(prio.take(k), d1, d2),
        seq_alike(prio.skip(k), d1, d2),
{
    assert forall|t: int| 0 <= t < prio.take(k).len() implies same_but_links(d1[#[trigger] prio.take(k)[t] as int], d2[prio.take(k)[t] as int]) by {
        assert(prio.take(k)[t] == prio[t]);
    }
    assert forall|t: int| 0 <= t < prio.skip(k).len() implies same_but_links(d1[#[trigger] prio.skip(k)[t] as int], d2[prio.skip(k)[t] as int]) by {
        assert(prio.skip(k)[t] == prio[t + k]);
    }
}

/// Matching the same incoming record in alike engines leaves its book the
/// same shape in both.
#[verifier::spinoff_prover]
#[verifier::rlimit(100)]
pub proof fn lemma_match_book(n1: MatchingEngine, n2: MatchingEngine, e1: MatchingEngine, e2: MatchingEngine, idx: u32)
    requires
        same_state(n1, n2),
        n1.pool.data@.len() == crate::constants::MAX_ORDERS,
        n2.pool.data@.len() == crate::constants::MAX_ORDERS,
        n1.pool.data@[idx as int] == n2.pool.data@[idx as int],
        n1.pool.data@[idx as int].instrument_id < n1.books@.len(),
        n1.pool.data@[idx as int].side <= 1,
        match_rest_outcome(n1, e1, idx),
        match_rest_outcome(n2, e2, idx),
        e1.wf(),
        e2.wf(),
    ensures
        same_book_shape(e1.books@[n1.pool.data@[idx as int].instrument_id as int], e2.books@[n1.pool.data@[idx as int].instrument_id as int]),
{
    reveal(match_rest_outcome);
    lemma_match_scalars(n1, n2, idx);
    let d1 = n1.pool.data@;
    let d2 = n2.pool.data@;
    let o = d1[idx as int];
    let iid = o.instrument_id as int;
    let buy = o.side == 0;
    let b0 = n1.books@[iid];
    let b0x = n2.books@[iid];
    let b1 = e1.books@[iid];
    let b1x = e2.books@[iid];
    assert(same_book_shape(b0, b0x));
    let prio = opposite_priority(&b0, buy);
    let fills = fills_of(d1, prio, idx, buy);
    let k = full_fills(d1, fills);
    let left = left_after_match(n1, idx);
    lemma_fills_bounded(d1, prio, buy, o.price, o.remaining);
    assert(left >= 0);
    lemma_wf_pool(e1);
    lemma_wf_pool(e2);
    lemma_wf_book(e1, iid);
    lemma_wf_book(e2, iid);
    assert(opposite_priority(&b1, buy) == prio.skip(k));
    assert(opposite_priority(&b1x, buy) == prio.skip(k));
    lemma_seq_alike_take(prio, d1, d2, k);
    let rest = prio.skip(k);
    assert(d2[idx as int] == o);
    assert(opposite_priority(&b0x, buy) == prio);
    assert(fills_of(d2, prio, idx, buy) == fills);
    assert(full_fills(d2, fills) == k);
    assert(left_after_match(n2, idx) == left);
    assert(own_ladder(b0, o.side) == (if buy { b0.bids } else { b0.asks }));
    assert(own_ladder(b1, o.side) == (if buy { b1.bids } else { b1.asks }));
    assert(own_ladder(b0x, o.side) == (if buy { b0x.bids } else { b0x.asks }));
    assert(own_ladder(b1x, o.side) == (if buy { b1x.bids } else { b1x.asks }));
    if buy {
        lemma_ladder_grouped(b1.asks, 1, e1.pool.data@);
        lemma_ladder_grouped(b1x.asks, 1, e2.pool.data@);
        assert forall|n: int| 0 <= n < flatten(b1.asks.queues@).len() implies
            e1.pool.data@[#[trigger] flatten(b1.asks.queues@)[n] as int].price == e2.pool.data@[flatten(b1.asks.queues@)[n] as int].price by {
            let x = rest[n];
            lemma_flatten_member(b1.asks.queues@, n);
            let (a, kk) = choose|a: int, kk: int| 0 <= a < b1.asks.queues@.len() && 0 <= kk < b1.asks.queues@[a].len()
                && #[trigger] b1.asks.queues@[a][kk] == flatten(b1.asks.queues@)[n];
            b1.asks.lemma_held_price(1, e1.pool.data@, a, kk);
            assert(crate::book::queue_wf(b1.asks.queues@[a], b1.asks.entries@[a].0, b1.asks.entries@[a].1, 1, e1.pool.data@));
            assert(same_but_state(e1.pool.data@[x as int], d1[x as int]));
            assert(same_but_state(e2.pool.data@[x as int], d2[x as int]));
            assert(same_but_links(d1[rest[n] as int], d2[rest[n] as int]));
        }
        lemma_flatten_unique(b1.asks.queues@, prices_of(b1.asks.entries@), e1.pool.data@, b1x.asks.queues@, prices_of(b1x.asks.entries@), e2.pool.data@);
        assert(same_ladder_shape(b1.asks, b1x.asks));
        if left > 0 {
            lemma_ladder_grouped(b1.bids, 0, e1.pool.data@);
            lemma_ladder_grouped(b1x.bids, 0, e2.pool.data@);
            lemma_appended_same(b0.bids, b0x.bids, b1.bids, b1x.bids, idx, o.price, left as u32, left as u32);
        }
        assert(same_ladder_shape(b1.bids, b1x.bids));
    } else {
        lemma_ladder_grouped(b1.bids, 0, e1.pool.data@);
        lemma_ladder_grouped(b1x.bids, 0, e2.pool.data@);
        assert forall|n: int| 0 <= n < flatten_rev(b1.bids.queues@).len() implies
            e1.pool.data@[#[trigger] flatten_rev(b1.bids.queues@)[n] as int].price == e2.pool.data@[flatten_rev(b1.bids.queues@)[n] as int].price by {
            let x = rest[n];
            lemma_flatten_rev_member(b1.bids.queues@, n);
            let (a, kk) = choose|a: int, kk: int| 0 <= a < b1.bids.queues@.len() && 0 <= kk < b1.bids.queues@[a].len()
                && #[trigger] b1.bids.queues@[a][kk] == flatten_rev(b1.bids.queues@)[n];
            assert(crate::book::queue_wf(b1.bids.queues@[a], b1.bids.entries@[a].0, b1.bids.entries@[a].1, 0, e1.pool.data@));
            assert(same_but_state(e1.pool.data@[x as int], d1[x as int]));
            assert(same_but_state(e2.pool.data@[x as int], d2[x as int]));
            assert(same_but_links(d1[rest[n] as int], d2[rest[n] as int]));
        }
        lemma_flatten_rev_unique(b1.bids.queues@, prices_of(b1.bids.entries@), e1.pool.data@, b1x.bids.queues@, prices_of(b1x.bids.entries@), e2.pool.data@);
        assert(same_ladder_shape(b1.bids, b1x.bids));
        if left > 0 {
            lemma_ladder_grouped(b1.asks, 1, e1.pool.data@);
            lemma_ladder_grouped(b1x.asks, 1, e2.pool.data@);
            lemma_appended_same(b0.asks, b0x.asks, b1.asks, b1x.asks, idx, o.price, left as u32, left as u32);
        }
        assert(same_ladder_shape(b1.asks, b1x.asks));
    }
    lemma_keys_same(d1, d2, prio.take(k));
    assert(keys_of(d1, prio.take(k)) == keys_of(d2, prio.take(k)));
    assert(b0.order_map@ == b0x.order_map@);
    if left > 0 {
        assert(b1.order_map@ == b0.order_map@.remove_keys(keys_of(d1, prio.take(k))).insert(crate::book::order_key(o), idx));
        assert(b1x.order_map@ == b0x.order_map@.remove_keys(keys_of(d2, prio.take(k))).insert(crate::book::order_key(o), idx));
    } else {
        assert(b1.order_map@ == b0.order_map@.remove_keys(keys_of(d1, prio.take(k))));
        assert(b1x.order_map@ == b0x.order_map@.remove_keys(keys_of(d2, prio.take(k))));
    }
    assert(b1.order_map@ == b1x.order_map@);
}

/// Every ladder of every book has one level per FIFO.
pub open spec fn ladders_paired(e: MatchingEngine) -> bool {
    forall|b: int| 0 <= b < e.books@.len() ==> (#[trigger] e.books@[b]).bids.entries@.len() == e.books@[b].bids.queues@.len()
        && e.books@[b].asks.entries@.len() == e.books@[b].asks.queues@.len()
}

/// A record resting after matching the same incoming record in alike
/// engines reads alike in both.
#[verifier::spinoff_prover]
#[verifier::rlimit(100)]
pub proof fn lemma_match_pos(
    n1: MatchingEngine, n2: MatchingEngine, e1: MatchingEngine, e2: MatchingEngine, idx: u32, b: int, side: u8, x: int, kk: int,
)
    requires
        same_state(n1, n2),
        ladders_paired(n1),
        n1.pool.data@.len() == crate::constants::MAX_ORDERS,
        n2.pool.data@.len() == crate::constants::MAX_ORDERS,
        n1.pool.data@[idx as int] == n2.pool.data@[idx as int],
        n1.pool.data@[idx as int].instrument_id < n1.books@.len(),
        n1.pool.data@[idx as int].side <= 1,
        match_rest_outcome(n1, e1, idx),
        match_rest_outcome(n2, e2, idx),
        e1.wf(),
        e2.wf(),
        side == 0 || side == 1,
        0 <= b < e1.books@.len(),
        0 <= x < e1.books@[b].ladder(side).queues@.len(),
        0 <= kk < e1.books@[b].ladder(side).queues@[x].len(),
    ensures
        same_but_links(e1.pool.data@[e1.books@[b].ladder(side).queues@[x][kk] as int], e2.pool.data@[e1.books@[b].ladder(side).queues@[x][kk] as int]),
{
    reveal(match_rest_outcome);
    lemma_match_scalars(n1, n2, idx);
    let d1 = n1.pool.data@;
    let d2 = n2.pool.data@;
    let o = d1[idx as int];
    let iid = o.instrument_id as int;
    let buy = o.side == 0;
    let b0 = n1.books@[iid];
    let b1 = e1.books@[iid];
    let prio = opposite_priority(&b0, buy);
    let fills = fills_of(d1, prio, idx, buy);
    let k = full_fills(d1, fills);
    let left = left_after_match(n1, idx);
    let rest = prio.skip(k);
    let j = e1.books@[b].ladder(side).queues@[x][kk];
    lemma_fills_bounded(d1, prio, buy, o.price, o.remaining);
    assert(d2[idx as int] == o);
    assert(opposite_priority(&n2.books@[iid], buy) == prio);
    assert(fills_of(d2, prio, idx, buy) == fills);
    assert(full_fills(d2, fills) == k);
    assert(left_after_match(n2, idx) == left);
    lemma_pos_holds(e1.books@[b], side, x, kk);
    lemma_held_in_range(e1, b, j);
    assert(!e1.pool.free_list@.contains(j));
    assert(0 <= k <= prio.len()) by {
        if fills.len() > 0 {
            assert(fills[fills.len() - 1].0 == prio[fills.len() - 1]);
        }
    }
    if j == idx {
        if left == 0 {
            assert(e1.pool.free_list@[0] == idx);
            assert(false);
        }
        assert(same_but_state(e1.pool.data@[idx as int], d1[idx as int]));
        assert(same_but_state(e2.pool.data@[idx as int], d2[idx as int]));
    } else if prio.contains(j) {
        let p = choose|p: int| 0 <= p < prio.len() && prio[p] == j;
        if p < k {
            let fr = prio.take(k).reverse();
            assert(fr[k - 1 - p] == j);
            if left > 0 {
                assert((fr + n1.pool.free_list@)[k - 1 - p] == j);
            } else {
                assert((seq![idx] + fr + n1.pool.free_list@)[k - p] == j);
            }
            assert(false);
        }
        assert(rest[p - k] == j);
        assert(same_but_links(d1[prio[p] as int], d2[prio[p] as int]));
        assert(same_but_state(e1.pool.data@[j as int], d1[j as int]));
        assert(same_but_state(e2.pool.data@[j as int], d2[j as int]));
        assert(e1.pool.data@[rest[p - k] as int].remaining == d1[rest[p - k] as int].remaining - (if p - k == 0 { if fills.len() > k { fills.last().1 as int } else { 0 } } else { 0 }));
        assert(e2.pool.data@[rest[p - k] as int].remaining == d2[rest[p - k] as int].remaining - (if p - k == 0 { if fills.len() > k { fills.last().1 as int } else { 0 } } else { 0 }));
    } else {
        assert(same_but_links(e1.pool.data@[j as int], d1[j as int]));
        assert(same_but_links(e2.pool.data@[j as int], d2[j as int]));
        reveal(rests_alike);
        if b != iid {
            assert(e1.books@[b] == n1.books@[b]);
            assert(book_rests_alike(n1.books@[b], d1, d2));
            if side == 0 {
                assert(n1.books@[b].bids.queues@[x][kk] == j);
            } else {
                assert(n1.books@[b].asks.queues@[x][kk] == j);
            }
        } else {
            assert(book_rests_alike(b0, d1, d2));
            if side == o.side {
                let own0 = own_ladder(b0, o.side);
                let own1 = own_ladder(b1, o.side);
                assert(own1 == e1.books@[b].ladder(side));
                assert(own1.holds(j));
                if left > 0 {
                    assert(own0.entries@.len() == own0.queues@.len());
                    crate::book::lemma_appended_only(&own0, &own1, idx, o.price, left as u32, j);
                } else {
                    assert(own1 == own0);
                }
                assert(own0.holds(j));
                let (y, z) = choose|y: int, z: int| 0 <= y < own0.queues@.len() && 0 <= z < own0.queues@[y].len() && #[trigger] own0.queues@[y][z] == j;
                assert(rests_alike(own0, d1, d2));
            } else {
                if buy {
                    assert(e1.books@[b].ladder(side) == b1.asks);
                    lemma_pos_in_flatten(b1.asks.queues@, x, kk);
                    assert(opposite_priority(&b1, buy) == flatten(b1.asks.queues@));
                } else {
                    assert(e1.books@[b].ladder(side) == b1.bids);
                    lemma_pos_in_flatten_rev(b1.bids.queues@, x, kk);
                    assert(opposite_priority(&b1, buy) == flatten_rev(b1.bids.queues@));
                }
                let q = choose|q: int| 0 <= q < rest.len() && rest[q] == j;
                assert(prio[q + k] == j);
                assert(false);
            }
        }
    }
}

/// Matching and resting the same incoming record in alike engines leaves
/// them alike.
#[verifier::spinoff_prover]
#[verifier::rlimit(60)]
pub proof fn lemma_match_rest_same(n1: MatchingEngine, n2: MatchingEngine, e1: MatchingEngine, e2: MatchingEngine, idx: u32)
    requires
        same_state(n1, n2),
        ladders_paired(n1),
        n1.pool.data@.len() == crate::constants::MAX_ORDERS,
        n2.pool.data@.len() == crate::constants::MAX_ORDERS,
        n1.pool.data@[idx as int] == n2.pool.data@[idx as int],
        n1.pool.data@[idx as int].instrument_id < n1.books@.len(),
        n1.pool.data@[idx as int].side <= 1,
        match_rest_outcome(n1, e1, idx),
        match_rest_outcome(n2, e2, idx),
        e1.wf(),
        e2.wf(),
    ensures
        same_state(e1, e2),
{
    lemma_match_book(n1, n2, e1, e2, idx);
    lemma_match_scalars(n1, n2, idx);
    reveal(match_rest_outcome);
    let d1 = n1.pool.data@;
    let o = d1[idx as int];
    let iid = o.instrument_id as int;
    let buy = o.side == 0;
    let prio = opposite_priority(&n1.books@[iid], buy);
    let fills = fills_of(d1, prio, idx, buy);
    let k = full_fills(d1, fills);
    let left = left_after_match(n1, idx);
    assert(n2.pool.data@[idx as int] == o);
    assert(opposite_priority(&n2.books@[iid], buy) == prio);
    assert(fills_of(n2.pool.data@, prio, idx, buy) == fills);
    assert(full_fills(n2.pool.data@, fills) == k);
    assert(left_after_match(n2, idx) == left);
    lemma_fills_bounded(d1, prio, buy, o.price, o.remaining);
    if left > 0 {
        assert(e1.pool.free_list@ == prio.take(k).reverse() + n1.pool.free_list@);
    } else {
        assert(e1.pool.free_list@ == seq![idx] + prio.take(k).reverse() + n1.pool.free_list@);
    }
    assert(e1.pool.free_list@ == e2.pool.free_list@);
    assert forall|b: int| 0 <= b < e1.books@.len() implies same_book_shape(#[trigger] e1.books@[b], e2.books@[b]) by {
        if b != iid {
            assert(same_book_shape(n1.books@[b], n2.books@[b]));
        }
    }
    assert forall|b: int| 0 <= b < e1.books@.len() implies book_rests_alike(#[trigger] e1.books@[b], e1.pool.data@, e2.pool.data@) by {
        reveal(rests_alike);
        assert(same_book_shape(e1.books@[b], e2.books@[b]));
        assert forall|x: int, kk: int| 0 <= x < e1.books@[b].bids.queues@.len() && 0 <= kk < e1.books@[b].bids.queues@[x].len()
            implies same_but_links(e1.pool.data@[#[trigger] e1.books@[b].bids.queues@[x][kk] as int], e2.pool.data@[e1.books@[b].bids.queues@[x][kk] as int]) by {
            lemma_match_pos(n1, n2, e1, e2, idx, b, 0, x, kk);
        }
        assert forall|x: int, kk: int| 0 <= x < e1.books@[b].asks.queues@.len() && 0 <= kk < e1.books@[b].asks.queues@[x].len()
            implies same_but_links(e1.pool.data@[#[trigger] e1.books@[b].asks.queues@[x][kk] as int], e2.pool.data@[e1.books@[b].asks.queues@[x][kk] as int]) by {
            lemma_match_pos(n1, n2, e1, e2, idx, b, 1, x, kk);
        }
    }
    assert forall|id: u16| (#[trigger] e1.instruments.lookup(id) is Some) == (e2.instruments.lookup(id) is Some) by {
        assert(n1.instruments.lookup(id) is Some == n2.instruments.lookup(id) is Some);
    }
}

/// A wf engine pairs every ladder's levels with its FIFOs.
pub proof fn lemma_wf_paired(e: MatchingEngine)
    requires
        e.wf(),
    ensures
        ladders_paired(e),
        e.pool.data@.len() == crate::constants::MAX_ORDERS,
        e.books@.len() == crate::constants::MAX_INSTRUMENTS,
{
    lemma_wf_pool(e);
    assert forall|b: int| 0 <= b < e.books@.len() implies (#[trigger] e.books@[b]).bids.entries@.len() == e.books@[b].bids.queues@.len()
        && e.books@[b].asks.entries@.len() == e.books@[b].asks.queues@.len() by {
        lemma_wf_book(e, b);
    }
}

/// Clearing the outputs keeps engines alike.
pub proof fn lemma_cleared_same(w1: MatchingEngine, w2: MatchingEngine, m1: MatchingEngine, m2: MatchingEngine)
    requires
        same_state(w1, w2),
        crate::execution::cleared(w1, m1),
        crate::execution::cleared(w2, m2),
    ensures
        same_state(m1, m2),
{
    assert forall|b: int| 0 <= b < m1.books@.len() implies same_book_shape(#[trigger] m1.books@[b], m2.books@[b]) by {
        assert(same_book_shape(w1.books@[b], w2.books@[b]));
    }
    assert forall|b: int| 0 <= b < m1.books@.len() implies book_rests_alike(#[trigger] m1.books@[b], m1.pool.data@, m2.pool.data@) by {
        assert(book_rests_alike(w1.books@[b], w1.pool.data@, w2.pool.data@));
    }
    assert forall|id: u16| (#[trigger] m1.instruments.lookup(id) is Some) == (m2.instruments.lookup(id) is Some) by {
        assert(w1.instruments.lookup(id) is Some == w2.instruments.lookup(id) is Some);
    }
}

/// Cancelling keeps every ladder paired with its FIFOs.
pub proof fn lemma_cancelled_paired(w: MatchingEngine, c: MatchingEngine, iid: u16, key: (u32, u64))
    requires
        w.wf(),
        iid < w.books@.len(),
        crate::execution::cancelled(w, c, iid, key),
    ensures
        ladders_paired(c),
{
    lemma_wf_paired(w);
    let b0 = w.books@[iid as int];
    let b1 = c.books@[iid as int];
    let t = b0.order_map@[key];
    let side = w.pool.data@[t as int].side;
    let (a, k) = choose|a: int, k: int| 0 <= a < b0.ladder(side).queues@.len() && 0 <= k < b0.ladder(side).queues@[a].len()
        && #[trigger] b0.ladder(side).queues@[a][k] == t
        && crate::book::removed_at(b0.ladder(side), b1.ladder(side), a, k);
    assert(b0.bids.entries@.len() == b0.bids.queues@.len());
    assert(b0.asks.entries@.len() == b0.asks.queues@.len());
    assert(b1.ladder(side).entries@.len() == b1.ladder(side).queues@.len());
    assert forall|b: int| 0 <= b < c.books@.len() implies (#[trigger] c.books@[b]).bids.entries@.len() == c.books@[b].bids.queues@.len()
        && c.books@[b].asks.entries@.len() == c.books@[b].asks.queues@.len() by {
        if b != iid {
            assert(c.books@[b] == w.books@[b]);
        }
    }
}

/// Turning the same unheld record into a new order keeps engines alike.
#[verifier::spinoff_prover]
pub proof fn lemma_made_new_same(c1: MatchingEngine, c2: MatchingEngine, n1: MatchingEngine, n2: MatchingEngine, idx: u32)
    requires
        same_state(c1, c2),
        !c1.held(idx),
        idx < c1.pool.data@.len(),
        c2.pool.data@.len() == c1.pool.data@.len(),
        forall|b: int, j: u32| 0 <= b < c1.books@.len() && #[trigger] c1.books@[b].holds(j) ==> j < c1.pool.data@.len(),
        c1.pool.data@[idx as int] == c2.pool.data@[idx as int],
        crate::execution::made_new(c1, n1, idx),
        crate::execution::made_new(c2, n2, idx),
    ensures
        same_state(n1, n2),
        n1.pool.data@[idx as int] == n2.pool.data@[idx as int],
        n1.pool.data@.len() == c1.pool.data@.len(),
        n2.pool.data@.len() == c2.pool.data@.len(),
        !n1.held(idx),
{
    assert forall|b: int| 0 <= b < n1.books@.len() implies same_book_shape(#[trigger] n1.books@[b], n2.books@[b]) by {
        assert(same_book_shape(c1.books@[b], c2.books@[b]));
    }
    assert forall|b: int| 0 <= b < n1.books@.len() implies book_rests_alike(#[trigger] n1.books@[b], n1.pool.data@, n2.pool.data@) by {
        assert(book_rests_alike(c1.books@[b], c1.pool.data@, c2.pool.data@));
        assert(same_book_shape(c1.books@[b], c2.books@[b]));
        reveal(rests_alike);
        assert forall|x: int, kk: int| 0 <= x < n1.books@[b].bids.queues@.len() && 0 <= kk < n1.books@[b].bids.queues@[x].len()
            implies same_but_links(n1.pool.data@[#[trigger] n1.books@[b].bids.queues@[x][kk] as int], n2.pool.data@[n1.books@[b].bids.queues@[x][kk] as int]) by {
            let j = n1.books@[b].bids.queues@[x][kk];
            lemma_pos_holds(c1.books@[b], 0, x, kk);
            assert(c1.held(j));
            assert(c2.books@[b].bids.queues@[x][kk] == j);
            assert(j < c1.pool.data@.len());
            assert(n1.pool.data@[j as int] == c1.pool.data@[j as int]);
            assert(n2.pool.data@[j as int] == c2.pool.data@[j as int]);
        }
        assert forall|x: int, kk: int| 0 <= x < n1.books@[b].asks.queues@.len() && 0 <= kk < n1.books@[b].asks.queues@[x].len()
            implies same_but_links(n1.pool.data@[#[trigger] n1.books@[b].asks.queues@[x][kk] as int], n2.pool.data@[n1.books@[b].asks.queues@[x][kk] as int]) by {
            let j = n1.books@[b].asks.queues@[x][kk];
            lemma_pos_holds(c1.books@[b], 1, x, kk);
            assert(c1.held(j));
            assert(c2.books@[b].asks.queues@[x][kk] == j);
            assert(j < c1.pool.data@.len());
            assert(n1.pool.data@[j as int] == c1.pool.data@[j as int]);
            assert(n2.pool.data@[j as int] == c2.pool.data@[j as int]);
        }
    }
    assert forall|id: u16| (#[trigger] n1.instruments.lookup(id) is Some) == (n2.instruments.lookup(id) is Some) by {
        assert(c1.instruments.lookup(id) is Some == c2.instruments.lookup(id) is Some);
    }
}

/// After cancelling the same resting order in alike engines, the states
/// are alike and an unheld record reads as it did.
#[verifier::spinoff_prover]
pub proof fn lemma_cancelled_state(
    w1: MatchingEngine, w2: MatchingEngine, m1: MatchingEngine, m2: MatchingEngine, c1: MatchingEngine, c2: MatchingEngine,
    iid: u16, key: (u32, u64), idx: u32,
)
    requires
        w1.wf(),
        w2.wf(),
        same_state(w1, w2),
        !w1.held(idx),
        idx < w1.pool.data@.len(),
        w1.pool.data@[idx as int] == w2.pool.data@[idx as int],
        iid < w1.books@.len(),
        crate::execution::cleared(w1, m1),
        crate::execution::cleared(w2, m2),
        crate::execution::cancelled(m1, c1, iid, key),
        crate::execution::cancelled(m2, c2, iid, key),
    ensures
        same_state(c1, c2),
        !c1.held(idx),
        idx < c1.pool.data@.len(),
        c1.pool.data@.len() == crate::constants::MAX_ORDERS,
        c2.pool.data@.len() == crate::constants::MAX_ORDERS,
        c1.pool.data@[idx as int] == c2.pool.data@[idx as int],
        forall|b: int, j: u32| 0 <= b < c1.books@.len() && #[trigger] c1.books@[b].holds(j) ==> j < c1.pool.data@.len(),
        ladders_paired(c1),
{
    lemma_wf_pool(w1);
    lemma_wf_pool(w2);
    lemma_held_same(w1, w2, idx);
    crate::execution::lemma_cancelled_frame(w1, m1, c1, iid, key);
    crate::execution::lemma_cancelled_frame(w2, m2, c2, iid, key);
    lemma_cancelled_same(w1, w2, c1, c2, iid, key);
    lemma_cancelled_paired(w1, c1, iid, key);
    assert forall|id: u16| (#[trigger] c1.instruments.lookup(id) is Some) == (c2.instruments.lookup(id) is Some) by {
        assert(w1.instruments.lookup(id) is Some == w2.instruments.lookup(id) is Some);
    }
    if c1.held(idx) {
        let b = choose|b: int| 0 <= b < c1.books@.len() && #[trigger] c1.books@[b].holds(idx);
        assert(w1.books@[b].holds(idx));
        assert(w1.held(idx));
    }
    assert(!w1.books@[iid as int].holds(idx));
    assert(!w2.books@[iid as int].holds(idx));
    assert(c1.pool.data@[idx as int] == w1.pool.data@[idx as int]);
    assert(c2.pool.data@[idx as int] == w2.pool.data@[idx as int]);
    assert forall|b: int, j: u32| 0 <= b < c1.books@.len() && #[trigger] c1.books@[b].holds(j) implies j < c1.pool.data@.len() by {
        assert(w1.books@[b].holds(j));
        lemma_held_in_range(w1, b, j);
    }
}

/// Processing, in alike engines, the same replace record leaves them
/// alike.
#[verifier::spinoff_prover]
#[verifier::rlimit(40)]
pub proof fn lemma_replace_case_same(
    w1: MatchingEngine, w2: MatchingEngine, m1: MatchingEngine, m2: MatchingEngine, e1: MatchingEngine, e2: MatchingEngine, idx: u32,
)
    requires
        w1.wf(),
        w2.wf(),
        same_state(w1, w2),
        !w1.held(idx),
        idx < w1.pool.data@.len(),
        w1.pool.data@[idx as int] == w2.pool.data@[idx as int],
        crate::execution::cleared(w1, m1),
        crate::execution::cleared(w2, m2),
        w1.instruments.lookup(w1.pool.data@[idx as int].instrument_id) is Some,
        crate::execution::replace_case(m1, e1, idx),
        crate::execution::replace_case(m2, e2, idx),
        e1.wf(),
        e2.wf(),
    ensures
        same_state(e1, e2),
{
    reveal(crate::execution::replace_case);
    lemma_wf_pool(w1);
    lemma_wf_pool(w2);
    lemma_held_same(w1, w2, idx);
    lemma_cleared_same(w1, w2, m1, m2);
    let o = m1.pool.data@[idx as int];
    let iid = o.instrument_id;
    let target = (o.account_id, o.replace_target_client_order_id);
    assert(same_book_shape(w1.books@[iid as int], w2.books@[iid as int]));
    let present = m1.books@[iid as int].order_map@.contains_key(target);
    assert(present == m2.books@[iid as int].order_map@.contains_key(target));
    if !present {
        lemma_discard_after(m1, m2, e1, e2, idx);
    } else if o.side <= 1 {
        let (c1, n1) = choose|c: MatchingEngine, n: MatchingEngine| #[trigger] crate::execution::cancelled(m1, c, iid, target)
            && #[trigger] crate::execution::made_new(c, n, idx)
            && n.trades@.len() == 0 && n.last_events@ == seq![crate::execution::replaced_event(o)]
            && crate::execution::new_order_outcome(n, e1, idx);
        let (c2, n2) = choose|c: MatchingEngine, n: MatchingEngine| #[trigger] crate::execution::cancelled(m2, c, iid, target)
            && #[trigger] crate::execution::made_new(c, n, idx)
            && n.trades@.len() == 0 && n.last_events@ == seq![crate::execution::replaced_event(o)]
            && crate::execution::new_order_outcome(n, e2, idx);
        lemma_cancelled_state(w1, w2, m1, m2, c1, c2, iid, target, idx);
        lemma_made_new_same(c1, c2, n1, n2, idx);
        reveal(crate::execution::new_order_outcome);
        assert(n1.books@ == c1.books@);
        assert(ladders_paired(n1));
        lemma_match_rest_same(n1, n2, e1, e2, idx);
    } else {
        let (c1, n1) = choose|c: MatchingEngine, n: MatchingEngine| #[trigger] crate::execution::cancelled(m1, c, iid, target)
            && #[trigger] crate::execution::made_new(c, n, idx)
            && crate::execution::discarded(n, e1, idx);
        let (c2, n2) = choose|c: MatchingEngine, n: MatchingEngine| #[trigger] crate::execution::cancelled(m2, c, iid, target)
            && #[trigger] crate::execution::made_new(c, n, idx)
            && crate::execution::discarded(n, e2, idx);
        lemma_cancelled_state(w1, w2, m1, m2, c1, c2, iid, target, idx);
        lemma_made_new_same(c1, c2, n1, n2, idx);
        lemma_discard_after(n1, n2, e1, e2, idx);
    }
}

/// Processing the same admitted record in alike engines leaves them alike.
#[verifier::spinoff_prover]
#[verifier::rlimit(40)]
pub proof fn lemma_process_same(
    w1: MatchingEngine, w2: MatchingEngine, m1: MatchingEngine, m2: MatchingEngine, e1: MatchingEngine, e2: MatchingEngine, idx: u32,
)
    requires
        w1.wf(),
        w2.wf(),
        same_state(w1, w2),
        !w1.held(idx),
        idx < w1.pool.data@.len(),
        w1.pool.data@[idx as int] == w2.pool.data@[idx as int],
        crate::execution::cleared(w1, m1),
        crate::execution::cleared(w2, m2),
        crate::execution::process_case(m1, e1, idx),
        crate::execution::process_case(m2, e2, idx),
        e1.wf(),
        e2.wf(),
    ensures
        same_state(e1, e2),
{
    lemma_wf_paired(w1);
    lemma_wf_paired(w2);
    lemma_wf_pool(w1);
    lemma_cleared_same(w1, w2, m1, m2);
    lemma_held_same(w1, w2, idx);
    let o = m1.pool.data@[idx as int];
    assert(m2.pool.data@[idx as int] == o);
    assert(w1.instruments.lookup(o.instrument_id) is Some == w2.instruments.lookup(o.instrument_id) is Some);
    if m1.instruments.lookup(o.instrument_id) is None {
        lemma_discard_after(m1, m2, e1, e2, idx);
    } else if o.command_kind == 1 {
        lemma_cancel_case_same(w1, w2, m1, m2, e1, e2, idx);
    } else if o.command_kind == 2 {
        lemma_replace_case_same(w1, w2, m1, m2, e1, e2, idx);
    } else if o.command_kind == 0 && o.side <= 1 {
        reveal(crate::execution::new_order_outcome);
        assert(m1.books@ == w1.books@);
        assert(ladders_paired(m1));
        lemma_match_rest_same(m1, m2, e1, e2, idx);
    } else {
        lemma_discard_after(m1, m2, e1, e2, idx);
    }
}

/// Admitting and processing the same command in alike engines leaves
/// them alike.
#[verifier::spinoff_prover]
pub proof fn lemma_step_same(e0: MatchingEngine, f0: MatchingEngine, c: OrderCommand, e1: MatchingEngine, f1: MatchingEngine)
    requires
        e0.wf(),
        f0.wf(),
        same_state(e0, f0),
        replay_step(e0, c, e1),
        replay_step(f0, c, f1),
    ensures
        same_state(e1, f1),
        e1.wf(),
        f1.wf(),
{
    let (m1, a1) = choose|m: MatchingEngine, a: AcceptedOrder|
        #[trigger] accept_effect(e0, c, m, a) && e0.admission(c) == Ok::<AcceptedOrder, OrderAcceptError>(a)
            && crate::execution::process_outcome(m, e1, a.pool_index);
    let (m2, a2) = choose|m: MatchingEngine, a: AcceptedOrder|
        #[trigger] accept_effect(f0, c, m, a) && f0.admission(c) == Ok::<AcceptedOrder, OrderAcceptError>(a)
            && crate::execution::process_outcome(m, f1, a.pool_index);
    lemma_admission_same(e0, f0, c);
    assert(a1 == a2);
    lemma_accept_same(e0, f0, c, m1, m2, a1);
    let idx = a1.pool_index;
    lemma_wf_pool(m1);
    let k1 = choose|k: MatchingEngine| crate::execution::cleared(m1, k) && #[trigger] crate::execution::process_case(k, e1, idx);
    let k2 = choose|k: MatchingEngine| crate::execution::cleared(m2, k) && #[trigger] crate::execution::process_case(k, f1, idx);
    lemma_process_same(m1, m2, k1, k2, e1, f1, idx);
}

/// Replaying the same commands from alike engines passes through alike
/// states.
pub proof fn lemma_trace_same(
    e0: MatchingEngine, f0: MatchingEngine, cs: Seq<OrderCommand>, st1: Seq<MatchingEngine>, st2: Seq<MatchingEngine>,
    e1: MatchingEngine, f1: MatchingEngine, n: int,
)
    requires
        e0.wf(),
        f0.wf(),
        same_state(e0, f0),
        replay_trace(e0, cs, st1, e1),
        replay_trace(f0, cs, st2, f1),
        0 <= n <= cs.len(),
    ensures
        same_state(st1[n], st2[n]),
        st1[n].wf(),
        st2[n].wf(),
    decreases n,
{
    if n > 0 {
        lemma_trace_same(e0, f0, cs, st1, st2, e1, f1, n - 1);
        let k = n - 1;
        assert(replay_step(st1[k], cs[k], st1[k + 1]));
        assert(replay_step(st2[k], cs[k], st2[k + 1]));
        lemma_step_same(st1[k], st2[k], cs[k], st1[k + 1], st2[k + 1]);
    }
}

/// Replaying the same commands from alike engines ends in alike engines.
pub proof fn lemma_replayed_same(e0: MatchingEngine, f0: MatchingEngine, cs: Seq<OrderCommand>, e1: MatchingEngine, f1: MatchingEngine)
    requires
        e0.wf(),
        f0.wf(),
        same_state(e0, f0),
        replayed(e0, cs, e1),
        replayed(f0, cs, f1),
    ensures
        same_state(e1, f1),
        e1.wf(),
        f1.wf(),
{
    let st1 = choose|st: Seq<MatchingEngine>| #[trigger] replay_trace(e0, cs, st, e1);
    let st2 = choose|st: Seq<MatchingEngine>| #[trigger] replay_trace(f0, cs, st, f1);
    lemma_trace_same(e0, f0, cs, st1, st2, e1, f1, cs.len() as int);
}

/// Every engine is alike to itself.
pub proof fn lemma_same_refl(e: MatchingEngine)
    ensures
        same_state(e, e),
{
    reveal(rests_alike);
    assert forall|b: int| 0 <= b < e.books@.len() implies book_rests_alike(#[trigger] e.books@[b], e.pool.data@, e.pool.data@) by {
        assert forall|x: int, k: int| 0 <= x < e.books@[b].bids.queues@.len() && 0 <= k < e.books@[b].bids.queues@[x].len()
            implies same_but_links(e.pool.data@[#[trigger] e.books@[b].bids.queues@[x][k] as int], e.pool.data@[e.books@[b].bids.queues@[x][k] as int]) by {
            let r = e.pool.data@[e.books@[b].bids.queues@[x][k] as int];
            assert(r == (Order { next: r.next, prev: r.prev, ..r }));
        }
        assert forall|x: int, k: int| 0 <= x < e.books@[b].asks.queues@.len() && 0 <= k < e.books@[b].asks.queues@[x].len()
            implies same_but_links(e.pool.data@[#[trigger] e.books@[b].asks.queues@[x][k] as int], e.pool.data@[e.books@[b].asks.queues@[x][k] as int]) by {
            let r = e.pool.data@[e.books@[b].asks.queues@[x][k] as int];
            assert(r == (Order { next: r.next, prev: r.prev, ..r }));
        }
    }
}

/// Listed orders that read alike, links aside, give the same values.
pub proof fn lemma_orders_values_same(entries: Seq<((u32, u64), u32)>, d1: Seq<Order>, d2: Seq<Order>)
    requires
        forall|i: int| 0 <= i < entries.len() ==> same_but_links(d1[#[trigger] entries[i].1 as int], d2[entries[i].1 as int]),
    ensures
        orders_values(entries, d1) == orders_values(entries, d2),
    decreases entries.len(),
{
    if entries.len() > 0 {
        let e = entries.drop_last();
        assert forall|i: int| 0 <= i < e.len() implies same_but_links(d1[#[trigger] e[i].1 as int], d2[e[i].1 as int]) by {
            assert(e[i] == entries[i]);
        }
        lemma_orders_values_same(e, d1, d2);
        let l = entries.last();
        assert(same_but_links(d1[entries[entries.len() - 1].1 as int], d2[entries[entries.len() - 1].1 as int]));
        assert(order_values(l.0, d1[l.1 as int]) == order_values(l.0, d2[l.1 as int]));
    }
}

/// The books before `n` of alike engines give the same values.
pub proof fn lemma_books_values_same(e1: MatchingEngine, e2: MatchingEngine, n: int)
    requires
        e1.wf(),
        e2.wf(),
        same_state(e1, e2),
        0 <= n <= e1.books@.len(),
    ensures
        books_values(e1, n) == books_values(e2, n),
    decreases n,
{
    broadcast use vstd::std_specs::btree::group_btree_axioms;
    if n > 0 {
        lemma_books_values_same(e1, e2, n - 1);
        let b = n - 1;
        lemma_wf_pool(e1);
        lemma_wf_book(e1, b);
        assert(same_book_shape(e1.books@[b], e2.books@[b]));
        let m = e1.books@[b].order_map@;
        assert(e2.books@[b].order_map@ == m);
        let entries = sorted_listing(m);
        lemma_listing_exists(m);
        assert(book_entries(&e1.books@[b].order_map) == entries);
        assert(book_entries(&e2.books@[b].order_map) == entries);
        assert forall|i: int| 0 <= i < entries.len() implies same_but_links(e1.pool.data@[#[trigger] entries[i].1 as int], e2.pool.data@[entries[i].1 as int]) by {
            assert(m.contains_key(entries[i].0));
            assert(e1.books@[b].holds(entries[i].1));
            lemma_held_alike(e1, e2, b, entries[i].1);
        }
        lemma_orders_values_same(entries, e1.pool.data@, e2.pool.data@);
    }
}

/// Alike engines have equal fingerprints.
pub proof fn lemma_fingerprint_same(e1: MatchingEngine, e2: MatchingEngine)
    requires
        e1.wf(),
        e2.wf(),
        same_state(e1, e2),
    ensures
        spec_fingerprint(e1) == spec_fingerprint(e2),
{
    lemma_wf_pool(e1);
    lemma_wf_pool(e2);
    lemma_books_values_same(e1, e2, e1.books@.len() as int);
    assert(e1.pool.allocated_count == e2.pool.allocated_count);
}

/// Replay is deterministic: replaying the same commands from one
/// well-formed engine twice ends in engines with equal fingerprints.
pub proof fn lemma_replay_deterministic(e0: MatchingEngine, cs: Seq<OrderCommand>, e1: MatchingEngine, e2: MatchingEngine)
    requires
        e0.wf(),
        replayed(e0, cs, e1),
        replayed(e0, cs, e2),
    ensures
        same_state(e1, e2),
        spec_fingerprint(e1) == spec_fingerprint(e2),
{
    lemma_same_refl(e0);
    lemma_replayed_same(e0, e0, cs, e1, e2);
    lemma_fingerprint_same(e1, e2);
}

/// Replaying the same commands from alike engines, such as two fresh
/// ones, ends in alike engines with equal fingerprints.
pub proof fn lemma_replay_alike(e0: MatchingEngine, f0: MatchingEngine, cs: Seq<OrderCommand>, e1: MatchingEngine, f1: MatchingEngine)
    requires
        e0.wf(),
        f0.wf(),
        same_state(e0, f0),
        replayed(e0, cs, e1),
        replayed(f0, cs, f1),
    ensures
        same_state(e1, f1),
        spec_fingerprint(e1) == spec_fingerprint(f1),
{
    lemma_replayed_same(e0, f0, cs, e1, f1);
    lemma_fingerprint_same(e1, f1);
}

/// Alike well-formed ladders hold the same volume at every price.
#[verifier::spinoff_prover]
pub proof fn lemma_volume_same(l1: PriceLadder, l2: PriceLadder, side: u8, d1: Seq<Order>, d2: Seq<Order>, price: u32)
    requires
        l1.wf(side, d1),
        l2.wf(side, d2),
        same_ladder_shape(l1, l2),
        rests_alike(l1, d1, d2),
    ensures
        l1.volume_at(price) == l2.volume_at(price),
{
    lemma_prices_pointwise(l1.entries@, l2.entries@);
    if l1.has_price(price) {
        let w = choose|i: int| 0 <= i < l1.entries@.len() && l1.entries@[i].0 == price;
        assert(l2.entries@[w].0 == price);
        assert(l2.has_price(price));
        let i1 = l1.index_of(price);
        let i2 = l2.index_of(price);
        assert(l1.entries@[i2].0 == price);
        if i1 != i2 {
            if i1 < i2 {
                assert(l1.entries@[i1].0 < l1.entries@[i2].0);
            } else {
                assert(l1.entries@[i2].0 < l1.entries@[i1].0);
            }
        }
        let q = l1.queues@[i1];
        assert(crate::book::queue_wf(q, l1.entries@[i1].0, l1.entries@[i1].1, side, d1));
        assert(crate::book::queue_wf(l2.queues@[i1], l2.entries@[i1].0, l2.entries@[i1].1, side, d2));
        reveal(rests_alike);
        assert forall|k: int| 0 <= k < q.len() implies d1[#[trigger] q[k] as int].remaining == d2[q[k] as int].remaining by {
            assert(same_but_links(d1[l1.queues@[i1][k] as int], d2[l1.queues@[i1][k] as int]));
        }
        crate::book::lemma_sum_frame(d1, d2, q);
    } else if l2.has_price(price) {
        let w = choose|i: int| 0 <= i < l2.entries@.len() && l2.entries@[i].0 == price;
        assert(l1.entries@[w].0 == price);
        assert(false);
    }
}

/// Alike well-formed ladders have the same levels.
#[verifier::spinoff_prover]
pub proof fn lemma_entries_same(l1: PriceLadder, l2: PriceLadder, side: u8, d1: Seq<Order>, d2: Seq<Order>)
    requires
        l1.wf(side, d1),
        l2.wf(side, d2),
        same_ladder_shape(l1, l2),
        rests_alike(l1, d1, d2),
    ensures
        l1.entries@ == l2.entries@,
{
    lemma_prices_pointwise(l1.entries@, l2.entries@);
    reveal(rests_alike);
    assert forall|i: int| 0 <= i < l1.entries@.len() implies #[trigger] l1.entries@[i] == l2.entries@[i] by {
        let q = l1.queues@[i];
        assert(crate::book::queue_wf(q, l1.entries@[i].0, l1.entries@[i].1, side, d1));
        assert(crate::book::queue_wf(l2.queues@[i], l2.entries@[i].0, l2.entries@[i].1, side, d2));
        assert forall|k: int| 0 <= k < q.len() implies d1[#[trigger] q[k] as int].remaining == d2[q[k] as int].remaining by {
            assert(same_but_links(d1[l1.queues@[i][k] as int], d2[l1.queues@[i][k] as int]));
        }
        crate::book::lemma_sum_frame(d1, d2, q);
    }
    assert(l1.entries@ =~= l2.entries@);
}

/// Alike engines decide alike whether a command fits for replay.
pub proof fn lemma_fits_same(e1: MatchingEngine, e2: MatchingEngine, c: OrderCommand)
    requires
        e1.wf(),
        e2.wf(),
        same_state(e1, e2),
    ensures
        replay_fits(e1, c) == replay_fits(e2, c),
{
    lemma_wf_pool(e1);
    lemma_wf_pool(e2);
    let (iid, side, price) = match c {
        OrderCommand::New(o) => (o.instrument_id, crate::command::spec_side_wire(o.side), o.price),
        OrderCommand::Replace(o) => (o.instrument_id, crate::command::spec_side_wire(o.side), o.price),
        OrderCommand::Cancel(o) => (o.instrument_id, 0u8, 0u32),
    };
    if !(c is Cancel) && iid < e1.books@.len() {
        lemma_wf_book(e1, iid as int);
        lemma_wf_book(e2, iid as int);
        let b1 = e1.books@[iid as int];
        let b2 = e2.books@[iid as int];
        assert(same_book_shape(b1, b2));
        assert(book_rests_alike(b1, e1.pool.data@, e2.pool.data@));
        lemma_entries_same(b1.bids, b2.bids, 0, e1.pool.data@, e2.pool.data@);
        lemma_entries_same(b1.asks, b2.asks, 1, e1.pool.data@, e2.pool.data@);
        if side == 0 {
            lemma_volume_same(b1.bids, b2.bids, 0, e1.pool.data@, e2.pool.data@, price);
        } else {
            lemma_volume_same(b1.asks, b2.asks, 1, e1.pool.data@, e2.pool.data@, price);
        }
        assert(crate::room::opposite_levels(b1, side == 0) == crate::room::opposite_levels(b2, side == 0));
    }
}

/// An engine as it starts: well formed, sequencing at its first values,
/// every slot of its pool free in order, every book empty and the
/// sovereign universe registered.
pub open spec fn fresh_engine(e: MatchingEngine) -> bool {
    &&& e.wf()
    &&& e.next_exchange_order_id == 1
    &&& e.next_sequence_number == 1
    &&& e.pool.free_list@ == Seq::new((crate::constants::MAX_ORDERS - 1) as nat, |j: int| (j + 1) as u32)
    &&& forall|b: int, j: u32| 0 <= b < crate::constants::MAX_INSTRUMENTS ==> !#[trigger] e.books@[b].holds(j)
    &&& forall|b: int| 0 <= b < crate::constants::MAX_INSTRUMENTS ==> (#[trigger] e.books@[b]).order_map@.len() == 0
    &&& forall|id: u16| #[trigger] e.instruments.lookup(id) is Some <==> id < 2 * crate::instrument::SOVEREIGN_COUNT
}

/// An empty well-formed ladder has no levels.
pub proof fn lemma_empty_ladder(book: OrderBook, side: u8, d: Seq<Order>)
    requires
        book.ladder(side).wf(side, d),
        forall|j: u32| !#[trigger] book.holds(j),
    ensures
        book.ladder(side).queues@.len() == 0,
        book.ladder(side).entries@.len() == 0,
{
    if book.ladder(side).queues@.len() > 0 {
        assert(crate::book::queue_wf(book.ladder(side).queues@[0], book.ladder(side).entries@[0].0, book.ladder(side).entries@[0].1, side, d));
        lemma_pos_holds(book, side, 0, 0);
        assert(false);
    }
}

/// Two fresh engines are alike.
pub proof fn lemma_fresh_same(e1: MatchingEngine, e2: MatchingEngine)
    requires
        fresh_engine(e1),
        fresh_engine(e2),
    ensures
        same_state(e1, e2),
{
    broadcast use vstd::std_specs::btree::group_btree_axioms;
    lemma_wf_pool(e1);
    lemma_wf_pool(e2);
    assert forall|b: int| 0 <= b < e1.books@.len() implies same_book_shape(#[trigger] e1.books@[b], e2.books@[b]) by {
        lemma_wf_book(e1, b);
        lemma_wf_book(e2, b);
        assert forall|j: u32| !#[trigger] e1.books@[b].holds(j) by {}
        assert forall|j: u32| !#[trigger] e2.books@[b].holds(j) by {}
        lemma_empty_ladder(e1.books@[b], 0, e1.pool.data@);
        lemma_empty_ladder(e1.books@[b], 1, e1.pool.data@);
        lemma_empty_ladder(e2.books@[b], 0, e2.pool.data@);
        lemma_empty_ladder(e2.books@[b], 1, e2.pool.data@);
        assert(e1.books@[b].bids.queues@ =~= e2.books@[b].bids.queues@);
        assert(e1.books@[b].asks.queues@ =~= e2.books@[b].asks.queues@);
        assert(prices_of(e1.books@[b].bids.entries@) =~= prices_of(e2.books@[b].bids.entries@));
        assert(prices_of(e1.books@[b].asks.entries@) =~= prices_of(e2.books@[b].asks.entries@));
        let m1 = e1.books@[b].order_map@;
        let m2 = e2.books@[b].order_map@;
        assert forall|k: (u32, u64)| !m1.contains_key(k) && !m2.contains_key(k) by {
            if m1.contains_key(k) {
                assert(m1.dom().remove(k).len() == m1.dom().len() - 1);
            }
            if m2.contains_key(k) {
                assert(m2.dom().remove(k).len() == m2.dom().len() - 1);
            }
        }
        assert(m1 =~= m2);
    }
    assert forall|b: int| 0 <= b < e1.books@.len() implies book_rests_alike(#[trigger] e1.books@[b], e1.pool.data@, e2.pool.data@) by {
        lemma_wf_book(e1, b);
        lemma_empty_ladder(e1.books@[b], 0, e1.pool.data@);
        lemma_empty_ladder(e1.books@[b], 1, e1.pool.data@);
        reveal(rests_alike);
    }
}

} // verus!
