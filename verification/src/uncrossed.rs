//! Processing a command never crosses a book: every resting buy stays
//! priced below every resting sell.

use vstd::prelude::*;
use crate::book::{OrderBook, PriceLadder, flatten, flatten_rev, lemma_flatten_member, lemma_flatten_rev_member, same_but_links};
use crate::engine::{MatchingEngine, lemma_wf_book, lemma_wf_pool};
use crate::execution::{left_after_match, match_rest_outcome, own_ladder};
use crate::matching::{crosses, fill_total, fills_of, full_fills, opposite_priority, same_but_state, spec_fills};
use crate::pool::Order;
use crate::shape::{lemma_pos_in_flatten, lemma_pos_in_flatten_rev};

verus! {

/// Every resting buy of `b` is priced below every resting sell, as `d`
/// reads their prices.
pub open spec fn uncrossed(b: OrderBook, d: Seq<Order>) -> bool {
    forall|x: u32, y: u32| #[trigger] b.bids.holds(x) && #[trigger] b.asks.holds(y) ==> d[x as int].price < d[y as int].price
}

/// No book of `e` is crossed.
pub open spec fn all_uncrossed(e: MatchingEngine) -> bool {
    forall|b: int| 0 <= b < e.books@.len() ==> uncrossed(#[trigger] e.books@[b], e.pool.data@)
}

/// `d2` reads every price as `d1` does.
pub open spec fn same_prices(d1: Seq<Order>, d2: Seq<Order>) -> bool {
    d1.len() == d2.len() && forall|j: int| 0 <= j < d1.len() ==> (#[trigger] d2[j]).price == d1[j].price
}

/// The fills stop short of the incoming quantity only after using up
/// every record they touch, at a record that no longer crosses or at the
/// end of the book.
pub proof fn lemma_fills_stop(d: Seq<Order>, prio: Seq<u32>, buy: bool, limit: u32, rem: u32)
    ensures
        ({
            let fills = spec_fills(d, prio, buy, limit, rem);
            fill_total(fills) < rem ==> {
                &&& full_fills(d, fills) == fills.len()
                &&& fills.len() <= prio.len()
                &&& fills.len() < prio.len() ==> !crosses(buy, limit, d[prio[fills.len() as int] as int].price)
            }
        }),
    decreases prio.len(),
{
    let fills = spec_fills(d, prio, buy, limit, rem);
    if rem == 0 || prio.len() == 0 || !crosses(buy, limit, d[prio[0] as int].price) {
    } else {
        let h = prio[0];
        let hr = d[h as int].remaining;
        if rem < hr {
            crate::matching::lemma_fill_total_prepend((h, rem), Seq::empty());
            assert(seq![(h, rem)] + Seq::<(u32, u32)>::empty() =~= seq![(h, rem)]);
        } else {
            let rest = spec_fills(d, prio.drop_first(), buy, limit, (rem - hr) as u32);
            lemma_fills_stop(d, prio.drop_first(), buy, limit, (rem - hr) as u32);
            crate::matching::lemma_fill_total_prepend((h, hr), rest);
            assert(fills == seq![(h, hr)] + rest);
            if fill_total(fills) < rem {
                if rest.len() > 0 {
                    assert(fills.last() == rest.last());
                }
                if rest.len() < prio.drop_first().len() {
                    assert(prio[fills.len() as int] == prio.drop_first()[rest.len() as int]);
                }
            }
        }
    }
}

/// There are never more fills than records to fill against.
pub proof fn lemma_fills_len(d: Seq<Order>, prio: Seq<u32>, buy: bool, limit: u32, rem: u32)
    ensures
        spec_fills(d, prio, buy, limit, rem).len() <= prio.len(),
    decreases prio.len(),
{
    if !(rem == 0 || prio.len() == 0 || !crosses(buy, limit, d[prio[0] as int].price)) {
        let hr = d[prio[0] as int].remaining;
        if rem >= hr {
            lemma_fills_len(d, prio.drop_first(), buy, limit, (rem - hr) as u32);
        }
    }
}

/// Removing a record keeps no record that was not there.
pub proof fn lemma_removed_only(old: &PriceLadder, new: &PriceLadder, a: int, b: int, j: u32)
    requires
        0 <= a < old.queues@.len(),
        0 <= b < old.queues@[a].len(),
        crate::book::removed_at(old, new, a, b),
        new.holds(j),
    ensures
        old.holds(j),
{
    let (x, y) = choose|x: int, y: int| 0 <= x < new.queues@.len() && 0 <= y < new.queues@[x].len() && #[trigger] new.queues@[x][y] == j;
    let q = old.queues@[a];
    if q.len() == 1 {
        if x < a {
            assert(old.queues@[x][y] == j);
        } else {
            assert(old.queues@[x + 1][y] == j);
        }
    } else if x == a {
        let nq = q.remove(b);
        if y < b {
            assert(old.queues@[a][y] == j);
        } else {
            assert(old.queues@[a][y + 1] == j);
        }
    } else {
        assert(old.queues@[x][y] == j);
    }
}

/// Cancelling keeps each side's records among the records it had.
pub proof fn lemma_cancelled_within(e0: MatchingEngine, e1: MatchingEngine, iid: u16, key: (u32, u64))
    requires
        crate::execution::cancelled(e0, e1, iid, key),
    ensures
        forall|j: u32| #[trigger] e1.books@[iid as int].bids.holds(j) ==> e0.books@[iid as int].bids.holds(j),
        forall|j: u32| #[trigger] e1.books@[iid as int].asks.holds(j) ==> e0.books@[iid as int].asks.holds(j),
{
    let b0 = e0.books@[iid as int];
    let b1 = e1.books@[iid as int];
    let t = b0.order_map@[key];
    let side = e0.pool.data@[t as int].side;
    let (a, k) = choose|a: int, k: int| 0 <= a < b0.ladder(side).queues@.len() && 0 <= k < b0.ladder(side).queues@[a].len()
        && #[trigger] b0.ladder(side).queues@[a][k] == t
        && crate::book::removed_at(b0.ladder(side), b1.ladder(side), a, k);
    assert forall|j: u32| #[trigger] b1.bids.holds(j) implies b0.bids.holds(j) by {
        if side == 0 {
            lemma_removed_only(&b0.bids, &b1.bids, a, k, j);
        }
    }
    assert forall|j: u32| #[trigger] b1.asks.holds(j) implies b0.asks.holds(j) by {
        if side != 0 {
            lemma_removed_only(&b0.asks, &b1.asks, a, k, j);
        }
    }
}

/// Matching and resting an incoming order leaves its book uncrossed.
#[verifier::spinoff_prover]
#[verifier::rlimit(80)]
pub proof fn lemma_match_uncrossed(n: MatchingEngine, e1: MatchingEngine, idx: u32)
    requires
        n.pool.data@.len() == crate::constants::MAX_ORDERS,
        n.pool.data@[idx as int].instrument_id < n.books@.len(),
        n.pool.data@[idx as int].side <= 1,
        uncrossed(n.books@[n.pool.data@[idx as int].instrument_id as int], n.pool.data@),
        n.books@[n.pool.data@[idx as int].instrument_id as int].bids.entries@.len()
            == n.books@[n.pool.data@[idx as int].instrument_id as int].bids.queues@.len(),
        n.books@[n.pool.data@[idx as int].instrument_id as int].asks.entries@.len()
            == n.books@[n.pool.data@[idx as int].instrument_id as int].asks.queues@.len(),
        match_rest_outcome(n, e1, idx),
        e1.wf(),
    ensures
        uncrossed(e1.books@[n.pool.data@[idx as int].instrument_id as int], e1.pool.data@),
        same_prices(n.pool.data@, e1.pool.data@),
{
    reveal(match_rest_outcome);
    let d = n.pool.data@;
    let o = d[idx as int];
    let iid = o.instrument_id as int;
    let buy = o.side == 0;
    let b0 = n.books@[iid];
    let b1 = e1.books@[iid];
    let prio = opposite_priority(&b0, buy);
    let fills = fills_of(d, prio, idx, buy);
    let kf = full_fills(d, fills);
    let left = left_after_match(n, idx);
    lemma_wf_pool(e1);
    lemma_wf_book(e1, iid);
    crate::determinism::lemma_fills_bounded(d, prio, buy, o.price, o.remaining);
    lemma_fills_stop(d, prio, buy, o.price, o.remaining);
    lemma_fills_len(d, prio, buy, o.price, o.remaining);
    assert(0 <= kf <= prio.len());
    assert(forall|j: int| 0 <= j < d.len() ==> same_but_state(#[trigger] e1.pool.data@[j], d[j]));
    assert forall|j: int| 0 <= j < d.len() implies (#[trigger] e1.pool.data@[j]).price == d[j].price by {
        assert(same_but_state(e1.pool.data@[j], d[j]));
    }
    let rest = prio.skip(kf);
    assert(opposite_priority(&b1, buy) == rest);
    assert forall|x: u32, y: u32| #[trigger] b1.bids.holds(x) && #[trigger] b1.asks.holds(y) implies e1.pool.data@[x as int].price < e1.pool.data@[y as int].price by {
        crate::engine::lemma_held_allocated(&b1, &e1.pool, x);
        crate::engine::lemma_held_allocated(&b1, &e1.pool, y);
        let (xa, xk) = choose|a: int, k: int| 0 <= a < b1.bids.queues@.len() && 0 <= k < b1.bids.queues@[a].len() && #[trigger] b1.bids.queues@[a][k] == x;
        let (ya, yk) = choose|a: int, k: int| 0 <= a < b1.asks.queues@.len() && 0 <= k < b1.asks.queues@[a].len() && #[trigger] b1.asks.queues@[a][k] == y;
        b1.bids.lemma_held_price(0, e1.pool.data@, xa, xk);
        b1.asks.lemma_held_price(1, e1.pool.data@, ya, yk);
        if buy {
            lemma_pos_in_flatten(b1.asks.queues@, ya, yk);
            let p = choose|p: int| 0 <= p < rest.len() && rest[p] == y;
            assert(prio[p + kf] == y);
            lemma_flatten_member(b0.asks.queues@, p + kf);
            assert(b0.asks.holds(y));
            if left > 0 {
                assert(own_ladder(b0, o.side) == b0.bids);
                crate::book::lemma_appended_only(&b0.bids, &b1.bids, idx, o.price, left as u32, x);
            } else {
                assert(b1.bids == b0.bids);
            }
            if x == idx {
                assert(kf < prio.len());
                let y0 = rest[0];
                assert(!crosses(buy, o.price, d[prio[kf] as int].price));
                let qs = b1.asks.queues@;
                assert(flatten(qs) == qs[0] + flatten(qs.drop_first()));
                assert(crate::book::queue_wf(qs[0], b1.asks.entries@[0].0, b1.asks.entries@[0].1, 1, e1.pool.data@));
                assert(flatten(qs)[0] == qs[0][0]);
                b1.asks.lemma_held_price(1, e1.pool.data@, 0, 0);
                if ya > 0 {
                    assert(b1.asks.entries@[0].0 < b1.asks.entries@[ya].0);
                }
            } else {
                assert(b0.bids.holds(x));
            }
        } else {
            lemma_pos_in_flatten_rev(b1.bids.queues@, xa, xk);
            let p = choose|p: int| 0 <= p < rest.len() && rest[p] == x;
            assert(prio[p + kf] == x);
            lemma_flatten_rev_member(b0.bids.queues@, p + kf);
            assert(b0.bids.holds(x));
            if left > 0 {
                assert(own_ladder(b0, o.side) == b0.asks);
                crate::book::lemma_appended_only(&b0.asks, &b1.asks, idx, o.price, left as u32, y);
            } else {
                assert(b1.asks == b0.asks);
            }
            if y == idx {
                assert(kf < prio.len());
                assert(!crosses(buy, o.price, d[prio[kf] as int].price));
                let qs = b1.bids.queues@;
                let l = qs.len() - 1;
                assert(flatten_rev(qs) == qs.last() + flatten_rev(qs.drop_last()));
                assert(crate::book::queue_wf(qs[l], b1.bids.entries@[l].0, b1.bids.entries@[l].1, 0, e1.pool.data@));
                assert(flatten_rev(qs)[0] == qs[l][0]);
                b1.bids.lemma_held_price(0, e1.pool.data@, l, 0);
                if xa < l {
                    assert(b1.bids.entries@[xa].0 < b1.bids.entries@[l].0);
                }
            } else {
                assert(b0.asks.holds(y));
            }
        }
    }
}

/// A book keeps from being crossed when each side keeps only records it
/// had and no price changes.
pub proof fn lemma_uncrossed_frame(b0: OrderBook, b1: OrderBook, d0: Seq<Order>, d1: Seq<Order>)
    requires
        uncrossed(b0, d0),
        same_prices(d0, d1),
        forall|j: u32| #[trigger] b1.bids.holds(j) ==> b0.bids.holds(j),
        forall|j: u32| #[trigger] b1.asks.holds(j) ==> b0.asks.holds(j),
        forall|j: u32| #[trigger] b0.holds(j) ==> j < d0.len(),
    ensures
        uncrossed(b1, d1),
{
    assert forall|x: u32, y: u32| #[trigger] b1.bids.holds(x) && #[trigger] b1.asks.holds(y) implies d1[x as int].price < d1[y as int].price by {
        assert(b0.bids.holds(x) && b0.asks.holds(y));
        assert(b0.holds(x) && b0.holds(y));
        assert(d1[x as int].price == d0[x as int].price);
        assert(d1[y as int].price == d0[y as int].price);
    }
}

/// Every record a book of a wf engine holds is a slot of its pool.
pub proof fn lemma_books_in_range(e: MatchingEngine)
    requires
        e.wf(),
    ensures
        forall|b: int, j: u32| 0 <= b < e.books@.len() && #[trigger] e.books@[b].holds(j) ==> j < e.pool.data@.len(),
        e.pool.data@.len() == crate::constants::MAX_ORDERS,
        e.books@.len() == crate::constants::MAX_INSTRUMENTS,
{
    lemma_wf_pool(e);
    assert forall|b: int, j: u32| 0 <= b < e.books@.len() && #[trigger] e.books@[b].holds(j) implies j < e.pool.data@.len() by {
        crate::determinism::lemma_held_in_range(e, b, j);
    }
}

/// Books that changed only by cancelling and giving records back, with
/// every price kept, stay uncrossed; `iid` is the one book that may have
/// lost a record.
pub proof fn lemma_books_frame(e0: MatchingEngine, e1: MatchingEngine, iid: int)
    requires
        e0.wf(),
        all_uncrossed(e0),
        same_prices(e0.pool.data@, e1.pool.data@),
        e1.books@.len() == e0.books@.len(),
        forall|b: int| 0 <= b < e0.books@.len() && b != iid ==> #[trigger] e1.books@[b] == e0.books@[b],
        0 <= iid < e0.books@.len() ==> (forall|j: u32| #[trigger] e1.books@[iid].bids.holds(j) ==> e0.books@[iid].bids.holds(j)),
        0 <= iid < e0.books@.len() ==> (forall|j: u32| #[trigger] e1.books@[iid].asks.holds(j) ==> e0.books@[iid].asks.holds(j)),
    ensures
        all_uncrossed(e1),
{
    lemma_books_in_range(e0);
    assert forall|b: int| 0 <= b < e1.books@.len() implies uncrossed(#[trigger] e1.books@[b], e1.pool.data@) by {
        assert(uncrossed(e0.books@[b], e0.pool.data@));
        assert forall|j: u32| #[trigger] e0.books@[b].holds(j) implies j < e0.pool.data@.len() by {}
        lemma_uncrossed_frame(e0.books@[b], e1.books@[b], e0.pool.data@, e1.pool.data@);
    }
}

/// Processing an admitted record never crosses a book: if every resting
/// buy was priced below every resting sell before, it still is after.
#[verifier::spinoff_prover]
#[verifier::rlimit(60)]
pub proof fn lemma_process_uncrossed(e0: MatchingEngine, e1: MatchingEngine, idx: u32)
    requires
        e0.wf(),
        all_uncrossed(e0),
        e0.pool.is_allocated(idx),
        !e0.held(idx),
        crate::execution::process_outcome(e0, e1, idx),
        e1.wf(),
    ensures
        all_uncrossed(e1),
{
    lemma_books_in_range(e0);
    lemma_books_in_range(e1);
    lemma_wf_pool(e0);
    let m = choose|m: MatchingEngine| crate::execution::cleared(e0, m) && #[trigger] crate::execution::process_case(m, e1, idx);
    let o = m.pool.data@[idx as int];
    let iid = o.instrument_id;
    let d0 = e0.pool.data@;
    let d1 = e1.pool.data@;
    if m.instruments.lookup(iid) is None || (o.command_kind != 1 && o.command_kind != 2 && !(o.command_kind == 0 && o.side <= 1)) {
        assert(d1 == d0.update(idx as int, Order { next: m.pool.free_head, ..d0[idx as int] }));
        lemma_books_frame(e0, e1, -1);
    } else if o.command_kind == 1 {
        assert(iid < e0.books@.len());
        reveal(crate::execution::cancel_case);
        let own = (o.account_id, o.client_order_id);
        let found = m.books@[iid as int].order_map@.contains_key(own);
        let c = choose|c: MatchingEngine|
            (if found { crate::execution::cancelled(m, c, iid, own) } else { crate::execution::unchanged(m, c) })
            && #[trigger] crate::execution::discarded(c, e1, idx);
        if found {
            crate::execution::lemma_cancelled_frame(e0, m, c, iid, own);
            lemma_cancelled_within(e0, c, iid, own);
            assert forall|j: int| 0 <= j < d0.len() implies (#[trigger] d1[j]).price == d0[j].price by {
                assert(same_but_links(c.pool.data@[j], d0[j]));
            }
        } else {
            assert(d1 == d0.update(idx as int, Order { next: m.pool.free_head, ..d0[idx as int] }));
        }
        lemma_books_frame(e0, e1, iid as int);
    } else if o.command_kind == 2 {
        assert(iid < e0.books@.len());
        reveal(crate::execution::replace_case);
        let target = (o.account_id, o.replace_target_client_order_id);
        if !m.books@[iid as int].order_map@.contains_key(target) {
            assert(d1 == d0.update(idx as int, Order { next: m.pool.free_head, ..d0[idx as int] }));
            lemma_books_frame(e0, e1, -1);
        } else if o.side <= 1 {
            let (c, n) = choose|c: MatchingEngine, n: MatchingEngine| #[trigger] crate::execution::cancelled(m, c, iid, target)
                && #[trigger] crate::execution::made_new(c, n, idx)
                && n.trades@.len() == 0 && n.last_events@ == seq![crate::execution::replaced_event(o)]
                && crate::execution::new_order_outcome(n, e1, idx);
            crate::execution::lemma_cancelled_frame(e0, m, c, iid, target);
            lemma_cancelled_within(e0, c, iid, target);
            crate::determinism::lemma_cancelled_paired(e0, c, iid, target);
            let dn = n.pool.data@;
            assert forall|j: int| 0 <= j < d0.len() implies (#[trigger] dn[j]).price == d0[j].price by {
                assert(same_but_links(c.pool.data@[j], d0[j]));
            }
            assert(same_prices(d0, dn));
            assert(uncrossed(n.books@[iid as int], dn)) by {
                assert(uncrossed(e0.books@[iid as int], d0));
                assert forall|j: u32| #[trigger] e0.books@[iid as int].holds(j) implies j < d0.len() by {}
                lemma_uncrossed_frame(e0.books@[iid as int], n.books@[iid as int], d0, dn);
            }
            reveal(crate::execution::new_order_outcome);
            assert(dn[idx as int].instrument_id == iid && dn[idx as int].side == o.side);
            assert(n.books@[iid as int] == c.books@[iid as int]);
            lemma_match_uncrossed(n, e1, idx);
            assert(same_prices(d0, d1)) by {
                assert forall|j: int| 0 <= j < d0.len() implies (#[trigger] d1[j]).price == d0[j].price by {
                    assert(d1[j].price == dn[j].price);
                }
            }
            reveal(match_rest_outcome);
            assert forall|b: int| 0 <= b < e1.books@.len() implies uncrossed(#[trigger] e1.books@[b], d1) by {
                if b != iid {
                    assert(e1.books@[b] == e0.books@[b]);
                    assert(uncrossed(e0.books@[b], d0));
                    assert forall|j: u32| #[trigger] e0.books@[b].holds(j) implies j < d0.len() by {}
                    lemma_uncrossed_frame(e0.books@[b], e1.books@[b], d0, d1);
                }
            }
        } else {
            let (c, n) = choose|c: MatchingEngine, n: MatchingEngine| #[trigger] crate::execution::cancelled(m, c, iid, target)
                && #[trigger] crate::execution::made_new(c, n, idx)
                && crate::execution::discarded(n, e1, idx);
            crate::execution::lemma_cancelled_frame(e0, m, c, iid, target);
            lemma_cancelled_within(e0, c, iid, target);
            assert forall|j: int| 0 <= j < d0.len() implies (#[trigger] d1[j]).price == d0[j].price by {
                assert(same_but_links(c.pool.data@[j], d0[j]));
            }
            lemma_books_frame(e0, e1, iid as int);
        }
    } else {
        assert(iid < e0.books@.len());
        reveal(crate::execution::new_order_outcome);
        crate::determinism::lemma_wf_paired(e0);
        assert(uncrossed(e0.books@[iid as int], d0));
        lemma_match_uncrossed(m, e1, idx);
        reveal(match_rest_outcome);
        assert forall|b: int| 0 <= b < e1.books@.len() implies uncrossed(#[trigger] e1.books@[b], d1) by {
            if b != iid {
                assert(e1.books@[b] == e0.books@[b]);
                assert(uncrossed(e0.books@[b], d0));
                assert forall|j: u32| #[trigger] e0.books@[b].holds(j) implies j < d0.len() by {}
                lemma_uncrossed_frame(e0.books@[b], e1.books@[b], d0, d1);
            }
        }
    }
}

/// In an uncrossed well-formed book with orders on both sides, the best
/// bid is below the best ask.
pub proof fn lemma_uncrossed_best(b: OrderBook, pool: &crate::pool::OrderPool)
    requires
        b.wf(pool),
        uncrossed(b, pool.data@),
        b.bids.entries@.len() > 0,
        b.asks.entries@.len() > 0,
    ensures
        b.bids.entries@.last().0 < b.asks.entries@[0].0,
{
    let l = b.bids.entries@.len() - 1;
    assert(crate::book::queue_wf(b.bids.queues@[l], b.bids.entries@[l].0, b.bids.entries@[l].1, 0, pool.data@));
    assert(crate::book::queue_wf(b.asks.queues@[0], b.asks.entries@[0].0, b.asks.entries@[0].1, 1, pool.data@));
    let x = b.bids.queues@[l][0];
    let y = b.asks.queues@[0][0];
    assert(b.bids.holds(x));
    assert(b.asks.holds(y));
}

/// Admitting and processing a command never crosses a book.
pub proof fn lemma_step_uncrossed(e0: MatchingEngine, c: crate::command::OrderCommand, e1: MatchingEngine)
    requires
        e0.wf(),
        all_uncrossed(e0),
        crate::durable::replay_step(e0, c, e1),
    ensures
        all_uncrossed(e1),
{
    let (m, a) = choose|m: MatchingEngine, a: crate::engine::AcceptedOrder|
        #[trigger] crate::replication::accept_effect(e0, c, m, a) && e0.admission(c) == Ok::<crate::engine::AcceptedOrder, crate::engine::OrderAcceptError>(a)
            && crate::execution::process_outcome(m, e1, a.pool_index);
    let idx = a.pool_index;
    lemma_books_in_range(e0);
    lemma_books_in_range(m);
    assert forall|b: int| 0 <= b < m.books@.len() implies uncrossed(#[trigger] m.books@[b], m.pool.data@) by {
        assert(uncrossed(e0.books@[b], e0.pool.data@));
        assert forall|x: u32, y: u32| #[trigger] m.books@[b].bids.holds(x) && #[trigger] m.books@[b].asks.holds(y)
            implies m.pool.data@[x as int].price < m.pool.data@[y as int].price by {
            assert(m.books@[b].holds(x) && m.books@[b].holds(y));
            assert(m.held(x) && m.held(y));
            assert(x != idx && y != idx);
        }
    }
    lemma_process_uncrossed(m, e1, idx);
}

/// Every book replayed from an uncrossed well-formed engine, such as a
/// fresh one, is uncrossed.
pub proof fn lemma_replay_uncrossed(
    e0: MatchingEngine, cs: Seq<crate::command::OrderCommand>, st: Seq<MatchingEngine>, e1: MatchingEngine, n: int,
)
    requires
        e0.wf(),
        all_uncrossed(e0),
        crate::durable::replay_trace(e0, cs, st, e1),
        0 <= n <= cs.len(),
    ensures
        all_uncrossed(st[n]),
        st[n].wf(),
    decreases n,
{
    if n > 0 {
        lemma_replay_uncrossed(e0, cs, st, e1, n - 1);
        let k = n - 1;
        assert(crate::durable::replay_step(st[k], cs[k], st[k + 1]));
        lemma_step_uncrossed(st[k], cs[k], st[k + 1]);
    }
}

/// A fresh engine has no crossed book.
pub proof fn lemma_fresh_uncrossed(e: MatchingEngine)
    requires
        crate::determinism::fresh_engine(e),
    ensures
        all_uncrossed(e),
{
    lemma_wf_pool(e);
    assert forall|b: int| 0 <= b < e.books@.len() implies uncrossed(#[trigger] e.books@[b], e.pool.data@) by {
        assert forall|x: u32, y: u32| #[trigger] e.books@[b].bids.holds(x) && #[trigger] e.books@[b].asks.holds(y)
            implies e.pool.data@[x as int].price < e.pool.data@[y as int].price by {
            assert(e.books@[b].holds(x));
        }
    }
}

} // verus!
