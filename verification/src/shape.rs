//! A ladder's levels are determined by the records it rests in priority
//! order: levels group consecutive records of one price, and neighbouring
//! levels differ in price.

use vstd::prelude::*;
use crate::book::{flatten, flatten_rev};
use crate::pool::Order;

verus! {

/// `qs` groups records into non-empty levels, level `i` at price `ps[i]`
/// as `d` reads it, neighbouring levels at different prices.
pub open spec fn grouped(qs: Seq<Seq<u32>>, ps: Seq<u32>, d: Seq<Order>) -> bool {
    &&& qs.len() == ps.len()
    &&& forall|i: int| 0 <= i < qs.len() ==> (#[trigger] qs[i]).len() > 0
    &&& forall|i: int, k: int| 0 <= i < qs.len() && 0 <= k < qs[i].len() ==> d[#[trigger] qs[i][k] as int].price == ps[i]
    &&& forall|i: int| 0 <= i < ps.len() - 1 ==> #[trigger] ps[i] != ps[i + 1]
}

/// The first record of a flattening is the first record of the first level.
pub proof fn lemma_flatten_head(qs: Seq<Seq<u32>>, ps: Seq<u32>, d: Seq<Order>)
    requires
        grouped(qs, ps, d),
        qs.len() > 0,
    ensures
        flatten(qs).len() >= qs[0].len(),
        flatten(qs).len() > 0,
        flatten(qs) == qs[0] + flatten(qs.drop_first()),
        qs.len() > 1 ==> flatten(qs.drop_first()).len() > 0 && flatten(qs.drop_first())[0] == qs[1][0],
{
    if qs.len() > 1 {
        assert(qs.drop_first()[0] == qs[1]);
        assert(flatten(qs.drop_first()) == qs.drop_first()[0] + flatten(qs.drop_first().drop_first()));
    }
}

/// Dropping the first level keeps the grouping.
pub proof fn lemma_grouped_drop(qs: Seq<Seq<u32>>, ps: Seq<u32>, d: Seq<Order>)
    requires
        grouped(qs, ps, d),
        qs.len() > 0,
    ensures
        grouped(qs.drop_first(), ps.drop_first(), d),
{
    let q = qs.drop_first();
    let p = ps.drop_first();
    assert forall|i: int, k: int| 0 <= i < q.len() && 0 <= k < q[i].len() implies d[#[trigger] q[i][k] as int].price == p[i] by {
        assert(q[i] == qs[i + 1]);
    }
    assert forall|i: int| 0 <= i < p.len() - 1 implies #[trigger] p[i] != p[i + 1] by {
        assert(p[i] == ps[i + 1] && p[i + 1] == ps[i + 2]);
    }
    assert forall|i: int| 0 <= i < q.len() implies (#[trigger] q[i]).len() > 0 by {
        assert(q[i] == qs[i + 1]);
    }
}

/// Two groupings of one flattening, whose records have the same prices in
/// both readings, are the same grouping.
pub proof fn lemma_flatten_unique(qs1: Seq<Seq<u32>>, ps1: Seq<u32>, d1: Seq<Order>, qs2: Seq<Seq<u32>>, ps2: Seq<u32>, d2: Seq<Order>)
    requires
        grouped(qs1, ps1, d1),
        grouped(qs2, ps2, d2),
        flatten(qs1) == flatten(qs2),
        forall|n: int| 0 <= n < flatten(qs1).len() ==> d1[#[trigger] flatten(qs1)[n] as int].price == d2[flatten(qs1)[n] as int].price,
    ensures
        qs1 == qs2,
        ps1 == ps2,
    decreases qs1.len(),
{
    let f = flatten(qs1);
    if qs1.len() == 0 {
        if qs2.len() > 0 {
            lemma_flatten_head(qs2, ps2, d2);
        }
        assert(qs1 =~= qs2);
        assert(ps1 =~= ps2);
    } else {
        lemma_flatten_head(qs1, ps1, d1);
        if qs2.len() == 0 {
            assert(false);
        }
        lemma_flatten_head(qs2, ps2, d2);
        let l1 = qs1[0].len() as int;
        let l2 = qs2[0].len() as int;
        assert(f[0] == qs1[0][0]);
        assert(f[0] == qs2[0][0]);
        assert(d1[f[0] as int].price == d2[f[0] as int].price);
        assert(ps1[0] == ps2[0]);
        if l1 < l2 {
            assert(f[l1] == qs2[0][l1]);
            assert(d2[f[l1] as int].price == ps2[0]);
            if qs1.len() == 1 {
                assert(flatten(qs1.drop_first()) =~= Seq::<u32>::empty()) by {
                    assert(qs1.drop_first().len() == 0);
                }
                assert(f.len() == l1);
                assert(false);
            }
            assert(f[l1] == qs1[1][0]);
            assert(d1[f[l1] as int].price == ps1[1]);
            assert(d1[f[l1] as int].price == d2[f[l1] as int].price);
            assert(ps1[0] != ps1[1]);
            assert(false);
        }
        if l2 < l1 {
            assert(f[l2] == qs1[0][l2]);
            assert(d1[f[l2] as int].price == ps1[0]);
            if qs2.len() == 1 {
                assert(flatten(qs2.drop_first()) =~= Seq::<u32>::empty()) by {
                    assert(qs2.drop_first().len() == 0);
                }
                assert(false);
            }
            assert(f[l2] == qs2[1][0]);
            assert(d2[f[l2] as int].price == ps2[1]);
            assert(d1[f[l2] as int].price == d2[f[l2] as int].price);
            assert(ps2[0] != ps2[1]);
            assert(false);
        }
        assert(qs1[0] =~= f.take(l1));
        assert(qs2[0] =~= f.take(l1));
        assert(flatten(qs1.drop_first()) =~= f.skip(l1));
        assert(flatten(qs2.drop_first()) =~= f.skip(l1));
        lemma_grouped_drop(qs1, ps1, d1);
        lemma_grouped_drop(qs2, ps2, d2);
        assert forall|n: int| 0 <= n < flatten(qs1.drop_first()).len() implies
            d1[#[trigger] flatten(qs1.drop_first())[n] as int].price == d2[flatten(qs1.drop_first())[n] as int].price by {
            assert(flatten(qs1.drop_first())[n] == f[n + l1]);
        }
        lemma_flatten_unique(qs1.drop_first(), ps1.drop_first(), d1, qs2.drop_first(), ps2.drop_first(), d2);
        assert(qs1 =~= seq![qs1[0]] + qs1.drop_first());
        assert(qs2 =~= seq![qs2[0]] + qs2.drop_first());
        assert(ps1 =~= seq![ps1[0]] + ps1.drop_first());
        assert(ps2 =~= seq![ps2[0]] + ps2.drop_first());
    }
}

/// The reverse flattening flattens the levels in reverse order.
pub proof fn lemma_flatten_rev_reverse(qs: Seq<Seq<u32>>)
    ensures
        flatten_rev(qs) == flatten(qs.reverse()),
    decreases qs.len(),
{
    if qs.len() > 0 {
        lemma_flatten_rev_reverse(qs.drop_last());
        assert(qs.reverse().drop_first() =~= qs.drop_last().reverse());
        assert(qs.reverse()[0] == qs.last());
    } else {
        assert(qs.reverse() =~= Seq::<Seq<u32>>::empty());
    }
}

/// Reversing keeps a grouping.
pub proof fn lemma_grouped_reverse(qs: Seq<Seq<u32>>, ps: Seq<u32>, d: Seq<Order>)
    requires
        grouped(qs, ps, d),
    ensures
        grouped(qs.reverse(), ps.reverse(), d),
{
    let q = qs.reverse();
    let p = ps.reverse();
    let n = qs.len();
    assert forall|i: int, k: int| 0 <= i < q.len() && 0 <= k < q[i].len() implies d[#[trigger] q[i][k] as int].price == p[i] by {
        assert(q[i] == qs[n - 1 - i]);
    }
    assert forall|i: int| 0 <= i < p.len() - 1 implies #[trigger] p[i] != p[i + 1] by {
        assert(p[i] == ps[n - 1 - i] && p[i + 1] == ps[n - 2 - i]);
        assert(ps[n - 2 - i] != ps[n - 2 - i + 1]);
    }
    assert forall|i: int| 0 <= i < q.len() implies (#[trigger] q[i]).len() > 0 by {
        assert(q[i] == qs[n - 1 - i]);
    }
}

/// Two groupings of one reverse flattening, whose records have the same
/// prices in both readings, are the same grouping.
pub proof fn lemma_flatten_rev_unique(qs1: Seq<Seq<u32>>, ps1: Seq<u32>, d1: Seq<Order>, qs2: Seq<Seq<u32>>, ps2: Seq<u32>, d2: Seq<Order>)
    requires
        grouped(qs1, ps1, d1),
        grouped(qs2, ps2, d2),
        flatten_rev(qs1) == flatten_rev(qs2),
        forall|n: int| 0 <= n < flatten_rev(qs1).len() ==> d1[#[trigger] flatten_rev(qs1)[n] as int].price == d2[flatten_rev(qs1)[n] as int].price,
    ensures
        qs1 == qs2,
        ps1 == ps2,
{
    lemma_flatten_rev_reverse(qs1);
    lemma_flatten_rev_reverse(qs2);
    lemma_grouped_reverse(qs1, ps1, d1);
    lemma_grouped_reverse(qs2, ps2, d2);
    lemma_flatten_unique(qs1.reverse(), ps1.reverse(), d1, qs2.reverse(), ps2.reverse(), d2);
    assert(qs1 =~= qs1.reverse().reverse());
    assert(qs2 =~= qs2.reverse().reverse());
    assert(ps1 =~= ps1.reverse().reverse());
    assert(ps2 =~= ps2.reverse().reverse());
}

/// Every record at a level is in the flattening.
pub proof fn lemma_pos_in_flatten(qs: Seq<Seq<u32>>, a: int, k: int)
    requires
        0 <= a < qs.len(),
        0 <= k < qs[a].len(),
    ensures
        flatten(qs).contains(qs[a][k]),
    decreases qs.len(),
{
    assert(flatten(qs) == qs[0] + flatten(qs.drop_first()));
    if a == 0 {
        assert(flatten(qs)[k] == qs[0][k]);
    } else {
        lemma_pos_in_flatten(qs.drop_first(), a - 1, k);
        assert(qs.drop_first()[a - 1] == qs[a]);
        let n = choose|n: int| 0 <= n < flatten(qs.drop_first()).len() && flatten(qs.drop_first())[n] == qs[a][k];
        assert(flatten(qs)[n + qs[0].len()] == qs[a][k]);
    }
}

/// Every record at a level is in the reverse flattening.
pub proof fn lemma_pos_in_flatten_rev(qs: Seq<Seq<u32>>, a: int, k: int)
    requires
        0 <= a < qs.len(),
        0 <= k < qs[a].len(),
    ensures
        flatten_rev(qs).contains(qs[a][k]),
{
    lemma_flatten_rev_reverse(qs);
    let n = qs.len();
    assert(qs.reverse()[n - 1 - a] == qs[a]);
    lemma_pos_in_flatten(qs.reverse(), n - 1 - a, k);
}

} // verus!
