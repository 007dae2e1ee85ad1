//! A 64-bit FNV-1a style fingerprint of an engine's resting state, for
//! checking that two replays of one command stream agree.

use vstd::prelude::*;
use std::collections::BTreeMap;
use vstd::std_specs::iter::IteratorSpec;
use crate::constants::MAX_INSTRUMENTS;
use crate::engine::{MatchingEngine, lemma_wf_book, lemma_held_allocated};
use crate::pool::Order;

verus! {

broadcast use {vstd::std_specs::btree::group_btree_axioms, vstd::laws_cmp::group_laws_cmp};

pub const FNV_OFFSET: u64 = 0xcbf2_9ce4_8422_2325;
pub const FNV_PRIME: u64 = 0x0000_0100_0000_01b3;

/// One mixing step: xor in the value, multiply by the prime, wrapping.
pub open spec fn mix(h: u64, v: u64) -> u64 {
    vstd::wrapping::u64_specs::wrapping_mul(h ^ v, FNV_PRIME)
}

/// Mixing in every value of `vs` in order.
pub open spec fn mix_all(h: u64, vs: Seq<u64>) -> u64
    decreases vs.len(),
{
    if vs.len() == 0 { h } else { mix(mix_all(h, vs.drop_last()), vs.last()) }
}

/// The nine values of a resting order: its key, exchange id, side, price,
/// quantity, remaining quantity, sequence number and client timestamp.
pub open spec fn order_values(k: (u32, u64), o: Order) -> Seq<u64> {
    seq![k.0 as u64, k.1, o.exchange_order_id, o.side as u64, o.price as u64, o.quantity as u64,
        o.remaining as u64, o.sequence_number, o.client_timestamp]
}

/// The values of a book's resting orders, in key order.
pub open spec fn orders_values(entries: Seq<((u32, u64), u32)>, data: Seq<Order>) -> Seq<u64>
    decreases entries.len(),
{
    if entries.len() == 0 {
        Seq::empty()
    } else {
        orders_values(entries.drop_last(), data) + order_values(entries.last().0, data[entries.last().1 as int])
    }
}

/// `a` comes before `b` in key order.
pub open spec fn key_before(a: (u32, u64), b: (u32, u64)) -> bool {
    a.0 < b.0 || (a.0 == b.0 && a.1 < b.1)
}

/// `s` lists every entry of `m` once, in increasing key order.
pub open spec fn lists_in_order(s: Seq<((u32, u64), u32)>, m: Map<(u32, u64), u32>) -> bool {
    &&& forall|i: int, j: int| #![trigger s[i], s[j]] 0 <= i < j < s.len() ==> key_before(s[i].0, s[j].0)
    &&& forall|i: int| 0 <= i < s.len() ==> m.contains_key(#[trigger] s[i].0) && m[s[i].0] == s[i].1
    &&& forall|k: (u32, u64)| #[trigger] m.contains_key(k) ==> exists|i: int| 0 <= i < s.len() && #[trigger] s[i].0 == k
}

/// The entries of `m` in increasing key order.
pub open spec fn sorted_listing(m: Map<(u32, u64), u32>) -> Seq<((u32, u64), u32)> {
    choose|s: Seq<((u32, u64), u32)>| lists_in_order(s, m)
}

/// A book's resting orders by key, in increasing key order.
pub open spec fn book_entries(m: &BTreeMap<(u32, u64), u32>) -> Seq<((u32, u64), u32)> {
    sorted_listing(m@)
}

/// Key order, or equality: a total ordering of keys.
pub open spec fn key_le(a: (u32, u64), b: (u32, u64)) -> bool {
    a == b || key_before(a, b)
}

/// Every finite map has a listing in increasing key order.
pub proof fn lemma_listing_exists(m: Map<(u32, u64), u32>)
    requires
        m.dom().finite(),
    ensures
        lists_in_order(sorted_listing(m), m),
    decreases m.dom().len(),
{
    if m.dom().len() == 0 {
        let s = Seq::<((u32, u64), u32)>::empty();
        assert forall|k: (u32, u64)| #[trigger] m.contains_key(k) implies exists|i: int| 0 <= i < s.len() && #[trigger] s[i].0 == k by {
            assert(m.dom().contains(k));
            assert(m.dom().remove(k).len() == m.dom().len() - 1);
            assert(false);
        }
        assert(lists_in_order(s, m));
    } else {
        let r = |a: (u32, u64), b: (u32, u64)| key_le(a, b);
        assert(vstd::relations::total_ordering(r));
        m.dom().find_unique_maximal_ensures(r);
        let mx = m.dom().find_unique_maximal(r);
        let m2 = m.remove(mx);
        assert(m2.dom() =~= m.dom().remove(mx));
        lemma_listing_exists(m2);
        let s2 = sorted_listing(m2);
        let s = s2.push((mx, m[mx]));
        assert forall|i: int| 0 <= i < s2.len() implies #[trigger] key_before(s2[i].0, mx) by {
            assert(m.dom().contains(s2[i].0));
            assert(s2[i].0 != mx);
            if key_before(mx, s2[i].0) {
                assert(r(mx, s2[i].0));
                assert(r(s2[i].0, mx));
            }
        }
        assert forall|i: int, j: int| #![trigger s[i], s[j]] 0 <= i < j < s.len() implies key_before(s[i].0, s[j].0) by {
            if j == s2.len() {
                assert(key_before(s2[i].0, mx));
            } else {
                assert(s[i] == s2[i] && s[j] == s2[j]);
            }
        }
        assert forall|i: int| 0 <= i < s.len() implies m.contains_key(#[trigger] s[i].0) && m[s[i].0] == s[i].1 by {
            if i < s2.len() {
                assert(s[i] == s2[i]);
                assert(m2.contains_key(s2[i].0));
            }
        }
        assert forall|k: (u32, u64)| #[trigger] m.contains_key(k) implies exists|i: int| 0 <= i < s.len() && #[trigger] s[i].0 == k by {
            if k == mx {
                assert(s[s2.len() as int].0 == k);
            } else {
                assert(m2.contains_key(k));
                let i = choose|i: int| 0 <= i < s2.len() && #[trigger] s2[i].0 == k;
                assert(s[i].0 == k);
            }
        }
        assert(lists_in_order(s, m));
    }
}

/// A map has one listing in increasing key order.
pub proof fn lemma_lists_unique(s1: Seq<((u32, u64), u32)>, s2: Seq<((u32, u64), u32)>, m: Map<(u32, u64), u32>)
    requires
        lists_in_order(s1, m),
        lists_in_order(s2, m),
    ensures
        s1 == s2,
    decreases s1.len(),
{
    if s1.len() == 0 {
        if s2.len() > 0 {
            assert(m.contains_key(s2[0].0));
            let i = choose|i: int| 0 <= i < s1.len() && #[trigger] s1[i].0 == s2[0].0;
            assert(false);
        }
        assert(s1 =~= s2);
    } else {
        let k0 = s1[0].0;
        assert(m.contains_key(k0));
        let j = choose|j: int| 0 <= j < s2.len() && #[trigger] s2[j].0 == k0;
        assert(m.contains_key(s2[0].0));
        let i = choose|i: int| 0 <= i < s1.len() && #[trigger] s1[i].0 == s2[0].0;
        if j > 0 {
            assert(key_before(s2[0].0, s2[j].0));
            if i > 0 {
                assert(key_before(s1[0].0, s1[i].0));
            }
            assert(false);
        }
        assert(s1[0] == s2[0]);
        let m2 = m.remove(k0);
        let t1 = s1.drop_first();
        let t2 = s2.drop_first();
        assert forall|a: int| 0 <= a < t1.len() implies m2.contains_key(#[trigger] t1[a].0) && m2[t1[a].0] == t1[a].1 by {
            assert(t1[a] == s1[a + 1]);
            assert(key_before(s1[0].0, s1[a + 1].0));
        }
        assert forall|a: int| 0 <= a < t2.len() implies m2.contains_key(#[trigger] t2[a].0) && m2[t2[a].0] == t2[a].1 by {
            assert(t2[a] == s2[a + 1]);
            assert(key_before(s2[0].0, s2[a + 1].0));
        }
        assert forall|k: (u32, u64)| #[trigger] m2.contains_key(k) implies exists|a: int| 0 <= a < t1.len() && #[trigger] t1[a].0 == k by {
            let a = choose|a: int| 0 <= a < s1.len() && #[trigger] s1[a].0 == k;
            assert(a != 0);
            assert(t1[a - 1].0 == k);
        }
        assert forall|k: (u32, u64)| #[trigger] m2.contains_key(k) implies exists|a: int| 0 <= a < t2.len() && #[trigger] t2[a].0 == k by {
            let a = choose|a: int| 0 <= a < s2.len() && #[trigger] s2[a].0 == k;
            assert(a != 0);
            assert(t2[a - 1].0 == k);
        }
        assert forall|a: int, b: int| #![trigger t1[a], t1[b]] 0 <= a < b < t1.len() implies key_before(t1[a].0, t1[b].0) by {
            assert(t1[a] == s1[a + 1] && t1[b] == s1[b + 1]);
        }
        assert forall|a: int, b: int| #![trigger t2[a], t2[b]] 0 <= a < b < t2.len() implies key_before(t2[a].0, t2[b].0) by {
            assert(t2[a] == s2[a + 1] && t2[b] == s2[b + 1]);
        }
        lemma_lists_unique(t1, t2, m2);
        assert(s1 =~= seq![s1[0]] + t1);
        assert(s2 =~= seq![s2[0]] + t2);
    }
}

/// Keys in increasing comparison order are in increasing key order.
pub proof fn lemma_increasing_keys(ks: Seq<(u32, u64)>)
    requires
        vstd::std_specs::btree::increasing_seq(ks),
    ensures
        forall|i: int, j: int| #![trigger ks[i], ks[j]] 0 <= i < j < ks.len() ==> key_before(ks[i], ks[j]),
{
    broadcast use vstd::std_specs::btree::axiom_increasing_seq_meaning;
    assert forall|i: int, j: int| #![trigger ks[i], ks[j]] 0 <= i < j < ks.len() implies key_before(ks[i], ks[j]) by {
        assert(vstd::std_specs::cmp::OrdSpec::cmp_spec(&ks[i], &ks[j]) is Less);
    }
}

/// The values of the books before `n`: each book's number and order count,
/// then its orders' values.
pub open spec fn books_values(e: MatchingEngine, n: int) -> Seq<u64>
    decreases n,
{
    if n <= 0 {
        Seq::empty()
    } else {
        let b = &e.books@[n - 1];
        books_values(e, n - 1) + seq![(n - 1) as u64, book_entries(&b.order_map).len() as u64]
            + orders_values(book_entries(&b.order_map), e.pool.data@)
    }
}

/// Everything the fingerprint covers, in order.
pub open spec fn engine_values(e: MatchingEngine) -> Seq<u64> {
    seq![e.next_exchange_order_id, e.next_sequence_number, e.pool.allocated_count as u64]
        + books_values(e, e.books@.len() as int)
}

/// The fingerprint of an engine's state.
pub open spec fn spec_fingerprint(e: MatchingEngine) -> u64 {
    mix_all(FNV_OFFSET, engine_values(e))
}

/// Mixing a concatenation mixes one part after the other.
pub proof fn lemma_mix_all_concat(h: u64, a: Seq<u64>, b: Seq<u64>)
    ensures
        mix_all(h, a + b) == mix_all(mix_all(h, a), b),
    decreases b.len(),
{
    if b.len() == 0 {
        assert(a + b =~= a);
    } else {
        assert((a + b).drop_last() =~= a + b.drop_last());
        lemma_mix_all_concat(h, a, b.drop_last());
    }
}

fn mix_in(h: u64, v: u64) -> (r: u64)
    ensures
        r == mix(h, v),
{
    (h ^ v).wrapping_mul(FNV_PRIME)
}

/// Mixing in one order's nine values.
fn mix_order(h: u64, key: (u32, u64), order: &Order) -> (r: u64)
    ensures
        r == mix_all(h, order_values(key, *order)),
{
    let mut x = mix_in(h, key.0 as u64);
    x = mix_in(x, key.1);
    x = mix_in(x, order.exchange_order_id);
    x = mix_in(x, order.side as u64);
    x = mix_in(x, order.price as u64);
    x = mix_in(x, order.quantity as u64);
    x = mix_in(x, order.remaining as u64);
    x = mix_in(x, order.sequence_number);
    x = mix_in(x, order.client_timestamp);
    proof {
        let vs = order_values(key, *order);
        reveal_with_fuel(mix_all, 10);
        assert(vs.drop_last().drop_last().drop_last().drop_last().drop_last().drop_last().drop_last().drop_last().drop_last() =~= Seq::<u64>::empty());
        assert(vs.drop_last().drop_last().drop_last().drop_last().drop_last().drop_last().drop_last().drop_last() =~= seq![key.0 as u64]);
    }
    x
}

/// Mixing in two values.
fn mix_two(h: u64, a: u64, b: u64) -> (r: u64)
    ensures
        r == mix_all(h, seq![a, b]),
{
    let x = mix_in(h, a);
    let y = mix_in(x, b);
    proof {
        reveal_with_fuel(mix_all, 3);
        assert(seq![a, b].drop_last().drop_last() =~= Seq::<u64>::empty());
        assert(seq![a, b].drop_last() =~= seq![a]);
    }
    y
}

/// Every record a book's map names is a slot of the pool.
pub proof fn lemma_map_indexes(e: MatchingEngine, b: int)
    requires
        e.wf(),
        0 <= b < e.books@.len(),
    ensures
        forall|k: (u32, u64)| #[trigger] e.books@[b].order_map@.contains_key(k) ==> e.books@[b].order_map@[k] < e.pool.data@.len(),
{
    crate::engine::lemma_wf_pool(e);
    lemma_wf_book(e, b);
    assert forall|k: (u32, u64)| #[trigger] e.books@[b].order_map@.contains_key(k) implies e.books@[b].order_map@[k] < e.pool.data@.len() by {
        lemma_held_allocated(&e.books@[b], &e.pool, e.books@[b].order_map@[k]);
    }
}

/// Orders of one more entry.
pub proof fn lemma_orders_step(entries: Seq<((u32, u64), u32)>, data: Seq<Order>, j: int)
    requires
        0 <= j < entries.len(),
    ensures
        orders_values(entries.take(j + 1), data) == orders_values(entries.take(j), data) + order_values(entries[j].0, data[entries[j].1 as int]),
{
    assert(entries.take(j + 1).drop_last() =~= entries.take(j));
    assert(entries.take(j + 1).last() == entries[j]);
}

impl MatchingEngine {
    /// Mixing in book `i`, whose orders by key are `map`: its number, its
    /// order count and its orders.
    #[verifier::spinoff_prover]
    fn mix_book(map: &BTreeMap<(u32, u64), u32>, data: &Vec<Order>, i: usize, h0: u64) -> (r: u64)
        requires
            forall|k: (u32, u64)| #[trigger] map@.contains_key(k) ==> map@[k] < data@.len(),
        ensures
            r == mix_all(h0, seq![i as u64, book_entries(map).len() as u64] + orders_values(book_entries(map), data@)),
    {
        let ghost entries = vstd::std_specs::btree::into_iter(vstd::std_specs::btree::spec_btree_map_iter(map));
        let count = map.len();
        let iter = map.iter();
        proof {
            assert(iter.remaining().unref() =~= entries);
            let ks = iter.remaining().map_values(|kv: (&(u32, u64), &u32)| *kv.0);
            lemma_increasing_keys(ks);
            assert forall|i: int, j: int| #![trigger entries[i], entries[j]] 0 <= i < j < entries.len() implies key_before(entries[i].0, entries[j].0) by {
                assert(ks[i] == entries[i].0 && ks[j] == entries[j].0);
            }
            assert forall|i: int| 0 <= i < entries.len() implies map@.contains_key(#[trigger] entries[i].0) && map@[entries[i].0] == entries[i].1 by {
                assert(map@.contains_key(*iter.remaining()[i].0));
            }
            assert forall|k: (u32, u64)| #[trigger] map@.contains_key(k) implies exists|i: int| 0 <= i < entries.len() && #[trigger] entries[i].0 == k by {
                assert(iter.remaining().contains((&k, &map@[k])));
                let i = choose|i: int| 0 <= i < iter.remaining().len() && iter.remaining()[i] == (&k, &map@[k]);
                assert(entries[i].0 == k);
            }
            assert(lists_in_order(entries, map@));
            lemma_lists_unique(book_entries(map), entries, map@);
        }
        let mut h = mix_two(h0, i as u64, count as u64);
        let ghost start = seq![i as u64, count as u64];
        proof {
            assert(orders_values(entries.take(0), data@) =~= Seq::<u64>::empty());
            assert(start + Seq::<u64>::empty() =~= start);
        }
        for kv in it: iter
            invariant
                it.seq().unref() == entries,
                forall|k: (u32, u64)| #[trigger] map@.contains_key(k) ==> map@[k] < data@.len(),
                forall|j: int| 0 <= j < entries.len() ==> #[trigger] map@.contains_key(entries[j].0) && map@[entries[j].0] == entries[j].1,
                h == mix_all(h0, start + orders_values(entries.take(it.index()), data@)),
        {
            let ghost j = it.index();
            let key = *kv.0;
            let idx = *kv.1;
            proof {
                assert(entries[j] == (key, idx));
                assert(map@.contains_key(key));
                lemma_orders_step(entries, data@, j);
            }
            let ghost so_far = start + orders_values(entries.take(j), data@);
            h = mix_order(h, key, &data[idx as usize]);
            proof {
                let vals = order_values(key, data@[idx as int]);
                lemma_mix_all_concat(h0, so_far, vals);
                assert(so_far + vals =~= start + orders_values(entries.take(j + 1), data@));
            }
        }
        proof {
            assert(entries.take(entries.len() as int) =~= entries);
        }
        h
    }

    /// The engine's fingerprint: FNV-style mixing of its counters and of
    /// every book's resting orders. Orders are taken in key order, which is
    /// also the order of the value tuples, since each begins with its key.
    pub fn state_fingerprint(&self) -> (r: u64)
        requires
            self.wf(),
        ensures
            r == spec_fingerprint(*self),
    {
        let ghost e = *self;
        let mut h = FNV_OFFSET;
        h = mix_in(h, self.next_exchange_order_id);
        h = mix_in(h, self.next_sequence_number);
        h = mix_in(h, self.pool.allocated_count as u64);
        let ghost head = seq![e.next_exchange_order_id, e.next_sequence_number, e.pool.allocated_count as u64];
        proof {
            reveal_with_fuel(mix_all, 4);
            assert(head.drop_last().drop_last().drop_last() =~= Seq::<u64>::empty());
            assert(head.drop_last().drop_last() =~= seq![e.next_exchange_order_id]);
            assert(head.drop_last() =~= seq![e.next_exchange_order_id, e.next_sequence_number]);
            assert(head + books_values(e, 0) =~= head);
        }
        let n = self.books.len();
        let mut i: usize = 0;
        while i < n
            invariant
                *self == e,
                e.wf(),
                n == e.books@.len(),
                i <= n,
                h == mix_all(FNV_OFFSET, head + books_values(e, i as int)),
            decreases n - i,
        {
            let ghost before = head + books_values(e, i as int);
            let ghost part = seq![i as u64, book_entries(&e.books@[i as int].order_map).len() as u64]
                + orders_values(book_entries(&e.books@[i as int].order_map), e.pool.data@);
            proof {
                lemma_map_indexes(e, i as int);
            }
            h = MatchingEngine::mix_book(&self.books[i].order_map, &self.pool.data, i, h);
            proof {
                lemma_mix_all_concat(FNV_OFFSET, before, part);
                assert(head + books_values(e, i + 1) =~= before + part);
            }
            i = i + 1;
        }
        h
    }
}

} // verus!
