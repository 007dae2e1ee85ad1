//! Double-entry ledger with all-or-nothing validation of transfer batches,
//! integer fees, and trade settlement on top of it.

use vstd::prelude::*;
use std::collections::BTreeMap;
use vstd::std_specs::iter::IteratorSpec;

verus! {

broadcast use {vstd::std_specs::btree::group_btree_axioms, vstd::laws_cmp::group_laws_cmp};

#[derive(Debug, Clone, Copy, PartialEq, Eq, Structural, PartialOrd, Ord)]
pub struct AssetId(pub u32);

#[derive(Debug, Clone, Copy, PartialEq, Eq, Structural)]
pub enum LedgerKind {
    TradeCash,
    TradeSecurity,
    Fee,
}

#[derive(Debug, Clone, Copy, PartialEq, Eq, Structural)]
pub struct Transfer {
    pub trade_id: u64,
    pub sequence: u64,
    pub debit_account: u32,
    pub credit_account: u32,
    pub asset: AssetId,
    pub amount: i128,
    pub kind: LedgerKind,
}

#[derive(Debug, Clone, Copy, PartialEq, Eq, Structural)]
pub struct LedgerEntry {
    pub entry_id: u64,
    pub trade_id: u64,
    pub sequence: u64,
    pub debit_account: u32,
    pub credit_account: u32,
    pub asset: AssetId,
    pub amount: i128,
    pub kind: LedgerKind,
}

#[derive(Debug, Clone, Copy, PartialEq, Eq, Structural)]
pub enum LedgerError {
    InvalidAmount,
    SelfTransfer,
    InsufficientBalance,
    ArithmeticOverflow,
    DuplicateTrade,
    UnknownTrade,
}

/// Balances per `(account, asset)`, the journal of posted entries and the
/// id the next entry gets.
#[derive(Debug)]
pub struct DoubleEntryLedger {
    balances: BTreeMap<(u32, u32), i128>,
    entries: Vec<LedgerEntry>,
    next_entry_id: u64,
}

/// What a ledger is.
#[verifier::ext_equal]
pub struct LedgerModel {
    pub balances: Map<(u32, u32), i128>,
    pub entries: Seq<LedgerEntry>,
    pub next_entry_id: u64,
}

impl View for DoubleEntryLedger {
    type V = LedgerModel;

    closed spec fn view(&self) -> LedgerModel {
        LedgerModel { balances: self.balances@, entries: self.entries@, next_entry_id: self.next_entry_id }
    }
}

/// Balance under `k`, zero when there is none.
pub open spec fn bal(m: Map<(u32, u32), i128>, k: (u32, u32)) -> int {
    if m.contains_key(k) { m[k] as int } else { 0 }
}

fn map_bal(m: &BTreeMap<(u32, u32), i128>, k: (u32, u32)) -> (r: i128)
    ensures
        r == bal(m@, k),
{
    match m.get(&k) {
        Some(v) => *v,
        None => 0,
    }
}

impl DoubleEntryLedger {
    /// An empty ledger whose first entry gets id 1.
    pub fn new() -> (r: DoubleEntryLedger)
        ensures
            r@ == (LedgerModel { balances: Map::empty(), entries: Seq::empty(), next_entry_id: 1 }),
    {
        let r = DoubleEntryLedger { balances: BTreeMap::new(), entries: Vec::new(), next_entry_id: 1 };
        proof {
            assert(r@ =~= (LedgerModel { balances: Map::empty(), entries: Seq::empty(), next_entry_id: 1 }));
        }
        r
    }

    /// Adds a non-negative amount to a balance.
    pub fn seed(&mut self, account_id: u32, asset: AssetId, amount: i128) -> (r: Result<(), LedgerError>)
        ensures
            ({
                let s = old(self)@;
                let k = (account_id, asset.0);
                if amount < 0 {
                    r == Err::<(), LedgerError>(LedgerError::InvalidAmount) && final(self)@ == s
                } else if bal(s.balances, k) + amount > i128::MAX {
                    r == Err::<(), LedgerError>(LedgerError::ArithmeticOverflow) && final(self)@ == s
                } else {
                    r is Ok && final(self)@ == (LedgerModel { balances: s.balances.insert(k, (bal(s.balances, k) + amount) as i128), ..s })
                }
            }),
    {
        if amount < 0 {
            return Err(LedgerError::InvalidAmount);
        }
        let k = (account_id, asset.0);
        let current = map_bal(&self.balances, k);
        if current > i128::MAX - amount {
            return Err(LedgerError::ArithmeticOverflow);
        }
        self.balances.insert(k, current + amount);
        proof {
            assert(self@ =~= (LedgerModel { balances: old(self)@.balances.insert(k, (current + amount) as i128), ..old(self)@ }));
        }
        Ok(())
    }

    pub fn balance(&self, account_id: u32, asset: AssetId) -> (r: i128)
        ensures
            r == bal(self@.balances, (account_id, asset.0)),
    {
        map_bal(&self.balances, (account_id, asset.0))
    }

    pub fn entries(&self) -> (r: &[LedgerEntry])
        ensures
            r@ == self@.entries,
    {
        self.entries.as_slice()
    }
}

/// Balance key of a transfer's debit side.
pub open spec fn debit_key(t: Transfer) -> (u32, u32) {
    (t.debit_account, t.asset.0)
}

/// Balance key of a transfer's credit side.
pub open spec fn credit_key(t: Transfer) -> (u32, u32) {
    (t.credit_account, t.asset.0)
}

/// Net change per balance of one more transfer, each addition checked.
pub open spec fn delta_step(d: Map<(u32, u32), i128>, t: Transfer) -> Result<Map<(u32, u32), i128>, LedgerError> {
    let nd = bal(d, debit_key(t)) - t.amount;
    let d1 = d.insert(debit_key(t), nd as i128);
    let nc = bal(d1, credit_key(t)) + t.amount;
    if t.amount <= 0 {
        Err(LedgerError::InvalidAmount)
    } else if t.debit_account == t.credit_account {
        Err(LedgerError::SelfTransfer)
    } else if nd < i128::MIN {
        Err(LedgerError::ArithmeticOverflow)
    } else if nc > i128::MAX {
        Err(LedgerError::ArithmeticOverflow)
    } else {
        Ok(d1.insert(credit_key(t), nc as i128))
    }
}

/// Net change per balance of a batch, or the first transfer's error.
pub open spec fn spec_deltas(ts: Seq<Transfer>) -> Result<Map<(u32, u32), i128>, LedgerError>
    decreases ts.len(),
{
    if ts.len() == 0 {
        Ok(Map::empty())
    } else {
        match spec_deltas(ts.drop_last()) {
            Err(e) => Err(e),
            Ok(d) => delta_step(d, ts.last()),
        }
    }
}

/// `a` comes no later than `b` in key order.
pub open spec fn key_le(a: (u32, u32), b: (u32, u32)) -> bool {
    a.0 < b.0 || (a.0 == b.0 && a.1 <= b.1)
}

/// Applying net change `d` would push balance `k` out of range or below
/// zero.
pub open spec fn is_bad(b: Map<(u32, u32), i128>, d: Map<(u32, u32), i128>, k: (u32, u32)) -> bool {
    let next = bal(b, k) + d[k];
    next > i128::MAX || next < i128::MIN || next < 0
}

/// Which error a bad balance reports.
pub open spec fn bad_error(b: Map<(u32, u32), i128>, d: Map<(u32, u32), i128>, k: (u32, u32)) -> LedgerError {
    let next = bal(b, k) + d[k];
    if next > i128::MAX || next < i128::MIN { LedgerError::ArithmeticOverflow } else { LedgerError::InsufficientBalance }
}

/// `k` is the first bad balance in key order.
pub open spec fn first_bad_key(b: Map<(u32, u32), i128>, d: Map<(u32, u32), i128>, k: (u32, u32)) -> bool {
    &&& d.contains_key(k)
    &&& is_bad(b, d, k)
    &&& forall|k2: (u32, u32)| d.contains_key(k2) && is_bad(b, d, k2) ==> key_le(k, k2)
}

/// The error of the first bad balance in key order, if any.
pub open spec fn spec_first_bad(b: Map<(u32, u32), i128>, d: Map<(u32, u32), i128>) -> Option<LedgerError> {
    if exists|k: (u32, u32)| first_bad_key(b, d, k) {
        Some(bad_error(b, d, choose|k: (u32, u32)| first_bad_key(b, d, k)))
    } else {
        None
    }
}

/// The entry a transfer is journaled as.
pub open spec fn spec_entry(t: Transfer, id: u64) -> LedgerEntry {
    LedgerEntry {
        entry_id: id,
        trade_id: t.trade_id,
        sequence: t.sequence,
        debit_account: t.debit_account,
        credit_account: t.credit_account,
        asset: t.asset,
        amount: t.amount,
        kind: t.kind,
    }
}

/// Posting one transfer: debit, credit, journal entry, each step checked
/// and kept when a later one fails.
pub open spec fn apply_one(s: LedgerModel, t: Transfer) -> (LedgerModel, Result<(), LedgerError>) {
    let nd = bal(s.balances, debit_key(t)) - t.amount;
    let b1 = s.balances.insert(debit_key(t), nd as i128);
    let nc = bal(b1, credit_key(t)) + t.amount;
    let b2 = b1.insert(credit_key(t), nc as i128);
    if nd < i128::MIN || nd > i128::MAX {
        (s, Err(LedgerError::ArithmeticOverflow))
    } else if nc > i128::MAX || nc < i128::MIN {
        (LedgerModel { balances: b1, ..s }, Err(LedgerError::ArithmeticOverflow))
    } else if s.next_entry_id == u64::MAX {
        (LedgerModel { balances: b2, ..s }, Err(LedgerError::ArithmeticOverflow))
    } else {
        (LedgerModel { balances: b2, entries: s.entries.push(spec_entry(t, s.next_entry_id)), next_entry_id: (s.next_entry_id + 1) as u64 }, Ok(()))
    }
}

/// Posting transfers in order until one fails.
pub open spec fn spec_apply(s: LedgerModel, ts: Seq<Transfer>) -> (LedgerModel, Result<(), LedgerError>)
    decreases ts.len(),
{
    if ts.len() == 0 {
        (s, Ok(()))
    } else {
        let (s1, r) = spec_apply(s, ts.drop_last());
        match r {
            Err(e) => (s1, Err(e)),
            Ok(_) => apply_one(s1, ts.last()),
        }
    }
}

/// The outcome of posting a batch: nothing is written unless every
/// transfer is valid and every balance it touches stays in range and
/// non-negative; then the transfers are posted in order.
pub open spec fn spec_post_batch(s: LedgerModel, ts: Seq<Transfer>) -> (LedgerModel, Result<(), LedgerError>) {
    if ts.len() == 0 {
        (s, Ok(()))
    } else {
        match spec_deltas(ts) {
            Err(e) => (s, Err(e)),
            Ok(d) => match spec_first_bad(s.balances, d) {
                Some(e) => (s, Err(e)),
                None => spec_apply(s, ts),
            },
        }
    }
}

/// An error in a prefix of a batch is the batch's error.
pub proof fn lemma_deltas_err(ts: Seq<Transfer>, i: int)
    requires
        0 <= i <= ts.len(),
        spec_deltas(ts.take(i)) is Err,
    ensures
        spec_deltas(ts) == spec_deltas(ts.take(i)),
    decreases ts.len() - i,
{
    if i < ts.len() {
        assert(ts.take(i + 1).drop_last() =~= ts.take(i));
        lemma_deltas_err(ts, i + 1);
    } else {
        assert(ts.take(i) =~= ts);
    }
}

/// A failed posting step stops the batch.
pub proof fn lemma_apply_err(s: LedgerModel, ts: Seq<Transfer>, i: int)
    requires
        0 <= i <= ts.len(),
        spec_apply(s, ts.take(i)).1 is Err,
    ensures
        spec_apply(s, ts) == spec_apply(s, ts.take(i)),
    decreases ts.len() - i,
{
    if i < ts.len() {
        assert(ts.take(i + 1).drop_last() =~= ts.take(i));
        lemma_apply_err(s, ts, i + 1);
    } else {
        assert(ts.take(i) =~= ts);
    }
}

impl DoubleEntryLedger {
    /// Net change per balance of a batch, and the keys it touches.
    fn compute_deltas(transfers: &[Transfer]) -> (r: Result<(BTreeMap<(u32, u32), i128>, Vec<(u32, u32)>), LedgerError>)
        ensures
            match r {
                Ok((d, keys)) => spec_deltas(transfers@) == Ok::<Map<(u32, u32), i128>, LedgerError>(d@)
                    && keys@.no_duplicates() && keys@.to_set() == d@.dom(),
                Err(e) => spec_deltas(transfers@) == Err::<Map<(u32, u32), i128>, LedgerError>(e),
            },
    {
        let ghost ts = transfers@;
        let mut deltas: BTreeMap<(u32, u32), i128> = BTreeMap::new();
        let mut keys: Vec<(u32, u32)> = Vec::new();
        let n = transfers.len();
        let mut i: usize = 0;
        proof {
            assert(ts.take(0) =~= Seq::<Transfer>::empty());
            assert(keys@.to_set() =~= deltas@.dom());
        }
        while i < n
            invariant
                i <= n,
                n == ts.len(),
                ts == transfers@,
                spec_deltas(ts.take(i as int)) == Ok::<Map<(u32, u32), i128>, LedgerError>(deltas@),
                keys@.no_duplicates(),
                keys@.to_set() == deltas@.dom(),
            decreases n - i,
        {
            let t = transfers[i];
            proof {
                assert(ts.take(i + 1).drop_last() =~= ts.take(i as int));
                assert(ts.take(i + 1).last() == t);
            }
            if t.amount <= 0 {
                proof { lemma_deltas_err(ts, i + 1); }
                return Err(LedgerError::InvalidAmount);
            }
            if t.debit_account == t.credit_account {
                proof { lemma_deltas_err(ts, i + 1); }
                return Err(LedgerError::SelfTransfer);
            }
            let dk = (t.debit_account, t.asset.0);
            let ck = (t.credit_account, t.asset.0);
            let dcur = map_bal(&deltas, dk);
            if dcur < i128::MIN + t.amount {
                proof { lemma_deltas_err(ts, i + 1); }
                return Err(LedgerError::ArithmeticOverflow);
            }
            if !deltas.contains_key(&dk) {
                let ghost k0 = keys@;
                proof {
                    assert(!keys@.contains(dk));
                }
                keys.push(dk);
                proof {
                    k0.lemma_push_to_set_commute(dk);
                }
            }
            deltas.insert(dk, dcur - t.amount);
            let ccur = map_bal(&deltas, ck);
            if ccur > i128::MAX - t.amount {
                proof { lemma_deltas_err(ts, i + 1); }
                return Err(LedgerError::ArithmeticOverflow);
            }
            if !deltas.contains_key(&ck) {
                let ghost k0 = keys@;
                proof {
                    assert(!keys@.contains(ck));
                }
                keys.push(ck);
                proof {
                    k0.lemma_push_to_set_commute(ck);
                }
            }
            deltas.insert(ck, ccur + t.amount);
            proof {
                assert(keys@.to_set() =~= deltas@.dom());
            }
            i = i + 1;
        }
        proof {
            assert(ts.take(n as int) =~= ts);
        }
        Ok((deltas, keys))
    }
}

impl DoubleEntryLedger {
    /// The error of the first balance, in key order, that net change `d`
    /// would push out of range or below zero.
    fn find_first_bad(&self, d: &BTreeMap<(u32, u32), i128>, keys: &Vec<(u32, u32)>) -> (r: Option<LedgerError>)
        requires
            keys@.no_duplicates(),
            keys@.to_set() == d@.dom(),
        ensures
            r == spec_first_bad(self@.balances, d@),
    {
        let ghost b = self@.balances;
        let ghost dm = d@;
        let mut best: Option<((u32, u32), LedgerError)> = None;
        let n = keys.len();
        let mut j: usize = 0;
        while j < n
            invariant
                j <= n,
                n == keys@.len(),
                b == self@.balances,
                dm == d@,
                keys@.to_set() == dm.dom(),
                best is None ==> forall|t: int| 0 <= t < j ==> !is_bad(b, dm, #[trigger] keys@[t]),
                best matches Some((k, e)) ==> {
                    &&& dm.contains_key(k)
                    &&& is_bad(b, dm, k)
                    &&& e == bad_error(b, dm, k)
                    &&& forall|t: int| 0 <= t < j && is_bad(b, dm, #[trigger] keys@[t]) ==> key_le(k, keys@[t])
                },
            decreases n - j,
        {
            let k = keys[j];
            proof {
                assert(keys@.to_set().contains(k));
            }
            let delta = match d.get(&k) {
                Some(v) => *v,
                None => 0,
            };
            let current = map_bal(&self.balances, k);
            let err = if (delta > 0 && current > i128::MAX - delta) || (delta < 0 && current < i128::MIN - delta) {
                Some(LedgerError::ArithmeticOverflow)
            } else if current + delta < 0 {
                Some(LedgerError::InsufficientBalance)
            } else {
                None
            };
            match err {
                Some(e) => {
                    let better = match best {
                        None => true,
                        Some((bk, _)) => k.0 < bk.0 || (k.0 == bk.0 && k.1 < bk.1),
                    };
                    if better {
                        best = Some((k, e));
                    }
                },
                None => {},
            }
            j = j + 1;
        }
        proof {
            match best {
                None => {
                    if exists|k: (u32, u32)| first_bad_key(b, dm, k) {
                        let k = choose|k: (u32, u32)| first_bad_key(b, dm, k);
                        assert(keys@.to_set().contains(k));
                        let t = choose|t: int| 0 <= t < keys@.len() && keys@[t] == k;
                        assert(!is_bad(b, dm, keys@[t]));
                    }
                },
                Some((k, e)) => {
                    assert forall|k2: (u32, u32)| dm.contains_key(k2) && is_bad(b, dm, k2) implies key_le(k, k2) by {
                        assert(keys@.to_set().contains(k2));
                        let t = choose|t: int| 0 <= t < keys@.len() && keys@[t] == k2;
                        assert(is_bad(b, dm, keys@[t]));
                    }
                    assert(first_bad_key(b, dm, k));
                    let k1 = choose|k: (u32, u32)| first_bad_key(b, dm, k);
                    assert(key_le(k, k1) && key_le(k1, k));
                    assert(k1 == k);
                },
            }
        }
        match best {
            Some((_, e)) => Some(e),
            None => None,
        }
    }
}

impl DoubleEntryLedger {
    /// Posts transfers in order, stopping at the first step that fails.
    fn apply_all(&mut self, transfers: &[Transfer]) -> (r: Result<(), LedgerError>)
        ensures
            spec_apply(old(self)@, transfers@) == (final(self)@, r),
    {
        let ghost ts = transfers@;
        let ghost s0 = self@;
        let n = transfers.len();
        let mut i: usize = 0;
        proof {
            assert(ts.take(0) =~= Seq::<Transfer>::empty());
        }
        while i < n
            invariant
                i <= n,
                n == ts.len(),
                ts == transfers@,
                spec_apply(s0, ts.take(i as int)) == (self@, Ok::<(), LedgerError>(())),
                s0 == old(self)@,
            decreases n - i,
        {
            let t = transfers[i];
            let ghost si = self@;
            proof {
                assert(ts.take(i + 1).drop_last() =~= ts.take(i as int));
                assert(ts.take(i + 1).last() == t);
            }
            let dk = (t.debit_account, t.asset.0);
            let ck = (t.credit_account, t.asset.0);
            let dcur = map_bal(&self.balances, dk);
            if (t.amount > 0 && dcur < i128::MIN + t.amount) || (t.amount < 0 && dcur > i128::MAX + t.amount) {
                proof {
                    assert(apply_one(si, t) == (si, Err::<(), LedgerError>(LedgerError::ArithmeticOverflow)));
                    assert(spec_apply(s0, ts.take(i + 1)) == apply_one(si, t));
                    lemma_apply_err(s0, ts, i + 1);
                    assert(spec_apply(s0, ts) == (si, Err::<(), LedgerError>(LedgerError::ArithmeticOverflow)));
                    assert(self@ == si);
                }
                return Err(LedgerError::ArithmeticOverflow);
            }
            self.balances.insert(dk, dcur - t.amount);
            let ccur = map_bal(&self.balances, ck);
            if (t.amount > 0 && ccur > i128::MAX - t.amount) || (t.amount < 0 && ccur < i128::MIN - t.amount) {
                proof {
                    assert(self@ =~= (LedgerModel { balances: si.balances.insert(dk, (dcur - t.amount) as i128), ..si }));
                    assert(apply_one(si, t).1 is Err);
                    assert(apply_one(si, t).0 == self@);
                    assert(spec_apply(s0, ts.take(i + 1)) == apply_one(si, t));
                    lemma_apply_err(s0, ts, i + 1);
                }
                return Err(LedgerError::ArithmeticOverflow);
            }
            self.balances.insert(ck, ccur + t.amount);
            if self.next_entry_id == u64::MAX {
                proof {
                    assert(self@ =~= apply_one(si, t).0);
                    lemma_apply_err(s0, ts, i + 1);
                }
                return Err(LedgerError::ArithmeticOverflow);
            }
            let entry = LedgerEntry {
                entry_id: self.next_entry_id,
                trade_id: t.trade_id,
                sequence: t.sequence,
                debit_account: t.debit_account,
                credit_account: t.credit_account,
                asset: t.asset,
                amount: t.amount,
                kind: t.kind,
            };
            self.next_entry_id = self.next_entry_id + 1;
            self.entries.push(entry);
            proof {
                assert(self@ =~= apply_one(si, t).0);
            }
            i = i + 1;
        }
        proof {
            assert(ts.take(n as int) =~= ts);
        }
        Ok(())
    }

    /// Posts a batch of transfers all or nothing: every transfer must move
    /// a positive amount between two different accounts, and every balance
    /// the batch touches must end in range and non-negative; only then are
    /// the transfers posted and journaled, in order.
    pub fn post_batch(&mut self, transfers: &[Transfer]) -> (r: Result<(), LedgerError>)
        ensures
            spec_post_batch(old(self)@, transfers@) == (final(self)@, r),
    {
        if transfers.len() == 0 {
            return Ok(());
        }
        let (deltas, keys) = match DoubleEntryLedger::compute_deltas(transfers) {
            Ok(x) => x,
            Err(e) => return Err(e),
        };
        match self.find_first_bad(&deltas, &keys) {
            Some(e) => return Err(e),
            None => {},
        }
        self.apply_all(transfers)
    }
}

/// Fold step adding the balances of asset `a` in `m`.
pub open spec fn asset_step(m: Map<(u32, u32), i128>, a: u32) -> spec_fn(int, (u32, u32)) -> int {
    |acc: int, k: (u32, u32)| acc + if k.1 == a { m[k] as int } else { 0int }
}

/// Total held of asset `a` over the balances of `m` whose keys are in `s`.
pub open spec fn partial_total(m: Map<(u32, u32), i128>, s: Set<(u32, u32)>, a: u32) -> int {
    s.fold(0int, asset_step(m, a))
}

/// Total held of asset `a` over all balances.
pub open spec fn spec_asset_total(m: Map<(u32, u32), i128>, a: u32) -> int {
    partial_total(m, m.dom(), a)
}

pub proof fn lemma_asset_step_commutative(m: Map<(u32, u32), i128>, a: u32)
    ensures
        vstd::set::fold::is_fun_commutative(asset_step(m, a)),
{
}

/// Folds of a finite set with steps that agree on its elements are equal.
pub proof fn lemma_fold_agree(s: Set<(u32, u32)>, m1: Map<(u32, u32), i128>, m2: Map<(u32, u32), i128>, a: u32)
    requires
        s.finite(),
        forall|k: (u32, u32)| s.contains(k) && k.1 == a ==> m1[k] == m2[k],
    ensures
        s.fold(0int, asset_step(m1, a)) == s.fold(0int, asset_step(m2, a)),
    decreases s.len(),
{
    lemma_asset_step_commutative(m1, a);
    lemma_asset_step_commutative(m2, a);
    if s.len() == 0 {
        assert(s =~= Set::empty());
        vstd::set::fold::lemma_fold_empty(0int, asset_step(m1, a));
        vstd::set::fold::lemma_fold_empty(0int, asset_step(m2, a));
    } else {
        let k = s.choose();
        let s0 = s.remove(k);
        lemma_fold_agree(s0, m1, m2, a);
        assert(s0.insert(k) =~= s);
        vstd::set::fold::lemma_fold_insert(s0, 0int, asset_step(m1, a), k);
        vstd::set::fold::lemma_fold_insert(s0, 0int, asset_step(m2, a), k);
    }
}

/// How one balance change moves an asset total.
pub proof fn lemma_total_insert(m: Map<(u32, u32), i128>, k: (u32, u32), v: i128, a: u32)
    requires
        m.dom().finite(),
    ensures
        spec_asset_total(m.insert(k, v), a) == spec_asset_total(m, a)
            - (if k.1 == a { bal(m, k) } else { 0 }) + (if k.1 == a { v as int } else { 0 }),
{
    let m2 = m.insert(k, v);
    let s0 = m.dom().remove(k);
    lemma_asset_step_commutative(m, a);
    lemma_asset_step_commutative(m2, a);
    lemma_fold_agree(s0, m, m2, a);
    assert(m2.dom() =~= s0.insert(k));
    vstd::set::fold::lemma_fold_insert(s0, 0int, asset_step(m2, a), k);
    if m.contains_key(k) {
        assert(m.dom() =~= s0.insert(k));
        vstd::set::fold::lemma_fold_insert(s0, 0int, asset_step(m, a), k);
    } else {
        assert(m.dom() =~= s0);
    }
}

/// Posting one transfer keeps every asset total.
pub proof fn lemma_apply_one_zero_sum(s: LedgerModel, t: Transfer, a: u32)
    requires
        s.balances.dom().finite(),
        apply_one(s, t).1 is Ok,
        t.debit_account != t.credit_account,
    ensures
        spec_asset_total(apply_one(s, t).0.balances, a) == spec_asset_total(s.balances, a),
        apply_one(s, t).0.balances.dom().finite(),
{
    let nd = bal(s.balances, debit_key(t)) - t.amount;
    let b1 = s.balances.insert(debit_key(t), nd as i128);
    let nc = bal(b1, credit_key(t)) + t.amount;
    lemma_total_insert(s.balances, debit_key(t), nd as i128, a);
    lemma_total_insert(b1, credit_key(t), nc as i128, a);
}

/// Posting transfers in order keeps every asset total while it succeeds.
pub proof fn lemma_apply_zero_sum(s: LedgerModel, ts: Seq<Transfer>, a: u32)
    requires
        s.balances.dom().finite(),
        spec_apply(s, ts).1 is Ok,
        forall|i: int| 0 <= i < ts.len() ==> (#[trigger] ts[i]).debit_account != ts[i].credit_account,
    ensures
        spec_asset_total(spec_apply(s, ts).0.balances, a) == spec_asset_total(s.balances, a),
        spec_apply(s, ts).0.balances.dom().finite(),
    decreases ts.len(),
{
    if ts.len() > 0 {
        let (s1, r) = spec_apply(s, ts.drop_last());
        assert forall|i: int| 0 <= i < ts.drop_last().len() implies (#[trigger] ts.drop_last()[i]).debit_account != ts.drop_last()[i].credit_account by {
            assert(ts.drop_last()[i] == ts[i]);
        }
        lemma_apply_zero_sum(s, ts.drop_last(), a);
        assert(ts.last() == ts[ts.len() - 1]);
        lemma_apply_one_zero_sum(s1, ts.last(), a);
    }
}

/// Every valid batch moves only from one account to another.
pub proof fn lemma_deltas_distinct(ts: Seq<Transfer>)
    requires
        spec_deltas(ts) is Ok,
    ensures
        forall|i: int| 0 <= i < ts.len() ==> (#[trigger] ts[i]).debit_account != ts[i].credit_account,
    decreases ts.len(),
{
    if ts.len() > 0 {
        lemma_deltas_distinct(ts.drop_last());
        assert forall|i: int| 0 <= i < ts.len() implies (#[trigger] ts[i]).debit_account != ts[i].credit_account by {
            if i < ts.len() - 1 {
                assert(ts.drop_last()[i] == ts[i]);
            }
        }
    }
}

/// The ledger is zero-sum per asset: a batch that posts leaves the total
/// held of every asset where it was.
pub proof fn lemma_post_batch_zero_sum(s: LedgerModel, ts: Seq<Transfer>, a: u32)
    requires
        s.balances.dom().finite(),
        spec_post_batch(s, ts).1 is Ok,
    ensures
        spec_asset_total(spec_post_batch(s, ts).0.balances, a) == spec_asset_total(s.balances, a),
{
    if ts.len() > 0 {
        lemma_deltas_distinct(ts);
        lemma_apply_zero_sum(s, ts, a);
    }
}

/// A batch refused for a bad amount, a self transfer or a short balance
/// leaves the ledger untouched.
pub proof fn lemma_post_batch_atomic(s: LedgerModel, ts: Seq<Transfer>)
    requires
        spec_post_batch(s, ts).1 matches Err(e) && e != LedgerError::ArithmeticOverflow,
    ensures
        spec_post_batch(s, ts).0 == s,
{
    if ts.len() > 0 && spec_deltas(ts) is Ok && spec_first_bad(s.balances, spec_deltas(ts)->Ok_0) is None {
        lemma_apply_errors(s, ts);
    }
}

/// Posting in order fails only by overflow.
pub proof fn lemma_apply_errors(s: LedgerModel, ts: Seq<Transfer>)
    ensures
        spec_apply(s, ts).1 matches Err(e) ==> e == LedgerError::ArithmeticOverflow,
    decreases ts.len(),
{
    if ts.len() > 0 {
        lemma_apply_errors(s, ts.drop_last());
    }
}

/// Keys among the first `j` pairs of `s`.
pub open spec fn keys_upto(s: Seq<((u32, u32), i128)>, j: int) -> Set<(u32, u32)> {
    Set::new(|k: (u32, u32)| exists|i: int| 0 <= i < j && s[i].0 == k)
}

/// The running total of asset `a` over the first `j` pairs of `s`.
pub open spec fn running_total(s: Seq<((u32, u32), i128)>, j: int, a: u32) -> int
    decreases j,
{
    if j <= 0 {
        0
    } else {
        running_total(s, j - 1, a) + if s[j - 1].0.1 == a { s[j - 1].1 as int } else { 0int }
    }
}

impl DoubleEntryLedger {
    /// The balances in the map's own order.
    pub closed spec fn balance_order(&self) -> Seq<((u32, u32), i128)> {
        vstd::std_specs::btree::into_iter(vstd::std_specs::btree::spec_btree_map_iter(&self.balances))
    }

    /// Every running total of an asset, over the balances in the map's own
    /// order, fits in `i128`.
    pub open spec fn totals_fit(&self, a: u32) -> bool {
        forall|j: int| 0 <= j <= self.balance_order().len() ==> i128::MIN <= #[trigger] running_total(self.balance_order(), j, a) <= i128::MAX
    }

    /// Total held of an asset over all accounts.
    pub fn asset_total(&self, asset: AssetId) -> (r: i128)
        requires
            self.totals_fit(asset.0),
        ensures
            r == spec_asset_total(self@.balances, asset.0),
    {
        let ghost m = self.balances@;
        let ghost a = asset.0;
        let ghost s = self.balance_order();
        let mut total: i128 = 0;
        proof {
            lemma_asset_step_commutative(m, a);
            assert(keys_upto(s, 0) =~= Set::<(u32, u32)>::empty());
            vstd::set::fold::lemma_fold_empty(0int, asset_step(m, a));
        }
        let iter = self.balances.iter();
        proof {
            let v = iter.remaining();
            assert(s =~= v.unref());
            assert forall|k: (u32, u32)| #[trigger] m.contains_key(k) implies s.contains((k, m[k])) by {
                assert(v.contains((&k, &m[k])));
                let i = choose|i: int| 0 <= i < v.len() && v[i] == (&k, &m[k]);
                assert(s[i] == (k, m[k]));
            }
        }
        for kv in it: iter
            invariant
                m == self.balances@,
                s == self.balance_order(),
                it.seq().unref() == s,
                forall|i: int| 0 <= i < s.len() ==> m.contains_key(#[trigger] s[i].0) && m[s[i].0] == s[i].1,
                s.no_duplicates(),
                self.totals_fit(a),
                a == asset.0,
                total == running_total(s, it.index(), a),
                total == partial_total(m, keys_upto(s, it.index()), a),
                forall|k: (u32, u32)| #[trigger] m.contains_key(k) ==> s.contains((k, m[k])),
        {
            let ghost j = it.index();
            proof {
                assert(s[j] == (*kv.0, *kv.1));
                assert(running_total(s, j + 1, a) == total + if (*kv.0).1 == a { *kv.1 as int } else { 0int });
                assert(i128::MIN <= running_total(s, j + 1, a) <= i128::MAX);
                lemma_keys_step(m, s, j, a);
            }
            if (kv.0).1 == asset.0 {
                total = total + *kv.1;
            }
        }
        proof {
            lemma_keys_all(m, s);
        }
        total
    }
}

impl DoubleEntryLedger {
    /// The total held of an asset, if every running total fits in `i128`.
    pub(crate) fn try_asset_total(&self, asset: AssetId) -> (r: Option<i128>)
        ensures
            r is Some <==> self.totals_fit(asset.0),
            r matches Some(t) ==> t == spec_asset_total(self@.balances, asset.0),
            (forall|k: (u32, u32)| self@.balances.contains_key(k) && k.1 == asset.0 ==> #[trigger] self@.balances[k] >= 0)
                && spec_asset_total(self@.balances, asset.0) <= i128::MAX ==> r is Some,
    {
        let ghost m = self.balances@;
        let ghost a = asset.0;
        let ghost s = self.balance_order();
        let mut total: i128 = 0;
        proof {
            lemma_asset_step_commutative(m, a);
            assert(keys_upto(s, 0) =~= Set::<(u32, u32)>::empty());
            vstd::set::fold::lemma_fold_empty(0int, asset_step(m, a));
        }
        let iter = self.balances.iter();
        proof {
            let v = iter.remaining();
            assert(s =~= v.unref());
            assert forall|k: (u32, u32)| #[trigger] m.contains_key(k) implies s.contains((k, m[k])) by {
                assert(v.contains((&k, &m[k])));
                let i = choose|i: int| 0 <= i < v.len() && v[i] == (&k, &m[k]);
                assert(s[i] == (k, m[k]));
            }
        }
        for kv in it: iter
            invariant
                m == self.balances@,
                s == self.balance_order(),
                it.seq().unref() == s,
                forall|i: int| 0 <= i < s.len() ==> m.contains_key(#[trigger] s[i].0) && m[s[i].0] == s[i].1,
                s.no_duplicates(),
                a == asset.0,
                total == running_total(s, it.index(), a),
                total == partial_total(m, keys_upto(s, it.index()), a),
                forall|j: int| 0 <= j <= it.index() ==> i128::MIN <= #[trigger] running_total(s, j, a) <= i128::MAX,
                forall|k: (u32, u32)| #[trigger] m.contains_key(k) ==> s.contains((k, m[k])),
        {
            let ghost j = it.index();
            proof {
                assert(s[j] == (*kv.0, *kv.1));
                assert(running_total(s, j + 1, a) == total + if (*kv.0).1 == a { *kv.1 as int } else { 0int });
                lemma_keys_step(m, s, j, a);
            }
            if (kv.0).1 == asset.0 {
                match total.checked_add(*kv.1) {
                    Some(t) => total = t,
                    None => {
                        proof {
                            assert(!(i128::MIN <= running_total(s, j + 1, a) <= i128::MAX));
                            assert(running_total(s, j + 1, a) == partial_total(m, keys_upto(s, j + 1), a));
                            lemma_keys_all(m, s);
                            lemma_keys_finite(s, s.len() as int);
                            assert(keys_upto(s, j + 1).subset_of(m.dom())) by {
                                assert forall|k: (u32, u32)| keys_upto(s, j + 1).contains(k) implies m.dom().contains(k) by {
                                    let i = choose|i: int| 0 <= i < j + 1 && s[i].0 == k;
                                    assert(m.contains_key(s[i].0));
                                }
                            }
                            if forall|k: (u32, u32)| m.contains_key(k) && k.1 == a ==> #[trigger] m[k] >= 0 {
                                lemma_partial_bounds(m, keys_upto(s, j + 1), m.dom(), a);
                            }
                        }
                        return None;
                    },
                }
            }
            proof {
                assert forall|j2: int| 0 <= j2 <= j + 1 implies i128::MIN <= #[trigger] running_total(s, j2, a) <= i128::MAX by {
                    if j2 < j + 1 {
                    }
                }
            }
        }
        proof {
            lemma_keys_all(m, s);
        }
        Some(total)
    }
}

/// With no negative balance of asset `a`, the total over a subset of keys
/// lies between zero and the total over the whole set.
pub proof fn lemma_partial_bounds(m: Map<(u32, u32), i128>, s1: Set<(u32, u32)>, s2: Set<(u32, u32)>, a: u32)
    requires
        s2.finite(),
        s1.subset_of(s2),
        forall|k: (u32, u32)| s2.contains(k) && k.1 == a ==> #[trigger] m[k] >= 0,
    ensures
        0 <= partial_total(m, s1, a) <= partial_total(m, s2, a),
    decreases s2.len(),
{
    lemma_asset_step_commutative(m, a);
    if s2.len() == 0 {
        assert(s2 =~= Set::empty());
        assert(s1 =~= Set::empty());
        vstd::set::fold::lemma_fold_empty(0int, asset_step(m, a));
    } else {
        let x = if s1 =~= s2 { s2.choose() } else { choose|x: (u32, u32)| s2.contains(x) && !s1.contains(x) };
        if s1 =~= s2 {
            assert(s2.contains(x));
            lemma_partial_bounds(m, s1.remove(x), s2.remove(x), a);
            assert(s2.remove(x).insert(x) =~= s2);
            vstd::set::fold::lemma_fold_insert(s2.remove(x), 0int, asset_step(m, a), x);
            assert(s1 =~= s2);
        } else {
            assert(s2.contains(x) && !s1.contains(x));
            lemma_partial_bounds(m, s1, s2.remove(x), a);
            assert(s2.remove(x).insert(x) =~= s2);
            vstd::set::fold::lemma_fold_insert(s2.remove(x), 0int, asset_step(m, a), x);
        }
    }
}

/// One more pair adds its key's balance to the partial total.
pub proof fn lemma_keys_step(m: Map<(u32, u32), i128>, s: Seq<((u32, u32), i128)>, j: int, a: u32)
    requires
        0 <= j < s.len(),
        s.no_duplicates(),
        forall|i: int| 0 <= i < s.len() ==> m.contains_key(#[trigger] s[i].0) && m[s[i].0] == s[i].1,
    ensures
        partial_total(m, keys_upto(s, j + 1), a)
            == partial_total(m, keys_upto(s, j), a) + if s[j].0.1 == a { s[j].1 as int } else { 0int },
{
    let k = s[j].0;
    assert(keys_upto(s, j + 1) =~= keys_upto(s, j).insert(k));
    if keys_upto(s, j).contains(k) {
        let i = choose|i: int| 0 <= i < j && s[i].0 == k;
        assert(s[i] == s[j]);
    }
    lemma_keys_finite(s, j);
    lemma_asset_step_commutative(m, a);
    vstd::set::fold::lemma_fold_insert(keys_upto(s, j), 0int, asset_step(m, a), k);
}

pub proof fn lemma_keys_finite(s: Seq<((u32, u32), i128)>, j: int)
    ensures
        keys_upto(s, j).finite(),
    decreases j,
{
    if j <= 0 {
        assert(keys_upto(s, j) =~= Set::<(u32, u32)>::empty());
    } else {
        lemma_keys_finite(s, j - 1);
        assert(keys_upto(s, j) =~= keys_upto(s, j - 1).insert(s[j - 1].0));
    }
}

/// The keys of all pairs are the map's keys.
pub proof fn lemma_keys_all(m: Map<(u32, u32), i128>, s: Seq<((u32, u32), i128)>)
    requires
        forall|i: int| 0 <= i < s.len() ==> m.contains_key(#[trigger] s[i].0),
        forall|k: (u32, u32)| #[trigger] m.contains_key(k) ==> s.contains((k, m[k])),
    ensures
        keys_upto(s, s.len() as int) == m.dom(),
{
    assert forall|k: (u32, u32)| m.dom().contains(k) implies keys_upto(s, s.len() as int).contains(k) by {
        assert(s.contains((k, m[k])));
        let i = choose|i: int| 0 <= i < s.len() && s[i] == (k, m[k]);
        assert(s[i].0 == k);
    }
    assert(keys_upto(s, s.len() as int) =~= m.dom());
}

impl Default for DoubleEntryLedger {
    /// An empty ledger whose entry counter starts at 0.
    fn default() -> (r: DoubleEntryLedger)
        ensures
            r@ == (LedgerModel { balances: Map::empty(), entries: Seq::empty(), next_entry_id: 0 }),
    {
        let r = DoubleEntryLedger { balances: BTreeMap::new(), entries: Vec::new(), next_entry_id: 0 };
        proof {
            assert(r@ =~= (LedgerModel { balances: Map::empty(), entries: Seq::empty(), next_entry_id: 0 }));
        }
        r
    }
}

#[derive(Debug, Clone, Copy, PartialEq, Eq, Structural)]
pub enum FeeRole {
    Maker,
    Taker,
}

#[derive(Debug, Clone, Copy, PartialEq, Eq, Structural)]
pub struct FeeSchedule {
    pub maker_bps: u32,
    pub taker_bps: u32,
}

/// The fee on `notional` at `bps` basis points, rounded toward zero.
pub open spec fn spec_fee(notional: i128, bps: u32) -> Result<i128, LedgerError> {
    if notional < 0 {
        Err(LedgerError::InvalidAmount)
    } else if notional * bps > i128::MAX {
        Err(LedgerError::ArithmeticOverflow)
    } else {
        Ok(((notional * bps) / 10_000) as i128)
    }
}

impl FeeSchedule {
    pub fn new(maker_bps: u32, taker_bps: u32) -> (r: FeeSchedule)
        ensures
            r == (FeeSchedule { maker_bps, taker_bps }),
    {
        FeeSchedule { maker_bps, taker_bps }
    }

    /// Integer fee for the maker or the taker of a trade of `notional`.
    pub fn fee(&self, notional: i128, role: FeeRole) -> (r: Result<i128, LedgerError>)
        ensures
            r == spec_fee(notional, match role { FeeRole::Maker => self.maker_bps, FeeRole::Taker => self.taker_bps }),
    {
        if notional < 0 {
            return Err(LedgerError::InvalidAmount);
        }
        let bps = match role {
            FeeRole::Maker => self.maker_bps,
            FeeRole::Taker => self.taker_bps,
        };
        if bps != 0 && notional > i128::MAX / (bps as i128) {
            proof {
                assert(notional * bps > i128::MAX) by (nonlinear_arith)
                    requires notional > (i128::MAX as int) / (bps as int), bps > 0, notional >= 0;
            }
            return Err(LedgerError::ArithmeticOverflow);
        }
        proof {
            assert(notional * bps <= i128::MAX) by (nonlinear_arith)
                requires bps == 0 || notional <= (i128::MAX as int) / (bps as int), notional >= 0, bps >= 0;
            assert(notional * bps >= 0) by (nonlinear_arith)
                requires notional >= 0, bps >= 0;
        }
        let product = notional * (bps as i128);
        Ok(product / 10_000)
    }
}


/// What a trade hands to settlement.
#[derive(Debug, Clone, Copy, PartialEq, Eq, Structural)]
pub struct TradeSettlement {
    pub trade_id: u64,
    pub sequence: u64,
    pub buyer_account: u32,
    pub seller_account: u32,
    pub instrument_asset: AssetId,
    pub cash_asset: AssetId,
    pub price: u32,
    pub quantity: u32,
    pub buyer_fee: i128,
    pub seller_fee: i128,
}

#[derive(Debug, Clone, Copy, PartialEq, Eq, Structural)]
pub enum SettlementState {
    Pending,
    Settled,
    Failed,
}

#[derive(Debug, Clone, Copy, PartialEq, Eq, Structural)]
pub struct SettlementRecord {
    pub trade_id: u64,
    pub state: SettlementState,
    pub error: Option<LedgerError>,
}

/// A ledger and the outcome of every trade that was handed to it.
#[derive(Debug)]
pub struct SettlementEngine {
    pub ledger: DoubleEntryLedger,
    pub settlements: BTreeMap<u64, SettlementRecord>,
}

#[verifier::ext_equal]
pub struct SettlementModel {
    pub ledger: LedgerModel,
    pub settlements: Map<u64, SettlementRecord>,
}

impl View for SettlementEngine {
    type V = SettlementModel;

    open spec fn view(&self) -> SettlementModel {
        SettlementModel { ledger: self.ledger@, settlements: self.settlements@ }
    }
}

/// The transfers of `ts` that move a positive amount, in order.
pub open spec fn positive_only(ts: Seq<Transfer>) -> Seq<Transfer>
    decreases ts.len(),
{
    if ts.len() == 0 {
        Seq::empty()
    } else if ts.last().amount > 0 {
        positive_only(ts.drop_last()).push(ts.last())
    } else {
        positive_only(ts.drop_last())
    }
}

/// Cash for the security, the security for the cash, and each side's fee
/// to the fee account.
pub open spec fn settlement_legs(t: TradeSettlement, notional: i128, buyer_fee: i128, seller_fee: i128, fee_account: u32) -> Seq<Transfer> {
    seq![
        Transfer { trade_id: t.trade_id, sequence: t.sequence, debit_account: t.buyer_account, credit_account: t.seller_account, asset: t.cash_asset, amount: notional, kind: LedgerKind::TradeCash },
        Transfer { trade_id: t.trade_id, sequence: t.sequence, debit_account: t.seller_account, credit_account: t.buyer_account, asset: t.instrument_asset, amount: t.quantity as i128, kind: LedgerKind::TradeSecurity },
        Transfer { trade_id: t.trade_id, sequence: t.sequence, debit_account: t.buyer_account, credit_account: fee_account, asset: t.cash_asset, amount: buyer_fee, kind: LedgerKind::Fee },
        Transfer { trade_id: t.trade_id, sequence: t.sequence, debit_account: t.seller_account, credit_account: fee_account, asset: t.cash_asset, amount: seller_fee, kind: LedgerKind::Fee },
    ]
}

/// The notional of a trade: price times quantity.
pub open spec fn notional_of(t: TradeSettlement) -> i128 {
    (t.price * t.quantity) as i128
}

/// The transfers that settle `t`: the taker pays the taker fee, the maker
/// the maker fee; legs of zero are left out.
pub open spec fn settlement_transfers(t: TradeSettlement, sched: FeeSchedule, fee_account: u32) -> Seq<Transfer> {
    let n = notional_of(t);
    positive_only(settlement_legs(t, n, spec_fee(n, sched.taker_bps)->Ok_0, spec_fee(n, sched.maker_bps)->Ok_0, fee_account))
}

/// Settling a trade: a trade id already handed in is refused and nothing
/// changes; otherwise its transfers are posted as one batch and the
/// outcome, settled or failed with the ledger's error, is recorded.
pub open spec fn spec_settle(s: SettlementModel, t: TradeSettlement, sched: FeeSchedule, fee_account: u32) -> (SettlementModel, Result<SettlementRecord, LedgerError>) {
    if s.settlements.contains_key(t.trade_id) {
        (s, Err(LedgerError::DuplicateTrade))
    } else {
        let (l, r) = spec_post_batch(s.ledger, settlement_transfers(t, sched, fee_account));
        match r {
            Err(e) => {
                let rec = SettlementRecord { trade_id: t.trade_id, state: SettlementState::Failed, error: Some(e) };
                (SettlementModel { ledger: l, settlements: s.settlements.insert(t.trade_id, rec) }, Err(e))
            },
            Ok(_) => {
                let rec = SettlementRecord { trade_id: t.trade_id, state: SettlementState::Settled, error: None };
                (SettlementModel { ledger: l, settlements: s.settlements.insert(t.trade_id, rec) }, Ok(rec))
            },
        }
    }
}

/// The fee of a trade's notional never fails: it is neither negative nor
/// large enough to overflow.
pub proof fn lemma_trade_fee_ok(t: TradeSettlement, bps: u32)
    ensures
        notional_of(t) == t.price * t.quantity,
        spec_fee(notional_of(t), bps) is Ok,
{
    assert(0 <= t.price * t.quantity <= 0xffff_ffff * 0xffff_ffff) by (nonlinear_arith)
        requires t.price <= 0xffff_ffff, t.quantity <= 0xffff_ffff;
    assert(0 <= (t.price * t.quantity) * bps <= 0xffff_ffff * 0xffff_ffff * 0xffff_ffff) by (nonlinear_arith)
        requires 0 <= t.price * t.quantity <= 0xffff_ffff * 0xffff_ffff, bps <= 0xffff_ffff;
}

impl SettlementEngine {
    pub fn new(ledger: DoubleEntryLedger) -> (r: SettlementEngine)
        ensures
            r@ == (SettlementModel { ledger: ledger@, settlements: Map::empty() }),
    {
        let r = SettlementEngine { ledger, settlements: BTreeMap::new() };
        proof {
            assert(r@ =~= (SettlementModel { ledger: ledger@, settlements: Map::empty() }));
        }
        r
    }

    /// The recorded outcome for a trade id, if it was handed in.
    pub fn settlement(&self, trade_id: u64) -> (r: Option<SettlementRecord>)
        ensures
            r == (if self@.settlements.contains_key(trade_id) { Some(self@.settlements[trade_id]) } else { None::<SettlementRecord> }),
    {
        match self.settlements.get(&trade_id) {
            Some(rec) => Some(*rec),
            None => None,
        }
    }

    /// Builds the transfers that settle a trade.
    fn build_transfers(t: TradeSettlement, schedule: FeeSchedule, fee_account: u32) -> (r: Vec<Transfer>)
        ensures
            r@ == settlement_transfers(t, schedule, fee_account),
    {
        proof {
            lemma_trade_fee_ok(t, schedule.taker_bps);
            lemma_trade_fee_ok(t, schedule.maker_bps);
        }
        let notional: i128 = (t.price as i128) * (t.quantity as i128);
        let buyer_fee = match schedule.fee(notional, FeeRole::Taker) {
            Ok(f) => f,
            Err(_) => 0,
        };
        let seller_fee = match schedule.fee(notional, FeeRole::Maker) {
            Ok(f) => f,
            Err(_) => 0,
        };
        let legs = [
            Transfer { trade_id: t.trade_id, sequence: t.sequence, debit_account: t.buyer_account, credit_account: t.seller_account, asset: t.cash_asset, amount: notional, kind: LedgerKind::TradeCash },
            Transfer { trade_id: t.trade_id, sequence: t.sequence, debit_account: t.seller_account, credit_account: t.buyer_account, asset: t.instrument_asset, amount: t.quantity as i128, kind: LedgerKind::TradeSecurity },
            Transfer { trade_id: t.trade_id, sequence: t.sequence, debit_account: t.buyer_account, credit_account: fee_account, asset: t.cash_asset, amount: buyer_fee, kind: LedgerKind::Fee },
            Transfer { trade_id: t.trade_id, sequence: t.sequence, debit_account: t.seller_account, credit_account: fee_account, asset: t.cash_asset, amount: seller_fee, kind: LedgerKind::Fee },
        ];
        let ghost all = settlement_legs(t, notional, buyer_fee, seller_fee, fee_account);
        proof {
            assert(legs@ =~= all);
        }
        let mut out: Vec<Transfer> = Vec::new();
        let mut i: usize = 0;
        while i < 4
            invariant
                0 <= i <= 4,
                legs@ == all,
                all.len() == 4,
                out@ == positive_only(all.take(i as int)),
            decreases 4 - i,
        {
            proof {
                assert(all.take(i as int + 1).drop_last() =~= all.take(i as int));
                assert(all.take(i as int + 1).last() == all[i as int]);
            }
            if legs[i].amount > 0 {
                out.push(legs[i]);
            }
            i = i + 1;
        }
        proof {
            assert(all.take(4) =~= all);
        }
        out
    }

    /// Settles a trade once: posts its cash, security and fee transfers as
    /// one batch and records whether it settled or failed.
    pub fn settle_trade(&mut self, trade: TradeSettlement, fee_schedule: FeeSchedule, fee_account: u32) -> (r: Result<SettlementRecord, LedgerError>)
        ensures
            spec_settle(old(self)@, trade, fee_schedule, fee_account) == (final(self)@, r),
    {
        if self.settlements.contains_key(&trade.trade_id) {
            return Err(LedgerError::DuplicateTrade);
        }
        let transfers = SettlementEngine::build_transfers(trade, fee_schedule, fee_account);
        match self.ledger.post_batch(transfers.as_slice()) {
            Err(error) => {
                let record = SettlementRecord { trade_id: trade.trade_id, state: SettlementState::Failed, error: Some(error) };
                self.settlements.insert(trade.trade_id, record);
                proof {
                    assert(self@ =~= spec_settle(old(self)@, trade, fee_schedule, fee_account).0);
                }
                Err(error)
            },
            Ok(()) => {
                let record = SettlementRecord { trade_id: trade.trade_id, state: SettlementState::Settled, error: None };
                self.settlements.insert(trade.trade_id, record);
                proof {
                    assert(self@ =~= spec_settle(old(self)@, trade, fee_schedule, fee_account).0);
                }
                Ok(record)
            },
        }
    }

    /// Whether the ledger holds exactly `expected_total` of an asset.
    pub fn reconcile_asset(&self, asset: AssetId, expected_total: i128) -> (r: bool)
        requires
            self.ledger.totals_fit(asset.0),
        ensures
            r == (spec_asset_total(self@.ledger.balances, asset.0) == expected_total),
    {
        self.ledger.asset_total(asset) == expected_total
    }
}

/// A settled trade leaves the total held of every asset where it was.
pub proof fn lemma_settlement_zero_sum(s: SettlementModel, t: TradeSettlement, sched: FeeSchedule, fee_account: u32, a: u32)
    requires
        s.ledger.balances.dom().finite(),
        spec_settle(s, t, sched, fee_account).1 is Ok,
    ensures
        spec_asset_total(spec_settle(s, t, sched, fee_account).0.ledger.balances, a) == spec_asset_total(s.ledger.balances, a),
{
    lemma_post_batch_zero_sum(s.ledger, settlement_transfers(t, sched, fee_account), a);
}

/// A trade id is settled at most once: whatever the first attempt gave,
/// a second one is refused as a duplicate and changes nothing.
pub proof fn lemma_settle_once(s: SettlementModel, t: TradeSettlement, sched: FeeSchedule, fee_account: u32, t2: TradeSettlement, sched2: FeeSchedule, fee_account2: u32)
    requires
        t2.trade_id == t.trade_id,
    ensures
        ({
            let s1 = spec_settle(s, t, sched, fee_account).0;
            spec_settle(s1, t2, sched2, fee_account2) == (s1, Err::<SettlementRecord, LedgerError>(LedgerError::DuplicateTrade))
        }),
{
}

/// A settlement refused for a bad amount, a self transfer or a short
/// balance moves nothing in the ledger.
pub proof fn lemma_settlement_atomic(s: SettlementModel, t: TradeSettlement, sched: FeeSchedule, fee_account: u32)
    requires
        spec_settle(s, t, sched, fee_account).1 matches Err(e) && e != LedgerError::ArithmeticOverflow,
    ensures
        spec_settle(s, t, sched, fee_account).0.ledger == s.ledger,
{
    if !s.settlements.contains_key(t.trade_id) {
        lemma_post_batch_atomic(s.ledger, settlement_transfers(t, sched, fee_account));
    }
}

} // verus!
