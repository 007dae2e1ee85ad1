//! Pre-trade risk: cash and position reservations per order, limits per
//! account, and settlement of fills against the reservations.

use vstd::prelude::*;
use std::collections::BTreeMap;
use crate::command::{OrderCommand, OrderSide};

verus! {

broadcast use {vstd::std_specs::btree::group_btree_axioms, vstd::laws_cmp::group_laws_cmp};

#[derive(Debug, Clone, Copy, PartialEq, Eq, Structural)]
pub enum AccountStatus {
    Active,
    Frozen,
    Closed,
}

#[derive(Debug, Clone, Copy, PartialEq, Eq, Structural)]
pub struct RiskLimits {
    pub max_order_quantity: u64,
    pub max_order_notional: i128,
    pub max_gross_notional: i128,
}

impl Default for RiskLimits {
    /// No limit at all.
    fn default() -> (r: RiskLimits)
        ensures
            r == (RiskLimits { max_order_quantity: u64::MAX, max_order_notional: i128::MAX, max_gross_notional: i128::MAX }),
    {
        RiskLimits { max_order_quantity: u64::MAX, max_order_notional: i128::MAX, max_gross_notional: i128::MAX }
    }
}

#[derive(Debug, Clone, PartialEq, Eq)]
pub struct Account {
    pub account_id: u32,
    pub status: AccountStatus,
    pub cash: i128,
    pub reserved_cash: i128,
    pub positions: BTreeMap<u16, u64>,
    pub reserved_positions: BTreeMap<u16, u64>,
    pub limits: RiskLimits,
}

/// What an account is, with its position tables as maps.
#[verifier::ext_equal]
pub struct AccountModel {
    pub account_id: u32,
    pub status: AccountStatus,
    pub cash: i128,
    pub reserved_cash: i128,
    pub positions: Map<u16, u64>,
    pub reserved_positions: Map<u16, u64>,
    pub limits: RiskLimits,
}

impl View for Account {
    type V = AccountModel;

    open spec fn view(&self) -> AccountModel {
        AccountModel {
            account_id: self.account_id,
            status: self.status,
            cash: self.cash,
            reserved_cash: self.reserved_cash,
            positions: self.positions@,
            reserved_positions: self.reserved_positions@,
            limits: self.limits,
        }
    }
}

/// Quantity held under `i`, zero when there is none.
pub open spec fn qty(m: Map<u16, u64>, i: u16) -> u64 {
    if m.contains_key(i) { m[i] } else { 0 }
}

/// `a - b` saturated to the range of `i128`.
pub open spec fn sat_sub_i128(a: i128, b: i128) -> i128 {
    let d = a - b;
    if d > i128::MAX { i128::MAX } else if d < i128::MIN { i128::MIN } else { d as i128 }
}

/// Cash not held back by reservations.
pub open spec fn spec_available_cash(a: AccountModel) -> i128 {
    sat_sub_i128(a.cash, a.reserved_cash)
}

/// Position not held back by reservations, zero when over-reserved.
pub open spec fn spec_available_position(a: AccountModel, i: u16) -> u64 {
    if qty(a.positions, i) >= qty(a.reserved_positions, i) {
        (qty(a.positions, i) - qty(a.reserved_positions, i)) as u64
    } else {
        0
    }
}

/// A fresh active account with no cash, no position and no limit.
pub open spec fn spec_new_account(account_id: u32) -> AccountModel {
    AccountModel {
        account_id,
        status: AccountStatus::Active,
        cash: 0,
        reserved_cash: 0,
        positions: Map::empty(),
        reserved_positions: Map::empty(),
        limits: RiskLimits { max_order_quantity: u64::MAX, max_order_notional: i128::MAX, max_gross_notional: i128::MAX },
    }
}

fn sat_sub(a: i128, b: i128) -> (r: i128)
    ensures
        r == sat_sub_i128(a, b),
{
    if b >= 0 {
        if a < i128::MIN + b { i128::MIN } else { a - b }
    } else {
        if a > i128::MAX + b { i128::MAX } else { a - b }
    }
}

fn map_qty(m: &BTreeMap<u16, u64>, i: u16) -> (r: u64)
    ensures
        r == qty(m@, i),
{
    match m.get(&i) {
        Some(v) => *v,
        None => 0,
    }
}

impl Account {
    pub fn new(account_id: u32) -> (r: Account)
        ensures
            r@ == spec_new_account(account_id),
    {
        Account {
            account_id,
            status: AccountStatus::Active,
            cash: 0,
            reserved_cash: 0,
            positions: BTreeMap::new(),
            reserved_positions: BTreeMap::new(),
            limits: RiskLimits::default(),
        }
    }

    pub fn available_cash(&self) -> (r: i128)
        ensures
            r == spec_available_cash(self@),
    {
        sat_sub(self.cash, self.reserved_cash)
    }

    pub fn available_position(&self, instrument_id: u16) -> (r: u64)
        ensures
            r == spec_available_position(self@, instrument_id),
    {
        map_qty(&self.positions, instrument_id).saturating_sub(map_qty(&self.reserved_positions, instrument_id))
    }

    pub fn position(&self, instrument_id: u16) -> (r: u64)
        ensures
            r == qty(self@.positions, instrument_id),
    {
        map_qty(&self.positions, instrument_id)
    }
}

#[derive(Debug, Clone, Copy, PartialEq, Eq, Structural)]
pub enum RiskError {
    UnknownAccount,
    AccountInactive,
    InvalidPrice,
    InvalidQuantity,
    QuantityLimit,
    NotionalLimit,
    InsufficientCash,
    InsufficientPosition,
    GrossExposureLimit,
    ArithmeticOverflow,
    ReservationMissing,
    DuplicateReservation,
}

#[derive(Debug, Clone, Copy, PartialEq, Eq, Structural)]
pub struct Reservation {
    pub account_id: u32,
    pub instrument_id: u16,
    pub client_order_id: u64,
    pub side: OrderSide,
    pub price: u32,
    pub quantity: u32,
    pub reserved_value: i128,
}

#[derive(Debug, Clone, Copy, PartialEq, Eq, Structural)]
pub struct RiskFill {
    pub buyer_account: u32,
    pub seller_account: u32,
    pub instrument_id: u16,
    pub buyer_client_order_id: u64,
    pub seller_client_order_id: u64,
    pub price: u32,
    pub quantity: u32,
}

/// Accounts and open reservations, keyed by
/// `(account, instrument, client order id)`.
#[derive(Debug)]
pub struct RiskEngine {
    accounts: BTreeMap<u32, Account>,
    reservations: BTreeMap<(u32, u16, u64), Reservation>,
}

/// What a risk engine is.
#[verifier::ext_equal]
pub struct RiskModel {
    pub accounts: Map<u32, AccountModel>,
    pub reservations: Map<(u32, u16, u64), Reservation>,
}

impl View for RiskEngine {
    type V = RiskModel;

    closed spec fn view(&self) -> RiskModel {
        RiskModel {
            accounts: accounts_view(self.accounts@),
            reservations: self.reservations@,
        }
    }
}

/// The account table as models.
pub open spec fn accounts_view(m: Map<u32, Account>) -> Map<u32, AccountModel> {
    m.map_values(|a: Account| a@)
}

/// `BTreeMap::get_mut` on the account table: a mutable reference to the
/// account under `k`, if there is one; what is written through it is what
/// the table holds under `k` afterwards, and nothing else changes.
#[verifier::external_body]
fn account_entry(m: &mut BTreeMap<u32, Account>, k: u32) -> (r: Option<&mut Account>)
    ensures
        match r {
            Some(a) => old(m)@.contains_key(k) && *a == old(m)@[k] && final(m)@ == old(m)@.insert(k, *final(a)),
            None => !old(m)@.contains_key(k) && final(m)@ == old(m)@,
        },
{
    m.get_mut(&k)
}

/// `s` with account `id` replaced by `a`.
pub open spec fn with_account(s: RiskModel, id: u32, a: AccountModel) -> RiskModel {
    RiskModel { accounts: s.accounts.insert(id, a), reservations: s.reservations }
}

/// The outcome of reserving for a new order: the checks in order, then the
/// cash (buy) or position (sell) held back and the reservation recorded.
pub open spec fn spec_reserve(
    s: RiskModel, account_id: u32, instrument_id: u16, client_order_id: u64, side: OrderSide, price: u32, quantity: u32,
) -> (RiskModel, Result<Option<Reservation>, RiskError>) {
    let key = (account_id, instrument_id, client_order_id);
    let notional = price as int * quantity as int;
    let a = s.accounts[account_id];
    let res = Reservation { account_id, instrument_id, client_order_id, side, price, quantity, reserved_value: notional as i128 };
    if price == 0 {
        (s, Err(RiskError::InvalidPrice))
    } else if quantity == 0 {
        (s, Err(RiskError::InvalidQuantity))
    } else if s.reservations.contains_key(key) {
        (s, Err(RiskError::DuplicateReservation))
    } else if !s.accounts.contains_key(account_id) {
        (s, Err(RiskError::UnknownAccount))
    } else if a.status != AccountStatus::Active {
        (s, Err(RiskError::AccountInactive))
    } else if quantity > a.limits.max_order_quantity {
        (s, Err(RiskError::QuantityLimit))
    } else if notional > a.limits.max_order_notional {
        (s, Err(RiskError::NotionalLimit))
    } else if side == OrderSide::Buy {
        if spec_available_cash(a) < notional {
            (s, Err(RiskError::InsufficientCash))
        } else if a.reserved_cash + notional > i128::MAX {
            (s, Err(RiskError::ArithmeticOverflow))
        } else {
            let a2 = AccountModel { reserved_cash: (a.reserved_cash + notional) as i128, ..a };
            (RiskModel { accounts: s.accounts.insert(account_id, a2), reservations: s.reservations.insert(key, res) }, Ok(Some(res)))
        }
    } else {
        if spec_available_position(a, instrument_id) < quantity {
            (s, Err(RiskError::InsufficientPosition))
        } else {
            let a2 = AccountModel {
                reserved_positions: a.reserved_positions.insert(instrument_id, (qty(a.reserved_positions, instrument_id) + quantity) as u64),
                ..a
            };
            (RiskModel { accounts: s.accounts.insert(account_id, a2), reservations: s.reservations.insert(key, res) }, Ok(Some(res)))
        }
    }
}

/// The outcome of cancelling a reservation: it is forgotten first, then
/// what it held back is released; an account that is gone, or a release
/// that would go below zero, is reported after the reservation is
/// forgotten.
pub open spec fn spec_cancel_reservation(
    s: RiskModel, account_id: u32, instrument_id: u16, client_order_id: u64,
) -> (RiskModel, Result<Reservation, RiskError>) {
    let key = (account_id, instrument_id, client_order_id);
    let r = s.reservations[key];
    let s1 = RiskModel { accounts: s.accounts, reservations: s.reservations.remove(key) };
    let a = s.accounts[account_id];
    if !s.reservations.contains_key(key) {
        (s, Err(RiskError::ReservationMissing))
    } else if !s.accounts.contains_key(account_id) {
        (s1, Err(RiskError::UnknownAccount))
    } else if r.side == OrderSide::Buy {
        if a.reserved_cash - r.reserved_value < i128::MIN || a.reserved_cash - r.reserved_value > i128::MAX {
            (s1, Err(RiskError::ArithmeticOverflow))
        } else {
            (with_account(s1, account_id, AccountModel { reserved_cash: (a.reserved_cash - r.reserved_value) as i128, ..a }), Ok(r))
        }
    } else {
        let cur = qty(a.reserved_positions, instrument_id);
        if cur < r.quantity {
            (s1, Err(RiskError::ArithmeticOverflow))
        } else if cur - r.quantity == 0 {
            (with_account(s1, account_id, AccountModel { reserved_positions: a.reserved_positions.remove(instrument_id), ..a }), Ok(r))
        } else {
            (with_account(s1, account_id, AccountModel {
                reserved_positions: a.reserved_positions.insert(instrument_id, (cur - r.quantity) as u64),
                ..a
            }), Ok(r))
        }
    }
}

/// The account table's view follows an insert.
pub proof fn lemma_view_insert(m: Map<u32, Account>, k: u32, v: Account)
    ensures
        accounts_view(m.insert(k, v)) == accounts_view(m).insert(k, v@),
{
    assert(m.insert(k, v).map_values(|a: Account| a@) =~= m.map_values(|a: Account| a@).insert(k, v@));
}

/// The account table's view follows any insert under `k`.
pub proof fn lemma_view_insert_all(m: Map<u32, Account>, k: u32)
    ensures
        forall|v: Account| #[trigger] accounts_view(m.insert(k, v)) == accounts_view(m).insert(k, v@),
        m.contains_key(k) ==> m.insert(k, m[k]) == m,
{
    assert forall|v: Account| #[trigger] accounts_view(m.insert(k, v)) == accounts_view(m).insert(k, v@) by {
        lemma_view_insert(m, k, v);
    }
    if m.contains_key(k) {
        assert(m.insert(k, m[k]) =~= m);
    }
}

/// The outcome of admitting a command: a new order reserves, a cancel
/// releases its reservation, a replace releases the target's and then
/// reserves for the replacement.
pub open spec fn spec_risk_admission(s: RiskModel, c: OrderCommand) -> (RiskModel, Result<Option<Reservation>, RiskError>) {
    match c {
        OrderCommand::New(o) => spec_reserve(s, o.account_id, o.instrument_id, o.client_order_id.0, o.side, o.price, o.quantity),
        OrderCommand::Cancel(o) => {
            let (s1, r) = spec_cancel_reservation(s, o.account_id, o.instrument_id, o.client_order_id.0);
            (s1, match r { Ok(_) => Ok(None), Err(e) => Err(e) })
        },
        OrderCommand::Replace(o) => {
            let (s1, r) = spec_cancel_reservation(s, o.account_id, o.instrument_id, o.target_client_order_id.0);
            match r {
                Err(e) => (s1, Err(e)),
                Ok(_) => spec_reserve(s1, o.account_id, o.instrument_id, o.new_client_order_id.0, o.side, o.price, o.quantity),
            }
        },
    }
}

/// `a - b` fits in `i128`.
pub open spec fn sub_fits(a: i128, b: i128) -> bool {
    i128::MIN <= a - b <= i128::MAX
}

/// The buyer's side of a fill: pays `notional`, releases `reserved_buy`
/// of reserved cash and receives the quantity, each step checked in turn
/// and kept when a later one fails. `None` where the affordability check
/// itself overflows.
pub open spec fn spec_fill_buyer(s: RiskModel, f: RiskFill, notional: int, reserved_buy: int) -> Option<(RiskModel, Result<(), RiskError>)> {
    let id = f.buyer_account;
    let i = f.instrument_id;
    let b = s.accounts[id];
    let b1 = AccountModel { cash: (b.cash - notional) as i128, ..b };
    let b2 = AccountModel { reserved_cash: (b.reserved_cash - reserved_buy) as i128, ..b1 };
    let b3 = AccountModel { positions: b.positions.insert(i, (qty(b.positions, i) + f.quantity) as u64), ..b2 };
    if !s.accounts.contains_key(id) {
        Some((s, Err(RiskError::UnknownAccount)))
    } else if spec_available_cash(b) + reserved_buy > i128::MAX {
        None
    } else if spec_available_cash(b) + reserved_buy < notional {
        Some((s, Err(RiskError::InsufficientCash)))
    } else if b.cash - notional < i128::MIN {
        Some((s, Err(RiskError::ArithmeticOverflow)))
    } else if !(i128::MIN <= b.reserved_cash - reserved_buy <= i128::MAX) {
        Some((with_account(s, id, b1), Err(RiskError::ArithmeticOverflow)))
    } else if qty(b.positions, i) + f.quantity > u64::MAX {
        Some((with_account(s, id, b2), Err(RiskError::ArithmeticOverflow)))
    } else {
        Some((with_account(s, id, b3), Ok(())))
    }
}

/// The seller's side of a fill: gives up the quantity from its position
/// and from its reserved position, then receives `notional`, each step
/// checked in turn and kept when a later one fails.
pub open spec fn spec_fill_seller(s: RiskModel, f: RiskFill, notional: int) -> (RiskModel, Result<(), RiskError>) {
    let id = f.seller_account;
    let i = f.instrument_id;
    let q = f.quantity;
    let a = s.accounts[id];
    let reserved = qty(a.reserved_positions, i);
    let a1 = AccountModel { positions: a.positions.insert(i, (qty(a.positions, i) - q) as u64), ..a };
    let a2 = AccountModel {
        reserved_positions: if reserved - q == 0 { a.reserved_positions.remove(i) } else { a.reserved_positions.insert(i, (reserved - q) as u64) },
        ..a1
    };
    let a3 = AccountModel { cash: (a.cash + notional) as i128, ..a2 };
    if !s.accounts.contains_key(id) {
        (s, Err(RiskError::UnknownAccount))
    } else if spec_available_position(a, i) < q {
        (s, Err(RiskError::InsufficientPosition))
    } else if reserved < q {
        (with_account(s, id, a1), Err(RiskError::ArithmeticOverflow))
    } else if a.cash + notional > i128::MAX {
        (with_account(s, id, a2), Err(RiskError::ArithmeticOverflow))
    } else {
        (with_account(s, id, a3), Ok(()))
    }
}

/// The reservations after a fill of `q`: a fully filled one is forgotten,
/// a partly filled one keeps the rest. `None` where a reservation is
/// smaller than the fill.
pub open spec fn spec_fill_reservations(s: RiskModel, f: RiskFill, br: Reservation, sr: Reservation) -> Option<(RiskModel, Result<(), RiskError>)> {
    let bkey = (f.buyer_account, f.instrument_id, f.buyer_client_order_id);
    let skey = (f.seller_account, f.instrument_id, f.seller_client_order_id);
    let q = f.quantity;
    let bq = (br.quantity - q) as u32;
    let r1 = if br.quantity == q {
        s.reservations.remove(bkey)
    } else {
        s.reservations.insert(bkey, Reservation { quantity: bq, reserved_value: (br.price * bq) as i128, ..br })
    };
    let sq = (sr.quantity - q) as u32;
    let r2 = if sr.quantity == q {
        r1.remove(skey)
    } else {
        r1.insert(skey, Reservation { quantity: sq, reserved_value: sq as i128, ..sr })
    };
    if br.quantity != q && br.quantity < q {
        None
    } else if br.quantity != q && br.price * bq > u32::MAX {
        Some((s, Err(RiskError::ArithmeticOverflow)))
    } else if sr.quantity != q && sr.quantity < q {
        None
    } else {
        Some((RiskModel { accounts: s.accounts, reservations: r2 }, Ok(())))
    }
}

/// The fill's steps in order (buyer, seller, reservations) and the first
/// error among them; `None` where a step overflows without a check.
pub open spec fn spec_fill_steps(s: RiskModel, f: RiskFill) -> Option<(RiskModel, Result<(), RiskError>)> {
    let bkey = (f.buyer_account, f.instrument_id, f.buyer_client_order_id);
    let skey = (f.seller_account, f.instrument_id, f.seller_client_order_id);
    let br = s.reservations[bkey];
    let sr = s.reservations[skey];
    let notional = f.price as int * f.quantity as int;
    let reserved_buy = br.price as int * f.quantity as int;
    if f.price == 0 {
        Some((s, Err(RiskError::InvalidPrice)))
    } else if f.quantity == 0 {
        Some((s, Err(RiskError::InvalidQuantity)))
    } else if !s.reservations.contains_key(bkey) || !s.reservations.contains_key(skey) {
        Some((s, Err(RiskError::ReservationMissing)))
    } else {
        match spec_fill_buyer(s, f, notional, reserved_buy) {
            None => None,
            Some((s1, Err(e))) => Some((s1, Err(e))),
            Some((s1, Ok(_))) => {
                let (s2, r2) = spec_fill_seller(s1, f, notional);
                match r2 {
                    Err(e) => Some((s2, Err(e))),
                    Ok(_) => spec_fill_reservations(s2, f, br, sr),
                }
            },
        }
    }
}

/// The outcome of applying a fill: the steps' result when they all
/// succeed; otherwise their first error, with nothing changed.
pub open spec fn spec_apply_fill(s: RiskModel, f: RiskFill) -> Option<(RiskModel, Result<(), RiskError>)> {
    match spec_fill_steps(s, f) {
        None => None,
        Some((s1, Ok(u))) => Some((s1, Ok(u))),
        Some((_, Err(e))) => Some((s, Err(e))),
    }
}

impl RiskEngine {
    pub fn new() -> (r: RiskEngine)
        ensures
            r@.accounts == Map::<u32, AccountModel>::empty(),
            r@.reservations == Map::<(u32, u16, u64), Reservation>::empty(),
    {
        let r = RiskEngine { accounts: BTreeMap::new(), reservations: BTreeMap::new() };
        proof {
            assert(accounts_view(r.accounts@) =~= Map::<u32, AccountModel>::empty());
        }
        r
    }

    /// Opens an account; an id already taken is refused.
    pub fn create_account(&mut self, account_id: u32) -> (r: Result<(), RiskError>)
        ensures
            old(self)@.accounts.contains_key(account_id) ==> r == Err::<(), RiskError>(RiskError::DuplicateReservation) && final(self)@ == old(self)@,
            !old(self)@.accounts.contains_key(account_id) ==> r is Ok
                && final(self)@ == with_account(old(self)@, account_id, spec_new_account(account_id)),
    {
        if self.accounts.contains_key(&account_id) {
            return Err(RiskError::DuplicateReservation);
        }
        let ghost a0 = self.accounts@;
        self.accounts.insert(account_id, Account::new(account_id));
        proof {
            assert(accounts_view(self.accounts@) =~= accounts_view(a0).insert(account_id, spec_new_account(account_id)));
        }
        Ok(())
    }

    pub fn account(&self, account_id: u32) -> (r: Option<&Account>)
        ensures
            match r {
                Some(a) => self@.accounts.contains_key(account_id) && a@ == self@.accounts[account_id],
                None => !self@.accounts.contains_key(account_id),
            },
    {
        self.accounts.get(&account_id)
    }

    pub fn account_mut(&mut self, account_id: u32) -> (r: Option<&mut Account>)
        ensures
            match r {
                Some(a) => {
                    &&& old(self)@.accounts.contains_key(account_id)
                    &&& a@ == old(self)@.accounts[account_id]
                    &&& final(self)@ == with_account(old(self)@, account_id, final(a)@)
                },
                None => !old(self)@.accounts.contains_key(account_id) && final(self)@ == old(self)@,
            },
    {
        let ghost a0 = self.accounts@;
        proof {
            assert forall|v: Account| #[trigger] accounts_view(a0.insert(account_id, v)) == accounts_view(a0).insert(account_id, v@) by {
                lemma_view_insert(a0, account_id, v);
            }
        }
        account_entry(&mut self.accounts, account_id)
    }

    /// Adds cash to an account; a negative amount is refused.
    pub fn fund(&mut self, account_id: u32, amount: i128) -> (r: Result<(), RiskError>)
        ensures
            ({
                let s = old(self)@;
                let a = s.accounts[account_id];
                if amount < 0 {
                    r == Err::<(), RiskError>(RiskError::InvalidPrice) && final(self)@ == s
                } else if !s.accounts.contains_key(account_id) {
                    r == Err::<(), RiskError>(RiskError::UnknownAccount) && final(self)@ == s
                } else if a.cash + amount > i128::MAX {
                    r == Err::<(), RiskError>(RiskError::ArithmeticOverflow) && final(self)@ == s
                } else {
                    r is Ok && final(self)@ == with_account(s, account_id, AccountModel { cash: (a.cash + amount) as i128, ..a })
                }
            }),
    {
        if amount < 0 {
            return Err(RiskError::InvalidPrice);
        }
        let ghost a0 = self.accounts@;
        let account = match account_entry(&mut self.accounts, account_id) {
            Some(a) => a,
            None => return Err(RiskError::UnknownAccount),
        };
        if account.cash > i128::MAX - amount {
            proof {
                assert(a0.insert(account_id, a0[account_id]) =~= a0);
            }
            return Err(RiskError::ArithmeticOverflow);
        }
        account.cash = account.cash + amount;
        proof {
            assert(accounts_view(a0.insert(account_id, *account)) =~= accounts_view(a0).insert(account_id, account@));
        }
        Ok(())
    }

    /// Adds `quantity` to an account's position in an instrument.
    pub fn credit_position(&mut self, account_id: u32, instrument_id: u16, quantity: u64) -> (r: Result<(), RiskError>)
        ensures
            ({
                let s = old(self)@;
                let a = s.accounts[account_id];
                if !s.accounts.contains_key(account_id) {
                    r == Err::<(), RiskError>(RiskError::UnknownAccount) && final(self)@ == s
                } else if qty(a.positions, instrument_id) + quantity > u64::MAX {
                    r == Err::<(), RiskError>(RiskError::ArithmeticOverflow) && final(self)@ == s
                } else {
                    r is Ok && final(self)@ == with_account(s, account_id, AccountModel {
                        positions: a.positions.insert(instrument_id, (qty(a.positions, instrument_id) + quantity) as u64),
                        ..a
                    })
                }
            }),
    {
        let ghost a0 = self.accounts@;
        proof {
            lemma_view_insert_all(a0, account_id);
        }
        let account = match account_entry(&mut self.accounts, account_id) {
            Some(a) => a,
            None => return Err(RiskError::UnknownAccount),
        };
        let current = account.position(instrument_id);
        let next = match current.checked_add(quantity) {
            Some(n) => n,
            None => {
                proof {
                    assert(a0.insert(account_id, a0[account_id]) =~= a0);
                }
                return Err(RiskError::ArithmeticOverflow);
            },
        };
        account.positions.insert(instrument_id, next);
        Ok(())
    }

    /// Replaces an account's limits; negative notional limits are refused.
    pub fn set_limits(&mut self, account_id: u32, limits: RiskLimits) -> (r: Result<(), RiskError>)
        ensures
            ({
                let s = old(self)@;
                if limits.max_order_notional < 0 || limits.max_gross_notional < 0 {
                    r == Err::<(), RiskError>(RiskError::InvalidPrice) && final(self)@ == s
                } else if !s.accounts.contains_key(account_id) {
                    r == Err::<(), RiskError>(RiskError::UnknownAccount) && final(self)@ == s
                } else {
                    r is Ok && final(self)@ == with_account(s, account_id, AccountModel { limits, ..s.accounts[account_id] })
                }
            }),
    {
        if limits.max_order_notional < 0 || limits.max_gross_notional < 0 {
            return Err(RiskError::InvalidPrice);
        }
        let ghost a0 = self.accounts@;
        proof {
            lemma_view_insert_all(a0, account_id);
        }
        let account = match account_entry(&mut self.accounts, account_id) {
            Some(a) => a,
            None => return Err(RiskError::UnknownAccount),
        };
        account.limits = limits;
        Ok(())
    }

    pub fn set_status(&mut self, account_id: u32, status: AccountStatus) -> (r: Result<(), RiskError>)
        ensures
            ({
                let s = old(self)@;
                if !s.accounts.contains_key(account_id) {
                    r == Err::<(), RiskError>(RiskError::UnknownAccount) && final(self)@ == s
                } else {
                    r is Ok && final(self)@ == with_account(s, account_id, AccountModel { status, ..s.accounts[account_id] })
                }
            }),
    {
        let ghost a0 = self.accounts@;
        proof {
            lemma_view_insert_all(a0, account_id);
        }
        let account = match account_entry(&mut self.accounts, account_id) {
            Some(a) => a,
            None => return Err(RiskError::UnknownAccount),
        };
        account.status = status;
        Ok(())
    }

    pub fn reservation(&self, account_id: u32, instrument_id: u16, client_order_id: u64) -> (r: Option<Reservation>)
        ensures
            ({
                let key = (account_id, instrument_id, client_order_id);
                r == (if self@.reservations.contains_key(key) { Some(self@.reservations[key]) } else { None::<Reservation> })
            }),
    {
        match self.reservations.get(&(account_id, instrument_id, client_order_id)) {
            Some(r) => Some(*r),
            None => None,
        }
    }

    /// Reserves cash (buy) or position (sell) for a new order, after the
    /// price, quantity, duplicate, account, status and limit checks.
    #[verifier::rlimit(50)]
    pub fn reserve(
        &mut self,
        account_id: u32,
        instrument_id: u16,
        client_order_id: u64,
        side: OrderSide,
        price: u32,
        quantity: u32,
    ) -> (r: Result<Option<Reservation>, RiskError>)
        ensures
            (final(self)@, r) == spec_reserve(old(self)@, account_id, instrument_id, client_order_id, side, price, quantity),
    {
        if price == 0 {
            return Err(RiskError::InvalidPrice);
        }
        if quantity == 0 {
            return Err(RiskError::InvalidQuantity);
        }
        let key = (account_id, instrument_id, client_order_id);
        if self.reservations.contains_key(&key) {
            return Err(RiskError::DuplicateReservation);
        }
        proof {
            assert(price as int * quantity as int <= 0xffff_ffff * 0xffff_ffff) by (nonlinear_arith)
                requires price <= 0xffff_ffff, quantity <= 0xffff_ffff;
            assert(price as int * quantity as int >= 0) by (nonlinear_arith);
        }
        let notional: i128 = (price as i128) * (quantity as i128);
        let ghost a0 = self.accounts@;
        proof {
            lemma_view_insert_all(a0, account_id);
        }
        let account = match account_entry(&mut self.accounts, account_id) {
            Some(a) => a,
            None => return Err(RiskError::UnknownAccount),
        };
        if account.status != AccountStatus::Active {
            return Err(RiskError::AccountInactive);
        }
        if quantity as u64 > account.limits.max_order_quantity {
            return Err(RiskError::QuantityLimit);
        }
        if notional > account.limits.max_order_notional {
            return Err(RiskError::NotionalLimit);
        }
        match side {
            OrderSide::Buy => {
                if account.available_cash() < notional {
                    return Err(RiskError::InsufficientCash);
                }
                if account.reserved_cash > i128::MAX - notional {
                    return Err(RiskError::ArithmeticOverflow);
                }
                account.reserved_cash = account.reserved_cash + notional;
            },
            OrderSide::Sell => {
                if account.available_position(instrument_id) < quantity as u64 {
                    return Err(RiskError::InsufficientPosition);
                }
                let current = map_qty(&account.reserved_positions, instrument_id);
                account.reserved_positions.insert(instrument_id, current + quantity as u64);
            },
        }
        let reservation = Reservation {
            account_id,
            instrument_id,
            client_order_id,
            side,
            price,
            quantity,
            reserved_value: notional,
        };
        self.reservations.insert(key, reservation);
        Ok(Some(reservation))
    }

    /// Forgets a reservation and releases what it held back.
    #[verifier::rlimit(50)]
    pub fn cancel_reservation(&mut self, account_id: u32, instrument_id: u16, client_order_id: u64) -> (r: Result<Reservation, RiskError>)
        ensures
            (final(self)@, r) == spec_cancel_reservation(old(self)@, account_id, instrument_id, client_order_id),
    {
        let key = (account_id, instrument_id, client_order_id);
        let ghost r0 = self.reservations@;
        let reservation = match self.reservations.remove(&key) {
            Some(r) => r,
            None => {
                proof {
                    assert(self.reservations@ =~= r0);
                }
                return Err(RiskError::ReservationMissing);
            },
        };
        let ghost a0 = self.accounts@;
        proof {
            lemma_view_insert_all(a0, account_id);
        }
        let account = match account_entry(&mut self.accounts, account_id) {
            Some(a) => a,
            None => return Err(RiskError::UnknownAccount),
        };
        match reservation.side {
            OrderSide::Buy => {
                let v = reservation.reserved_value;
                if (v > 0 && account.reserved_cash < i128::MIN + v) || (v < 0 && account.reserved_cash > i128::MAX + v) {
                    return Err(RiskError::ArithmeticOverflow);
                }
                account.reserved_cash = account.reserved_cash - v;
            },
            OrderSide::Sell => {
                let current = map_qty(&account.reserved_positions, instrument_id);
                let next = match current.checked_sub(reservation.quantity as u64) {
                    Some(n) => n,
                    None => return Err(RiskError::ArithmeticOverflow),
                };
                if next == 0 {
                    account.reserved_positions.remove(&instrument_id);
                } else {
                    account.reserved_positions.insert(instrument_id, next);
                }
            },
        }
        Ok(reservation)
    }

    /// Admits a command against risk: see `spec_risk_admission`.
    pub fn admit_command(&mut self, command: &OrderCommand) -> (r: Result<Option<Reservation>, RiskError>)
        ensures
            (final(self)@, r) == spec_risk_admission(old(self)@, *command),
    {
        match command {
            OrderCommand::New(order) => self.reserve(
                order.account_id,
                order.instrument_id,
                order.client_order_id.0,
                order.side,
                order.price,
                order.quantity,
            ),
            OrderCommand::Cancel(order) => {
                match self.cancel_reservation(order.account_id, order.instrument_id, order.client_order_id.0) {
                    Ok(_) => Ok(None),
                    Err(e) => Err(e),
                }
            },
            OrderCommand::Replace(order) => {
                match self.cancel_reservation(order.account_id, order.instrument_id, order.target_client_order_id.0) {
                    Ok(_) => {},
                    Err(e) => return Err(e),
                }
                self.reserve(
                    order.account_id,
                    order.instrument_id,
                    order.new_client_order_id.0,
                    order.side,
                    order.price,
                    order.quantity,
                )
            },
        }
    }

    #[verifier::rlimit(50)]
    fn fill_buyer(&mut self, fill: &RiskFill, notional: i128, reserved_buy: i128) -> (r: Result<(), RiskError>)
        requires
            notional >= 0,
            reserved_buy >= 0,
            spec_fill_buyer(old(self)@, *fill, notional as int, reserved_buy as int) is Some,
        ensures
            spec_fill_buyer(old(self)@, *fill, notional as int, reserved_buy as int) == Some((final(self)@, r)),
    {
        let ghost s0 = self@;
        let ghost a0 = self.accounts@;
        let id = fill.buyer_account;
        let i = fill.instrument_id;
        proof {
            lemma_view_insert_all(a0, id);
        }
        let buyer = match account_entry(&mut self.accounts, id) {
            Some(a) => a,
            None => return Err(RiskError::UnknownAccount),
        };
        let ghost b = buyer@;
        if buyer.available_cash() + reserved_buy < notional {
            return Err(RiskError::InsufficientCash);
        }
        if buyer.cash < i128::MIN + notional {
            return Err(RiskError::ArithmeticOverflow);
        }
        buyer.cash = buyer.cash - notional;
        if buyer.reserved_cash < i128::MIN + reserved_buy {
            proof {
                assert(self@ =~= with_account(s0, id, AccountModel { cash: (b.cash - notional) as i128, ..b }));
            }
            return Err(RiskError::ArithmeticOverflow);
        }
        buyer.reserved_cash = buyer.reserved_cash - reserved_buy;
        let current = buyer.position(i);
        let next = match current.checked_add(fill.quantity as u64) {
            Some(n) => n,
            None => return Err(RiskError::ArithmeticOverflow),
        };
        buyer.positions.insert(i, next);
        Ok(())
    }

    #[verifier::rlimit(50)]
    fn fill_seller(&mut self, fill: &RiskFill, notional: i128) -> (r: Result<(), RiskError>)
        requires
            notional >= 0,
        ensures
            spec_fill_seller(old(self)@, *fill, notional as int) == (final(self)@, r),
    {
        let ghost s0 = self@;
        let ghost a0 = self.accounts@;
        let id = fill.seller_account;
        let i = fill.instrument_id;
        let q = fill.quantity as u64;
        proof {
            lemma_view_insert_all(a0, id);
        }
        let seller = match account_entry(&mut self.accounts, id) {
            Some(a) => a,
            None => return Err(RiskError::UnknownAccount),
        };
        let ghost a = seller@;
        if seller.available_position(i) < q {
            return Err(RiskError::InsufficientPosition);
        }
        let current_position = seller.position(i);
        let next_position = match current_position.checked_sub(q) {
            Some(n) => n,
            None => return Err(RiskError::ArithmeticOverflow),
        };
        seller.positions.insert(i, next_position);
        let reserved = map_qty(&seller.reserved_positions, i);
        let next_reserved = match reserved.checked_sub(q) {
            Some(n) => n,
            None => return Err(RiskError::ArithmeticOverflow),
        };
        if next_reserved == 0 {
            seller.reserved_positions.remove(&i);
        } else {
            seller.reserved_positions.insert(i, next_reserved);
        }
        if seller.cash > i128::MAX - notional {
            return Err(RiskError::ArithmeticOverflow);
        }
        seller.cash = seller.cash + notional;
        Ok(())
    }

    #[verifier::rlimit(50)]
    fn fill_reservations(&mut self, fill: &RiskFill, br: Reservation, sr: Reservation) -> (r: Result<(), RiskError>)
        requires
            spec_fill_reservations(old(self)@, *fill, br, sr) is Some,
        ensures
            spec_fill_reservations(old(self)@, *fill, br, sr) == Some((final(self)@, r)),
    {
        let q = fill.quantity;
        let bkey = (fill.buyer_account, fill.instrument_id, fill.buyer_client_order_id);
        let skey = (fill.seller_account, fill.instrument_id, fill.seller_client_order_id);
        if br.quantity == q {
            self.reservations.remove(&bkey);
        } else {
            let bq = br.quantity - q;
            let v = match br.price.checked_mul(bq) {
                Some(v) => v,
                None => return Err(RiskError::ArithmeticOverflow),
            };
            self.reservations.insert(bkey, Reservation { quantity: bq, reserved_value: v as i128, ..br });
        }
        if sr.quantity == q {
            self.reservations.remove(&skey);
        } else {
            let sq = sr.quantity - q;
            self.reservations.insert(skey, Reservation { quantity: sq, reserved_value: sq as i128, ..sr });
        }
        Ok(())
    }

    /// The first error the fill's steps would meet, found without writing
    /// anything.
    #[verifier::rlimit(50)]
    fn fill_check(&self, fill: &RiskFill, notional: i128, reserved_buy: i128, br: Reservation, sr: Reservation) -> (r: Result<(), RiskError>)
        requires
            notional >= 0,
            reserved_buy >= 0,
            spec_fill_buyer(self@, *fill, notional as int, reserved_buy as int) is Some,
        ensures
            match spec_fill_buyer(self@, *fill, notional as int, reserved_buy as int) {
                None => true,
                Some((_, Err(e))) => r == Err::<(), RiskError>(e),
                Some((s1, Ok(_))) => match spec_fill_seller(s1, *fill, notional as int) {
                    (_, Err(e)) => r == Err::<(), RiskError>(e),
                    (s2, Ok(_)) => match spec_fill_reservations(s2, *fill, br, sr) {
                        None => true,
                        Some((_, res)) => r == res,
                    },
                },
            },
    {
        let i = fill.instrument_id;
        let q = fill.quantity as u64;
        let b = match self.account(fill.buyer_account) {
            Some(b) => b,
            None => return Err(RiskError::UnknownAccount),
        };
        if b.available_cash() + reserved_buy < notional {
            return Err(RiskError::InsufficientCash);
        }
        if b.cash < i128::MIN + notional {
            return Err(RiskError::ArithmeticOverflow);
        }
        if b.reserved_cash < i128::MIN + reserved_buy {
            return Err(RiskError::ArithmeticOverflow);
        }
        let bpos = b.position(i);
        if bpos > u64::MAX - q {
            return Err(RiskError::ArithmeticOverflow);
        }
        let same = fill.seller_account == fill.buyer_account;
        let sa = match self.account(fill.seller_account) {
            Some(a) => a,
            None => return Err(RiskError::UnknownAccount),
        };
        let pos: u64 = if same { bpos + q } else { sa.position(i) };
        let reserved = map_qty(&sa.reserved_positions, i);
        let cash: i128 = if same { b.cash - notional } else { sa.cash };
        let available = pos.saturating_sub(reserved);
        if available < q {
            return Err(RiskError::InsufficientPosition);
        }
        if reserved < q {
            return Err(RiskError::ArithmeticOverflow);
        }
        if cash > i128::MAX - notional {
            return Err(RiskError::ArithmeticOverflow);
        }
        if br.quantity != fill.quantity {
            if br.quantity < fill.quantity {
                return Ok(());
            }
            if br.price.checked_mul(br.quantity - fill.quantity).is_none() {
                return Err(RiskError::ArithmeticOverflow);
            }
        }
        Ok(())
    }

    /// Settles a fill against risk: both reservations must exist; the
    /// buyer pays and receives the quantity, the seller delivers and is
    /// paid, and the reservations shrink by the fill. Every check runs
    /// before the first write, so a refused fill changes nothing.
    pub fn apply_fill(&mut self, fill: RiskFill) -> (r: Result<(), RiskError>)
        requires
            spec_apply_fill(old(self)@, fill) is Some,
        ensures
            spec_apply_fill(old(self)@, fill) == Some((final(self)@, r)),
    {
        if fill.price == 0 {
            return Err(RiskError::InvalidPrice);
        }
        if fill.quantity == 0 {
            return Err(RiskError::InvalidQuantity);
        }
        let buyer_reservation = match self.reservation(fill.buyer_account, fill.instrument_id, fill.buyer_client_order_id) {
            Some(r) => r,
            None => return Err(RiskError::ReservationMissing),
        };
        let seller_reservation = match self.reservation(fill.seller_account, fill.instrument_id, fill.seller_client_order_id) {
            Some(r) => r,
            None => return Err(RiskError::ReservationMissing),
        };
        proof {
            assert(fill.price as int * fill.quantity as int <= 0xffff_ffff * 0xffff_ffff) by (nonlinear_arith)
                requires fill.price <= 0xffff_ffff, fill.quantity <= 0xffff_ffff;
            assert(fill.price as int * fill.quantity as int >= 0) by (nonlinear_arith);
            assert(buyer_reservation.price as int * fill.quantity as int <= 0xffff_ffff * 0xffff_ffff) by (nonlinear_arith)
                requires buyer_reservation.price <= 0xffff_ffff, fill.quantity <= 0xffff_ffff;
            assert(buyer_reservation.price as int * fill.quantity as int >= 0) by (nonlinear_arith);
        }
        let notional: i128 = (fill.price as i128) * (fill.quantity as i128);
        let reserved_buy: i128 = (buyer_reservation.price as i128) * (fill.quantity as i128);
        match self.fill_check(&fill, notional, reserved_buy, buyer_reservation, seller_reservation) {
            Ok(()) => {},
            Err(e) => return Err(e),
        }
        let ghost s0 = self@;
        match self.fill_buyer(&fill, notional, reserved_buy) {
            Ok(()) => {},
            Err(e) => return Err(e),
        }
        match self.fill_seller(&fill, notional) {
            Ok(()) => {},
            Err(e) => return Err(e),
        }
        self.fill_reservations(&fill, buyer_reservation, seller_reservation)
    }
}

/// Cancelling a reservation right after making it gives back exactly what
/// it held: the accounts and the open reservations are as before. (A zero
/// entry in the reserved positions is the one exception: it is dropped.)
pub proof fn lemma_reserve_then_cancel(
    s: RiskModel, account_id: u32, instrument_id: u16, client_order_id: u64, side: OrderSide, price: u32, quantity: u32,
)
    requires
        spec_reserve(s, account_id, instrument_id, client_order_id, side, price, quantity).1 is Ok,
        ({
            let rp = s.accounts[account_id].reserved_positions;
            rp.contains_key(instrument_id) ==> rp[instrument_id] > 0
        }),
    ensures
        ({
            let (s1, r) = spec_reserve(s, account_id, instrument_id, client_order_id, side, price, quantity);
            let (s2, c) = spec_cancel_reservation(s1, account_id, instrument_id, client_order_id);
            &&& c == Ok::<Reservation, RiskError>(r->Ok_0->Some_0)
            &&& s2 == s
        }),
{
    let key = (account_id, instrument_id, client_order_id);
    let (s1, r) = spec_reserve(s, account_id, instrument_id, client_order_id, side, price, quantity);
    let (s2, c) = spec_cancel_reservation(s1, account_id, instrument_id, client_order_id);
    let a = s.accounts[account_id];
    assert(s1.reservations.remove(key) =~= s.reservations);
    if side == OrderSide::Buy {
        assert(s2.accounts =~= s.accounts);
    } else {
        let cur = qty(a.reserved_positions, instrument_id);
        if cur == 0 {
            assert(a.reserved_positions.insert(instrument_id, quantity as u64).remove(instrument_id) =~= a.reserved_positions);
        } else {
            assert(a.reserved_positions.insert(instrument_id, (cur + quantity) as u64).insert(instrument_id, cur) =~= a.reserved_positions);
        }
        assert(s2.accounts =~= s.accounts);
    }
    assert(s2 =~= s);
}

/// A fill between two different accounts only moves cash and position
/// between them: the buyer's and the seller's cash add up to the same
/// total before and after, and so do their positions in the instrument.
pub proof fn lemma_fill_conserves(s: RiskModel, f: RiskFill)
    requires
        f.buyer_account != f.seller_account,
        spec_apply_fill(s, f) matches Some((_, Ok(_))),
    ensures
        spec_apply_fill(s, f) matches Some((s1, _)) ==> {
            let (b, sl) = (f.buyer_account, f.seller_account);
            &&& s1.accounts[b].cash + s1.accounts[sl].cash == s.accounts[b].cash + s.accounts[sl].cash
            &&& qty(s1.accounts[b].positions, f.instrument_id) + qty(s1.accounts[sl].positions, f.instrument_id)
                == qty(s.accounts[b].positions, f.instrument_id) + qty(s.accounts[sl].positions, f.instrument_id)
        },
{
}


/// Order limits bind every reservation: a reservation is only made for an
/// order within the account's quantity and notional limits, for exactly
/// its notional; an order whose notional exceeds the account's limit is
/// refused and leaves accounts and reservations as they were, and once the
/// earlier checks pass it is refused with `NotionalLimit`.
pub proof fn lemma_reserve_limits(
    s: RiskModel, account_id: u32, instrument_id: u16, client_order_id: u64, side: OrderSide, price: u32, quantity: u32,
)
    ensures
        ({
            let (s1, r) = spec_reserve(s, account_id, instrument_id, client_order_id, side, price, quantity);
            let a = s.accounts[account_id];
            let notional = price as int * quantity as int;
            &&& r is Ok ==> s.accounts.contains_key(account_id)
                && notional <= a.limits.max_order_notional
                && quantity <= a.limits.max_order_quantity
            &&& r matches Ok(Some(res)) ==> res.reserved_value == notional && res.price == price && res.quantity == quantity
            &&& (r is Ok && side == OrderSide::Buy) ==> s1.accounts[account_id].reserved_cash == a.reserved_cash + notional
            &&& (r is Ok && side == OrderSide::Sell) ==> qty(s1.accounts[account_id].reserved_positions, instrument_id)
                == qty(a.reserved_positions, instrument_id) + quantity
            &&& notional > a.limits.max_order_notional ==> r is Err && s1 == s
            &&& (price > 0 && quantity > 0 && !s.reservations.contains_key((account_id, instrument_id, client_order_id))
                && s.accounts.contains_key(account_id) && a.status == AccountStatus::Active
                && quantity <= a.limits.max_order_quantity && notional > a.limits.max_order_notional)
                ==> r == Err::<Option<Reservation>, RiskError>(RiskError::NotionalLimit)
            &&& (price > 0 && quantity > 0 && !s.reservations.contains_key((account_id, instrument_id, client_order_id))
                && s.accounts.contains_key(account_id) && a.status == AccountStatus::Active
                && quantity <= a.limits.max_order_quantity && notional <= a.limits.max_order_notional
                && (side == OrderSide::Buy ==> spec_available_cash(a) >= notional && a.reserved_cash + notional <= i128::MAX)
                && (side == OrderSide::Sell ==> spec_available_position(a, instrument_id) >= quantity))
                ==> r is Ok && s1.reservations.contains_key((account_id, instrument_id, client_order_id))
        }),
{
}

/// A successful fill releases from the buyer's reserved cash exactly the
/// buy reservation's price times the filled quantity, whatever price the
/// fill is at; so a buy reservation filled in full, whose reserved value is
/// its price times its quantity, leaves the buyer's reserved cash lower by
/// that whole reserved value and is itself gone.
pub proof fn lemma_fill_releases_reservation(s: RiskModel, f: RiskFill)
    requires
        spec_apply_fill(s, f) matches Some((_, Ok(_))),
    ensures
        ({
            let s1 = spec_apply_fill(s, f).unwrap().0;
            let bkey = (f.buyer_account, f.instrument_id, f.buyer_client_order_id);
            let br = s.reservations[bkey];
            &&& s.reservations.contains_key(bkey)
            &&& s1.accounts[f.buyer_account].reserved_cash == s.accounts[f.buyer_account].reserved_cash - br.price * f.quantity
            &&& qty(s1.accounts[f.seller_account].reserved_positions, f.instrument_id)
                == qty(s.accounts[f.seller_account].reserved_positions, f.instrument_id) - f.quantity
            &&& (bkey != (f.seller_account, f.instrument_id, f.seller_client_order_id) && br.quantity > f.quantity) ==> {
                &&& s1.reservations.contains_key(bkey)
                &&& s1.reservations[bkey].quantity == br.quantity - f.quantity
                &&& s1.reservations[bkey].price == br.price
            }
            &&& (br.quantity == f.quantity && br.reserved_value == br.price * br.quantity) ==> {
                &&& s1.accounts[f.buyer_account].reserved_cash == s.accounts[f.buyer_account].reserved_cash - br.reserved_value
                &&& !s1.reservations.contains_key(bkey)
            }
        }),
{
}

} // verus!
