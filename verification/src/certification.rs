//! Smoke certification: a deterministic replay of a fixed workload, the
//! instrument topology, ledger conservation, consensus term fencing and
//! protocol integrity, each checked end to end.

use vstd::prelude::*;
use crate::book::PriceLadder;
use crate::command::{NewOrder, OrderCommand, OrderSide};
use crate::consensus::{NodeId, RaftNode, Term, VoteResponse};
use crate::constants::MAX_INSTRUMENTS;
use crate::engine::{AcceptedOrder, MatchingEngine, OrderAcceptError, lemma_wf_book, lemma_wf_pool};
use crate::execution::{can_process, left_after_match, own_ladder, rest_fits};
use crate::instrument::{MarketType, SOVEREIGN_COUNT, count_some, future_instrument_id, sovereigns, spec_future_id, spec_spot_id, spot_instrument_id};
use crate::ledger::{AssetId, DoubleEntryLedger, LedgerKind, LedgerModel, Transfer, spec_post_batch, spec_deltas, spec_apply, spec_first_bad, first_bad_key, is_bad, spec_asset_total, lemma_total_insert, asset_step, lemma_asset_step_commutative};
use crate::matching::{fills_of, lemma_fill_total_nonneg, opposite_priority};
use crate::order::ClientOrderId;
use crate::protocol::{Credential, CredentialStore, GatewaySession, Role, WireFrame, WireMessage, spec_decode_frame, spec_encode_frame, lemma_frame_round_trip};
use crate::replication::{accept_effect, processable};
use crate::durable::{replay_step, replay_trace, replayed, replay_fits};
use crate::determinism::{fresh_engine, same_state, lemma_fresh_same, lemma_trace_same, lemma_fits_same, lemma_admission_same, lemma_same_refl, lemma_step_same, lemma_fingerprint_same};
use crate::fingerprint::spec_fingerprint;
use crate::session::MessageSeq;

verus! {

#[derive(Debug, Clone, Copy, PartialEq, Eq, Structural)]
pub struct CertificationReport {
    pub deterministic_replay: bool,
    pub ledger_integrity: bool,
    pub consensus_fencing: bool,
    pub protocol_integrity: bool,
}

impl CertificationReport {
    pub fn all_passed(self) -> (r: bool)
        ensures
            r == (self.deterministic_replay && self.ledger_integrity && self.consensus_fencing && self.protocol_integrity),
    {
        self.deterministic_replay && self.ledger_integrity && self.consensus_fencing && self.protocol_integrity
    }
}

/// Command `id` of the certification workload: a buy on each registered
/// instrument in turn, spot then future of each sovereign, with account,
/// price and quantity cycling.
pub open spec fn stream_command(id: u64) -> OrderCommand {
    let j = ((id - 1) % 24) as u16;
    OrderCommand::New(NewOrder {
        client_order_id: ClientOrderId(id),
        account_id: (1 + id % 32) as u32,
        instrument_id: if j % 2 == 0 { spec_spot_id(j / 2) } else { spec_future_id(j / 2) },
        side: OrderSide::Buy,
        price: (100 + id % 50) as u32,
        quantity: (1 + id % 7) as u32,
        client_timestamp: id,
    })
}

/// The certification workload: ten thousand buy orders.
pub fn command_stream() -> (r: Vec<OrderCommand>)
    ensures
        r@.len() == 10_000,
        forall|i: int| 0 <= i < 10_000 ==> #[trigger] r@[i] == stream_command((i + 1) as u64),
{
    let registered = (sovereigns().len() * 2) as u64;
    let mut out: Vec<OrderCommand> = Vec::new();
    let mut id: u64 = 1;
    while id <= 10_000
        invariant
            registered == 24,
            1 <= id <= 10_001,
            out@.len() == id - 1,
            forall|i: int| 0 <= i < id - 1 ==> #[trigger] out@[i] == stream_command((i + 1) as u64),
        decreases 10_001 - id,
    {
        let j = ((id - 1) % registered) as u16;
        let instrument_id = if j % 2 == 0 { spot_instrument_id(j / 2) } else { future_instrument_id(j / 2) };
        out.push(OrderCommand::New(NewOrder {
            client_order_id: ClientOrderId(id),
            account_id: (1 + id % 32) as u32,
            instrument_id,
            side: OrderSide::Buy,
            price: (100 + id % 50) as u32,
            quantity: (1 + id % 7) as u32,
            client_timestamp: id,
        }));
        id = id + 1;
    }
    out
}

/// The first `n` slots of the seed registry hold exactly the first 24 ids.
pub proof fn lemma_registered_count(e: MatchingEngine, n: int)
    requires
        e.instruments.wf(),
        0 <= n <= MAX_INSTRUMENTS,
        forall|id: u16| #[trigger] e.instruments.lookup(id) is Some <==> id < 2 * SOVEREIGN_COUNT,
    ensures
        count_some(e.instruments.instruments@.take(n)) == if n < 24 { n } else { 24 },
    decreases n,
{
    let s = e.instruments.instruments@;
    if n > 0 {
        lemma_registered_count(e, n - 1);
        assert(s.take(n).drop_last() =~= s.take(n - 1));
        assert(e.instruments.lookup((n - 1) as u16) == s[n - 1]);
    } else {
        assert(s.take(0) =~= Seq::<Option<crate::instrument::Instrument>>::empty());
    }
}

/// Books and registrations agree with the configured universe: every one of
/// the 392 books exists, exactly the 24 seed instruments are registered,
/// each sovereign's spot and future with their market types, and the first
/// unregistered slot has a book but no instrument.
#[verifier::spinoff_prover]
pub fn topology_check() -> (r: bool)
    ensures
        r,
{
    let engine = MatchingEngine::new();
    let seeds = sovereigns();
    let expected_registered = seeds.len() * 2;
    proof {
        lemma_wf_pool(engine);
        lemma_registered_count(engine, MAX_INSTRUMENTS as int);
        assert(engine.instruments.instruments@.take(MAX_INSTRUMENTS as int) =~= engine.instruments.instruments@);
    }
    if engine.books.len() != MAX_INSTRUMENTS || engine.instruments.len() != expected_registered || expected_registered > MAX_INSTRUMENTS {
        return false;
    }
    let mut id: u16 = 0;
    while (id as usize) < MAX_INSTRUMENTS
        invariant
            engine.books@.len() == MAX_INSTRUMENTS,
        decreases MAX_INSTRUMENTS - id,
    {
        if engine.book(id).is_none() {
            return false;
        }
        id = id + 1;
    }
    let mut k: usize = 0;
    while k < seeds.len()
        invariant
            seeds@.len() == SOVEREIGN_COUNT,
            forall|i: int| 0 <= i < seeds@.len() ==> (#[trigger] seeds@[i]).id == i,
            forall|s: u16| s < SOVEREIGN_COUNT ==> (#[trigger] engine.instruments.lookup(spec_spot_id(s)))->0.market_type == MarketType::Spot
                && engine.instruments.lookup(spec_future_id(s))->0.market_type == MarketType::Future,
            forall|i: u16| #[trigger] engine.instruments.lookup(i) is Some <==> i < 2 * SOVEREIGN_COUNT,
        decreases seeds.len() - k,
    {
        let sovereign = seeds[k];
        let spot = spot_instrument_id(sovereign.id);
        let future = future_instrument_id(sovereign.id);
        let spot_ok = match engine.instrument(spot) {
            Some(i) => i.market_type == MarketType::Spot,
            None => false,
        };
        let future_ok = match engine.instrument(future) {
            Some(i) => i.market_type == MarketType::Future,
            None => false,
        };
        if !spot_ok || !future_ok {
            return false;
        }
        k = k + 1;
    }
    let first_unregistered = expected_registered as u16;
    engine.instrument(first_unregistered).is_none() && engine.book(first_unregistered).is_some()
}

/// Volume of the level at `price` on a sorted ladder, zero when there is none.
pub(crate) fn level_volume(ladder: &PriceLadder, price: u32) -> (r: u32)
    requires
        ladder.sorted(),
    ensures
        r == ladder.volume_at(price),
{
    match ladder.get(&price) {
        Some(level) => {
            proof {
                let i = choose|i: int| 0 <= i < ladder.entries@.len() && ladder.entries@[i] == (price, *level);
                let j = ladder.index_of(price);
                if i != j {
                    if i < j {
                        assert(ladder.entries@[i].0 < ladder.entries@[j].0);
                    } else {
                        assert(ladder.entries@[j].0 < ladder.entries@[i].0);
                    }
                }
            }
            level.volume
        },
        None => 0,
    }
}

/// An accepted cancel can always be processed.
#[verifier::spinoff_prover]
pub proof fn lemma_cancel_processable(e: MatchingEngine, c: OrderCommand)
    requires
        e.wf(),
        c is Cancel,
    ensures
        processable(e, c),
{
    assert forall|e1: MatchingEngine, a: AcceptedOrder|
        e.admission(c) == Ok::<AcceptedOrder, OrderAcceptError>(a) && #[trigger] accept_effect(e, c, e1, a)
        implies can_process(e1, a.pool_index) by {
        lemma_wf_pool(e1);
        lemma_wf_pool(e);
        assert(e1.pool.data@[a.pool_index as int].command_kind == 1);
    }
}

/// An accepted new order can be processed when what matching would leave
/// of it fits on the level it may rest on.
#[verifier::spinoff_prover]
pub proof fn lemma_new_processable(e: MatchingEngine, o: NewOrder)
    requires
        e.wf(),
        crate::durable::new_has_room(e, o),
    ensures
        processable(e, OrderCommand::New(o)),
{
    let c = OrderCommand::New(o);
    assert forall|e1: MatchingEngine, a: AcceptedOrder|
        e.admission(c) == Ok::<AcceptedOrder, OrderAcceptError>(a) && #[trigger] accept_effect(e, c, e1, a)
        implies can_process(e1, a.pool_index) by {
        let idx = a.pool_index;
        lemma_wf_pool(e1);
        lemma_wf_pool(e);
        let d = e1.pool.data@;
        let rec = d[idx as int];
        let buy = rec.side == 0;
        assert(rec == crate::pool::spec_order_from_command(c, a.exchange_order_id.0, a.sequence_number.0));
        assert(e1.books@ == e.books@);
        if e1.instruments.lookup(rec.instrument_id) is Some && rec.side <= 1 {
            lemma_wf_book(e1, rec.instrument_id as int);
            crate::room::lemma_fill_against(e1.books@[rec.instrument_id as int], &e1.pool, d, buy, rec.price, rec.remaining);
            assert(left_after_match(e1, idx) == o.quantity - crate::room::fill_against(e.books@[o.instrument_id as int], buy, o.price, o.quantity));
            assert(own_ladder(e1.books@[rec.instrument_id as int], rec.side) == own_ladder(e.books@[o.instrument_id as int], crate::command::spec_side_wire(o.side)));
            assert(rest_fits(e1, idx)) by {
                reveal(rest_fits);
            }
        }
    }
}

/// The certification workload as a sequence: command `i` is
/// `stream_command(i + 1)`.
pub open spec fn spec_command_stream() -> Seq<OrderCommand> {
    Seq::new(10_000, |i: int| stream_command((i + 1) as u64))
}

/// `st` replays `cs` from `e0`, each command fitting its level when its
/// turn comes.
pub open spec fn fitting_trace(e0: MatchingEngine, cs: Seq<OrderCommand>, st: Seq<MatchingEngine>) -> bool {
    &&& st.len() == cs.len() + 1
    &&& replay_trace(e0, cs, st, st.last())
    &&& forall|k: int| 0 <= k < cs.len() ==> #[trigger] replay_fits(st[k], cs[k])
}

/// `cs` replays from a fresh engine, each command fitting its level when
/// its turn comes.
pub open spec fn replays_fitting(cs: Seq<OrderCommand>) -> bool {
    exists|e0: MatchingEngine, st: Seq<MatchingEngine>| fresh_engine(e0) && #[trigger] fitting_trace(e0, cs, st)
}

/// The first `n + 1` states of a fitting trace replay the first `n`
/// commands.
pub proof fn lemma_trace_prefix(e0: MatchingEngine, cs: Seq<OrderCommand>, st: Seq<MatchingEngine>, n: int)
    requires
        fitting_trace(e0, cs, st),
        0 <= n <= cs.len(),
    ensures
        replay_trace(e0, cs.take(n), st.take(n + 1), st[n]),
        replay_fits(st[n], cs[n]) || n == cs.len(),
        n < cs.len() ==> replay_step(st[n], cs[n], st[n + 1]),
{
    let p = st.take(n + 1);
    let c = cs.take(n);
    assert forall|k: int| 0 <= k < c.len() implies #[trigger] replay_step(p[k], c[k], p[k + 1]) by {
        assert(replay_step(st[k], cs[k], st[k + 1]));
    }
    if n < cs.len() {
        assert(replay_fits(st[n], cs[n]));
        assert(replay_step(st[n], cs[n], st[n + 1]));
    }
}

/// Replays the workload on two fresh engines and compares their
/// fingerprints. A command either engine refuses, or one it could not be
/// sure to rest, fails the check. The check passes exactly when the
/// workload replays from a fresh engine with every command fitting its
/// level; both engines then replayed it from an empty state and ended with
/// equal fingerprints.
#[verifier::spinoff_prover]
#[verifier::rlimit(40)]
pub fn deterministic_replay_check() -> (r: bool)
    ensures
        r <==> replays_fitting(spec_command_stream()),
        r ==> exists|a0: MatchingEngine, b0: MatchingEngine, a1: MatchingEngine, b1: MatchingEngine|
            #![trigger replayed(a0, spec_command_stream(), a1), replayed(b0, spec_command_stream(), b1)]
            fresh_engine(a0) && fresh_engine(b0)
            && replayed(a0, spec_command_stream(), a1) && replayed(b0, spec_command_stream(), b1)
            && spec_fingerprint(a1) == spec_fingerprint(b1),
{
    let commands = command_stream();
    let mut first = MatchingEngine::new();
    let mut second = MatchingEngine::new();
    let ghost a0 = first;
    let ghost b0 = second;
    let ghost mut sa: Seq<MatchingEngine> = seq![first];
    let ghost mut sb: Seq<MatchingEngine> = seq![second];
    let mut i: usize = 0;
    proof {
        assert(commands@ =~= spec_command_stream());
        lemma_fresh_same(a0, b0);
    }
    while i < commands.len()
        invariant
            first.wf(),
            second.wf(),
            commands@ == spec_command_stream(),
            fresh_engine(a0),
            fresh_engine(b0),
            i <= commands@.len(),
            replay_trace(a0, commands@.take(i as int), sa, first),
            replay_trace(b0, commands@.take(i as int), sb, second),
            sa.len() == i + 1,
            forall|k: int| 0 <= k < i ==> #[trigger] replay_fits(sa[k], commands@[k]),
            same_state(first, second),
        decreases commands.len() - i,
    {
        let command = commands[i];
        let ghost cs = commands@;
        proof {
            if replays_fitting(cs) {
                let (w0, st) = choose|w0: MatchingEngine, st: Seq<MatchingEngine>| fresh_engine(w0) && #[trigger] fitting_trace(w0, cs, st);
                lemma_fresh_same(a0, w0);
                lemma_trace_prefix(w0, cs, st, i as int);
                lemma_trace_same(a0, w0, cs.take(i as int), sa, st.take(i + 1), first, st[i as int], i as int);
                assert(sa[i as int] == first);
                lemma_fits_same(first, st[i as int], command);
                lemma_admission_same(first, st[i as int], command);
                lemma_same_refl(first);
                lemma_fits_same(first, second, command);
                lemma_admission_same(first, second, command);
            }
        }
        if !first.can_replay(&command) || !second.can_replay(&command) {
            return false;
        }
        let ghost f0 = first;
        let ghost s0 = second;
        proof {
            lemma_fits_same(first, second, command);
            lemma_admission_same(first, second, command);
        }
        let left = first.accept_command(&command);
        let right = second.accept_command(&command);
        let (l, r) = match (left, right) {
            (Ok(l), Ok(r)) => (l, r),
            _ => return false,
        };
        proof {
            assert(accept_effect(f0, command, first, l));
            assert(accept_effect(s0, command, second, r));
        }
        let ghost fm = first;
        let ghost sm = second;
        first.process_order(l.pool_index);
        second.process_order(r.pool_index);
        proof {
            assert(replay_step(f0, command, first));
            assert(replay_step(s0, command, second));
            lemma_step_same(f0, s0, command, first, second);
            let cs0 = commands@.take(i as int);
            let cs1 = commands@.take(i + 1);
            assert(cs1 =~= cs0.push(command));
            let sa1 = sa.push(first);
            let sb1 = sb.push(second);
            assert forall|k: int| 0 <= k < cs1.len() implies #[trigger] replay_step(sa1[k], cs1[k], sa1[k + 1]) by {
                if k < cs0.len() {
                    assert(replay_step(sa[k], cs0[k], sa[k + 1]));
                }
            }
            assert forall|k: int| 0 <= k < cs1.len() implies #[trigger] replay_step(sb1[k], cs1[k], sb1[k + 1]) by {
                if k < cs0.len() {
                    assert(replay_step(sb[k], cs0[k], sb[k + 1]));
                }
            }
            assert forall|k: int| 0 <= k < i + 1 implies #[trigger] replay_fits(sa1[k], commands@[k]) by {
                if k < i {
                    assert(sa1[k] == sa[k]);
                } else {
                    assert(sa1[k] == f0);
                }
            }
            sa = sa1;
            sb = sb1;
        }
        i = i + 1;
    }
    let fa = first.state_fingerprint();
    let fb = second.state_fingerprint();
    proof {
        assert(commands@.take(i as int) =~= spec_command_stream());
        assert(replayed(a0, spec_command_stream(), first));
        assert(replayed(b0, spec_command_stream(), second));
        lemma_fingerprint_same(first, second);
        assert(fitting_trace(a0, spec_command_stream(), sa));
    }
    fa == fb
}

/// The balances after seeding account 1 with 100 000 of cash and account 2
/// with 1 000 of stock.
pub open spec fn seeded_balances() -> Map<(u32, u32), i128> {
    Map::<(u32, u32), i128>::empty().insert((1, 0), 100_000).insert((2, 1000), 1_000)
}

/// The cash leg of the check's trade.
pub open spec fn cash_leg() -> Transfer {
    Transfer { trade_id: 1, sequence: 1, debit_account: 1, credit_account: 2, asset: AssetId(0), amount: 10_000, kind: LedgerKind::TradeCash }
}

/// The stock leg of the check's trade.
pub open spec fn stock_leg() -> Transfer {
    Transfer { trade_id: 1, sequence: 1, debit_account: 2, credit_account: 1, asset: AssetId(1000), amount: 100, kind: LedgerKind::TradeSecurity }
}

/// Both legs of the check's trade, cash first.
pub open spec fn trade_legs() -> Seq<Transfer> {
    seq![cash_leg(), stock_leg()]
}

/// The seeded totals: 100 000 of cash and 1 000 of stock.
proof fn lemma_seeded_totals()
    ensures
        spec_asset_total(seeded_balances(), 0) == 100_000,
        spec_asset_total(seeded_balances(), 1000) == 1_000,
{
    let e = Map::<(u32, u32), i128>::empty();
    let m0 = e.insert((1, 0), 100_000);
    lemma_asset_step_commutative(e, 0);
    lemma_asset_step_commutative(e, 1000);
    assert(e.dom() =~= Set::<(u32, u32)>::empty());
    vstd::set::fold::lemma_fold_empty(0int, asset_step(e, 0));
    vstd::set::fold::lemma_fold_empty(0int, asset_step(e, 1000));
    lemma_total_insert(e, (1, 0), 100_000, 0);
    lemma_total_insert(e, (1, 0), 100_000, 1000);
    lemma_total_insert(m0, (2, 1000), 1_000, 0);
    lemma_total_insert(m0, (2, 1000), 1_000, 1000);
}

/// Posting the check's trade on the seeded ledger succeeds and leaves no
/// balance negative.
proof fn lemma_trade_posts(s: LedgerModel)
    requires
        s.balances == seeded_balances(),
        s.next_entry_id == 1,
    ensures
        spec_post_batch(s, trade_legs()).1 is Ok,
        forall|k: (u32, u32)| #[trigger] spec_post_batch(s, trade_legs()).0.balances.contains_key(k)
            ==> spec_post_batch(s, trade_legs()).0.balances[k] >= 0,
{
    let ts = trade_legs();
    let m1 = seeded_balances();
    assert(ts.drop_last() =~= seq![cash_leg()]);
    assert(seq![cash_leg()].drop_last() =~= Seq::<Transfer>::empty());
    reveal_with_fuel(spec_deltas, 3);
    reveal_with_fuel(spec_apply, 3);
    let d = Map::<(u32, u32), i128>::empty().insert((1, 0), -10_000i128).insert((2, 0), 10_000)
        .insert((2, 1000), -100i128).insert((1, 1000), 100);
    assert(spec_deltas(seq![cash_leg()]) == Ok::<Map<(u32, u32), i128>, crate::ledger::LedgerError>(
        Map::<(u32, u32), i128>::empty().insert((1, 0), -10_000i128).insert((2, 0), 10_000)));
    assert(spec_deltas(ts) == Ok::<Map<(u32, u32), i128>, crate::ledger::LedgerError>(d));
    assert forall|k: (u32, u32)| !first_bad_key(m1, d, k) by {
        if d.contains_key(k) {
            assert(!is_bad(m1, d, k));
        }
    }
    assert(spec_first_bad(m1, d) is None);
    let s1 = spec_apply(s, seq![cash_leg()]);
    assert(s1.1 is Ok);
    assert(s1.0.balances == m1.insert((1, 0), 90_000).insert((2, 0), 10_000));
    assert(s1.0.next_entry_id == 2);
    let b2 = m1.insert((1, 0), 90_000).insert((2, 0), 10_000).insert((2, 1000), 900).insert((1, 1000), 100);
    assert(spec_apply(s, ts).1 is Ok);
    assert(spec_apply(s, ts).0.balances == b2);
    assert(spec_post_batch(s, ts) == spec_apply(s, ts));
}

/// Conserves each asset: seeds cash and stock, settles one trade's cash and
/// stock legs as a batch, and compares both totals before and after. Seeding
/// and posting succeed on a fresh ledger and both totals are kept, so the
/// check passes.
pub fn ledger_integrity_check() -> (r: bool)
    ensures
        r,
{
    let cash = AssetId(0);
    let stock = AssetId(1000);
    let mut ledger = DoubleEntryLedger::new();
    if ledger.seed(1, cash, 100_000).is_err() || ledger.seed(2, stock, 1_000).is_err() {
        return false;
    }
    proof {
        assert(ledger@.balances =~= seeded_balances());
        lemma_seeded_totals();
    }
    let before_cash = match ledger.try_asset_total(cash) {
        Some(t) => t,
        None => return false,
    };
    let before_stock = match ledger.try_asset_total(stock) {
        Some(t) => t,
        None => return false,
    };
    let transfers = [
        Transfer { trade_id: 1, sequence: 1, debit_account: 1, credit_account: 2, asset: cash, amount: 10_000, kind: LedgerKind::TradeCash },
        Transfer { trade_id: 1, sequence: 1, debit_account: 2, credit_account: 1, asset: stock, amount: 100, kind: LedgerKind::TradeSecurity },
    ];
    let ghost seeded = ledger@;
    proof {
        assert(transfers@ =~= trade_legs());
        lemma_trade_posts(seeded);
    }
    if ledger.post_batch(&transfers).is_err() {
        return false;
    }
    proof {
        crate::ledger::lemma_post_batch_zero_sum(seeded, transfers@, cash.0);
        crate::ledger::lemma_post_batch_zero_sum(seeded, transfers@, stock.0);
    }
    let after_cash = match ledger.try_asset_total(cash) {
        Some(t) => t,
        None => return false,
    };
    let after_stock = match ledger.try_asset_total(stock) {
        Some(t) => t,
        None => return false,
    };
    proof {
        assert(after_cash == before_cash);
        assert(after_stock == before_stock);
    }
    after_cash == before_cash && after_stock == before_stock
}

/// A three-node cluster elects its candidate on one granted vote of the
/// candidate's own term.
pub fn consensus_fencing_check() -> (r: bool)
    ensures
        r,
{
    let members = vec![NodeId(1), NodeId(2), NodeId(3)];
    let ghost ms = members@;
    proof {
        assert(ms.no_duplicates());
        ms.unique_seq_to_set();
        assert(ms[0] == NodeId(1));
        assert forall|x: NodeId| ms.contains(x) <==> (x == NodeId(1) || x == NodeId(2) || x == NodeId(3)) by {
            if x == NodeId(2) {
                assert(ms[1] == x);
            }
            if x == NodeId(3) {
                assert(ms[2] == x);
            }
        }
    }
    let mut leader = match RaftNode::new(NodeId(1), members, 3, 1) {
        Ok(node) => node,
        Err(_) => return false,
    };
    leader.start_election();
    let response = VoteResponse { term: Term(1), voter_id: NodeId(2), granted: true };
    proof {
        let s = leader@;
        assert(s.votes == set![1u64]);
        assert(s.votes.insert(2u64).len() == 2) by {
            assert(!set![1u64].contains(2u64));
        }
        assert(s.members.len() == 3) by {
            crate::consensus::lemma_increasing_len(s.members);
            assert(s.members.to_set() =~= ms.to_set());
        }
    }
    if leader.handle_vote_response(response).is_err() {
        return false;
    }
    leader.term().0 == 1 && leader.role() == crate::consensus::Role::Leader
}

/// The frame a logged-on session would send next: a heartbeat numbered 2.
pub open spec fn probe_frame() -> WireFrame {
    WireFrame { sequence: MessageSeq(2), message: WireMessage::Heartbeat }
}

/// A trader logs on, and a heartbeat frame with one header bit flipped is
/// refused while the intact frame decodes.
pub fn protocol_integrity_check() -> (r: bool)
    ensures
        r == (spec_decode_frame(spec_encode_frame(probe_frame()).update(8, spec_encode_frame(probe_frame())[8] ^ 1u8)) is Err),
        r,
{
    proof {
        crate::protocol::lemma_frame_round_trip(probe_frame());
        crate::protocol::lemma_corrupt_frame_detected(probe_frame(), 8, 1u8);
    }
    let mut credentials = CredentialStore::new();
    credentials.register(Credential { api_key: 1, token: [7; 32], role: Role::Trader, enabled: true });
    let mut session = GatewaySession::new();
    let frame = WireFrame {
        sequence: MessageSeq(1),
        message: WireMessage::Logon { api_key: 1, token: [7; 32], heartbeat_ticks: 100 },
    };
    if session.receive(frame, &credentials).is_err() {
        return false;
    }
    let mut frame = WireFrame { sequence: MessageSeq(2), message: WireMessage::Heartbeat };
    let mut bytes = match frame.encode() {
        Ok(bytes) => bytes,
        Err(_) => return false,
    };
    proof {
        crate::protocol::lemma_payload_len(probe_frame().message);
        vstd::bytes::lemma_auto_spec_u64_to_from_le_bytes();
    }
    let flipped = bytes[8] ^ 1;
    bytes.set(8, flipped);
    if WireFrame::decode(bytes.as_slice()).is_ok() {
        return false;
    }
    frame.sequence = MessageSeq(2);
    let intact = match frame.encode() {
        Ok(b) => b,
        Err(_) => return false,
    };
    proof {
        lemma_frame_round_trip(probe_frame());
    }
    WireFrame::decode(intact.as_slice()).is_ok()
}

/// Runs every check.
pub fn run_smoke_certification() -> (r: CertificationReport)
    ensures
        r.deterministic_replay == replays_fitting(spec_command_stream()),
        r.consensus_fencing,
        r.ledger_integrity,
        r.protocol_integrity,
        r.protocol_integrity == (spec_decode_frame(spec_encode_frame(probe_frame()).update(8, spec_encode_frame(probe_frame())[8] ^ 1u8)) is Err),
{
    let replay = deterministic_replay_check();
    let topology = topology_check();
    CertificationReport {
        deterministic_replay: replay && topology,
        ledger_integrity: ledger_integrity_check(),
        consensus_fencing: consensus_fencing_check(),
        protocol_integrity: protocol_integrity_check(),
    }
}

} // verus!
