use exchange_core::certification::{
    consensus_fencing_check, deterministic_replay_check, ledger_integrity_check, protocol_integrity_check,
    run_smoke_certification, topology_check,
};
use exchange_core::ledger::{AssetId, DoubleEntryLedger, FeeSchedule, SettlementEngine, TradeSettlement};

#[test]
fn certification_smoke_passes() {
    assert!(run_smoke_certification().all_passed());
}

#[test]
fn deterministic_workload_replays_identically() {
    assert!(deterministic_replay_check());
}

#[test]
fn ledger_integrity_is_zero_sum_per_asset() {
    assert!(ledger_integrity_check());
}

#[test]
fn consensus_election_is_fenced_by_term() {
    assert!(consensus_fencing_check());
}

#[test]
fn protocol_header_mutation_is_rejected() {
    assert!(protocol_integrity_check());
}

#[test]
fn settlement_rejects_partial_state() {
    let cash = AssetId(0);
    let stock = AssetId(1000);
    let mut ledger = DoubleEntryLedger::new();
    ledger.seed(1, cash, 100).unwrap();
    ledger.seed(2, stock, 10).unwrap();
    let mut settlement = SettlementEngine::new(ledger);
    let result = settlement.settle_trade(
        TradeSettlement {
            trade_id: 42,
            sequence: 42,
            buyer_account: 1,
            seller_account: 2,
            instrument_asset: stock,
            cash_asset: cash,
            price: 100,
            quantity: 10,
            buyer_fee: 0,
            seller_fee: 0,
        },
        FeeSchedule::new(0, 0),
        999,
    );
    assert!(result.is_err());
    assert_eq!(settlement.ledger.balance(1, cash), 100);
    assert_eq!(settlement.ledger.balance(2, stock), 10);
}

#[test]
fn seed_topology_is_as_configured() {
    assert!(topology_check());
    let stream = exchange_core::certification::command_stream();
    assert_eq!(stream.len(), 10_000);
    match stream[24] {
        exchange_core::command::OrderCommand::New(o) => {
            assert_eq!(o.client_order_id.0, 25);
            assert_eq!(o.instrument_id, 0);
            assert_eq!(o.account_id, 26);
            assert_eq!(o.price, 125);
            assert_eq!(o.quantity, 5);
        },
        _ => unreachable!(),
    }
}
