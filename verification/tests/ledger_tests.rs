use exchange_core::ledger::{
    AssetId, DoubleEntryLedger, FeeRole, FeeSchedule, LedgerError, LedgerKind, SettlementEngine, SettlementState,
    TradeSettlement, Transfer,
};

const CASH: AssetId = AssetId(0);
const STOCK: AssetId = AssetId(1000);
const FEE: u32 = 999;

fn funded_ledger() -> DoubleEntryLedger {
    let mut ledger = DoubleEntryLedger::new();
    ledger.seed(1, CASH, 100_000).unwrap();
    ledger.seed(2, CASH, 100_000).unwrap();
    ledger.seed(2, STOCK, 1_000).unwrap();
    ledger
}

fn transfer(trade_id: u64, debit: u32, credit: u32, asset: AssetId, amount: i128, kind: LedgerKind) -> Transfer {
    Transfer { trade_id, sequence: trade_id, debit_account: debit, credit_account: credit, asset, amount, kind }
}

#[test]
fn ledger_is_zero_sum_per_asset_after_transfer() {
    let mut ledger = funded_ledger();
    let before_cash = ledger.asset_total(CASH);
    let before_stock = ledger.asset_total(STOCK);
    ledger
        .post_batch(&[
            transfer(1, 1, 2, CASH, 10_000, LedgerKind::TradeCash),
            transfer(1, 2, 1, STOCK, 100, LedgerKind::TradeSecurity),
        ])
        .unwrap();
    assert_eq!(ledger.asset_total(CASH), before_cash);
    assert_eq!(ledger.asset_total(STOCK), before_stock);
}

#[test]
fn batch_is_atomic_on_insufficient_balance() {
    let mut ledger = funded_ledger();
    let before = ledger.balance(1, CASH);
    let result = ledger.post_batch(&[
        transfer(2, 1, 2, CASH, 10_000, LedgerKind::TradeCash),
        transfer(2, 1, 2, CASH, 1_000_000, LedgerKind::TradeCash),
    ]);
    assert_eq!(result, Err(LedgerError::InsufficientBalance));
    assert_eq!(ledger.balance(1, CASH), before);
    assert!(ledger.entries().is_empty());
}

#[test]
fn fee_calculation_is_integer_and_deterministic() {
    let schedule = FeeSchedule::new(1, 25);
    assert_eq!(schedule.fee(10_000, FeeRole::Taker).unwrap(), 25);
    assert_eq!(schedule.fee(10_000, FeeRole::Maker).unwrap(), 1);
}

#[test]
fn trade_settlement_moves_cash_security_and_fees_atomically() {
    let mut engine = SettlementEngine::new(funded_ledger());
    let record = engine
        .settle_trade(
            TradeSettlement {
                trade_id: 7,
                sequence: 7,
                buyer_account: 1,
                seller_account: 2,
                instrument_asset: STOCK,
                cash_asset: CASH,
                price: 100,
                quantity: 100,
                buyer_fee: 0,
                seller_fee: 0,
            },
            FeeSchedule::new(10, 20),
            FEE,
        )
        .unwrap();
    assert_eq!(record.state, SettlementState::Settled);
    assert_eq!(engine.ledger.balance(1, CASH), 89_980);
    assert_eq!(engine.ledger.balance(2, CASH), 109_990);
    assert_eq!(engine.ledger.balance(1, STOCK), 100);
    assert_eq!(engine.ledger.balance(2, STOCK), 900);
    assert_eq!(engine.ledger.balance(FEE, CASH), 30);
    assert_eq!(engine.ledger.asset_total(CASH), 200_000);
    assert_eq!(engine.ledger.asset_total(STOCK), 1_000);
}

#[test]
fn duplicate_trade_is_rejected() {
    let mut engine = SettlementEngine::new(funded_ledger());
    let trade = TradeSettlement {
        trade_id: 8,
        sequence: 8,
        buyer_account: 1,
        seller_account: 2,
        instrument_asset: STOCK,
        cash_asset: CASH,
        price: 100,
        quantity: 10,
        buyer_fee: 0,
        seller_fee: 0,
    };
    engine.settle_trade(trade, FeeSchedule::new(0, 0), FEE).unwrap();
    assert_eq!(engine.settle_trade(trade, FeeSchedule::new(0, 0), FEE), Err(LedgerError::DuplicateTrade));
}

#[test]
fn ledger_errors_are_typed_and_leave_state_untouched() {
    let mut ledger = funded_ledger();
    assert_eq!(ledger.seed(1, CASH, -1), Err(LedgerError::InvalidAmount));
    assert_eq!(ledger.seed(3, CASH, i128::MAX).map(|_| ()), Ok(()));
    assert_eq!(ledger.seed(3, CASH, 1), Err(LedgerError::ArithmeticOverflow));
    assert_eq!(ledger.post_batch(&[transfer(3, 1, 2, CASH, 0, LedgerKind::Fee)]), Err(LedgerError::InvalidAmount));
    assert_eq!(ledger.post_batch(&[transfer(3, 1, 1, CASH, 5, LedgerKind::Fee)]), Err(LedgerError::SelfTransfer));
    assert_eq!(ledger.post_batch(&[]), Ok(()));
    assert!(ledger.entries().is_empty());
    ledger.post_batch(&[transfer(4, 1, 2, CASH, 5, LedgerKind::TradeCash)]).unwrap();
    assert_eq!(ledger.entries().len(), 1);
    assert_eq!(ledger.entries()[0].entry_id, 1);
    assert_eq!(ledger.entries()[0].amount, 5);
    assert_eq!(FeeSchedule::new(0, 0).fee(-1, FeeRole::Maker), Err(LedgerError::InvalidAmount));
    assert_eq!(FeeSchedule::new(10_000, 0).fee(i128::MAX, FeeRole::Maker), Err(LedgerError::ArithmeticOverflow));
    assert_eq!(FeeSchedule::new(3, 0).fee(9_999, FeeRole::Maker), Ok(2));
}

#[test]
fn failed_settlement_is_recorded_and_reconciliation_checks_totals() {
    let mut engine = SettlementEngine::new(funded_ledger());
    let trade = TradeSettlement {
        trade_id: 11,
        sequence: 11,
        buyer_account: 1,
        seller_account: 2,
        instrument_asset: STOCK,
        cash_asset: CASH,
        price: 1_000,
        quantity: 1_000,
        buyer_fee: 0,
        seller_fee: 0,
    };
    assert_eq!(engine.settle_trade(trade, FeeSchedule::new(0, 0), FEE), Err(LedgerError::InsufficientBalance));
    let record = engine.settlement(11).unwrap();
    assert_eq!(record.state, SettlementState::Failed);
    assert_eq!(record.error, Some(LedgerError::InsufficientBalance));
    assert_eq!(engine.ledger.balance(1, CASH), 100_000);
    assert!(engine.reconcile_asset(CASH, 200_000));
    assert!(!engine.reconcile_asset(CASH, 199_999));
    assert_eq!(engine.settlement(12), None);
    assert_eq!(engine.settle_trade(trade, FeeSchedule::new(0, 0), FEE), Err(LedgerError::DuplicateTrade));
}
