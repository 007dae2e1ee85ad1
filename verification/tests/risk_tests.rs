use exchange_core::command::{CancelOrder, NewOrder, OrderCommand, OrderSide};
use exchange_core::order::ClientOrderId;
use exchange_core::risk::{AccountStatus, RiskEngine, RiskError, RiskFill};

fn new_order(account_id: u32, id: u64, side: OrderSide, price: u32, quantity: u32) -> OrderCommand {
    OrderCommand::New(NewOrder {
        client_order_id: ClientOrderId(id),
        account_id,
        instrument_id: 0,
        side,
        price,
        quantity,
        client_timestamp: id,
    })
}

#[test]
fn buy_reserves_cash_deterministically() {
    let mut risk = RiskEngine::new();
    risk.create_account(1).unwrap();
    risk.fund(1, 100_000).unwrap();
    let reservation = risk.admit_command(&new_order(1, 7, OrderSide::Buy, 100, 500)).unwrap().unwrap();
    assert_eq!(reservation.reserved_value, 50_000);
    assert_eq!(risk.account(1).unwrap().available_cash(), 50_000);
}

#[test]
fn sell_requires_available_position() {
    let mut risk = RiskEngine::new();
    risk.create_account(1).unwrap();
    risk.credit_position(1, 0, 100).unwrap();
    assert_eq!(risk.admit_command(&new_order(1, 7, OrderSide::Sell, 100, 101)), Err(RiskError::InsufficientPosition));
}

#[test]
fn frozen_account_cannot_submit() {
    let mut risk = RiskEngine::new();
    risk.create_account(1).unwrap();
    risk.fund(1, 1000).unwrap();
    risk.set_status(1, AccountStatus::Frozen).unwrap();
    assert_eq!(risk.admit_command(&new_order(1, 1, OrderSide::Buy, 10, 1)), Err(RiskError::AccountInactive));
}

#[test]
fn cancel_releases_reservation() {
    let mut risk = RiskEngine::new();
    risk.create_account(1).unwrap();
    risk.fund(1, 1000).unwrap();
    risk.admit_command(&new_order(1, 1, OrderSide::Buy, 10, 10)).unwrap();
    risk.admit_command(&OrderCommand::Cancel(CancelOrder {
        account_id: 1,
        instrument_id: 0,
        client_order_id: ClientOrderId(1),
    }))
    .unwrap();
    assert_eq!(risk.account(1).unwrap().available_cash(), 1000);
    assert!(risk.reservation(1, 0, 1).is_none());
}

#[test]
fn trade_moves_cash_and_position() {
    let mut risk = RiskEngine::new();
    risk.create_account(1).unwrap();
    risk.create_account(2).unwrap();
    risk.fund(1, 10_000).unwrap();
    risk.credit_position(2, 0, 100).unwrap();
    risk.admit_command(&new_order(1, 1, OrderSide::Buy, 120, 50)).unwrap();
    risk.admit_command(&new_order(2, 2, OrderSide::Sell, 100, 50)).unwrap();
    risk.apply_fill(RiskFill {
        buyer_account: 1,
        seller_account: 2,
        instrument_id: 0,
        buyer_client_order_id: 1,
        seller_client_order_id: 2,
        price: 100,
        quantity: 50,
    })
    .unwrap();
    assert_eq!(risk.account(1).unwrap().cash, 5000);
    assert_eq!(risk.account(1).unwrap().position(0), 50);
    assert_eq!(risk.account(2).unwrap().cash, 5000);
    assert_eq!(risk.account(2).unwrap().position(0), 50);
    assert!(risk.reservation(1, 0, 1).is_none());
    assert!(risk.reservation(2, 0, 2).is_none());
}

#[test]
fn reservation_then_cancel_restores_available_cash_exactly() {
    let mut risk = RiskEngine::new();
    risk.create_account(3).unwrap();
    risk.fund(3, 2_000).unwrap();
    assert_eq!(risk.create_account(3), Err(RiskError::DuplicateReservation));
    let before = risk.account(3).unwrap().available_cash();
    let r = risk.reserve(3, 0, 9, OrderSide::Buy, 7, 11).unwrap().unwrap();
    assert_eq!(r.reserved_value, 77);
    assert_eq!(risk.account(3).unwrap().available_cash(), before - 77);
    let released = risk.cancel_reservation(3, 0, 9).unwrap();
    assert_eq!(released.reserved_value, 77);
    assert_eq!(risk.account(3).unwrap().available_cash(), before);
    assert_eq!(risk.cancel_reservation(3, 0, 9), Err(RiskError::ReservationMissing));
    assert_eq!(risk.fund(42, 1), Err(RiskError::UnknownAccount));
}

#[test]
fn refused_fill_leaves_no_partial_state() {
    let mut risk = RiskEngine::new();
    risk.create_account(1).unwrap();
    risk.create_account(2).unwrap();
    risk.fund(1, 10_000).unwrap();
    risk.credit_position(2, 0, 100).unwrap();
    risk.admit_command(&new_order(1, 1, OrderSide::Buy, 120, 50)).unwrap();
    risk.admit_command(&new_order(2, 2, OrderSide::Sell, 100, 50)).unwrap();
    risk.admit_command(&new_order(2, 3, OrderSide::Sell, 100, 50)).unwrap();
    let buyer_cash = risk.account(1).unwrap().cash;
    let buyer_available = risk.account(1).unwrap().available_cash();
    let r = risk.apply_fill(RiskFill {
        buyer_account: 1,
        seller_account: 2,
        instrument_id: 0,
        buyer_client_order_id: 1,
        seller_client_order_id: 2,
        price: 100,
        quantity: 50,
    });
    assert_eq!(r, Err(RiskError::InsufficientPosition));
    assert_eq!(risk.account(1).unwrap().cash, buyer_cash);
    assert_eq!(risk.account(1).unwrap().available_cash(), buyer_available);
    assert_eq!(risk.account(1).unwrap().position(0), 0);
    assert!(risk.reservation(1, 0, 1).is_some());
    assert!(risk.reservation(2, 0, 2).is_some());
}
