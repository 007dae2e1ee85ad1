use exchange_core::engine::MatchingEngine;
use exchange_core::order::{ClientOrderId, OrderPacket};
use exchange_core::pool::OrderPool;

fn packet(client_order_id: u64, account_id: u32, instrument_id: u16, side: u8, price: u32, quantity: u32, timestamp: u64) -> OrderPacket {
    OrderPacket { client_order_id, account_id, instrument_id, side, price, quantity, timestamp, _pad: 0 }
}

fn submit(engine: &mut MatchingEngine, p: &OrderPacket) -> usize {
    let accepted = engine.accept_order(p).unwrap();
    engine.process_order(accepted.pool_index)
}

#[test]
fn test_order_packet_size_and_parsing() {
    let raw = [0u8; 32];
    let packet = OrderPacket::from_bytes(&raw);
    assert_eq!(packet.to_bytes().len(), 32);
    assert_eq!(packet.client_order_id, 0);
    assert_eq!(packet.price, 0);
}

#[test]
fn test_pool_allocation_and_free_list() {
    let mut pool = OrderPool::new();
    assert_eq!(pool.allocated_count, 0);
    let idx1 = pool.allocate().unwrap();
    let idx2 = pool.allocate().unwrap();
    assert_ne!(idx1, idx2);
    assert_eq!(pool.allocated_count, 2);
    pool.deallocate(idx1);
    assert_eq!(pool.allocated_count, 1);
    let idx3 = pool.allocate().unwrap();
    assert_eq!(idx3, idx1);
    assert_eq!(pool.allocated_count, 2);
}

#[test]
fn test_basic_limit_order_matching_and_fifo() {
    let mut engine = MatchingEngine::new();
    let trades = submit(&mut engine, &packet(1, 101, 0, 1, 10000, 100, 1000));
    assert_eq!(trades, 0);
    assert_eq!(engine.book(0).unwrap().asks.len(), 1);
    assert_eq!(engine.book(0).unwrap().best_ask(), Some(10000));

    let trades = submit(&mut engine, &packet(2, 202, 0, 0, 10000, 50, 1001));
    assert_eq!(trades, 1);
    assert_eq!(engine.trades[0].qty, 50);
    assert_eq!(engine.trades[0].price, 10000);
    assert_eq!(engine.trades[0].buyer, 202);
    assert_eq!(engine.trades[0].seller, 101);
    let ask_idx = engine.book(0).unwrap().best_ask_head().unwrap();
    assert_eq!(engine.pool.get(ask_idx).remaining, 50);

    let trades = submit(&mut engine, &packet(3, 303, 0, 0, 10050, 60, 1002));
    assert_eq!(trades, 1);
    assert_eq!(engine.trades[0].qty, 50);
    assert_eq!(engine.trades[0].seller, 101);
    assert_eq!(engine.book(0).unwrap().asks.len(), 0);
    assert_eq!(engine.book(0).unwrap().best_bid(), Some(10050));
    let bid_idx = engine.book(0).unwrap().best_bid_head().unwrap();
    assert_eq!(engine.pool.get(bid_idx).remaining, 10);
}

#[test]
fn test_strict_fifo_price_time_priority() {
    let mut engine = MatchingEngine::new();
    submit(&mut engine, &packet(1, 1, 1, 1, 10000, 10, 100));
    submit(&mut engine, &packet(2, 2, 1, 1, 10000, 20, 101));
    let trade_count = submit(&mut engine, &packet(3, 3, 1, 0, 10000, 15, 102));
    assert_eq!(trade_count, 2);
    assert_eq!(engine.trades[0].seller, 1);
    assert_eq!(engine.trades[0].qty, 10);
    assert_eq!(engine.trades[1].seller, 2);
    assert_eq!(engine.trades[1].qty, 5);
    let remaining_ask = engine.book(1).unwrap().best_ask_head().unwrap();
    assert_eq!(engine.pool.get(remaining_ask).account_id, 2);
    assert_eq!(engine.pool.get(remaining_ask).remaining, 15);
}

#[test]
fn test_order_cancellation_direct_and_pool_recovery() {
    let mut engine = MatchingEngine::new();
    let accepted = engine.accept_order(&packet(5001, 42, 0, 0, 9950, 100, 1000)).unwrap();
    let initial_allocated = engine.pool.allocated_count;
    let trades = engine.process_order(accepted.pool_index);
    assert_eq!(trades, 0);
    assert_eq!(engine.book(0).unwrap().bids.len(), 1);
    assert_eq!(engine.book(0).unwrap().best_bid(), Some(9950));
    let level = engine.book(0).unwrap().bids.get(&9950).unwrap();
    assert_eq!(level.volume, 100);
    assert_eq!(level.order_count, 1);

    let cancelled = engine.cancel_order(0, 42, ClientOrderId(5001));
    assert!(cancelled, "Cancel order 5001 must return true");
    assert_eq!(engine.book(0).unwrap().bids.len(), 0);
    assert_eq!(engine.book(0).unwrap().best_bid(), None);
    assert_eq!(engine.pool.allocated_count, initial_allocated - 1);
    let cancelled_again = engine.cancel_order(0, 42, ClientOrderId(5001));
    assert!(!cancelled_again, "Duplicate cancellation must return false");
    assert!(!engine.cancel_order(0, 42, ClientOrderId(999999)));
}

#[test]
fn test_order_cancellation_middle_linked_list_preserves_fifo() {
    let mut engine = MatchingEngine::new();
    let orders = [(101u64, 10u32, 1001u32), (102u64, 20u32, 1002u32), (103u64, 30u32, 1003u32)];
    for &(id, qty, acc) in &orders {
        submit(&mut engine, &packet(id, acc, 2, 1, 10000, qty, id));
    }
    let level_before = engine.book(2).unwrap().asks.get(&10000).unwrap();
    assert_eq!(level_before.volume, 60);
    assert_eq!(level_before.order_count, 3);

    let cancelled = engine.cancel_order(2, 1002, ClientOrderId(102));
    assert!(cancelled);
    let level_after = engine.book(2).unwrap().asks.get(&10000).unwrap();
    assert_eq!(level_after.volume, 40);
    assert_eq!(level_after.order_count, 2);

    let trade_count = submit(&mut engine, &packet(200, 888, 2, 0, 10000, 15, 5000));
    assert_eq!(trade_count, 2);
    assert_eq!(engine.trades[0].seller, 1001);
    assert_eq!(engine.trades[0].qty, 10);
    assert_eq!(engine.trades[1].seller, 1003);
    assert_eq!(engine.trades[1].qty, 5);
    let rem_level = engine.book(2).unwrap().asks.get(&10000).unwrap();
    assert_eq!(rem_level.volume, 25);
    assert_eq!(rem_level.order_count, 1);
}

#[test]
fn test_order_cancellation_packet_protocol() {
    let mut engine = MatchingEngine::new();
    submit(&mut engine, &packet(777, 99, 1, 1, 15000, 50, 100));
    assert_eq!(engine.book(1).unwrap().asks.len(), 1);
    let trades = submit(&mut engine, &packet(777, 99, 1, 2, 0, 0, 101));
    assert_eq!(trades, 0);
    assert_eq!(engine.book(1).unwrap().asks.len(), 0);
}
