use exchange_core::book::OrderBook;
use exchange_core::market_data::{full_depth_snapshot, DepthLevel, DepthSnapshot, MarketDataError, MarketDataEvent, MarketDataPublisher};
use exchange_core::pool::OrderPool;

#[test]
fn detects_dropped_sequence_and_preserves_event() {
    let mut publisher = MarketDataPublisher::new(2);
    let subscriber = publisher.subscribe();
    publisher.publish_delta(0, vec![], vec![]);
    publisher.publish_delta(0, vec![], vec![]);
    publisher.publish_delta(0, vec![], vec![]);
    assert_eq!(publisher.poll(subscriber, 1), Err(MarketDataError::Gap { expected: 1, received: 2 }));
    assert_eq!(publisher.queue_depth(subscriber), 2);
}

#[test]
fn full_depth_is_price_time_aggregated() {
    let mut book = OrderBook::new();
    let mut pool = OrderPool::new();
    let idx = pool.allocate().unwrap();
    pool.data[idx as usize].side = 0;
    pool.data[idx as usize].price = 100;
    pool.data[idx as usize].remaining = 7;
    pool.data[idx as usize].account_id = 1;
    pool.data[idx as usize].client_order_id = 1;
    book.insert_limit(idx, &mut pool);
    let snapshot = full_depth_snapshot(0, 9, &book);
    assert_eq!(snapshot.sequence, 9);
    assert_eq!(snapshot.bids[0].price, 100);
    assert_eq!(snapshot.bids[0].quantity, 7);
    assert_eq!(snapshot.bids[0].order_count, 1);
}

#[test]
fn in_order_reader_sees_each_event_once_and_snapshots_move_the_sequence() {
    let mut publisher = MarketDataPublisher::new(4);
    let a = publisher.subscribe();
    let b = publisher.subscribe();
    let level = DepthLevel { price: 5, quantity: 6, order_count: 1 };
    assert_eq!(publisher.publish_delta(3, vec![level], vec![]), 1);
    let snap = DepthSnapshot { instrument_id: 3, sequence: 10, bids: vec![], asks: vec![level] };
    assert_eq!(publisher.publish_snapshot(snap), 10);
    assert_eq!(publisher.publish_delta(3, vec![], vec![]), 11);
    let first = publisher.poll(a, 1).unwrap().unwrap();
    assert_eq!(first.sequence(), 1);
    assert_eq!(first.instrument_id(), 3);
    assert!(matches!(first, MarketDataEvent::Delta { ref bids, .. } if bids[0] == level));
    assert_eq!(publisher.poll(a, 2), Err(MarketDataError::Gap { expected: 2, received: 10 }));
    assert!(matches!(publisher.poll(a, 10).unwrap(), Some(MarketDataEvent::Snapshot(_))));
    assert_eq!(publisher.poll(a, 11).unwrap().map(|e| e.sequence()), Some(11));
    assert_eq!(publisher.poll(a, 12), Ok(None));
    assert_eq!(publisher.poll(b, 2), Err(MarketDataError::OutOfOrder { expected: 2, received: 1 }));
    assert_eq!(publisher.queue_depth(b), 2);
    assert_eq!(publisher.queue_depth(7), 0);
}
