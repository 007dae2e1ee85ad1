use exchange_core::command::{CancelOrder, NewOrder, OrderCommand, OrderSide, ReplaceOrder};
use exchange_core::engine::MatchingEngine;
use exchange_core::order::ClientOrderId;

fn new_order(client: u64, account: u32, side: OrderSide, price: u32, quantity: u32) -> OrderCommand {
    OrderCommand::New(NewOrder {
        client_order_id: ClientOrderId(client),
        account_id: account,
        instrument_id: 0,
        side,
        price,
        quantity,
        client_timestamp: client,
    })
}

fn stream() -> Vec<OrderCommand> {
    vec![
        new_order(1, 10, OrderSide::Sell, 1_010, 40),
        new_order(2, 11, OrderSide::Sell, 1_000, 30),
        new_order(3, 12, OrderSide::Buy, 990, 25),
        new_order(4, 13, OrderSide::Buy, 1_005, 50),
        OrderCommand::Cancel(CancelOrder { client_order_id: ClientOrderId(3), account_id: 12, instrument_id: 0 }),
        OrderCommand::Replace(ReplaceOrder {
            target_client_order_id: ClientOrderId(4),
            new_client_order_id: ClientOrderId(5),
            account_id: 13,
            instrument_id: 0,
            side: OrderSide::Buy,
            price: 1_010,
            quantity: 60,
            client_timestamp: 6,
        }),
        new_order(6, 14, OrderSide::Buy, 995, 10),
    ]
}

fn replay(commands: &[OrderCommand]) -> MatchingEngine {
    let mut engine = MatchingEngine::new();
    for command in commands {
        let accepted = engine.accept_command(command).unwrap();
        engine.process_order(accepted.pool_index);
    }
    engine
}

#[test]
fn replaying_one_stream_twice_gives_equal_fingerprints() {
    let first = replay(&stream());
    let second = replay(&stream());
    assert_eq!(first.state_fingerprint(), second.state_fingerprint());
    assert_eq!(first.next_sequence_number, second.next_sequence_number);
    assert_eq!(first.pool.allocated_count, second.pool.allocated_count);
}

#[test]
fn different_streams_give_different_fingerprints() {
    let full = replay(&stream());
    let shorter = replay(&stream()[..6]);
    assert_ne!(full.state_fingerprint(), shorter.state_fingerprint());
}

#[test]
fn books_stay_uncrossed_through_a_stream() {
    let commands = stream();
    let mut engine = MatchingEngine::new();
    for command in &commands {
        let accepted = engine.accept_command(command).unwrap();
        engine.process_order(accepted.pool_index);
        let book = engine.book(0).unwrap();
        if let (Some(bid), Some(ask)) = (book.best_bid(), book.best_ask()) {
            assert!(bid < ask);
        }
    }
    let book = engine.book(0).unwrap();
    assert_eq!(book.best_bid(), Some(1_010));
    assert_eq!(book.best_ask(), None);
}

#[test]
fn fresh_engine_pool_hands_out_the_first_slot() {
    let engine = MatchingEngine::new();
    assert_eq!(engine.pool.free_head, 1);
    assert_eq!(engine.pool.allocated_count, 0);
}
