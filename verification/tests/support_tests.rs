use exchange_core::bot::{BotArchetype, TradingBot};
use exchange_core::command::{CancelOrder, NewOrder, OrderCommand, OrderSide};
use exchange_core::command_journal::CommandJournalError;
use exchange_core::durable::{DurableAcceptError, DurableRecoveryError};
use exchange_core::engine::{MatchingEngine, OrderAcceptError};
use exchange_core::metrics::PerformanceMetrics;
use exchange_core::order::ClientOrderId;
use exchange_core::ticker::{tickers, TickerRegistry};

#[test]
fn metrics_track_count_min_and_max() {
    let mut m = PerformanceMetrics::new();
    assert_eq!(m.min_latency_nanos(), 0);
    assert_eq!(m.max_latency_nanos(), 0);
    m.record_order_latency(500, 2);
    m.record_order_latency(200, 0);
    m.record_order_latency(900, 1);
    assert_eq!(m.orders_processed, 3);
    assert_eq!(m.trades_generated, 3);
    assert_eq!(m.cumulative_service_nanos, 1600);
    assert_eq!(m.min_latency_nanos(), 200);
    assert_eq!(m.max_latency_nanos(), 900);
}

#[test]
fn metrics_counters_wrap() {
    let mut m = PerformanceMetrics::default();
    m.cumulative_service_nanos = u64::MAX;
    m.record_order_latency(2, 0);
    assert_eq!(m.cumulative_service_nanos, 1);
}

#[test]
fn ticker_symbols_resolve_without_case() {
    assert_eq!(TickerRegistry::resolve_symbol("USA"), Some(0));
    assert_eq!(TickerRegistry::resolve_symbol("kor"), Some(11));
    assert_eq!(TickerRegistry::resolve_symbol("GeR"), Some(1));
    assert_eq!(TickerRegistry::resolve_symbol("XXX"), None);
    assert_eq!(TickerRegistry::resolve_symbol("US"), None);
    assert_eq!(TickerRegistry::count(), 12);
    assert_eq!(tickers().len(), 12);
}

#[test]
fn ticker_lookup_by_id() {
    let t = TickerRegistry::get(7).unwrap();
    assert_eq!(t.id, 7);
    assert_eq!(t.symbol, "CHE");
    assert_eq!(t.base_price, 28900);
    assert!(TickerRegistry::get(12).is_none());
}

#[test]
fn swarm_split_by_archetype() {
    let total = 100usize;
    let kinds: Vec<BotArchetype> = (0..100u32).map(|i| TradingBot::new(i, total).archetype).collect();
    assert_eq!(kinds.iter().filter(|k| **k == BotArchetype::MarketMaker).count(), 50);
    assert_eq!(kinds.iter().filter(|k| **k == BotArchetype::MomentumTaker).count(), 25);
    assert_eq!(kinds.iter().filter(|k| **k == BotArchetype::SovereignArbitrage).count(), 15);
    assert_eq!(kinds.iter().filter(|k| **k == BotArchetype::NoiseTrader).count(), 10);
    let bot = TradingBot::new(13, total);
    assert_eq!(bot.account_id, 1013);
    assert_eq!(bot.preferred_ticker, 1);
}

#[test]
fn market_maker_quotes_around_fair_price() {
    let mut bot = TradingBot::new(0, 10);
    assert_eq!(bot.archetype, BotArchetype::MarketMaker);
    let buy = bot.generate_order(0, 10_000);
    assert_eq!(buy.side, 0);
    assert_eq!(buy.price, 9_995);
    assert_eq!(buy.quantity, 100);
    assert_eq!(buy.client_order_id, 1_000 * 1_000_000 + 1);
    assert_eq!(buy.instrument_id, 0);
    assert_eq!(buy.timestamp, 1_700_000_000_000_000_000);
    let sell = bot.generate_order(1, 10_000);
    assert_eq!(sell.side, 1);
    assert_eq!(sell.price, 10_008);
    assert_eq!(sell.client_order_id, 1_000 * 1_000_000 + 2);
    assert_eq!(bot.orders_sent, 2);
}

#[test]
fn noise_trader_saturates_at_zero() {
    let mut bot = TradingBot::new(9, 10);
    assert_eq!(bot.archetype, BotArchetype::NoiseTrader);
    let p = bot.generate_order(3, 5);
    assert_eq!(p.side, 0);
    assert_eq!(p.price, 0);
    assert_eq!(p.quantity, 10 + 39);
    assert_eq!(p.instrument_id, 18);
}

fn new_order(id: u64) -> OrderCommand {
    OrderCommand::New(NewOrder {
        client_order_id: ClientOrderId(id),
        account_id: 5,
        instrument_id: 0,
        side: OrderSide::Buy,
        price: 100,
        quantity: 10,
        client_timestamp: id,
    })
}

#[test]
fn failed_journal_append_consumes_nothing() {
    let mut engine = MatchingEngine::new();
    let accepted = engine.accept_command(&new_order(1)).unwrap();
    let err = CommandJournalError::Checksum;
    let r = engine.conclude_durable_accept(accepted, Err(err));
    assert!(matches!(r, Err(DurableAcceptError::Journal(CommandJournalError::Checksum))));
    assert_eq!(engine.pool.allocated_count, 0);
    assert_eq!(engine.next_sequence_number, 1);
    assert_eq!(engine.next_exchange_order_id, 1);
    let again = engine.accept_command(&new_order(1)).unwrap();
    assert_eq!(again.pool_index, accepted.pool_index);
    assert_eq!(again.sequence_number, accepted.sequence_number);
    assert_eq!(again.exchange_order_id, accepted.exchange_order_id);
    let kept = engine.conclude_durable_accept(again, Ok(())).unwrap();
    assert_eq!(kept, again);
    assert_eq!(engine.next_sequence_number, 2);
}

#[test]
fn replay_admits_and_processes() {
    let mut engine = MatchingEngine::new();
    assert!(engine.can_replay(&new_order(1)));
    assert_eq!(engine.replay_command(&new_order(1)).unwrap(), 0);
    assert_eq!(engine.book(0).unwrap().order_map.len(), 1);
    let dup = engine.replay_command(&new_order(1));
    assert!(matches!(dup, Err(DurableRecoveryError::Accept(OrderAcceptError::DuplicateClientOrderId { .. }))));
    let cancel = OrderCommand::Cancel(CancelOrder {
        client_order_id: ClientOrderId(1),
        account_id: 5,
        instrument_id: 0,
    });
    assert!(engine.can_replay(&cancel));
    engine.replay_command(&cancel).unwrap();
    assert_eq!(engine.book(0).unwrap().order_map.len(), 0);
    let e: DurableRecoveryError = OrderAcceptError::OrderPoolExhausted.into();
    assert!(matches!(e, DurableRecoveryError::Accept(OrderAcceptError::OrderPoolExhausted)));
    let e: DurableAcceptError = OrderAcceptError::SequenceNumberExhausted.into();
    assert!(matches!(e, DurableAcceptError::Validation(OrderAcceptError::SequenceNumberExhausted)));
}

#[test]
fn recovery_replays_in_order_and_stops_on_reject() {
    let mut engine = MatchingEngine::new();
    let cmds = vec![new_order(1), new_order(2)];
    assert_eq!(engine.recover_commands(&cmds).unwrap(), 2);
    assert_eq!(engine.book(0).unwrap().order_map.len(), 2);
    let again = vec![new_order(3), new_order(1), new_order(4)];
    let r = engine.recover_commands(&again);
    assert!(matches!(r, Err(DurableRecoveryError::Accept(OrderAcceptError::DuplicateClientOrderId { .. }))));
    assert_eq!(engine.book(0).unwrap().order_map.len(), 3);
}

#[test]
fn recovery_refuses_a_level_overflow() {
    let mut engine = MatchingEngine::new();
    let big = |id: u64| {
        OrderCommand::New(NewOrder {
            client_order_id: ClientOrderId(id),
            account_id: 5,
            instrument_id: 0,
            side: OrderSide::Buy,
            price: 100,
            quantity: u32::MAX - 10,
            client_timestamp: id,
        })
    };
    let r = engine.recover_commands(&[big(1), big(2)]);
    assert!(matches!(r, Err(DurableRecoveryError::Capacity(1))));
    assert_eq!(engine.book(0).unwrap().order_map.len(), 1);
}
