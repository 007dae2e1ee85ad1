use exchange_core::command::{NewOrder, OrderCommand, OrderSide};
use exchange_core::engine::MatchingEngine;
use exchange_core::order::ClientOrderId;
use exchange_core::replication::{Generation, HotStandby, ReplicationError, Sequencer};

fn order(id: u64) -> OrderCommand {
    OrderCommand::New(NewOrder {
        client_order_id: ClientOrderId(id),
        account_id: 7,
        instrument_id: 0,
        side: OrderSide::Buy,
        price: 100,
        quantity: 1,
        client_timestamp: id,
    })
}

#[test]
fn standby_replays_the_primary_and_fences_other_generations() {
    let mut primary = MatchingEngine::new();
    let mut standby = HotStandby::new(Generation(1));
    for id in 1..=2 {
        let accepted = primary.accept_command(&order(id)).unwrap();
        primary.process_order(accepted.pool_index);
        standby.apply(Generation(1), order(id)).unwrap();
    }
    assert_eq!(standby.applied(), 2);
    assert_eq!(standby.engine().book(0).unwrap().order_map.len(), 2);
    assert_eq!(primary.book(0).unwrap().order_map.len(), 2);
    assert_eq!(standby.engine().state_fingerprint(), primary.state_fingerprint());
    assert_eq!(standby.apply(Generation(0), order(3)), Err(ReplicationError::Fenced));
    assert!(matches!(standby.apply(Generation(1), order(2)), Err(ReplicationError::Reject(_))));
    standby.promote(Generation(2));
    assert_eq!(standby.generation(), Generation(2));
    assert_eq!(standby.apply(Generation(1), order(3)), Err(ReplicationError::Fenced));
    let engine = standby.into_engine();
    assert_eq!(engine.book(0).unwrap().order_map.len(), 2);
}

#[test]
fn bounded_ingress_backpressures() {
    let sequencer = Sequencer::new(1, Generation(1));
    assert!(sequencer.submit(Generation(1), order(1)).is_ok());
    assert_eq!(sequencer.submit(Generation(1), order(2)), Err(ReplicationError::QueueFull));
}

#[test]
fn stale_generation_is_fenced() {
    let sequencer = Sequencer::new(4, Generation(9));
    assert_eq!(sequencer.submit(Generation(8), order(1)), Err(ReplicationError::Fenced));
}

#[test]
fn standby_tracks_primary_commands() {
    let sequencer = Sequencer::new(4, Generation(1));
    let mut primary = MatchingEngine::new();
    let mut standby = HotStandby::new(Generation(1));
    sequencer.submit(Generation(1), order(1)).unwrap();
    sequencer.submit(Generation(1), order(2)).unwrap();
    assert_eq!(sequencer.drain_into(&mut primary, Some(&mut standby)).unwrap(), 2);
    assert_eq!(standby.applied(), 2);
    assert_eq!(standby.engine().book(0).unwrap().order_map.len(), 2);
    assert_eq!(primary.book(0).unwrap().order_map.len(), 2);
}
