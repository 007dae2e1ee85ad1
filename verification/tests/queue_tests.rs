use exchange_core::channel::QueueSendError;
use exchange_core::command::{NewOrder, OrderCommand, OrderSide};
use exchange_core::engine::{IngressError, MatchingEngine};
use exchange_core::order::ClientOrderId;
use exchange_core::replication::{Generation, HotStandby, ReplicationError, Sequencer};
use exchange_core::ring::OrderQueue;

fn order(id: u64) -> OrderCommand {
    OrderCommand::New(NewOrder {
        client_order_id: ClientOrderId(id),
        account_id: 3,
        instrument_id: 2,
        side: OrderSide::Sell,
        price: 500,
        quantity: 4,
        client_timestamp: id,
    })
}

#[test]
fn order_queue_is_fifo() {
    let q = OrderQueue::new();
    assert!(q.is_empty());
    q.try_send(5).unwrap();
    q.try_send(9).unwrap();
    assert_eq!(q.len(), 2);
    let copy = q.clone();
    assert_eq!(copy.try_recv(), Some(5));
    assert_eq!(q.try_recv(), Some(9));
    assert_eq!(q.try_recv(), None);
}

#[test]
fn enqueue_hands_the_slot_back_when_the_queue_is_gone() {
    let mut engine = MatchingEngine::new();
    let accepted = engine.accept_command(&order(1)).unwrap();
    let queue = OrderQueue::new();
    assert_eq!(engine.enqueue_order(&queue, accepted.pool_index), Ok(()));
    assert_eq!(engine.pool.allocated_count, 1);
    assert_eq!(queue.try_recv(), Some(accepted.pool_index));

    let accepted = engine.accept_command(&order(2)).unwrap();
    let (tx, rx) = crossbeam_channel::bounded::<u32>(0);
    let full = OrderQueue { tx, rx };
    assert!(matches!(full.try_send(7), Err(QueueSendError::Full(7))));
    assert_eq!(engine.enqueue_order(&full, accepted.pool_index), Err(IngressError::QueueFull));
    assert_eq!(engine.pool.allocated_count, 1);

    let accepted = engine.accept_command(&order(3)).unwrap();
    let (tx, rx) = crossbeam_channel::bounded::<u32>(1);
    drop(rx);
    let gone = OrderQueue { tx, rx: crossbeam_channel::bounded::<u32>(1).1 };
    assert_eq!(engine.enqueue_order(&gone, accepted.pool_index), Err(IngressError::QueueDisconnected));
    assert_eq!(engine.pool.allocated_count, 1);
}

#[test]
fn sequencer_fences_and_drains_in_order() {
    let sequencer = Sequencer::new(4, Generation(3));
    assert_eq!(sequencer.generation(), Generation(3));
    assert_eq!(sequencer.submit(Generation(2), order(1)), Err(ReplicationError::Fenced));
    for id in 1..=4 {
        sequencer.submit(Generation(3), order(id)).unwrap();
    }
    assert_eq!(sequencer.submit(Generation(3), order(5)), Err(ReplicationError::QueueFull));
    let mut engine = MatchingEngine::new();
    let mut standby = HotStandby::new(Generation(3));
    assert_eq!(sequencer.drain_into(&mut engine, Some(&mut standby)), Ok(4));
    assert_eq!(engine.book(2).unwrap().order_map.len(), 4);
    assert_eq!(standby.applied(), 4);
    assert_eq!(standby.engine().state_fingerprint(), engine.state_fingerprint());
    sequencer.submit(Generation(3), order(1)).unwrap();
    assert!(matches!(sequencer.drain_into(&mut engine, None), Err(ReplicationError::Reject(_))));
    assert_eq!(sequencer.drain_into(&mut engine, None), Ok(0));
}
