use exchange_core::command::{NewOrder, OrderCommand, OrderSide};
use exchange_core::order::ClientOrderId;
use exchange_core::quorum::{CommitIndex, QuorumError, QuorumTracker, ReplicationLog};

fn command(id: u64) -> OrderCommand {
    OrderCommand::New(NewOrder {
        client_order_id: ClientOrderId(id),
        account_id: 1,
        instrument_id: 0,
        side: OrderSide::Buy,
        price: 100,
        quantity: 1,
        client_timestamp: id,
    })
}

#[test]
fn majority_commit_requires_two_of_three() {
    let mut log = ReplicationLog::new(1);
    let entry = log.append(1, command(1)).unwrap();
    let mut quorum = QuorumTracker::new(3, 1).unwrap();
    assert!(!quorum.ack(1, entry.index, 0).unwrap());
    assert!(quorum.ack(1, entry.index, 1).unwrap());
    assert_eq!(quorum.committed(), entry.index);
}

#[test]
fn stale_leader_generation_is_rejected() {
    let mut log = ReplicationLog::new(7);
    assert_eq!(log.append(6, command(1)), Err(QuorumError::StaleGeneration));
}

#[test]
fn duplicate_ack_cannot_inflate_quorum() {
    let mut quorum = QuorumTracker::new(3, 1).unwrap();
    assert!(!quorum.ack(1, CommitIndex(1), 0).unwrap());
    assert_eq!(quorum.ack(1, CommitIndex(1), 0), Err(QuorumError::DuplicateAck));
}

#[test]
fn appended_entries_read_back_in_order() {
    let mut log = ReplicationLog::new(2);
    let first = log.append(2, command(1)).unwrap();
    assert_eq!(log.append(3, command(9)), Err(QuorumError::StaleGeneration));
    let second = log.append(2, command(2)).unwrap();
    assert_eq!(first.index, CommitIndex(1));
    assert_eq!(second.index, CommitIndex(2));
    assert_eq!(log.generation(), 2);
    assert_eq!(log.len(), 2);
    assert_eq!(log.last_index(), CommitIndex(2));
    assert_eq!(log.get(CommitIndex(2)).unwrap().command, command(2));
    assert_eq!(log.get(CommitIndex(0)), None);
    assert_eq!(log.get(CommitIndex(3)), None);
    assert!(matches!(QuorumTracker::new(2, 1), Err(QuorumError::InvalidClusterSize)));
    assert_eq!(QuorumTracker::new(5, 1).unwrap().quorum(), 3);
}
