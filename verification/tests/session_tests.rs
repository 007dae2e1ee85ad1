use exchange_core::session::{MessageSeq, RecoveryRequest, SessionError, SessionState};

#[test]
fn ordered_session_detects_and_recovers_gaps() {
    let mut session = SessionState::new();
    session.establish(MessageSeq(1), MessageSeq(1), 10);
    assert_eq!(
        session.receive(MessageSeq(2)),
        Err(SessionError::Gap { expected: MessageSeq(1), received: MessageSeq(2) })
    );
    assert_eq!(
        session.recovery_request(MessageSeq(4)).unwrap(),
        RecoveryRequest { begin: MessageSeq(1), end: MessageSeq(3) }
    );
    session.receive(MessageSeq(1)).unwrap();
    session.receive(MessageSeq(2)).unwrap();
    session.receive(MessageSeq(3)).unwrap();
    assert_eq!(session.next_in(), MessageSeq(4));
}

#[test]
fn outbound_sequence_is_monotonic() {
    let mut session = SessionState::new();
    session.establish(MessageSeq(1), MessageSeq(1), 10);
    assert_eq!(session.allocate_outbound().unwrap(), MessageSeq(1));
    assert_eq!(session.allocate_outbound().unwrap(), MessageSeq(2));
}

#[test]
fn heartbeat_uses_monotonic_transport_time() {
    let mut session = SessionState::new();
    session.establish(MessageSeq(1), MessageSeq(1), 10);
    assert!(!session.heartbeat_due(9));
    assert!(session.heartbeat_due(10));
    session.note_activity(10);
    assert!(!session.heartbeat_due(19));
}

#[test]
fn unestablished_session_refuses_everything_and_duplicates_are_old() {
    let mut session = SessionState::new();
    assert_eq!(session.receive(MessageSeq(1)), Err(SessionError::NotEstablished));
    assert_eq!(session.allocate_outbound(), Err(SessionError::NotEstablished));
    assert_eq!(session.recovery_request(MessageSeq(5)), Err(SessionError::NotEstablished));
    session.establish(MessageSeq(5), MessageSeq(1), 10);
    assert_eq!(
        session.receive(MessageSeq(4)),
        Err(SessionError::DuplicateOrOld { expected: MessageSeq(5), received: MessageSeq(4) })
    );
    assert_eq!(session.recovery_request(MessageSeq(5)), Err(SessionError::InvalidRecoveryRange));
    session.receive(MessageSeq(5)).unwrap();
    assert_eq!(session.receive(MessageSeq(5)), Err(SessionError::DuplicateOrOld { expected: MessageSeq(6), received: MessageSeq(5) }));
}
