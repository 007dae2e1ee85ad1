use exchange_core::command::{NewOrder, OrderCommand, OrderSide};
use exchange_core::order::ClientOrderId;
use exchange_core::protocol::{
    AdminCommand, Credential, CredentialStore, GatewayAction, GatewaySession, Permission, ProtocolError, Role,
    WireFrame, WireMessage,
};
use exchange_core::session::{MessageSeq, SessionError};

fn credential() -> Credential {
    Credential { api_key: 7, token: [9; 32], role: Role::Trader, enabled: true }
}

fn order(id: u64, account_id: u32, price: u32) -> WireMessage {
    WireMessage::Order(OrderCommand::New(NewOrder {
        client_order_id: ClientOrderId(id),
        account_id,
        instrument_id: 0,
        side: OrderSide::Buy,
        price,
        quantity: 1,
        client_timestamp: id,
    }))
}

#[test]
fn frame_round_trip_preserves_order() {
    let frame = WireFrame {
        sequence: MessageSeq(1),
        message: WireMessage::Order(OrderCommand::New(NewOrder {
            client_order_id: ClientOrderId(11),
            account_id: 4,
            instrument_id: 2,
            side: OrderSide::Buy,
            price: 100,
            quantity: 5,
            client_timestamp: 99,
        })),
    };
    let bytes = frame.encode().unwrap();
    assert_eq!(WireFrame::decode(&bytes).unwrap(), frame);
}

#[test]
fn corrupt_frame_fails_closed() {
    let frame = WireFrame { sequence: MessageSeq(1), message: WireMessage::Heartbeat };
    let mut bytes = frame.encode().unwrap();
    bytes[23] ^= 1;
    assert_eq!(WireFrame::decode(&bytes), Err(ProtocolError::ChecksumMismatch));
}

#[test]
fn gateway_requires_authentication_and_sequence_order() {
    let mut credentials = CredentialStore::new();
    credentials.register(credential());
    let mut session = GatewaySession::new();
    let rejected = session.receive(WireFrame { sequence: MessageSeq(1), message: order(1, 4, 100) }, &credentials);
    assert_eq!(rejected.err(), Some(ProtocolError::NotAuthenticated));
    session
        .receive(
            WireFrame {
                sequence: MessageSeq(1),
                message: WireMessage::Logon { api_key: 7, token: [9; 32], heartbeat_ticks: 100 },
            },
            &credentials,
        )
        .unwrap();
    let actions = session.receive(WireFrame { sequence: MessageSeq(2), message: order(2, 4, 100) }, &credentials).unwrap();
    assert!(matches!(actions[0], GatewayAction::Accepted(_)));
    assert_eq!(
        session.receive(WireFrame { sequence: MessageSeq(4), message: WireMessage::Heartbeat }, &credentials).unwrap_err(),
        ProtocolError::Session(SessionError::Gap { expected: MessageSeq(3), received: MessageSeq(4) })
    );
}

#[test]
fn read_only_cannot_submit_orders() {
    let mut credentials = CredentialStore::new();
    credentials.register(Credential { api_key: 8, token: [3; 32], role: Role::ReadOnly, enabled: true });
    let mut session = GatewaySession::new();
    session
        .receive(
            WireFrame { sequence: MessageSeq(1), message: WireMessage::Logon { api_key: 8, token: [3; 32], heartbeat_ticks: 10 } },
            &credentials,
        )
        .unwrap();
    assert_eq!(
        session.receive(WireFrame { sequence: MessageSeq(2), message: order(1, 1, 1) }, &credentials).unwrap_err(),
        ProtocolError::PermissionDenied
    );
}

#[test]
fn every_message_kind_survives_the_wire() {
    let messages = vec![
        WireMessage::Logon { api_key: 5, token: [7; 32], heartbeat_ticks: 30 },
        order(3, 9, 77),
        WireMessage::Order(OrderCommand::Cancel(exchange_core::command::CancelOrder {
            account_id: 9,
            instrument_id: 3,
            client_order_id: ClientOrderId(3),
        })),
        WireMessage::Order(OrderCommand::Replace(exchange_core::command::ReplaceOrder {
            account_id: 9,
            instrument_id: 3,
            target_client_order_id: ClientOrderId(3),
            new_client_order_id: ClientOrderId(4),
            side: OrderSide::Sell,
            price: 81,
            quantity: 6,
            client_timestamp: 12,
        })),
        WireMessage::ExecutionReport { exchange_order_id: 1, client_order_id: 2, status: 3, filled_quantity: 4, remaining_quantity: 5 },
        WireMessage::Reject { code: 404 },
        WireMessage::Heartbeat,
        WireMessage::ResendRequest { begin: MessageSeq(3), end: MessageSeq(9) },
        WireMessage::Logout { reason: 2 },
        WireMessage::MarketData { instrument_id: 4, sequence: 88, side: 1, price: 100, quantity: 10 },
        WireMessage::Admin(AdminCommand::HaltInstrument(6)),
        WireMessage::Admin(AdminCommand::ResumeInstrument(6)),
        WireMessage::Admin(AdminCommand::CancelAllAccount(70_000)),
        WireMessage::Admin(AdminCommand::FreezeAccount(71_000)),
    ];
    for (i, message) in messages.into_iter().enumerate() {
        let frame = WireFrame { sequence: MessageSeq(i as u64 + 40), message };
        let bytes = frame.encode().unwrap();
        assert_eq!(WireFrame::decode(&bytes).unwrap(), frame);
    }
}

#[test]
fn malformed_frames_are_refused_with_the_first_fault() {
    let frame = WireFrame { sequence: MessageSeq(3), message: WireMessage::Reject { code: 9 } };
    let bytes = frame.encode().unwrap();
    assert_eq!(bytes.len(), 26);
    assert_eq!(&bytes[0..4], b"SEX1");
    assert_eq!(bytes[5], 6);
    assert_eq!(WireFrame::decode(&bytes[..23]), Err(ProtocolError::Truncated));
    let mut bad = bytes.clone();
    bad[0] = b'X';
    assert_eq!(WireFrame::decode(&bad), Err(ProtocolError::BadMagic));
    let mut bad = bytes.clone();
    bad[4] = 2;
    assert_eq!(WireFrame::decode(&bad), Err(ProtocolError::UnsupportedVersion(2)));
    let mut bad = bytes.clone();
    bad[5] = 12;
    assert_eq!(WireFrame::decode(&bad), Err(ProtocolError::UnknownMessageType(12)));
    let mut bad = bytes.clone();
    bad[18] = 1;
    assert_eq!(WireFrame::decode(&bad), Err(ProtocolError::PayloadTooLarge));
    let mut bad = bytes.clone();
    bad.push(0);
    assert_eq!(WireFrame::decode(&bad), Err(ProtocolError::InvalidLength));
}

#[test]
fn credentials_and_permissions_follow_roles() {
    let mut credentials = CredentialStore::new();
    credentials.register(credential());
    assert_eq!(credentials.authenticate(7, &[9; 32]), Ok(Role::Trader));
    assert_eq!(credentials.authenticate(7, &[8; 32]), Err(ProtocolError::AuthenticationFailed));
    assert_eq!(credentials.authenticate(6, &[9; 32]), Err(ProtocolError::AuthenticationFailed));
    credentials.disable(7);
    assert_eq!(credentials.authenticate(7, &[9; 32]), Err(ProtocolError::AuthenticationFailed));
    assert!(Role::Admin.allows(Permission::OperateAccounts));
    assert!(Role::Operations.allows(Permission::OperateMarket));
    assert!(!Role::Risk.allows(Permission::OperateMarket));
    assert!(!Role::ReadOnly.allows(Permission::SubmitOrders));
    assert!(Role::MarketMaker.allows(Permission::ReplaceOrders));
    assert!(!Role::Trader.allows(Permission::OperateAccounts));
}

#[test]
fn logged_on_session_sequences_outbound_and_refuses_second_logon() {
    let mut credentials = CredentialStore::new();
    credentials.register(Credential { api_key: 1, token: [1; 32], role: Role::Admin, enabled: true });
    let mut session = GatewaySession::new();
    assert_eq!(session.next_outbound(WireMessage::Heartbeat).err(), Some(ProtocolError::Session(SessionError::NotEstablished)));
    let logon = WireMessage::Logon { api_key: 1, token: [1; 32], heartbeat_ticks: 5 };
    session.receive(WireFrame { sequence: MessageSeq(10), message: logon.clone() }, &credentials).unwrap();
    assert_eq!(session.role(), Some(Role::Admin));
    assert_eq!(session.api_key(), Some(1));
    assert_eq!(
        session.receive(WireFrame { sequence: MessageSeq(11), message: logon }, &credentials).err(),
        Some(ProtocolError::PermissionDenied)
    );
    let admin = session
        .receive(WireFrame { sequence: MessageSeq(11), message: WireMessage::Admin(AdminCommand::FreezeAccount(3)) }, &credentials)
        .unwrap();
    assert!(matches!(admin[0], GatewayAction::Admin(AdminCommand::FreezeAccount(3))));
    assert_eq!(
        session
            .receive(WireFrame { sequence: MessageSeq(12), message: WireMessage::ResendRequest { begin: MessageSeq(5), end: MessageSeq(4) } }, &credentials)
            .err(),
        Some(ProtocolError::InvalidPayload)
    );
    let first = session.next_outbound(WireMessage::Heartbeat).unwrap();
    let second = session.next_outbound(WireMessage::Heartbeat).unwrap();
    assert_eq!(first.sequence, MessageSeq(1));
    assert_eq!(second.sequence, MessageSeq(2));
}
