use exchange_core::command::{CancelOrder, CommandRejectReason, ExchangeEvent, NewOrder, OrderCommand, OrderSide, ReplaceOrder};
use exchange_core::command_journal::{command_record, decode_command, decode_records, encode_command, CommandJournalError};
use exchange_core::journal::{encode_event, event_sequence, event_type, journal_record, scan_journal, JournalError};
use exchange_core::order::{ClientOrderId, ExchangeOrderId};
use exchange_core::sequence::SequenceNumber;
use exchange_core::snapshot::{ReplaySnapshot, SnapshotError, SnapshotMeta};

fn commands() -> Vec<OrderCommand> {
    vec![
        OrderCommand::New(NewOrder {
            client_order_id: ClientOrderId(1),
            account_id: 2,
            instrument_id: 3,
            side: OrderSide::Sell,
            price: 4,
            quantity: 5,
            client_timestamp: 6,
        }),
        OrderCommand::Cancel(CancelOrder { account_id: 2, instrument_id: 3, client_order_id: ClientOrderId(1) }),
        OrderCommand::Replace(ReplaceOrder {
            account_id: 2,
            instrument_id: 3,
            target_client_order_id: ClientOrderId(1),
            new_client_order_id: ClientOrderId(9),
            side: OrderSide::Buy,
            price: 7,
            quantity: 8,
            client_timestamp: 10,
        }),
    ]
}

#[test]
fn command_journal_reads_back_what_was_appended() {
    let mut bytes = Vec::new();
    for c in commands() {
        bytes.extend_from_slice(&command_record(&c).unwrap());
    }
    assert_eq!(decode_records(&bytes).unwrap(), commands());
    assert_eq!(encode_command(&commands()[1]).len(), 15);
    assert_eq!(decode_command(&encode_command(&commands()[2])).unwrap(), commands()[2]);
}

#[test]
fn damaged_command_journal_fails_closed() {
    let record = command_record(&commands()[0]).unwrap();
    let mut bad = record.clone();
    bad[20] ^= 0x40;
    assert!(matches!(decode_records(&bad), Err(CommandJournalError::Checksum)));
    assert!(matches!(decode_records(&record[..10]), Err(CommandJournalError::Invalid("truncated header"))));
    let mut bad = record.clone();
    bad[0] = b'X';
    assert!(matches!(decode_records(&bad), Err(CommandJournalError::Invalid("bad magic"))));
    let mut bad = record.clone();
    bad[4] = 2;
    assert!(matches!(decode_records(&bad), Err(CommandJournalError::UnsupportedVersion(2))));
    assert!(matches!(decode_records(&record[..record.len() - 1]), Err(CommandJournalError::Invalid("invalid record length"))));
    assert!(matches!(decode_command(&[9]), Err(CommandJournalError::Invalid("unknown command type"))));
    assert!(decode_records(&[]).unwrap().is_empty());
}

fn trade(buyer_seq: u64, seller_seq: u64) -> ExchangeEvent {
    ExchangeEvent::Trade {
        buyer: 1,
        seller: 2,
        instrument_id: 0,
        buyer_exchange_order_id: ExchangeOrderId(3),
        seller_exchange_order_id: ExchangeOrderId(4),
        buyer_client_order_id: ClientOrderId(5),
        seller_client_order_id: ClientOrderId(6),
        buyer_sequence_number: SequenceNumber(buyer_seq),
        seller_sequence_number: SequenceNumber(seller_seq),
        price: 100,
        qty: 7,
        timestamp: 8,
    }
}

#[test]
fn event_journal_checks_sequence_and_checksum() {
    let rejected = ExchangeEvent::OrderRejected {
        account_id: 1,
        client_order_id: ClientOrderId(2),
        sequence_number: None,
        reason: CommandRejectReason::UnknownOrder,
    };
    assert_eq!(event_sequence(&rejected), 0);
    assert_eq!(event_type(&rejected), 2);
    assert_eq!(*encode_event(&rejected).last().unwrap(), 3);
    assert_eq!(event_sequence(&trade(4, 9)), 9);
    let mut bytes = journal_record(None, &trade(4, 9), 77).unwrap();
    bytes.extend_from_slice(&journal_record(Some(9), &trade(10, 2), 78).unwrap());
    assert_eq!(scan_journal(&bytes).unwrap(), Some(10));
    assert!(matches!(
        journal_record(Some(11), &trade(4, 9), 79),
        Err(JournalError::SequenceRegression { previous: 11, next: 9 })
    ));
    let mut bad = bytes.clone();
    bad[40] ^= 1;
    assert!(matches!(scan_journal(&bad), Err(JournalError::ChecksumMismatch { .. })));
    let mut regress = journal_record(None, &trade(20, 1), 1).unwrap();
    regress.extend_from_slice(&journal_record(None, &trade(3, 1), 2).unwrap());
    assert!(matches!(scan_journal(&regress), Err(JournalError::SequenceRegression { previous: 20, next: 3 })));
    assert_eq!(scan_journal(&[]).unwrap(), None);
}

#[test]
fn snapshot_boundary_refuses_a_journal_behind_it() {
    let meta = SnapshotMeta { journal_sequence: 50, event_count: 3 };
    assert!(ReplaySnapshot::validate_journal_boundary(meta, 50).is_ok());
    assert!(ReplaySnapshot::validate_journal_boundary(meta, 51).is_ok());
    assert!(matches!(
        ReplaySnapshot::validate_journal_boundary(meta, 49),
        Err(SnapshotError::JournalSequenceMismatch { snapshot: 50, journal: 49 })
    ));
}

fn accepted(side: OrderSide, price: u32, quantity: u32, client_timestamp: u64) -> ExchangeEvent {
    ExchangeEvent::OrderAccepted {
        instrument_id: 4,
        account_id: 9,
        client_order_id: ClientOrderId(11),
        exchange_order_id: ExchangeOrderId(12),
        sequence_number: SequenceNumber(13),
        side,
        price,
        quantity,
        client_timestamp,
    }
}

#[test]
fn accepted_event_carries_every_order_attribute() {
    let a = encode_event(&accepted(OrderSide::Sell, 250, 7, 99));
    assert_eq!(a.len(), 48);
    assert_eq!(a[0], 1);
    assert_eq!(a[31], 1);
    assert_eq!(&a[32..36], &250u32.to_le_bytes());
    assert_eq!(&a[36..40], &7u32.to_le_bytes());
    assert_eq!(&a[40..48], &99u64.to_le_bytes());
    assert_ne!(a, encode_event(&accepted(OrderSide::Buy, 250, 7, 99)));
    assert_ne!(a, encode_event(&accepted(OrderSide::Sell, 251, 7, 99)));
    assert_ne!(a, encode_event(&accepted(OrderSide::Sell, 250, 8, 99)));
    assert_ne!(a, encode_event(&accepted(OrderSide::Sell, 250, 7, 100)));
}
