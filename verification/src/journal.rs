//! The event journal's record format: each event behind a header with a
//! magic, a version, its type, its sequence number, a timestamp, its
//! length and its CRC-32. Sequence numbers never go back; a journal is
//! checked record by record and fails closed on the first fault.

use vstd::prelude::*;
use vstd::bytes::*;
use crate::codec::{crc32, put_u16, put_u32, put_u64, get_u16, get_u32, get_u64, spec_crc32, lemma_le_round_trips};
use crate::command::{CommandRejectReason, ExchangeEvent, spec_side_wire};
use crate::protocol::{rd16, rd32, rd64};

verus! {

pub const JOURNAL_VERSION: u16 = 1;
pub const JOURNAL_HEADER: usize = 32;

/// The four bytes every event record starts with: "SEJ1".
pub open spec fn journal_magic() -> Seq<u8> {
    seq![0x53u8, 0x45u8, 0x4au8, 0x31u8]
}

#[derive(Debug)]
pub enum JournalError {
    Io(std::io::Error),
    InvalidHeader(&'static str),
    InvalidRecord(&'static str),
    ChecksumMismatch { expected: u32, actual: u32 },
    SequenceRegression { previous: u64, next: u64 },
    UnsupportedVersion(u16),
    PayloadTooLarge(usize),
}

#[derive(Debug, Clone, Copy, PartialEq, Eq, Structural)]
pub enum Durability {
    SyncData,
    Buffered,
}

#[derive(Debug, Clone, Copy, PartialEq, Eq, Structural)]
pub struct JournalPosition {
    pub offset: u64,
    pub sequence: u64,
}

/// The byte that names an event's type, 1 to 5.
pub open spec fn spec_event_type(e: ExchangeEvent) -> u8 {
    match e {
        ExchangeEvent::OrderAccepted { .. } => 1,
        ExchangeEvent::OrderRejected { .. } => 2,
        ExchangeEvent::OrderCancelled { .. } => 3,
        ExchangeEvent::OrderReplaced { .. } => 4,
        ExchangeEvent::Trade { .. } => 5,
    }
}

/// The sequence number an event is journaled under: a trade's is the
/// later of its two sides', a rejection without one is 0.
pub open spec fn spec_event_sequence(e: ExchangeEvent) -> u64 {
    match e {
        ExchangeEvent::OrderAccepted { sequence_number, .. } => sequence_number.0,
        ExchangeEvent::OrderCancelled { sequence_number, .. } => sequence_number.0,
        ExchangeEvent::OrderReplaced { sequence_number, .. } => sequence_number.0,
        ExchangeEvent::OrderRejected { sequence_number, .. } => match sequence_number {
            Some(s) => s.0,
            None => 0,
        },
        ExchangeEvent::Trade { buyer_sequence_number, seller_sequence_number, .. } =>
            if buyer_sequence_number.0 >= seller_sequence_number.0 { buyer_sequence_number.0 } else { seller_sequence_number.0 },
    }
}

/// The byte that names a rejection reason, in declaration order from 0.
pub open spec fn spec_reason_code(r: CommandRejectReason) -> u8 {
    match r {
        CommandRejectReason::InvalidInstrument => 0,
        CommandRejectReason::InvalidSide => 1,
        CommandRejectReason::DuplicateClientOrderId => 2,
        CommandRejectReason::UnknownOrder => 3,
        CommandRejectReason::ExchangeOrderIdExhausted => 4,
        CommandRejectReason::SequenceNumberExhausted => 5,
        CommandRejectReason::OrderPoolExhausted => 6,
    }
}

/// An event's payload: its type, then its fields in order, integers
/// little-endian and sides as their wire byte. An accepted order carries
/// every attribute needed to rebuild it as a resting order.
pub open spec fn spec_event_payload(e: ExchangeEvent) -> Seq<u8> {
    match e {
        ExchangeEvent::OrderAccepted {
            instrument_id, account_id, client_order_id, exchange_order_id, sequence_number, side, price, quantity, client_timestamp,
        } =>
            seq![1u8] + spec_u16_to_le_bytes(instrument_id) + spec_u32_to_le_bytes(account_id)
                + spec_u64_to_le_bytes(client_order_id.0) + spec_u64_to_le_bytes(exchange_order_id.0)
                + spec_u64_to_le_bytes(sequence_number.0) + seq![spec_side_wire(side)] + spec_u32_to_le_bytes(price)
                + spec_u32_to_le_bytes(quantity) + spec_u64_to_le_bytes(client_timestamp),
        ExchangeEvent::OrderRejected { account_id, client_order_id, sequence_number, reason } =>
            seq![2u8] + spec_u32_to_le_bytes(account_id) + spec_u64_to_le_bytes(client_order_id.0)
                + spec_u64_to_le_bytes(match sequence_number { Some(s) => s.0, None => 0 }) + seq![spec_reason_code(reason)],
        ExchangeEvent::OrderCancelled { instrument_id, account_id, client_order_id, sequence_number } =>
            seq![3u8] + spec_u16_to_le_bytes(instrument_id) + spec_u32_to_le_bytes(account_id)
                + spec_u64_to_le_bytes(client_order_id.0) + spec_u64_to_le_bytes(sequence_number.0),
        ExchangeEvent::OrderReplaced { instrument_id, account_id, old_client_order_id, new_client_order_id, exchange_order_id, sequence_number } =>
            seq![4u8] + spec_u16_to_le_bytes(instrument_id) + spec_u32_to_le_bytes(account_id)
                + spec_u64_to_le_bytes(old_client_order_id.0) + spec_u64_to_le_bytes(new_client_order_id.0)
                + spec_u64_to_le_bytes(exchange_order_id.0) + spec_u64_to_le_bytes(sequence_number.0),
        ExchangeEvent::Trade {
            buyer, seller, instrument_id, buyer_exchange_order_id, seller_exchange_order_id, buyer_client_order_id,
            seller_client_order_id, buyer_sequence_number, seller_sequence_number, price, qty, timestamp,
        } =>
            seq![5u8] + spec_u32_to_le_bytes(buyer) + spec_u32_to_le_bytes(seller) + spec_u16_to_le_bytes(instrument_id)
                + spec_u64_to_le_bytes(buyer_exchange_order_id.0) + spec_u64_to_le_bytes(seller_exchange_order_id.0)
                + spec_u64_to_le_bytes(buyer_client_order_id.0) + spec_u64_to_le_bytes(seller_client_order_id.0)
                + spec_u64_to_le_bytes(buyer_sequence_number.0) + spec_u64_to_le_bytes(seller_sequence_number.0)
                + spec_u32_to_le_bytes(price) + spec_u32_to_le_bytes(qty) + spec_u64_to_le_bytes(timestamp),
    }
}

/// An event's record written at `timestamp`: the magic, the version, the
/// type and a zero byte, the sequence number, the timestamp, the payload
/// length, the payload's CRC-32, then the payload.
pub open spec fn spec_event_record(e: ExchangeEvent, timestamp: u64) -> Seq<u8> {
    let p = spec_event_payload(e);
    journal_magic() + spec_u16_to_le_bytes(JOURNAL_VERSION) + seq![spec_event_type(e), 0u8]
        + spec_u64_to_le_bytes(spec_event_sequence(e)) + spec_u64_to_le_bytes(timestamp)
        + spec_u32_to_le_bytes(p.len() as u32) + spec_u32_to_le_bytes(spec_crc32(p)) + p
}

pub fn event_type(event: &ExchangeEvent) -> (r: u8)
    ensures
        r == spec_event_type(*event),
{
    match event {
        ExchangeEvent::OrderAccepted { .. } => 1,
        ExchangeEvent::OrderRejected { .. } => 2,
        ExchangeEvent::OrderCancelled { .. } => 3,
        ExchangeEvent::OrderReplaced { .. } => 4,
        ExchangeEvent::Trade { .. } => 5,
    }
}

pub fn event_sequence(event: &ExchangeEvent) -> (r: u64)
    ensures
        r == spec_event_sequence(*event),
{
    match event {
        ExchangeEvent::OrderAccepted { sequence_number, .. } => sequence_number.0,
        ExchangeEvent::OrderCancelled { sequence_number, .. } => sequence_number.0,
        ExchangeEvent::OrderReplaced { sequence_number, .. } => sequence_number.0,
        ExchangeEvent::OrderRejected { sequence_number, .. } => match sequence_number {
            Some(s) => s.0,
            None => 0,
        },
        ExchangeEvent::Trade { buyer_sequence_number, seller_sequence_number, .. } =>
            if buyer_sequence_number.0 >= seller_sequence_number.0 { buyer_sequence_number.0 } else { seller_sequence_number.0 },
    }
}

fn reason_code(reason: CommandRejectReason) -> (r: u8)
    ensures
        r == spec_reason_code(reason),
{
    match reason {
        CommandRejectReason::InvalidInstrument => 0,
        CommandRejectReason::InvalidSide => 1,
        CommandRejectReason::DuplicateClientOrderId => 2,
        CommandRejectReason::UnknownOrder => 3,
        CommandRejectReason::ExchangeOrderIdExhausted => 4,
        CommandRejectReason::SequenceNumberExhausted => 5,
        CommandRejectReason::OrderPoolExhausted => 6,
    }
}

/// The payload of an event.
pub fn encode_event(event: &ExchangeEvent) -> (r: Vec<u8>)
    ensures
        r@ == spec_event_payload(*event),
{
    let mut out: Vec<u8> = Vec::new();
    match *event {
        ExchangeEvent::OrderAccepted {
            instrument_id, account_id, client_order_id, exchange_order_id, sequence_number, side, price, quantity, client_timestamp,
        } => {
            out.push(1);
            put_u16(&mut out, instrument_id);
            put_u32(&mut out, account_id);
            put_u64(&mut out, client_order_id.0);
            put_u64(&mut out, exchange_order_id.0);
            put_u64(&mut out, sequence_number.0);
            out.push(side.wire_value());
            put_u32(&mut out, price);
            put_u32(&mut out, quantity);
            put_u64(&mut out, client_timestamp);
        },
        ExchangeEvent::OrderRejected { account_id, client_order_id, sequence_number, reason } => {
            out.push(2);
            put_u32(&mut out, account_id);
            put_u64(&mut out, client_order_id.0);
            let s = match sequence_number {
                Some(s) => s.0,
                None => 0,
            };
            put_u64(&mut out, s);
            out.push(reason_code(reason));
        },
        ExchangeEvent::OrderCancelled { instrument_id, account_id, client_order_id, sequence_number } => {
            out.push(3);
            put_u16(&mut out, instrument_id);
            put_u32(&mut out, account_id);
            put_u64(&mut out, client_order_id.0);
            put_u64(&mut out, sequence_number.0);
        },
        ExchangeEvent::OrderReplaced { instrument_id, account_id, old_client_order_id, new_client_order_id, exchange_order_id, sequence_number } => {
            out.push(4);
            put_u16(&mut out, instrument_id);
            put_u32(&mut out, account_id);
            put_u64(&mut out, old_client_order_id.0);
            put_u64(&mut out, new_client_order_id.0);
            put_u64(&mut out, exchange_order_id.0);
            put_u64(&mut out, sequence_number.0);
        },
        ExchangeEvent::Trade {
            buyer, seller, instrument_id, buyer_exchange_order_id, seller_exchange_order_id, buyer_client_order_id,
            seller_client_order_id, buyer_sequence_number, seller_sequence_number, price, qty, timestamp,
        } => {
            out.push(5);
            put_u32(&mut out, buyer);
            put_u32(&mut out, seller);
            put_u16(&mut out, instrument_id);
            put_u64(&mut out, buyer_exchange_order_id.0);
            put_u64(&mut out, seller_exchange_order_id.0);
            put_u64(&mut out, buyer_client_order_id.0);
            put_u64(&mut out, seller_client_order_id.0);
            put_u64(&mut out, buyer_sequence_number.0);
            put_u64(&mut out, seller_sequence_number.0);
            put_u32(&mut out, price);
            put_u32(&mut out, qty);
            put_u64(&mut out, timestamp);
        },
    }
    proof {
        assert(out@ =~= spec_event_payload(*event));
    }
    out
}

/// An accepted order's payload determines the event: two accepted orders
/// that differ in any attribute are journalled differently.
pub proof fn lemma_accepted_payload_injective(e1: ExchangeEvent, e2: ExchangeEvent)
    requires
        e1 is OrderAccepted,
        e2 is OrderAccepted,
        spec_event_payload(e1) == spec_event_payload(e2),
    ensures
        e1 == e2,
{
    lemma_le_round_trips();
    let p = spec_event_payload(e1);
    assert(p.len() == 48);
    match (e1, e2) {
        (
            ExchangeEvent::OrderAccepted { instrument_id: i1, account_id: a1, client_order_id: c1, exchange_order_id: x1, sequence_number: q1, side: s1, price: p1, quantity: n1, client_timestamp: t1 },
            ExchangeEvent::OrderAccepted { instrument_id: i2, account_id: a2, client_order_id: c2, exchange_order_id: x2, sequence_number: q2, side: s2, price: p2, quantity: n2, client_timestamp: t2 },
        ) => {
            let p2s = spec_event_payload(e2);
            assert(p.subrange(1, 3) =~= spec_u16_to_le_bytes(i1));
            assert(p2s.subrange(1, 3) =~= spec_u16_to_le_bytes(i2));
            assert(p.subrange(3, 7) =~= spec_u32_to_le_bytes(a1));
            assert(p2s.subrange(3, 7) =~= spec_u32_to_le_bytes(a2));
            assert(p.subrange(7, 15) =~= spec_u64_to_le_bytes(c1.0));
            assert(p2s.subrange(7, 15) =~= spec_u64_to_le_bytes(c2.0));
            assert(p.subrange(15, 23) =~= spec_u64_to_le_bytes(x1.0));
            assert(p2s.subrange(15, 23) =~= spec_u64_to_le_bytes(x2.0));
            assert(p.subrange(23, 31) =~= spec_u64_to_le_bytes(q1.0));
            assert(p2s.subrange(23, 31) =~= spec_u64_to_le_bytes(q2.0));
            assert(p[31] == spec_side_wire(s1));
            assert(p2s[31] == spec_side_wire(s2));
            assert(p.subrange(32, 36) =~= spec_u32_to_le_bytes(p1));
            assert(p2s.subrange(32, 36) =~= spec_u32_to_le_bytes(p2));
            assert(p.subrange(36, 40) =~= spec_u32_to_le_bytes(n1));
            assert(p2s.subrange(36, 40) =~= spec_u32_to_le_bytes(n2));
            assert(p.subrange(40, 48) =~= spec_u64_to_le_bytes(t1));
            assert(p2s.subrange(40, 48) =~= spec_u64_to_le_bytes(t2));
            assert(s1 == s2) by {
                crate::command::lemma_side_wire_round_trip(s1);
                crate::command::lemma_side_wire_round_trip(s2);
            }
        },
        _ => {},
    }
}

/// Every payload is at most 79 bytes.
pub proof fn lemma_event_payload_len(e: ExchangeEvent)
    ensures
        spec_event_payload(e).len() <= 79,
{
    lemma_le_round_trips();
}

/// The record appending `event` at `timestamp` writes, after a journal
/// whose last record carries `last_sequence`. An event numbered below that
/// is refused as a regression.
pub fn journal_record(last_sequence: Option<u64>, event: &ExchangeEvent, timestamp: u64) -> (r: Result<Vec<u8>, JournalError>)
    ensures
        match last_sequence {
            Some(p) if spec_event_sequence(*event) < p =>
                r matches Err(JournalError::SequenceRegression { previous, next }) && previous == p && next == spec_event_sequence(*event),
            _ => r matches Ok(v) && v@ == spec_event_record(*event, timestamp),
        },
{
    let sequence = event_sequence(event);
    if let Some(previous) = last_sequence {
        if sequence < previous {
            return Err(JournalError::SequenceRegression { previous, next: sequence });
        }
    }
    let payload = encode_event(event);
    proof {
        lemma_event_payload_len(*event);
    }
    if payload.len() > 0xffff_ffff {
        return Err(JournalError::PayloadTooLarge(payload.len()));
    }
    let mut out: Vec<u8> = Vec::new();
    out.push(0x53);
    out.push(0x45);
    out.push(0x4a);
    out.push(0x31);
    put_u16(&mut out, JOURNAL_VERSION);
    out.push(event_type(event));
    out.push(0);
    put_u64(&mut out, sequence);
    put_u64(&mut out, timestamp);
    put_u32(&mut out, payload.len() as u32);
    put_u32(&mut out, crc32(payload.as_slice()));
    out.extend_from_slice(payload.as_slice());
    proof {
        lemma_le_round_trips();
        assert(out@ =~= spec_event_record(*event, timestamp));
    }
    Ok(out)
}

/// The outcome of checking the records from `pos` on after one carrying
/// `previous`: the last sequence number on success. Each record must have a
/// whole header with the magic and version, a payload that fits, a
/// sequence number not below the one before, and a matching checksum.
pub open spec fn spec_scan_from(b: Seq<u8>, pos: int, previous: Option<u64>) -> Result<Option<u64>, JournalError>
    decreases b.len() - pos,
{
    if pos < 0 || pos >= b.len() {
        Ok(previous)
    } else if b.len() - pos < 32 {
        Err(JournalError::InvalidRecord("truncated header"))
    } else if b.subrange(pos, pos + 4) != journal_magic() {
        Err(JournalError::InvalidHeader("bad magic"))
    } else if rd16(b, pos + 4) != JOURNAL_VERSION {
        Err(JournalError::UnsupportedVersion(rd16(b, pos + 4)))
    } else if pos + 32 + rd32(b, pos + 24) > b.len() {
        Err(JournalError::InvalidRecord("truncated payload"))
    } else {
        let end = pos + 32 + rd32(b, pos + 24);
        let seq = rd64(b, pos + 8);
        match previous {
            Some(p) if seq < p => Err(JournalError::SequenceRegression { previous: p, next: seq }),
            _ => {
                let actual = spec_crc32(b.subrange(pos + 32, end));
                if rd32(b, pos + 28) != actual {
                    Err(JournalError::ChecksumMismatch { expected: rd32(b, pos + 28), actual })
                } else {
                    spec_scan_from(b, end, Some(seq))
                }
            },
        }
    }
}

/// Checks every record of a journal's bytes and returns the last sequence
/// number, `None` for an empty journal; see `spec_scan_from`.
pub fn scan_journal(bytes: &[u8]) -> (r: Result<Option<u64>, JournalError>)
    ensures
        match r {
            Ok(s) => spec_scan_from(bytes@, 0, None) == Ok::<Option<u64>, JournalError>(s),
            Err(e) => spec_scan_from(bytes@, 0, None) == Err::<Option<u64>, JournalError>(e),
        },
{
    let n = bytes.len();
    let mut offset: usize = 0;
    let mut previous: Option<u64> = None;
    while offset < n
        invariant
            n == bytes@.len(),
            offset <= n,
            spec_scan_from(bytes@, 0, None) == spec_scan_from(bytes@, offset as int, previous),
        decreases n - offset,
    {
        if n - offset < JOURNAL_HEADER {
            return Err(JournalError::InvalidRecord("truncated header"));
        }
        if bytes[offset] != 0x53 || bytes[offset + 1] != 0x45 || bytes[offset + 2] != 0x4a || bytes[offset + 3] != 0x31 {
            proof {
                let h = bytes@.subrange(offset as int, offset + 4);
                if h == journal_magic() {
                    assert(h[0] == bytes@[offset as int] && h[1] == bytes@[offset + 1] && h[2] == bytes@[offset + 2] && h[3] == bytes@[offset + 3]);
                }
            }
            return Err(JournalError::InvalidHeader("bad magic"));
        }
        proof {
            assert(bytes@.subrange(offset as int, offset + 4) =~= journal_magic());
        }
        let version = get_u16(bytes, offset + 4);
        if version != JOURNAL_VERSION {
            return Err(JournalError::UnsupportedVersion(version));
        }
        let payload_len = get_u32(bytes, offset + 24) as usize;
        if n - offset - JOURNAL_HEADER < payload_len {
            return Err(JournalError::InvalidRecord("truncated payload"));
        }
        let end = offset + JOURNAL_HEADER + payload_len;
        let sequence = get_u64(bytes, offset + 8);
        if let Some(p) = previous {
            if sequence < p {
                return Err(JournalError::SequenceRegression { previous: p, next: sequence });
            }
        }
        let expected = get_u32(bytes, offset + 28);
        let actual = crc32(vstd::slice::slice_subrange(bytes, offset + JOURNAL_HEADER, end));
        if expected != actual {
            return Err(JournalError::ChecksumMismatch { expected, actual });
        }
        previous = Some(sequence);
        offset = end;
    }
    Ok(previous)
}

/// The records of events written one after another, each at its timestamp.
pub open spec fn spec_event_records(es: Seq<ExchangeEvent>, ts: Seq<u64>) -> Seq<u8>
    decreases es.len(),
{
    if es.len() == 0 || ts.len() == 0 {
        Seq::empty()
    } else {
        spec_event_record(es[0], ts[0]) + spec_event_records(es.drop_first(), ts.drop_first())
    }
}

/// Sequence numbers that never go back, after `previous`.
pub open spec fn non_decreasing_after(previous: Option<u64>, es: Seq<ExchangeEvent>) -> bool {
    &&& forall|i: int, j: int| 0 <= i < j < es.len() ==> spec_event_sequence(es[i]) <= spec_event_sequence(es[j])
    &&& (es.len() > 0 ==> match previous { Some(p) => p <= spec_event_sequence(es[0]), None => true })
}

/// Records appended in order check clean from where `pre` ends, and the
/// last sequence number is the last event's.
pub proof fn lemma_scan_records_from(pre: Seq<u8>, previous: Option<u64>, es: Seq<ExchangeEvent>, ts: Seq<u64>)
    requires
        es.len() == ts.len(),
        non_decreasing_after(previous, es),
    ensures
        spec_scan_from(pre + spec_event_records(es, ts), pre.len() as int, previous)
            == Ok::<Option<u64>, JournalError>(if es.len() == 0 { previous } else { Some(spec_event_sequence(es.last())) }),
    decreases es.len(),
{
    lemma_le_round_trips();
    let b = pre + spec_event_records(es, ts);
    let pos = pre.len() as int;
    if es.len() == 0 {
        assert(b.len() == pos);
    } else {
        let e = es[0];
        let p = spec_event_payload(e);
        let r = spec_event_record(e, ts[0]);
        lemma_event_payload_len(e);
        let pre2 = pre + r;
        assert(b =~= pre2 + spec_event_records(es.drop_first(), ts.drop_first()));
        assert(r.len() == 32 + p.len());
        assert(b.subrange(pos, pos + 4) =~= journal_magic());
        assert(b.subrange(pos + 4, pos + 6) =~= spec_u16_to_le_bytes(JOURNAL_VERSION));
        assert(b.subrange(pos + 8, pos + 16) =~= spec_u64_to_le_bytes(spec_event_sequence(e)));
        assert(b.subrange(pos + 24, pos + 28) =~= spec_u32_to_le_bytes(p.len() as u32));
        assert(b.subrange(pos + 28, pos + 32) =~= spec_u32_to_le_bytes(spec_crc32(p)));
        assert(b.subrange(pos + 32, pos + 32 + p.len()) =~= p);
        let rest = es.drop_first();
        assert(non_decreasing_after(Some(spec_event_sequence(e)), rest)) by {
            assert forall|i: int, j: int| 0 <= i < j < rest.len() implies spec_event_sequence(rest[i]) <= spec_event_sequence(rest[j]) by {
                assert(rest[i] == es[i + 1] && rest[j] == es[j + 1]);
            }
            if rest.len() > 0 {
                assert(rest[0] == es[1]);
            }
        }
        lemma_scan_records_from(pre2, Some(spec_event_sequence(e)), rest, ts.drop_first());
        if rest.len() > 0 {
            assert(rest.last() == es.last());
        }
    }
}

/// A journal of events appended in sequence order checks clean and ends at
/// the last event's sequence number.
pub proof fn lemma_scan_records(es: Seq<ExchangeEvent>, ts: Seq<u64>)
    requires
        es.len() == ts.len(),
        non_decreasing_after(None, es),
    ensures
        spec_scan_from(spec_event_records(es, ts), 0, None)
            == Ok::<Option<u64>, JournalError>(if es.len() == 0 { None } else { Some(spec_event_sequence(es.last())) }),
{
    lemma_scan_records_from(Seq::empty(), None, es, ts);
    assert(Seq::<u8>::empty() + spec_event_records(es, ts) =~= spec_event_records(es, ts));
}

} // verus!
