//! The command journal's record format: each command framed by a header
//! with a magic, a version, its kind, its length and its CRC-32, so that a
//! journal read back yields the commands written, in order, or fails
//! closed on the first damaged record.

use vstd::prelude::*;
use vstd::bytes::*;
use crate::codec::{crc32, put_u16, put_u32, put_u64, get_u16, get_u32, get_u64, spec_crc32, lemma_le_round_trips};
use crate::command::{CancelOrder, NewOrder, OrderCommand, OrderSide, ReplaceOrder, spec_side_wire, spec_side_from_wire};
use crate::order::ClientOrderId;
use crate::protocol::{rd16, rd32, rd64};

verus! {

/// `std::io::Error`, carried opaquely inside journal errors.
#[verifier::external_type_specification]
#[verifier::external_body]
pub struct ExIoError(std::io::Error);

pub const COMMAND_VERSION: u16 = 1;
pub const COMMAND_HEADER: usize = 16;
pub const MAX_RECORD: usize = 128;

/// The four bytes every command record starts with: "SEC1".
pub open spec fn command_magic() -> Seq<u8> {
    seq![0x53u8, 0x45u8, 0x43u8, 0x31u8]
}

#[derive(Debug)]
pub enum CommandJournalError {
    Io(std::io::Error),
    Invalid(&'static str),
    Checksum,
    UnsupportedVersion(u16),
}

/// A command's payload: its kind (1 new, 2 cancel, 3 replace), then its
/// fields in order, integers little-endian and sides as their wire byte.
pub open spec fn spec_command_payload(c: OrderCommand) -> Seq<u8> {
    match c {
        OrderCommand::New(x) => seq![1u8] + spec_u64_to_le_bytes(x.client_order_id.0) + spec_u32_to_le_bytes(x.account_id)
            + spec_u16_to_le_bytes(x.instrument_id) + seq![spec_side_wire(x.side)] + spec_u32_to_le_bytes(x.price)
            + spec_u32_to_le_bytes(x.quantity) + spec_u64_to_le_bytes(x.client_timestamp),
        OrderCommand::Cancel(x) => seq![2u8] + spec_u32_to_le_bytes(x.account_id) + spec_u16_to_le_bytes(x.instrument_id)
            + spec_u64_to_le_bytes(x.client_order_id.0),
        OrderCommand::Replace(x) => seq![3u8] + spec_u32_to_le_bytes(x.account_id) + spec_u16_to_le_bytes(x.instrument_id)
            + spec_u64_to_le_bytes(x.target_client_order_id.0) + spec_u64_to_le_bytes(x.new_client_order_id.0)
            + seq![spec_side_wire(x.side)] + spec_u32_to_le_bytes(x.price) + spec_u32_to_le_bytes(x.quantity)
            + spec_u64_to_le_bytes(x.client_timestamp),
    }
}

/// A command's record: the magic, the version, the kind byte and a zero
/// byte, the payload length, the payload's CRC-32, then the payload.
pub open spec fn spec_command_record(c: OrderCommand) -> Seq<u8> {
    let p = spec_command_payload(c);
    command_magic() + spec_u16_to_le_bytes(COMMAND_VERSION) + seq![p[0], 0u8] + spec_u32_to_le_bytes(p.len() as u32)
        + spec_u32_to_le_bytes(spec_crc32(p)) + p
}

/// The records of a sequence of commands, one after another.
pub open spec fn spec_command_records(cs: Seq<OrderCommand>) -> Seq<u8>
    decreases cs.len(),
{
    if cs.len() == 0 {
        Seq::empty()
    } else {
        spec_command_record(cs[0]) + spec_command_records(cs.drop_first())
    }
}

/// Decoding one payload. Fields are read in order: a payload too short for
/// the fields read so far is truncated, an unknown kind or side is refused,
/// and bytes after the last field are ignored.
pub open spec fn spec_decode_command(b: Seq<u8>) -> Result<OrderCommand, CommandJournalError> {
    if b.len() < 1 {
        Err(CommandJournalError::Invalid("truncated payload"))
    } else if b[0] == 1 {
        if b.len() < 16 {
            Err(CommandJournalError::Invalid("truncated payload"))
        } else {
            match spec_side_from_wire(b[15]) {
                None => Err(CommandJournalError::Invalid("invalid side")),
                Some(side) => if b.len() < 32 {
                    Err(CommandJournalError::Invalid("truncated payload"))
                } else {
                    Ok(OrderCommand::New(NewOrder {
                        client_order_id: ClientOrderId(rd64(b, 1)),
                        account_id: rd32(b, 9),
                        instrument_id: rd16(b, 13),
                        side,
                        price: rd32(b, 16),
                        quantity: rd32(b, 20),
                        client_timestamp: rd64(b, 24),
                    }))
                },
            }
        }
    } else if b[0] == 2 {
        if b.len() < 15 {
            Err(CommandJournalError::Invalid("truncated payload"))
        } else {
            Ok(OrderCommand::Cancel(CancelOrder {
                account_id: rd32(b, 1),
                instrument_id: rd16(b, 5),
                client_order_id: ClientOrderId(rd64(b, 7)),
            }))
        }
    } else if b[0] == 3 {
        if b.len() < 24 {
            Err(CommandJournalError::Invalid("truncated payload"))
        } else {
            match spec_side_from_wire(b[23]) {
                None => Err(CommandJournalError::Invalid("invalid side")),
                Some(side) => if b.len() < 40 {
                    Err(CommandJournalError::Invalid("truncated payload"))
                } else {
                    Ok(OrderCommand::Replace(ReplaceOrder {
                        account_id: rd32(b, 1),
                        instrument_id: rd16(b, 5),
                        target_client_order_id: ClientOrderId(rd64(b, 7)),
                        new_client_order_id: ClientOrderId(rd64(b, 15)),
                        side,
                        price: rd32(b, 24),
                        quantity: rd32(b, 28),
                        client_timestamp: rd64(b, 32),
                    }))
                },
            }
        }
    } else {
        Err(CommandJournalError::Invalid("unknown command type"))
    }
}

/// Reading records from `pos` on: each must have a whole header with the
/// magic and version, a length from 1 to 128 that fits in what is left,
/// a matching checksum and a payload that decodes.
pub open spec fn spec_decode_records_from(b: Seq<u8>, pos: int) -> Result<Seq<OrderCommand>, CommandJournalError>
    decreases b.len() - pos,
{
    if pos < 0 || pos >= b.len() {
        Ok(Seq::empty())
    } else if b.len() - pos < 16 {
        Err(CommandJournalError::Invalid("truncated header"))
    } else if b.subrange(pos, pos + 4) != command_magic() {
        Err(CommandJournalError::Invalid("bad magic"))
    } else if rd16(b, pos + 4) != COMMAND_VERSION {
        Err(CommandJournalError::UnsupportedVersion(rd16(b, pos + 4)))
    } else if rd32(b, pos + 8) == 0 || rd32(b, pos + 8) > MAX_RECORD {
        Err(CommandJournalError::Invalid("invalid record length"))
    } else if pos + 16 + rd32(b, pos + 8) > b.len() {
        Err(CommandJournalError::Invalid("invalid record length"))
    } else {
        let end = pos + 16 + rd32(b, pos + 8);
        let payload = b.subrange(pos + 16, end);
        if spec_crc32(payload) != rd32(b, pos + 12) {
            Err(CommandJournalError::Checksum)
        } else {
            match spec_decode_command(payload) {
                Err(e) => Err(e),
                Ok(c) => match spec_decode_records_from(b, end) {
                    Err(e) => Err(e),
                    Ok(rest) => Ok(seq![c] + rest),
                },
            }
        }
    }
}

/// The payload of a command.
pub fn encode_command(command: &OrderCommand) -> (r: Vec<u8>)
    ensures
        r@ == spec_command_payload(*command),
{
    let mut out: Vec<u8> = Vec::new();
    match *command {
        OrderCommand::New(x) => {
            out.push(1);
            put_u64(&mut out, x.client_order_id.0);
            put_u32(&mut out, x.account_id);
            put_u16(&mut out, x.instrument_id);
            out.push(x.side.wire_value());
            put_u32(&mut out, x.price);
            put_u32(&mut out, x.quantity);
            put_u64(&mut out, x.client_timestamp);
        },
        OrderCommand::Cancel(x) => {
            out.push(2);
            put_u32(&mut out, x.account_id);
            put_u16(&mut out, x.instrument_id);
            put_u64(&mut out, x.client_order_id.0);
        },
        OrderCommand::Replace(x) => {
            out.push(3);
            put_u32(&mut out, x.account_id);
            put_u16(&mut out, x.instrument_id);
            put_u64(&mut out, x.target_client_order_id.0);
            put_u64(&mut out, x.new_client_order_id.0);
            out.push(x.side.wire_value());
            put_u32(&mut out, x.price);
            put_u32(&mut out, x.quantity);
            put_u64(&mut out, x.client_timestamp);
        },
    }
    proof {
        assert(out@ =~= spec_command_payload(*command));
    }
    out
}

/// Every payload is 15 to 40 bytes, so it fits in a record.
pub proof fn lemma_command_payload_len(c: OrderCommand)
    ensures
        15 <= spec_command_payload(c).len() <= 40,
{
    lemma_le_round_trips();
}

/// The record of a command, ready to append to the journal.
pub fn command_record(command: &OrderCommand) -> (r: Result<Vec<u8>, CommandJournalError>)
    ensures
        r matches Ok(v) && v@ == spec_command_record(*command),
{
    let payload = encode_command(command);
    proof {
        lemma_command_payload_len(*command);
    }
    if payload.len() > MAX_RECORD {
        return Err(CommandJournalError::Invalid("record too large"));
    }
    let mut out: Vec<u8> = Vec::new();
    out.push(0x53);
    out.push(0x45);
    out.push(0x43);
    out.push(0x31);
    put_u16(&mut out, COMMAND_VERSION);
    out.push(payload[0]);
    out.push(0);
    put_u32(&mut out, payload.len() as u32);
    put_u32(&mut out, crc32(payload.as_slice()));
    out.extend_from_slice(payload.as_slice());
    proof {
        lemma_le_round_trips();
        assert(out@ =~= spec_command_record(*command));
    }
    Ok(out)
}

fn decode_side(value: u8) -> (r: Result<OrderSide, CommandJournalError>)
    ensures
        r == (match spec_side_from_wire(value) {
            Some(s) => Ok::<OrderSide, CommandJournalError>(s),
            None => Err(CommandJournalError::Invalid("invalid side")),
        }),
{
    match value {
        0 => Ok(OrderSide::Buy),
        1 => Ok(OrderSide::Sell),
        _ => Err(CommandJournalError::Invalid("invalid side")),
    }
}

/// Decodes one payload; see `spec_decode_command`.
pub fn decode_command(bytes: &[u8]) -> (r: Result<OrderCommand, CommandJournalError>)
    ensures
        r == spec_decode_command(bytes@),
{
    let n = bytes.len();
    if n < 1 {
        return Err(CommandJournalError::Invalid("truncated payload"));
    }
    let kind = bytes[0];
    if kind == 1 {
        if n < 16 {
            return Err(CommandJournalError::Invalid("truncated payload"));
        }
        let side = match decode_side(bytes[15]) {
            Ok(s) => s,
            Err(e) => return Err(e),
        };
        if n < 32 {
            return Err(CommandJournalError::Invalid("truncated payload"));
        }
        Ok(OrderCommand::New(NewOrder {
            client_order_id: ClientOrderId(get_u64(bytes, 1)),
            account_id: get_u32(bytes, 9),
            instrument_id: get_u16(bytes, 13),
            side,
            price: get_u32(bytes, 16),
            quantity: get_u32(bytes, 20),
            client_timestamp: get_u64(bytes, 24),
        }))
    } else if kind == 2 {
        if n < 15 {
            return Err(CommandJournalError::Invalid("truncated payload"));
        }
        Ok(OrderCommand::Cancel(CancelOrder {
            account_id: get_u32(bytes, 1),
            instrument_id: get_u16(bytes, 5),
            client_order_id: ClientOrderId(get_u64(bytes, 7)),
        }))
    } else if kind == 3 {
        if n < 24 {
            return Err(CommandJournalError::Invalid("truncated payload"));
        }
        let side = match decode_side(bytes[23]) {
            Ok(s) => s,
            Err(e) => return Err(e),
        };
        if n < 40 {
            return Err(CommandJournalError::Invalid("truncated payload"));
        }
        Ok(OrderCommand::Replace(ReplaceOrder {
            account_id: get_u32(bytes, 1),
            instrument_id: get_u16(bytes, 5),
            target_client_order_id: ClientOrderId(get_u64(bytes, 7)),
            new_client_order_id: ClientOrderId(get_u64(bytes, 15)),
            side,
            price: get_u32(bytes, 24),
            quantity: get_u32(bytes, 28),
            client_timestamp: get_u64(bytes, 32),
        }))
    } else {
        Err(CommandJournalError::Invalid("unknown command type"))
    }
}

/// `done` followed by what reading from some position gives.
pub open spec fn after(done: Seq<OrderCommand>, r: Result<Seq<OrderCommand>, CommandJournalError>) -> Result<Seq<OrderCommand>, CommandJournalError> {
    match r {
        Ok(rest) => Ok(done + rest),
        Err(e) => Err(e),
    }
}

/// Reads every record of a journal's bytes; see `spec_decode_records_from`.
pub fn decode_records(bytes: &[u8]) -> (r: Result<Vec<OrderCommand>, CommandJournalError>)
    ensures
        match r {
            Ok(v) => spec_decode_records_from(bytes@, 0) == Ok::<Seq<OrderCommand>, CommandJournalError>(v@),
            Err(e) => spec_decode_records_from(bytes@, 0) == Err::<Seq<OrderCommand>, CommandJournalError>(e),
        },
{
    let n = bytes.len();
    let mut out: Vec<OrderCommand> = Vec::new();
    let mut pos: usize = 0;
    proof {
        assert(out@ + Seq::<OrderCommand>::empty() =~= out@);
        match spec_decode_records_from(bytes@, 0) {
            Ok(rest) => assert(out@ + rest =~= rest),
            Err(_) => {},
        }
    }
    while pos < n
        invariant
            n == bytes@.len(),
            pos <= n,
            spec_decode_records_from(bytes@, 0) == after(out@, spec_decode_records_from(bytes@, pos as int)),
        decreases n - pos,
    {
        if n - pos < COMMAND_HEADER {
            return Err(CommandJournalError::Invalid("truncated header"));
        }
        if bytes[pos] != 0x53 || bytes[pos + 1] != 0x45 || bytes[pos + 2] != 0x43 || bytes[pos + 3] != 0x31 {
            proof {
                let h = bytes@.subrange(pos as int, pos + 4);
                if h == command_magic() {
                    assert(h[0] == bytes@[pos as int] && h[1] == bytes@[pos + 1] && h[2] == bytes@[pos + 2] && h[3] == bytes@[pos + 3]);
                }
            }
            return Err(CommandJournalError::Invalid("bad magic"));
        }
        proof {
            assert(bytes@.subrange(pos as int, pos + 4) =~= command_magic());
        }
        let version = get_u16(bytes, pos + 4);
        if version != COMMAND_VERSION {
            return Err(CommandJournalError::UnsupportedVersion(version));
        }
        let len = get_u32(bytes, pos + 8);
        if len == 0 || len as usize > MAX_RECORD {
            return Err(CommandJournalError::Invalid("invalid record length"));
        }
        let len = len as usize;
        if n - pos - COMMAND_HEADER < len {
            return Err(CommandJournalError::Invalid("invalid record length"));
        }
        let end = pos + COMMAND_HEADER + len;
        let payload = vstd::slice::slice_subrange(bytes, pos + COMMAND_HEADER, end);
        let expected = get_u32(bytes, pos + 12);
        if crc32(payload) != expected {
            return Err(CommandJournalError::Checksum);
        }
        let command = match decode_command(payload) {
            Ok(c) => c,
            Err(e) => return Err(e),
        };
        let ghost before = out@;
        out.push(command);
        proof {
            match spec_decode_records_from(bytes@, end as int) {
                Ok(rest) => {
                    assert(out@ + rest =~= before + (seq![command] + rest));
                },
                Err(_) => {},
            }
        }
        pos = end;
    }
    proof {
        assert(out@ + Seq::<OrderCommand>::empty() =~= out@);
    }
    Ok(out)
}

/// Decoding a command's payload gives the command back.
pub proof fn lemma_command_payload_round_trip(c: OrderCommand)
    ensures
        spec_decode_command(spec_command_payload(c)) == Ok::<OrderCommand, CommandJournalError>(c),
{
    lemma_le_round_trips();
    let b = spec_command_payload(c);
    match c {
        OrderCommand::New(x) => {
            assert(b.subrange(1, 9) =~= spec_u64_to_le_bytes(x.client_order_id.0));
            assert(b.subrange(9, 13) =~= spec_u32_to_le_bytes(x.account_id));
            assert(b.subrange(13, 15) =~= spec_u16_to_le_bytes(x.instrument_id));
            assert(b[15] == spec_side_wire(x.side));
            assert(b.subrange(16, 20) =~= spec_u32_to_le_bytes(x.price));
            assert(b.subrange(20, 24) =~= spec_u32_to_le_bytes(x.quantity));
            assert(b.subrange(24, 32) =~= spec_u64_to_le_bytes(x.client_timestamp));
        },
        OrderCommand::Cancel(x) => {
            assert(b.subrange(1, 5) =~= spec_u32_to_le_bytes(x.account_id));
            assert(b.subrange(5, 7) =~= spec_u16_to_le_bytes(x.instrument_id));
            assert(b.subrange(7, 15) =~= spec_u64_to_le_bytes(x.client_order_id.0));
        },
        OrderCommand::Replace(x) => {
            assert(b.subrange(1, 5) =~= spec_u32_to_le_bytes(x.account_id));
            assert(b.subrange(5, 7) =~= spec_u16_to_le_bytes(x.instrument_id));
            assert(b.subrange(7, 15) =~= spec_u64_to_le_bytes(x.target_client_order_id.0));
            assert(b.subrange(15, 23) =~= spec_u64_to_le_bytes(x.new_client_order_id.0));
            assert(b[23] == spec_side_wire(x.side));
            assert(b.subrange(24, 28) =~= spec_u32_to_le_bytes(x.price));
            assert(b.subrange(28, 32) =~= spec_u32_to_le_bytes(x.quantity));
            assert(b.subrange(32, 40) =~= spec_u64_to_le_bytes(x.client_timestamp));
        },
    }
}

/// Reading records from where `pre` ends gives back exactly the commands
/// whose records follow it.
pub proof fn lemma_records_round_trip_from(pre: Seq<u8>, cs: Seq<OrderCommand>)
    ensures
        spec_decode_records_from(pre + spec_command_records(cs), pre.len() as int) == Ok::<Seq<OrderCommand>, CommandJournalError>(cs),
    decreases cs.len(),
{
    lemma_le_round_trips();
    let b = pre + spec_command_records(cs);
    let pos = pre.len() as int;
    if cs.len() == 0 {
        assert(b.len() == pos);
        assert(cs =~= Seq::<OrderCommand>::empty());
    } else {
        let c = cs[0];
        let p = spec_command_payload(c);
        let r = spec_command_record(c);
        lemma_command_payload_len(c);
        lemma_command_payload_round_trip(c);
        let pre2 = pre + r;
        assert(b =~= pre2 + spec_command_records(cs.drop_first()));
        assert(r.len() == 16 + p.len());
        assert(b.subrange(pos, pos + 4) =~= command_magic());
        assert(b.subrange(pos + 4, pos + 6) =~= spec_u16_to_le_bytes(COMMAND_VERSION));
        assert(b.subrange(pos + 8, pos + 12) =~= spec_u32_to_le_bytes(p.len() as u32));
        assert(b.subrange(pos + 12, pos + 16) =~= spec_u32_to_le_bytes(spec_crc32(p)));
        assert(b.subrange(pos + 16, pos + 16 + p.len()) =~= p);
        lemma_records_round_trip_from(pre2, cs.drop_first());
        assert(seq![c] + cs.drop_first() =~= cs);
    }
}

/// A journal holds what was appended to it: reading back the records of
/// a sequence of commands gives the same commands in the same order.
pub proof fn lemma_records_round_trip(cs: Seq<OrderCommand>)
    ensures
        spec_decode_records_from(spec_command_records(cs), 0) == Ok::<Seq<OrderCommand>, CommandJournalError>(cs),
{
    lemma_records_round_trip_from(Seq::empty(), cs);
    assert(Seq::<u8>::empty() + spec_command_records(cs) =~= spec_command_records(cs));
}

} // verus!
