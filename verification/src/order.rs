//! Order identities and the fixed 32-byte binary order packet.

use vstd::prelude::*;
use vstd::bytes::*;
use vstd::array::array_as_slice;
use crate::codec::{get_u16, get_u32, get_u64, put_u16, put_u32, put_u64, lemma_le_round_trips};

verus! {

/// Client-supplied identifier for an order.
#[derive(Debug, Clone, Copy, PartialEq, Eq, Structural, Hash, PartialOrd, Ord)]
pub struct ClientOrderId(pub u64);

/// Exchange-assigned identifier for an accepted order.
#[derive(Debug, Clone, Copy, PartialEq, Eq, Structural, Hash, PartialOrd, Ord)]
pub struct ExchangeOrderId(pub u64);

/// Active-order lookup key within one instrument book.
#[derive(Debug, Clone, Copy, PartialEq, Eq, Structural, Hash)]
pub struct OrderKey {
    pub account_id: u32,
    pub client_order_id: ClientOrderId,
}

/// Number of bytes in the binary order packet.
pub const ORDER_PACKET_LEN: usize = 32;

/// Binary order packet. On the wire it is 32 bytes: client order id (8),
/// account (4), instrument (2), side (1), price (4), quantity (4),
/// timestamp (8) and one padding byte, all little-endian.
#[derive(Debug, Clone, Copy, PartialEq, Eq, Structural, Default)]
pub struct OrderPacket {
    pub client_order_id: u64,
    pub account_id: u32,
    pub instrument_id: u16,
    pub side: u8,
    pub price: u32,
    pub quantity: u32,
    pub timestamp: u64,
    pub _pad: u8,
}

/// The packet a 32-byte wire image decodes to.
pub open spec fn spec_packet_from_bytes(b: Seq<u8>) -> OrderPacket {
    OrderPacket {
        client_order_id: spec_u64_from_le_bytes(b.subrange(0, 8)),
        account_id: spec_u32_from_le_bytes(b.subrange(8, 12)),
        instrument_id: spec_u16_from_le_bytes(b.subrange(12, 14)),
        side: b[14],
        price: spec_u32_from_le_bytes(b.subrange(15, 19)),
        quantity: spec_u32_from_le_bytes(b.subrange(19, 23)),
        timestamp: spec_u64_from_le_bytes(b.subrange(23, 31)),
        _pad: b[31],
    }
}

/// The 32-byte wire image of a packet.
pub open spec fn spec_packet_bytes(p: OrderPacket) -> Seq<u8> {
    spec_u64_to_le_bytes(p.client_order_id) + spec_u32_to_le_bytes(p.account_id)
        + spec_u16_to_le_bytes(p.instrument_id) + seq![p.side] + spec_u32_to_le_bytes(p.price)
        + spec_u32_to_le_bytes(p.quantity) + spec_u64_to_le_bytes(p.timestamp) + seq![p._pad]
}

impl OrderPacket {
    /// Decodes a packet from its 32-byte wire image.
    pub fn from_bytes(bytes: &[u8; 32]) -> (p: OrderPacket)
        ensures
            p == spec_packet_from_bytes(bytes@),
    {
        let s = array_as_slice(bytes);
        OrderPacket {
            client_order_id: get_u64(s, 0),
            account_id: get_u32(s, 8),
            instrument_id: get_u16(s, 12),
            side: s[14],
            price: get_u32(s, 15),
            quantity: get_u32(s, 19),
            timestamp: get_u64(s, 23),
            _pad: s[31],
        }
    }

    /// Encodes the packet into its 32-byte wire image.
    pub fn to_bytes(self) -> (out: Vec<u8>)
        ensures
            out@ == spec_packet_bytes(self),
            out@.len() == ORDER_PACKET_LEN,
    {
        proof {
            lemma_le_round_trips();
        }
        let mut out: Vec<u8> = Vec::with_capacity(32);
        put_u64(&mut out, self.client_order_id);
        put_u32(&mut out, self.account_id);
        put_u16(&mut out, self.instrument_id);
        out.push(self.side);
        put_u32(&mut out, self.price);
        put_u32(&mut out, self.quantity);
        put_u64(&mut out, self.timestamp);
        out.push(self._pad);
        out
    }

    pub fn client_order_id(&self) -> (r: ClientOrderId)
        ensures
            r.0 == self.client_order_id,
    {
        ClientOrderId(self.client_order_id)
    }
}

/// Decoding the wire image of a packet gives the packet back.
pub proof fn lemma_packet_round_trip(p: OrderPacket)
    ensures
        spec_packet_bytes(p).len() == ORDER_PACKET_LEN,
        spec_packet_from_bytes(spec_packet_bytes(p)) == p,
{
    lemma_le_round_trips();
    let b = spec_packet_bytes(p);
    assert(b.subrange(0, 8) =~= spec_u64_to_le_bytes(p.client_order_id));
    assert(b.subrange(8, 12) =~= spec_u32_to_le_bytes(p.account_id));
    assert(b.subrange(12, 14) =~= spec_u16_to_le_bytes(p.instrument_id));
    assert(b.subrange(15, 19) =~= spec_u32_to_le_bytes(p.price));
    assert(b.subrange(19, 23) =~= spec_u32_to_le_bytes(p.quantity));
    assert(b.subrange(23, 31) =~= spec_u64_to_le_bytes(p.timestamp));
}

} // verus!
