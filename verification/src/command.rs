//! Typed order commands and exchange events.

use vstd::prelude::*;
use crate::order::{ClientOrderId, ExchangeOrderId, OrderPacket};
use crate::sequence::SequenceNumber;

verus! {

#[derive(Debug, Clone, Copy, PartialEq, Eq, Structural)]
pub enum OrderCommand {
    New(NewOrder),
    Cancel(CancelOrder),
    Replace(ReplaceOrder),
}

#[derive(Debug, Clone, Copy, PartialEq, Eq, Structural)]
pub struct NewOrder {
    pub client_order_id: ClientOrderId,
    pub account_id: u32,
    pub instrument_id: u16,
    pub side: OrderSide,
    pub price: u32,
    pub quantity: u32,
    pub client_timestamp: u64,
}

#[derive(Debug, Clone, Copy, PartialEq, Eq, Structural)]
pub struct CancelOrder {
    pub account_id: u32,
    pub instrument_id: u16,
    pub client_order_id: ClientOrderId,
}

#[derive(Debug, Clone, Copy, PartialEq, Eq, Structural)]
pub struct ReplaceOrder {
    pub account_id: u32,
    pub instrument_id: u16,
    pub target_client_order_id: ClientOrderId,
    pub new_client_order_id: ClientOrderId,
    pub side: OrderSide,
    pub price: u32,
    pub quantity: u32,
    pub client_timestamp: u64,
}

#[derive(Debug, Clone, Copy, PartialEq, Eq, Structural)]
pub enum OrderSide {
    Buy,
    Sell,
}

/// Wire value of a side: 0 for buy, 1 for sell.
pub open spec fn spec_side_wire(side: OrderSide) -> u8 {
    match side {
        OrderSide::Buy => 0,
        OrderSide::Sell => 1,
    }
}

/// Side of a wire value, if it names one.
pub open spec fn spec_side_from_wire(value: u8) -> Option<OrderSide> {
    if value == 0 {
        Some(OrderSide::Buy)
    } else if value == 1 {
        Some(OrderSide::Sell)
    } else {
        None
    }
}

impl OrderSide {
    pub fn wire_value(self) -> (r: u8)
        ensures
            r == spec_side_wire(self),
    {
        match self {
            OrderSide::Buy => 0,
            OrderSide::Sell => 1,
        }
    }

    pub fn from_wire(value: u8) -> (r: Option<OrderSide>)
        ensures
            r == spec_side_from_wire(value),
    {
        match value {
            0 => Some(OrderSide::Buy),
            1 => Some(OrderSide::Sell),
            _ => None,
        }
    }
}

/// Decoding a side's wire value gives the side back.
pub proof fn lemma_side_wire_round_trip(side: OrderSide)
    ensures
        spec_side_from_wire(spec_side_wire(side)) == Some(side),
{
}

#[derive(Debug, Clone, Copy, PartialEq, Eq, Structural)]
pub enum CommandRejectReason {
    InvalidInstrument,
    InvalidSide,
    DuplicateClientOrderId,
    UnknownOrder,
    ExchangeOrderIdExhausted,
    SequenceNumberExhausted,
    OrderPoolExhausted,
}

#[derive(Debug, Clone, Copy, PartialEq, Eq, Structural)]
pub enum ExchangeEvent {
    /// Carries the immutable order attributes needed to rebuild resting
    /// state without re-running the matcher.
    OrderAccepted {
        instrument_id: u16,
        account_id: u32,
        client_order_id: ClientOrderId,
        exchange_order_id: ExchangeOrderId,
        sequence_number: SequenceNumber,
        side: OrderSide,
        price: u32,
        quantity: u32,
        client_timestamp: u64,
    },
    OrderRejected {
        account_id: u32,
        client_order_id: ClientOrderId,
        sequence_number: Option<SequenceNumber>,
        reason: CommandRejectReason,
    },
    OrderCancelled {
        instrument_id: u16,
        account_id: u32,
        client_order_id: ClientOrderId,
        sequence_number: SequenceNumber,
    },
    OrderReplaced {
        instrument_id: u16,
        account_id: u32,
        old_client_order_id: ClientOrderId,
        new_client_order_id: ClientOrderId,
        exchange_order_id: ExchangeOrderId,
        sequence_number: SequenceNumber,
    },
    Trade {
        buyer: u32,
        seller: u32,
        instrument_id: u16,
        buyer_exchange_order_id: ExchangeOrderId,
        seller_exchange_order_id: ExchangeOrderId,
        buyer_client_order_id: ClientOrderId,
        seller_client_order_id: ClientOrderId,
        buyer_sequence_number: SequenceNumber,
        seller_sequence_number: SequenceNumber,
        price: u32,
        qty: u32,
        timestamp: u64,
    },
}

/// The command a packet stands for: side 0 and 1 are new buy and sell
/// orders, side 2 cancels the client order id, anything else is invalid.
pub open spec fn spec_command_from_packet(p: OrderPacket) -> Result<OrderCommand, CommandRejectReason> {
    if p.side == 0 || p.side == 1 {
        Ok(OrderCommand::New(NewOrder {
            client_order_id: ClientOrderId(p.client_order_id),
            account_id: p.account_id,
            instrument_id: p.instrument_id,
            side: if p.side == 0 { OrderSide::Buy } else { OrderSide::Sell },
            price: p.price,
            quantity: p.quantity,
            client_timestamp: p.timestamp,
        }))
    } else if p.side == 2 {
        Ok(OrderCommand::Cancel(CancelOrder {
            account_id: p.account_id,
            instrument_id: p.instrument_id,
            client_order_id: ClientOrderId(p.client_order_id),
        }))
    } else {
        Err(CommandRejectReason::InvalidSide)
    }
}

impl OrderCommand {
    pub fn from_packet(packet: &OrderPacket) -> (r: Result<OrderCommand, CommandRejectReason>)
        ensures
            r == spec_command_from_packet(*packet),
    {
        match packet.side {
            0 => Ok(OrderCommand::New(NewOrder {
                client_order_id: packet.client_order_id(),
                account_id: packet.account_id,
                instrument_id: packet.instrument_id,
                side: OrderSide::Buy,
                price: packet.price,
                quantity: packet.quantity,
                client_timestamp: packet.timestamp,
            })),
            1 => Ok(OrderCommand::New(NewOrder {
                client_order_id: packet.client_order_id(),
                account_id: packet.account_id,
                instrument_id: packet.instrument_id,
                side: OrderSide::Sell,
                price: packet.price,
                quantity: packet.quantity,
                client_timestamp: packet.timestamp,
            })),
            2 => Ok(OrderCommand::Cancel(CancelOrder {
                account_id: packet.account_id,
                instrument_id: packet.instrument_id,
                client_order_id: packet.client_order_id(),
            })),
            _ => Err(CommandRejectReason::InvalidSide),
        }
    }
}

} // verus!
