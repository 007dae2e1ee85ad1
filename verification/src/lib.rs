//! Deterministic exchange core: instrument books, price-time matching,
//! sequencing, risk, settlement, consensus and wire protocols.

pub mod constants;
pub mod sequence;
pub mod codec;
pub mod order;
pub mod command;
pub mod pool;
pub mod book;
pub mod instrument;
pub mod engine;
pub mod matching;
pub mod execution;
pub mod lifecycle;
pub mod session;
pub mod quorum;
pub mod risk;
pub mod ledger;
pub mod protocol;
pub mod consensus;

pub use pool::{CommandKind, Order, OrderPool, PoolError};
pub use order::{ClientOrderId, ExchangeOrderId, OrderKey, OrderPacket};
pub use command::{CancelOrder, CommandRejectReason, ExchangeEvent, NewOrder, OrderCommand, OrderSide, ReplaceOrder};
pub use book::{OrderBook, PriceLevel};
pub use engine::{AcceptedOrder, IngressError, MatchingEngine, OrderAcceptError, Trade};
pub use instrument::{
    future_instrument_id, spot_instrument_id, sovereigns, Instrument, InstrumentRegistry, InstrumentStatus, MarketType,
    SovereignDefinition,
};
pub use sequence::SequenceNumber;
pub mod market_data;
pub mod command_journal;
pub mod journal;
pub mod snapshot;
pub mod replication;
pub mod fingerprint;
pub mod certification;
pub mod metrics;
pub mod ticker;
pub mod bot;
pub mod durable;
pub mod shape;
pub mod determinism;
pub mod uncrossed;
pub mod room;
pub mod channel;
pub mod ring;
pub use ring::{OrderQueue, RingBuffer};
pub use consensus::{AppendResponse, LogIndex, NodeId, RaftAction, RaftNode, Role, VoteResponse};
