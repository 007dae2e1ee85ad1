//! Tunable parameters of the exchange core.

use vstd::prelude::*;

verus! {

/// Number of preallocated order-pool slots.
pub const MAX_ORDERS: usize = 5_000_000;

pub const MAX_PRICE_LEVELS: usize = 100_000;

/// Capacity of the bounded ingress queue.
pub const RING_BUFFER_SIZE: usize = 1_048_576;

pub const MAX_TRADES_PER_MATCH: usize = 64;

/// Initial capacity of the per-command trade buffer.
pub const INITIAL_TRADE_CAPACITY: usize = 64;

/// Maximum number of sovereigns.
pub const MAX_SOVEREIGNS: usize = 196;

/// One spot and one future instrument per sovereign.
pub const MAX_INSTRUMENTS: usize = 392;

pub const UDP_PORT: u16 = 8888;

pub const HTTP_PORT: u16 = 8080;

pub const WAL_BUFFER_SIZE: usize = 1_048_576;

pub const FIRESTORE_SYNC_MS: u64 = 500;

pub const SNAPSHOT_INTERVAL_SECS: u64 = 60;

pub const GITHUB_CHUNK_SIZE: u64 = 1_000_000_000;

pub const CPU_CORE_MATCHING: usize = 0;

pub const CPU_CORE_SCAVENGER: usize = 1;

/// Pool index 0 is reserved as the end-of-list sentinel.
pub const NULL_ORDER: u32 = 0;

/// Marks the end of the pool's free list.
pub const FREE_LIST_END: u32 = 0xffff_ffff;

} // verus!
