//! Synthetic trading bots that drive the engine through the admission path.
//!
//! A swarm is split by bot id into market makers (first half), momentum
//! takers (next quarter), sovereign arbitrageurs (next 15%) and noise
//! traders (last 10%). Each bot quotes around a fair price with a rule of its
//! own and numbers its orders with client ids unique per account.

use vstd::prelude::*;
use crate::instrument::{spec_spot_id, spot_instrument_id, SOVEREIGN_COUNT};
use crate::order::OrderPacket;

verus! {

#[derive(Debug, Clone, Copy, PartialEq, Eq, Structural)]
pub enum BotArchetype {
    MarketMaker,
    MomentumTaker,
    SovereignArbitrage,
    NoiseTrader,
}

pub struct TradingBot {
    pub bot_id: u32,
    pub account_id: u32,
    pub archetype: BotArchetype,
    pub preferred_ticker: u16,
    pub inventory: i64,
    pub orders_sent: u64,
}

/// Base of the synthetic timestamps.
pub const BOT_EPOCH_NANOS: u64 = 1_700_000_000_000_000_000;

/// Accounts of bots start here.
pub const BOT_ACCOUNT_BASE: u32 = 1_000;

/// `percent`% of `total`, rounded down and saturated to `u32`.
pub open spec fn share(total: usize, percent: int) -> u32 {
    let v = total as int * percent / 100;
    if v > u32::MAX { u32::MAX } else { v as u32 }
}

/// The archetype of bot `bot_id` in a swarm of `total` bots.
pub open spec fn spec_archetype(bot_id: u32, total: usize) -> BotArchetype {
    if bot_id < share(total, 50) {
        BotArchetype::MarketMaker
    } else if bot_id < share(total, 75) {
        BotArchetype::MomentumTaker
    } else if bot_id < share(total, 90) {
        BotArchetype::SovereignArbitrage
    } else {
        BotArchetype::NoiseTrader
    }
}

/// Side (0 buy, 1 sell), price and quantity of the order a bot of archetype
/// `a` sends at step `seq_id` around `fair`.
pub open spec fn spec_quote(a: BotArchetype, bot_id: u32, seq_id: u64, fair: u32) -> (u8, int, u32) {
    match a {
        BotArchetype::MarketMaker => {
            let buy = seq_id % 2 == 0;
            let spread = 5 + (seq_id * 3) % 15;
            (if buy { 0u8 } else { 1u8 }, if buy { if fair >= spread { fair - spread } else { 0 } } else { fair + spread }, 100u32)
        },
        BotArchetype::MomentumTaker => {
            let buy = (seq_id + bot_id) % 3 != 0;
            let off = 2 + seq_id % 5;
            (if buy { 0u8 } else { 1u8 }, if buy { fair + off } else { if fair >= off { fair - off } else { 0 } }, 50u32)
        },
        BotArchetype::SovereignArbitrage => {
            let buy = bot_id % 2 == 0;
            (if buy { 0u8 } else { 1u8 }, if buy { fair - 2 } else { fair + 2 }, 75u32)
        },
        BotArchetype::NoiseTrader => {
            let buy = seq_id % 2 == 1;
            let off = (seq_id * 7) % 25;
            (if buy { 0u8 } else { 1u8 }, if buy { if fair >= off { fair - off } else { 0 } } else { fair + off },
                (10 + (seq_id * 13) % 40) as u32)
        },
    }
}

/// The inputs on which a bot can quote: no counter or price leaves its
/// integer type.
pub open spec fn quote_fits(b: TradingBot, seq_id: u64, fair: u32) -> bool {
    &&& b.orders_sent < u64::MAX
    &&& b.account_id as int * 1_000_000 + b.orders_sent + 1 <= u64::MAX
    &&& BOT_EPOCH_NANOS + seq_id <= u64::MAX
    &&& match b.archetype {
        BotArchetype::MarketMaker => seq_id * 3 <= u64::MAX && fair + 19 <= u32::MAX,
        BotArchetype::MomentumTaker => seq_id + b.bot_id <= u64::MAX && fair + 6 <= u32::MAX,
        BotArchetype::SovereignArbitrage => 2 <= fair && fair + 2 <= u32::MAX,
        BotArchetype::NoiseTrader => seq_id * 13 <= u64::MAX && fair + 24 <= u32::MAX,
    }
}

/// The packet a bot sends as its `n`-th order.
pub open spec fn spec_bot_packet(b: TradingBot, n: u64, seq_id: u64, fair: u32) -> OrderPacket {
    let q = spec_quote(b.archetype, b.bot_id, seq_id, fair);
    OrderPacket {
        client_order_id: (b.account_id as int * 1_000_000 + n) as u64,
        account_id: b.account_id,
        instrument_id: spec_spot_id(b.preferred_ticker),
        side: q.0,
        price: q.1 as u32,
        quantity: q.2,
        timestamp: (BOT_EPOCH_NANOS + seq_id) as u64,
        _pad: 0,
    }
}

fn share_of(total: usize, percent: u128) -> (r: u32)
    requires
        percent <= 100,
    ensures
        r == share(total, percent as int),
{
    let t: u128 = total as u128;
    assert(t * percent <= 0xffff_ffff_ffff_ffff * 100) by (nonlinear_arith)
        requires
            t <= 0xffff_ffff_ffff_ffff,
            percent <= 100,
    ;
    let v: u128 = t * percent / 100;
    if v > u32::MAX as u128 {
        u32::MAX
    } else {
        v as u32
    }
}

impl TradingBot {
    /// Bot `bot_id` of a swarm of `total_bots`, trading the sovereign
    /// `bot_id mod 12`.
    pub fn new(bot_id: u32, total_bots: usize) -> (r: TradingBot)
        requires
            bot_id + BOT_ACCOUNT_BASE <= u32::MAX,
        ensures
            r.bot_id == bot_id,
            r.account_id == BOT_ACCOUNT_BASE + bot_id,
            r.archetype == spec_archetype(bot_id, total_bots),
            r.preferred_ticker == bot_id % (SOVEREIGN_COUNT as u32),
            r.inventory == 0,
            r.orders_sent == 0,
    {
        let archetype = if bot_id < share_of(total_bots, 50) {
            BotArchetype::MarketMaker
        } else if bot_id < share_of(total_bots, 75) {
            BotArchetype::MomentumTaker
        } else if bot_id < share_of(total_bots, 90) {
            BotArchetype::SovereignArbitrage
        } else {
            BotArchetype::NoiseTrader
        };
        let preferred_ticker = (bot_id % (SOVEREIGN_COUNT as u32)) as u16;
        TradingBot {
            bot_id,
            account_id: BOT_ACCOUNT_BASE + bot_id,
            archetype,
            preferred_ticker,
            inventory: 0,
            orders_sent: 0,
        }
    }

    /// The next order of this bot at step `seq_id` around `fair_price`.
    pub fn generate_order(&mut self, seq_id: u64, fair_price: u32) -> (p: OrderPacket)
        requires
            quote_fits(*old(self), seq_id, fair_price),
        ensures
            final(self).orders_sent == old(self).orders_sent + 1,
            final(self).bot_id == old(self).bot_id,
            final(self).account_id == old(self).account_id,
            final(self).archetype == old(self).archetype,
            final(self).preferred_ticker == old(self).preferred_ticker,
            final(self).inventory == old(self).inventory,
            p == spec_bot_packet(*old(self), final(self).orders_sent, seq_id, fair_price),
    {
        self.orders_sent = self.orders_sent + 1;
        let (side, price, quantity): (u8, u32, u32) = match self.archetype {
            BotArchetype::MarketMaker => {
                let is_buy = (seq_id % 2) == 0;
                let spread = 5 + ((seq_id * 3) % 15) as u32;
                let prc = if is_buy { fair_price.saturating_sub(spread) } else { fair_price + spread };
                (if is_buy { 0 } else { 1 }, prc, 100)
            },
            BotArchetype::MomentumTaker => {
                let is_buy = ((seq_id + self.bot_id as u64) % 3) != 0;
                let aggressive_offset = 2 + (seq_id % 5) as u32;
                let prc = if is_buy {
                    fair_price + aggressive_offset
                } else {
                    fair_price.saturating_sub(aggressive_offset)
                };
                (if is_buy { 0 } else { 1 }, prc, 50)
            },
            BotArchetype::SovereignArbitrage => {
                let is_buy = (self.bot_id % 2) == 0;
                let prc = if is_buy { fair_price - 2 } else { fair_price + 2 };
                (if is_buy { 0 } else { 1 }, prc, 75)
            },
            BotArchetype::NoiseTrader => {
                let is_buy = (seq_id % 2) == 1;
                let noise_offset = ((seq_id * 7) % 25) as u32;
                let prc = if is_buy { fair_price.saturating_sub(noise_offset) } else { fair_price + noise_offset };
                let qty = 10 + ((seq_id * 13) % 40) as u32;
                (if is_buy { 0 } else { 1 }, prc, qty)
            },
        };
        OrderPacket {
            client_order_id: (self.account_id as u64) * 1_000_000 + self.orders_sent,
            account_id: self.account_id,
            instrument_id: spot_instrument_id(self.preferred_ticker),
            side,
            price,
            quantity,
            timestamp: BOT_EPOCH_NANOS + seq_id,
            _pad: 0,
        }
    }
}

/// Market makers quote both sides around the fair price: a buy never above
/// it and a sell never below it, at a spread of 5 to 19.
pub proof fn lemma_market_maker_brackets_fair(bot_id: u32, seq_id: u64, fair: u32)
    requires
        seq_id * 3 <= u64::MAX,
        fair + 19 <= u32::MAX,
    ensures
        ({
            let q = spec_quote(BotArchetype::MarketMaker, bot_id, seq_id, fair);
            &&& q.0 == 0 ==> q.1 <= fair && (fair >= 19 ==> fair - 19 <= q.1 <= fair - 5)
            &&& q.0 == 1 ==> fair + 5 <= q.1 <= fair + 19
            &&& q.2 == 100
        }),
{
}

} // verus!
