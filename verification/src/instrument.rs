//! Instrument definitions and the fixed-capacity instrument registry.
//!
//! The exchange supports up to 196 sovereigns with one spot and one futures
//! instrument per sovereign, for at most 392 instruments.

use vstd::prelude::*;
use crate::constants::{MAX_INSTRUMENTS, MAX_SOVEREIGNS};

verus! {

/// Market type of a sovereign instrument.
#[derive(Debug, Clone, Copy, PartialEq, Eq, Structural)]
pub enum MarketType {
    Spot,
    Future,
}

/// Lifecycle state of an instrument.
#[derive(Debug, Clone, Copy, PartialEq, Eq, Structural)]
pub enum InstrumentStatus {
    PreOpen,
    Open,
    Halted,
    Closed,
    Expired,
    Settled,
}

/// Static metadata needed to identify and validate an instrument.
#[derive(Debug, Clone, Copy)]
pub struct Instrument {
    pub id: u16,
    pub sovereign_id: u16,
    pub market_type: MarketType,
    pub symbol: &'static str,
    pub currency: &'static str,
    pub tick_size: u32,
    pub base_price: u32,
    pub status: InstrumentStatus,
}

impl Instrument {
    pub fn spot(
        id: u16,
        sovereign_id: u16,
        symbol: &'static str,
        currency: &'static str,
        tick_size: u32,
        base_price: u32,
    ) -> (r: Instrument)
        ensures
            r == (Instrument { id, sovereign_id, market_type: MarketType::Spot, symbol, currency, tick_size, base_price, status: InstrumentStatus::PreOpen }),
    {
        Instrument { id, sovereign_id, market_type: MarketType::Spot, symbol, currency, tick_size, base_price, status: InstrumentStatus::PreOpen }
    }

    pub fn future(
        id: u16,
        sovereign_id: u16,
        symbol: &'static str,
        currency: &'static str,
        tick_size: u32,
        base_price: u32,
    ) -> (r: Instrument)
        ensures
            r == (Instrument { id, sovereign_id, market_type: MarketType::Future, symbol, currency, tick_size, base_price, status: InstrumentStatus::PreOpen }),
    {
        Instrument { id, sovereign_id, market_type: MarketType::Future, symbol, currency, tick_size, base_price, status: InstrumentStatus::PreOpen }
    }
}

/// Spot instrument of sovereign `n` is `2n`, saturating.
pub open spec fn spec_spot_id(sovereign_id: u16) -> u16 {
    if sovereign_id as int * 2 > u16::MAX { u16::MAX } else { (sovereign_id * 2) as u16 }
}

/// Future instrument of sovereign `n` is `2n + 1`, saturating.
pub open spec fn spec_future_id(sovereign_id: u16) -> u16 {
    if spec_spot_id(sovereign_id) == u16::MAX { u16::MAX } else { (spec_spot_id(sovereign_id) + 1) as u16 }
}

pub fn spot_instrument_id(sovereign_id: u16) -> (r: u16)
    ensures
        r == spec_spot_id(sovereign_id),
{
    if sovereign_id > 32767 {
        u16::MAX
    } else {
        sovereign_id * 2
    }
}

pub fn future_instrument_id(sovereign_id: u16) -> (r: u16)
    ensures
        r == spec_future_id(sovereign_id),
{
    spot_instrument_id(sovereign_id).saturating_add(1)
}

/// Existing country metadata adapted into a sovereign-level definition.
#[derive(Debug, Clone, Copy)]
pub struct SovereignDefinition {
    pub id: u16,
    pub symbol: &'static str,
    pub country_name: &'static str,
    pub currency: &'static str,
    pub tick_size: u32,
    pub base_price: u32,
    pub total_shares: u64,
}

/// Number of sovereigns in the seed universe.
pub const SOVEREIGN_COUNT: usize = 12;

/// The seed sovereign universe as a sequence.
pub open spec fn spec_sovereigns() -> Seq<SovereignDefinition> {
    seq![
        SovereignDefinition { id: 0, symbol: "USA", country_name: "United States", currency: "USD", tick_size: 1, base_price: 34500, total_shares: 10_000_000_000 },
        SovereignDefinition { id: 1, symbol: "GER", country_name: "Germany", currency: "EUR", tick_size: 1, base_price: 18200, total_shares: 4_500_000_000 },
        SovereignDefinition { id: 2, symbol: "JPN", country_name: "Japan", currency: "JPY", tick_size: 1, base_price: 22400, total_shares: 5_200_000_000 },
        SovereignDefinition { id: 3, symbol: "GBR", country_name: "United Kingdom", currency: "GBP", tick_size: 1, base_price: 16800, total_shares: 3_800_000_000 },
        SovereignDefinition { id: 4, symbol: "FRA", country_name: "France", currency: "EUR", tick_size: 1, base_price: 15900, total_shares: 3_600_000_000 },
        SovereignDefinition { id: 5, symbol: "CAN", country_name: "Canada", currency: "CAD", tick_size: 1, base_price: 14200, total_shares: 2_900_000_000 },
        SovereignDefinition { id: 6, symbol: "AUS", country_name: "Australia", currency: "AUD", tick_size: 1, base_price: 13500, total_shares: 2_700_000_000 },
        SovereignDefinition { id: 7, symbol: "CHE", country_name: "Switzerland", currency: "CHF", tick_size: 1, base_price: 28900, total_shares: 1_900_000_000 },
        SovereignDefinition { id: 8, symbol: "IND", country_name: "India", currency: "INR", tick_size: 1, base_price: 11200, total_shares: 8_400_000_000 },
        SovereignDefinition { id: 9, symbol: "BRA", country_name: "Brazil", currency: "BRL", tick_size: 1, base_price: 9800, total_shares: 3_100_000_000 },
        SovereignDefinition { id: 10, symbol: "SGP", country_name: "Singapore", currency: "SGD", tick_size: 1, base_price: 21500, total_shares: 1_200_000_000 },
        SovereignDefinition { id: 11, symbol: "KOR", country_name: "South Korea", currency: "KRW", tick_size: 1, base_price: 14700, total_shares: 2_500_000_000 },
    ]
}

/// The seed sovereign universe, ids 0 to 11. Registry capacity is 196
/// sovereigns; adding metadata needs no change to the engine.
pub fn sovereigns() -> (r: Vec<SovereignDefinition>)
    ensures
        r@.len() == SOVEREIGN_COUNT,
        forall|i: int| 0 <= i < r@.len() ==> (#[trigger] r@[i]).id == i,
        r@ == spec_sovereigns(),
{
    let v = vec![
        SovereignDefinition { id: 0, symbol: "USA", country_name: "United States", currency: "USD", tick_size: 1, base_price: 34500, total_shares: 10_000_000_000 },
        SovereignDefinition { id: 1, symbol: "GER", country_name: "Germany", currency: "EUR", tick_size: 1, base_price: 18200, total_shares: 4_500_000_000 },
        SovereignDefinition { id: 2, symbol: "JPN", country_name: "Japan", currency: "JPY", tick_size: 1, base_price: 22400, total_shares: 5_200_000_000 },
        SovereignDefinition { id: 3, symbol: "GBR", country_name: "United Kingdom", currency: "GBP", tick_size: 1, base_price: 16800, total_shares: 3_800_000_000 },
        SovereignDefinition { id: 4, symbol: "FRA", country_name: "France", currency: "EUR", tick_size: 1, base_price: 15900, total_shares: 3_600_000_000 },
        SovereignDefinition { id: 5, symbol: "CAN", country_name: "Canada", currency: "CAD", tick_size: 1, base_price: 14200, total_shares: 2_900_000_000 },
        SovereignDefinition { id: 6, symbol: "AUS", country_name: "Australia", currency: "AUD", tick_size: 1, base_price: 13500, total_shares: 2_700_000_000 },
        SovereignDefinition { id: 7, symbol: "CHE", country_name: "Switzerland", currency: "CHF", tick_size: 1, base_price: 28900, total_shares: 1_900_000_000 },
        SovereignDefinition { id: 8, symbol: "IND", country_name: "India", currency: "INR", tick_size: 1, base_price: 11200, total_shares: 8_400_000_000 },
        SovereignDefinition { id: 9, symbol: "BRA", country_name: "Brazil", currency: "BRL", tick_size: 1, base_price: 9800, total_shares: 3_100_000_000 },
        SovereignDefinition { id: 10, symbol: "SGP", country_name: "Singapore", currency: "SGD", tick_size: 1, base_price: 21500, total_shares: 1_200_000_000 },
        SovereignDefinition { id: 11, symbol: "KOR", country_name: "South Korea", currency: "KRW", tick_size: 1, base_price: 14700, total_shares: 2_500_000_000 },
    ];
    assert(v@ =~= spec_sovereigns());
    v
}

/// Number of registered slots in `s`.
pub open spec fn count_some(s: Seq<Option<Instrument>>) -> nat
    decreases s.len(),
{
    if s.len() == 0 {
        0
    } else {
        count_some(s.drop_last()) + if s.last() is Some { 1nat } else { 0nat }
    }
}

/// Some sovereign among the first `n` owns instrument `id`.
pub open spec fn registered_by(s: Seq<SovereignDefinition>, n: int, id: u16) -> bool {
    exists|k: int| 0 <= k < n && (id == spec_spot_id(#[trigger] s[k].id) || id == spec_future_id(s[k].id))
}

/// Both instruments of `s` are registered with their market types.
pub open spec fn pair_registered(r: InstrumentRegistry, s: SovereignDefinition) -> bool {
    &&& r.lookup(spec_spot_id(s.id)) is Some
    &&& r.lookup(spec_spot_id(s.id))->0.market_type == MarketType::Spot
    &&& r.lookup(spec_future_id(s.id)) is Some
    &&& r.lookup(spec_future_id(s.id))->0.market_type == MarketType::Future
}

/// Fixed-capacity registry. Empty slots are valid: capacity covers the
/// full 392-instrument universe without all metadata compiled in.
pub struct InstrumentRegistry {
    pub instruments: Vec<Option<Instrument>>,
}

impl InstrumentRegistry {
    pub open spec fn wf(&self) -> bool {
        self.instruments@.len() == MAX_INSTRUMENTS
    }

    /// The instrument registered under `id`.
    pub open spec fn lookup(&self, id: u16) -> Option<Instrument> {
        if id < self.instruments@.len() { self.instruments@[id as int] } else { None }
    }

    pub fn new() -> (r: InstrumentRegistry)
        ensures
            r.wf(),
            forall|i: int| 0 <= i < MAX_INSTRUMENTS ==> (#[trigger] r.instruments@[i]) is None,
    {
        let mut v: Vec<Option<Instrument>> = Vec::with_capacity(MAX_INSTRUMENTS);
        let mut i: usize = 0;
        while i < MAX_INSTRUMENTS
            invariant
                i <= MAX_INSTRUMENTS,
                v@.len() == i,
                forall|k: int| 0 <= k < i ==> (#[trigger] v@[k]) is None,
            decreases MAX_INSTRUMENTS - i,
        {
            v.push(None);
            i = i + 1;
        }
        InstrumentRegistry { instruments: v }
    }

    /// Registers the spot and future instrument of every sovereign given.
    pub fn from_sovereigns(sovereigns: &[SovereignDefinition]) -> (r: InstrumentRegistry)
        requires
            sovereigns@.len() <= MAX_SOVEREIGNS,
            forall|i: int| 0 <= i < sovereigns@.len() ==> (#[trigger] sovereigns@[i]).id < MAX_SOVEREIGNS,
        ensures
            r.wf(),
            forall|id: u16| #[trigger] r.lookup(id) is Some <==> registered_by(sovereigns@, sovereigns@.len() as int, id),
            forall|i: int| 0 <= i < sovereigns@.len() ==> pair_registered(r, #[trigger] sovereigns@[i]),
    {
        let mut registry = InstrumentRegistry::new();
        let n = sovereigns.len();
        let mut i: usize = 0;
        while i < n
            invariant
                n == sovereigns@.len(),
                n <= MAX_SOVEREIGNS,
                i <= n,
                registry.wf(),
                forall|k: int| 0 <= k < n ==> (#[trigger] sovereigns@[k]).id < MAX_SOVEREIGNS,
                forall|id: u16| #[trigger] registry.lookup(id) is Some <==> registered_by(sovereigns@, i as int, id),
                forall|k: int| 0 <= k < i ==> pair_registered(registry, #[trigger] sovereigns@[k]),
            decreases n - i,
        {
            let ghost before = registry;
            registry.register_pair(sovereigns[i]);
            proof {
                let s = sovereigns@[i as int];
                assert forall|id: u16| #[trigger] registry.lookup(id) is Some <==> registered_by(sovereigns@, i + 1, id) by {
                    if id == spec_spot_id(s.id) || id == spec_future_id(s.id) {
                        assert(sovereigns@[i as int] == s);
                    } else {
                        assert(registry.lookup(id) == before.lookup(id));
                        if registered_by(sovereigns@, i + 1, id) {
                            let k = choose|k: int| 0 <= k < i + 1 && (id == spec_spot_id(#[trigger] sovereigns@[k].id) || id == spec_future_id(sovereigns@[k].id));
                            assert(k != i);
                        }
                    }
                }
                assert forall|k: int| 0 <= k < i + 1 implies pair_registered(registry, #[trigger] sovereigns@[k]) by {
                    let t = sovereigns@[k];
                    if k < i {
                        assert(pair_registered(before, t));
                        if t.id != s.id {
                            assert(registry.lookup(spec_spot_id(t.id)) == before.lookup(spec_spot_id(t.id)));
                            assert(registry.lookup(spec_future_id(t.id)) == before.lookup(spec_future_id(t.id)));
                        }
                    }
                }
            }
            i = i + 1;
        }
        registry
    }

    /// Registers the spot and the future instrument of a sovereign.
    pub fn register_pair(&mut self, sovereign: SovereignDefinition)
        requires
            old(self).wf(),
            sovereign.id < MAX_SOVEREIGNS,
        ensures
            final(self).wf(),
            final(self).lookup(spec_spot_id(sovereign.id)) == Some(Instrument {
                id: spec_spot_id(sovereign.id),
                sovereign_id: sovereign.id,
                market_type: MarketType::Spot,
                symbol: sovereign.symbol,
                currency: sovereign.currency,
                tick_size: sovereign.tick_size,
                base_price: sovereign.base_price,
                status: InstrumentStatus::PreOpen,
            }),
            final(self).lookup(spec_future_id(sovereign.id)) == Some(Instrument {
                id: spec_future_id(sovereign.id),
                sovereign_id: sovereign.id,
                market_type: MarketType::Future,
                symbol: sovereign.symbol,
                currency: sovereign.currency,
                tick_size: sovereign.tick_size,
                base_price: sovereign.base_price,
                status: InstrumentStatus::PreOpen,
            }),
            forall|id: u16| id != spec_spot_id(sovereign.id) && id != spec_future_id(sovereign.id)
                ==> #[trigger] final(self).lookup(id) == old(self).lookup(id),
    {
        let spot_id = spot_instrument_id(sovereign.id);
        let future_id = future_instrument_id(sovereign.id);
        self.register(Instrument::spot(spot_id, sovereign.id, sovereign.symbol, sovereign.currency, sovereign.tick_size, sovereign.base_price));
        self.register(Instrument::future(future_id, sovereign.id, sovereign.symbol, sovereign.currency, sovereign.tick_size, sovereign.base_price));
    }

    /// Stores an instrument under its id, replacing any earlier one.
    pub fn register(&mut self, instrument: Instrument)
        requires
            old(self).wf(),
            instrument.id < MAX_INSTRUMENTS,
        ensures
            final(self).wf(),
            final(self).instruments@ == old(self).instruments@.update(instrument.id as int, Some(instrument)),
    {
        self.instruments.set(instrument.id as usize, Some(instrument));
    }

    pub fn get(&self, id: u16) -> (r: Option<&Instrument>)
        ensures
            match r {
                Some(i) => self.lookup(id) == Some(*i),
                None => self.lookup(id) is None,
            },
    {
        if (id as usize) < self.instruments.len() {
            match &self.instruments[id as usize] {
                Some(i) => Some(i),
                None => None,
            }
        } else {
            None
        }
    }

    pub fn contains(&self, id: u16) -> (r: bool)
        ensures
            r == self.lookup(id) is Some,
    {
        match self.get(id) {
            Some(_) => true,
            None => false,
        }
    }

    /// Number of registered instruments.
    pub fn len(&self) -> (r: usize)
        ensures
            r == count_some(self.instruments@),
    {
        let n = self.instruments.len();
        let mut count: usize = 0;
        let mut i: usize = 0;
        while i < n
            invariant
                n == self.instruments@.len(),
                i <= n,
                count == count_some(self.instruments@.take(i as int)),
                count <= i,
            decreases n - i,
        {
            proof {
                assert(self.instruments@.take(i as int + 1).drop_last() =~= self.instruments@.take(i as int));
            }
            if self.instruments[i].is_some() {
                count = count + 1;
            }
            i = i + 1;
        }
        proof {
            assert(self.instruments@.take(n as int) =~= self.instruments@);
        }
        count
    }

    pub fn capacity(&self) -> (r: usize)
        ensures
            r == MAX_INSTRUMENTS,
    {
        MAX_INSTRUMENTS
    }
}

impl Default for InstrumentRegistry {
    fn default() -> (r: InstrumentRegistry)
        ensures
            r.wf(),
            forall|i: int| 0 <= i < MAX_INSTRUMENTS ==> (#[trigger] r.instruments@[i]) is None,
    {
        InstrumentRegistry::new()
    }
}

} // verus!
