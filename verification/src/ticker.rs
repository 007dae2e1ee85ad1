//! Country metadata looked up by ticker symbol or sovereign id.
//!
//! The instrument registry is the authoritative market model; this module
//! answers symbol and id lookups over the same seed sovereign table.

use vstd::prelude::*;
use vstd::string::StringSliceAdditionalSpecFns;
use crate::instrument::{sovereigns, spec_sovereigns, SovereignDefinition, SOVEREIGN_COUNT};

verus! {

pub type CountryTicker = SovereignDefinition;

/// The ticker table: the seed sovereigns, in id order.
pub fn tickers() -> (r: Vec<CountryTicker>)
    ensures
        r@ == spec_sovereigns(),
{
    sovereigns()
}

/// ASCII lower case of one byte, as `u8::to_ascii_lowercase` computes it.
pub open spec fn ascii_lower(c: u8) -> u8 {
    if 65 <= c <= 90 { (c + 32) as u8 } else { c }
}

/// Byte strings equal when ASCII letters are compared without case.
pub open spec fn eq_ignore_case(a: Seq<u8>, b: Seq<u8>) -> bool {
    &&& a.len() == b.len()
    &&& forall|i: int| 0 <= i < a.len() ==> #[trigger] ascii_lower(a[i]) == ascii_lower(b[i])
}

/// Whether ticker `t` carries the symbol `b`, ignoring ASCII case.
pub open spec fn symbol_is(t: CountryTicker, b: Seq<u8>) -> bool {
    eq_ignore_case(t.symbol.spec_bytes(), b)
}

/// The id of the first ticker of `ts` whose symbol is `b`.
pub open spec fn spec_resolve(ts: Seq<CountryTicker>, b: Seq<u8>) -> Option<u16>
    decreases ts.len(),
{
    if ts.len() == 0 {
        None
    } else if symbol_is(ts[0], b) {
        Some(ts[0].id)
    } else {
        spec_resolve(ts.drop_first(), b)
    }
}

/// The first ticker of `ts` with id `id`.
pub open spec fn spec_find_id(ts: Seq<CountryTicker>, id: u16) -> Option<CountryTicker>
    decreases ts.len(),
{
    if ts.len() == 0 {
        None
    } else if ts[0].id == id {
        Some(ts[0])
    } else {
        spec_find_id(ts.drop_first(), id)
    }
}

proof fn lemma_resolve_skip(ts: Seq<CountryTicker>, b: Seq<u8>, i: int)
    requires
        0 <= i < ts.len(),
        !symbol_is(ts[i], b),
    ensures
        spec_resolve(ts.subrange(i, ts.len() as int), b) == spec_resolve(ts.subrange(i + 1, ts.len() as int), b),
{
    let s = ts.subrange(i, ts.len() as int);
    assert(s.drop_first() =~= ts.subrange(i + 1, ts.len() as int));
}

proof fn lemma_find_skip(ts: Seq<CountryTicker>, id: u16, i: int)
    requires
        0 <= i < ts.len(),
        ts[i].id != id,
    ensures
        spec_find_id(ts.subrange(i, ts.len() as int), id) == spec_find_id(ts.subrange(i + 1, ts.len() as int), id),
{
    let s = ts.subrange(i, ts.len() as int);
    assert(s.drop_first() =~= ts.subrange(i + 1, ts.len() as int));
}

/// Whether two byte strings are equal ignoring ASCII case.
fn bytes_eq_ignore_case(a: &[u8], b: &[u8]) -> (r: bool)
    ensures
        r == eq_ignore_case(a@, b@),
{
    if a.len() != b.len() {
        return false;
    }
    let mut i: usize = 0;
    while i < a.len()
        invariant
            a@.len() == b@.len(),
            i <= a@.len(),
            forall|j: int| 0 <= j < i ==> #[trigger] ascii_lower(a@[j]) == ascii_lower(b@[j]),
        decreases a@.len() - i,
    {
        let x = a[i];
        let y = b[i];
        let lx: u8 = if 65 <= x && x <= 90 { x + 32 } else { x };
        let ly: u8 = if 65 <= y && y <= 90 { y + 32 } else { y };
        if lx != ly {
            assert(ascii_lower(a@[i as int]) != ascii_lower(b@[i as int]));
            return false;
        }
        i = i + 1;
    }
    true
}

pub struct TickerRegistry;

impl TickerRegistry {
    /// The sovereign id whose symbol is `symbol`, ignoring ASCII case.
    pub fn resolve_symbol(symbol: &str) -> (r: Option<u16>)
        ensures
            r == spec_resolve(spec_sovereigns(), symbol.spec_bytes()),
    {
        let ts = tickers();
        let wanted = symbol.as_bytes();
        let mut i: usize = 0;
        assert(ts@.subrange(0, ts@.len() as int) =~= ts@);
        while i < ts.len()
            invariant
                ts@ == spec_sovereigns(),
                wanted@ == symbol.spec_bytes(),
                i <= ts@.len(),
                spec_resolve(ts@, wanted@) == spec_resolve(ts@.subrange(i as int, ts@.len() as int), wanted@),
            decreases ts@.len() - i,
        {
            let t = &ts[i];
            if bytes_eq_ignore_case(t.symbol.as_bytes(), wanted) {
                proof {
                    let s = ts@.subrange(i as int, ts@.len() as int);
                    assert(s[0] == ts@[i as int]);
                }
                return Some(t.id);
            }
            proof {
                lemma_resolve_skip(ts@, wanted@, i as int);
            }
            i = i + 1;
        }
        proof {
            assert(ts@.subrange(i as int, ts@.len() as int).len() == 0);
        }
        None
    }

    /// The ticker with sovereign id `id`.
    pub fn get(id: u16) -> (r: Option<CountryTicker>)
        ensures
            r == spec_find_id(spec_sovereigns(), id),
    {
        let ts = tickers();
        let mut i: usize = 0;
        assert(ts@.subrange(0, ts@.len() as int) =~= ts@);
        while i < ts.len()
            invariant
                ts@ == spec_sovereigns(),
                i <= ts@.len(),
                spec_find_id(ts@, id) == spec_find_id(ts@.subrange(i as int, ts@.len() as int), id),
            decreases ts@.len() - i,
        {
            if ts[i].id == id {
                proof {
                    let s = ts@.subrange(i as int, ts@.len() as int);
                    assert(s[0] == ts@[i as int]);
                }
                return Some(ts[i]);
            }
            proof {
                lemma_find_skip(ts@, id, i as int);
            }
            i = i + 1;
        }
        proof {
            assert(ts@.subrange(i as int, ts@.len() as int).len() == 0);
        }
        None
    }

    /// Number of tickers.
    pub fn count() -> (r: usize)
        ensures
            r == spec_sovereigns().len(),
            r == SOVEREIGN_COUNT,
    {
        tickers().len()
    }
}

/// Every seed sovereign is found by its own id.
pub proof fn lemma_get_by_own_id(i: int)
    requires
        0 <= i < SOVEREIGN_COUNT,
    ensures
        spec_find_id(spec_sovereigns(), i as u16) == Some(spec_sovereigns()[i]),
{
    let ts = spec_sovereigns();
    reveal_with_fuel(spec_find_id, 13);
}

} // verus!
