//! Canonical exchange sequence numbers.

use vstd::prelude::*;

verus! {

/// Canonical exchange sequence assigned to every accepted command.
///
/// Sequence numbers are the exchange's ordering authority. Client timestamps
/// are metadata only and never determine matching priority.
#[derive(Debug, Clone, Copy, PartialEq, Eq, Structural, PartialOrd, Ord, Hash)]
pub struct SequenceNumber(pub u64);

impl SequenceNumber {
    /// The first sequence number the exchange hands out.
    pub fn first() -> (r: SequenceNumber)
        ensures
            r.0 == 1,
    {
        SequenceNumber(1)
    }

    pub fn get(self) -> (r: u64)
        ensures
            r == self.0,
    {
        self.0
    }
}

impl Default for SequenceNumber {
    fn default() -> (r: Self)
        ensures
            r.0 == 0,
    {
        SequenceNumber(0)
    }
}

} // verus!
