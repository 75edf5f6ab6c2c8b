//! The resource cost model: a two-dimensional weight (computation and
//! storage I/O), with saturating accumulation and budget comparison.

use vstd::prelude::*;

verus! {

/// Saturating addition on one cost dimension.
pub open spec fn spec_sat_add64(a: u64, b: u64) -> u64 {
    if a + b > u64::MAX {
        u64::MAX
    } else {
        (a + b) as u64
    }
}

/// Saturating addition on one cost dimension.
pub fn sat_add64(a: u64, b: u64) -> (r: u64)
    ensures
        r == spec_sat_add64(a, b),
{
    if u64::MAX - a < b {
        u64::MAX
    } else {
        a + b
    }
}

/// A resource cost with two independent dimensions: computation time and
/// storage I/O. A step's budget is exhausted as soon as either dimension is.
#[derive(Clone, Copy, PartialEq, Eq, Debug)]
pub struct Weight {
    pub compute: u64,
    pub io: u64,
}

impl Weight {
    pub open spec fn spec_zero() -> Weight {
        Weight { compute: 0, io: 0 }
    }

    pub fn zero() -> (r: Weight)
        ensures
            r == Weight::spec_zero(),
    {
        Weight { compute: 0, io: 0 }
    }

    pub open spec fn spec_add(self, other: Weight) -> Weight {
        Weight {
            compute: spec_sat_add64(self.compute, other.compute),
            io: spec_sat_add64(self.io, other.io),
        }
    }

    /// Accumulate a further cost, saturating each dimension.
    pub fn saturating_add(self, other: Weight) -> (r: Weight)
        ensures
            r == self.spec_add(other),
    {
        Weight {
            compute: sat_add64(self.compute, other.compute),
            io: sat_add64(self.io, other.io),
        }
    }

    pub open spec fn spec_fits(self, within: Weight) -> bool {
        self.compute <= within.compute && self.io <= within.io
    }

    /// Whether this cost stays inside `within` in both dimensions.
    pub fn fits(self, within: Weight) -> (r: bool)
        ensures
            r == self.spec_fits(within),
    {
        self.compute <= within.compute && self.io <= within.io
    }
}

/// The engine's fixed service charges: purging a tombstone costs
/// `bookkeeping`, a failed preimage lookup costs `preimage_lookup`.
/// Both are fixed when the engine is built.
#[derive(Clone, Copy, PartialEq, Eq, Debug)]
pub struct CostParams {
    pub bookkeeping: Weight,
    pub preimage_lookup: Weight,
}

} // verus!
