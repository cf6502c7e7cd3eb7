//! An incremental, memoized computation engine: derived queries are computed
//! on demand, stamped with the revision at which their value last changed, and
//! skipped on later fetches whenever nothing relevant changed in between.

use vstd::prelude::*;

pub mod derived;
pub mod ingredient;
pub mod laws;
pub mod lru;
pub mod plumbing;
pub mod queries;
pub mod slot;

verus! {

/// Logical time: a monotonically increasing counter for the whole system.
#[derive(Clone, Copy, PartialEq, Eq, Structural, Hash, Debug)]
pub struct Revision {
    pub n: u64,
}

impl Revision {
    pub fn lt(self, other: Revision) -> (r: bool)
        ensures
            r == (self.n < other.n),
    {
        self.n < other.n
    }
}

/// An upper bound on how often a value changes; higher durability licenses
/// skipping revalidation across more revisions.
#[derive(Clone, Copy, PartialEq, Eq, Structural, Hash, Debug)]
pub enum Durability {
    Low,
    Medium,
    High,
}

impl Durability {
    /// Position of this durability in the Low < Medium < High order.
    pub open spec fn rank(self) -> int {
        match self {
            Durability::Low => 0,
            Durability::Medium => 1,
            Durability::High => 2,
        }
    }

    pub fn le(self, other: Durability) -> (r: bool)
        ensures
            r == (self.rank() <= other.rank()),
    {
        let a: u8 = match self {
            Durability::Low => 0,
            Durability::Medium => 1,
            Durability::High => 2,
        };
        let b: u8 = match other {
            Durability::Low => 0,
            Durability::Medium => 1,
            Durability::High => 2,
        };
        a <= b
    }
}

} // verus!
