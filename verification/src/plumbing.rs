//! Shared vocabulary of the engine: addresses, stamps, control signals, the
//! snapshot of the external revision authority, and the query-function
//! contract that every derived query implements.

use vstd::prelude::*;
use crate::Durability;
use crate::Revision;

verus! {

/// A stable integer address identifying one memoized call engine-wide:
/// the query group, the query type within the group, and the insertion
/// position of the key within that query's storage.
#[derive(Clone, Copy, PartialEq, Eq, Structural, Hash, Debug)]
pub struct DatabaseKeyIndex {
    pub group_index: u16,
    pub query_index: u16,
    pub key_index: u32,
}

/// A value paired with the durability and the revision at which it was last
/// confirmed to have changed.
#[derive(Clone, Copy, PartialEq, Eq, Structural, Debug)]
pub struct StampedValue {
    pub value: u64,
    pub durability: Durability,
    pub changed_at: Revision,
}

/// One row of the `entries` snapshot: a key together with its memoized value,
/// if the policy stored one.
#[derive(Clone, Copy, PartialEq, Eq, Structural, Debug)]
pub struct TableEntry {
    pub key: u64,
    pub value: Option<u64>,
}

/// Control signals raised by the engine itself, never by query functions:
/// they unwind the in-flight computation to the nearest driver.
#[derive(Clone, Copy, PartialEq, Eq, Structural, Debug)]
pub enum Signal {
    /// The cancellation flag was set; the caller retries once the active
    /// revision stabilizes.
    Cancelled,
    /// The requested address is already being computed on this call path and
    /// the query declares no recovery; a design defect in the query graph.
    CycleDetected,
    /// An address or revision inconsistency: a bug in the engine's caller.
    InvariantViolation,
}

/// Per-query policy for resolving self-referential computation.
#[derive(Clone, Copy, PartialEq, Eq, Structural, Debug)]
pub enum CycleRecoveryStrategy {
    /// A cycle is an unrecoverable condition surfaced to the driver.
    Fatal,
    /// A declared fallback value breaks the cycle in place.
    Fallback,
}

/// What the engine sees of the external revision authority at one call:
/// the current revision, for each durability the latest revision at which
/// anything of that durability may have changed, and the cooperative
/// cancellation flag.
#[derive(Clone, Copy, PartialEq, Eq, Structural, Debug)]
pub struct RuntimeState {
    pub current: Revision,
    pub last_changed_low: Revision,
    pub last_changed_medium: Revision,
    pub last_changed_high: Revision,
    pub cancelled: bool,
}

impl RuntimeState {
    /// The latest revision at which anything a value of durability `d` could
    /// depend on changed. Higher durability covers a smaller set of inputs,
    /// so its last change is never later than a lower durability's.
    pub open spec fn last_changed_spec(self, d: Durability) -> Revision {
        match d {
            Durability::Low => self.last_changed_low,
            Durability::Medium => self.last_changed_medium,
            Durability::High => self.last_changed_high,
        }
    }

    /// The authority's counters are consistent: change horizons shrink as
    /// durability grows, and none lies in the future.
    pub open spec fn wf(self) -> bool {
        &&& self.last_changed_high.n <= self.last_changed_medium.n
        &&& self.last_changed_medium.n <= self.last_changed_low.n
        &&& self.last_changed_low.n <= self.current.n
    }

    pub fn last_changed(&self, d: Durability) -> (r: Revision)
        ensures
            r == self.last_changed_spec(d),
    {
        match d {
            Durability::Low => self.last_changed_low,
            Durability::Medium => self.last_changed_medium,
            Durability::High => self.last_changed_high,
        }
    }
}

/// The contract of a user-supplied derived query: a pure, total function of
/// the revision's inputs and the key, plus a stable index and a cycle policy.
pub trait QueryFunction: Sized {
    /// The value the query computes at a given revision for a given key.
    spec fn result_spec(rev: Revision, key: u64) -> u64;

    /// The durability of the inputs the query consumed for this key.
    spec fn durability_spec(rev: Revision, key: u64) -> Durability;

    /// How a cycle through this query is resolved.
    spec fn strategy_spec() -> CycleRecoveryStrategy;

    /// The declared value that breaks a cycle when the strategy allows it.
    spec fn fallback_spec(rev: Revision, key: u64) -> u64;

    /// The stable index of this query type within its group.
    spec fn query_index_spec() -> u16;

    /// Run the query. Purity is part of the contract: the result is a
    /// function of the revision and the key alone.
    fn execute(rev: Revision, key: u64) -> (r: (u64, Durability))
        ensures
            r.0 == Self::result_spec(rev, key),
            r.1 == Self::durability_spec(rev, key);

    fn cycle_strategy() -> (r: CycleRecoveryStrategy)
        ensures
            r == Self::strategy_spec();

    fn cycle_fallback(rev: Revision, key: u64) -> (r: u64)
        ensures
            r == Self::fallback_spec(rev, key);

    fn query_index() -> (r: u16)
        ensures
            r == Self::query_index_spec();

    /// A display name for diagnostics; the host pairs it with the key that
    /// `fmt_index` resolves.
    fn query_name() -> (r: &'static str);
}

} // verus!
