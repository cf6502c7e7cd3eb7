//! Reference implementations of the query-function contract, also exercised
//! by the test suite: a doubling query whose cycles are fatal, and a variant
//! that declares a fallback value to break cycles.

use vstd::prelude::*;
use crate::Durability;
use crate::Revision;
use crate::plumbing::CycleRecoveryStrategy;
use crate::plumbing::QueryFunction;

verus! {

/// `double(key) = key * 2` (wrapping), independent of the revision, of low
/// durability, with no cycle recovery.
pub struct DoubleQuery;

impl QueryFunction for DoubleQuery {
    open spec fn result_spec(rev: Revision, key: u64) -> u64 {
        (2 * key % 0x1_0000_0000_0000_0000) as u64
    }

    open spec fn durability_spec(rev: Revision, key: u64) -> Durability {
        Durability::Low
    }

    open spec fn strategy_spec() -> CycleRecoveryStrategy {
        CycleRecoveryStrategy::Fatal
    }

    open spec fn fallback_spec(rev: Revision, key: u64) -> u64 {
        0
    }

    open spec fn query_index_spec() -> u16 {
        1
    }

    fn execute(rev: Revision, key: u64) -> (r: (u64, Durability)) {
        (key.wrapping_mul(2), Durability::Low)
    }

    fn cycle_strategy() -> (r: CycleRecoveryStrategy) {
        CycleRecoveryStrategy::Fatal
    }

    fn cycle_fallback(rev: Revision, key: u64) -> (r: u64) {
        0
    }

    fn query_index() -> (r: u16) {
        1
    }

    fn query_name() -> (r: &'static str) {
        "double"
    }
}

/// Like `DoubleQuery`, but of high durability and with a declared fallback
/// value that resolves a cycle in place.
pub struct DoubleWithFallback;

impl QueryFunction for DoubleWithFallback {
    open spec fn result_spec(rev: Revision, key: u64) -> u64 {
        (2 * key % 0x1_0000_0000_0000_0000) as u64
    }

    open spec fn durability_spec(rev: Revision, key: u64) -> Durability {
        Durability::High
    }

    open spec fn strategy_spec() -> CycleRecoveryStrategy {
        CycleRecoveryStrategy::Fallback
    }

    open spec fn fallback_spec(rev: Revision, key: u64) -> u64 {
        u64::MAX
    }

    open spec fn query_index_spec() -> u16 {
        2
    }

    fn execute(rev: Revision, key: u64) -> (r: (u64, Durability)) {
        (key.wrapping_mul(2), Durability::High)
    }

    fn cycle_strategy() -> (r: CycleRecoveryStrategy) {
        CycleRecoveryStrategy::Fallback
    }

    fn cycle_fallback(rev: Revision, key: u64) -> (r: u64) {
        u64::MAX
    }

    fn query_index() -> (r: u16) {
        2
    }

    fn query_name() -> (r: &'static str) {
        "double_with_fallback"
    }
}

/// `key + revision` (wrapping): a query whose value moves with the revision,
/// so a forced recompute after a change is not backdated.
pub struct AddRevisionQuery;

impl QueryFunction for AddRevisionQuery {
    open spec fn result_spec(rev: Revision, key: u64) -> u64 {
        ((key + rev.n) % 0x1_0000_0000_0000_0000) as u64
    }

    open spec fn durability_spec(rev: Revision, key: u64) -> Durability {
        Durability::Low
    }

    open spec fn strategy_spec() -> CycleRecoveryStrategy {
        CycleRecoveryStrategy::Fatal
    }

    open spec fn fallback_spec(rev: Revision, key: u64) -> u64 {
        0
    }

    open spec fn query_index_spec() -> u16 {
        3
    }

    fn execute(rev: Revision, key: u64) -> (r: (u64, Durability)) {
        (key.wrapping_add(rev.n), Durability::Low)
    }

    fn cycle_strategy() -> (r: CycleRecoveryStrategy) {
        CycleRecoveryStrategy::Fatal
    }

    fn cycle_fallback(rev: Revision, key: u64) -> (r: u64) {
        0
    }

    fn query_index() -> (r: u16) {
        3
    }

    fn query_name() -> (r: &'static str) {
        "add_revision"
    }
}

} // verus!
