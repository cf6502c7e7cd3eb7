//! Storage for queries whose value is derived by executing a function: a
//! per-key memo table coordinating revision-stamped values, durability-based
//! short-circuiting, LRU eviction and cycle detection.

use vstd::prelude::*;
use core::marker::PhantomData;
use crate::Durability;
use crate::lru::Lru;
use crate::lru::distinct_seq;
use crate::lru::touched_spec;
use crate::plumbing::CycleRecoveryStrategy;
use crate::plumbing::DatabaseKeyIndex;
use crate::plumbing::QueryFunction;
use crate::plumbing::RuntimeState;
use crate::plumbing::Signal;
use crate::plumbing::StampedValue;
use crate::slot::Memo;
use crate::slot::QueryState;
use crate::slot::Slot;

verus! {

/// Per-query-type decision of whether to store values and how to compare
/// them for equivalence (the comparison drives backdating).
pub trait MemoizationPolicy<Q: QueryFunction>: Sized {
    spec fn should_memoize_spec(key: u64) -> bool;

    /// What the policy's equivalence check returns; meaningful only for
    /// policies that memoize some key.
    spec fn value_eq_spec(old_value: u64, new_value: u64) -> bool;

    fn should_memoize_value(key: &u64) -> (r: bool)
        ensures
            r == Self::should_memoize_spec(*key);

    fn memoized_value_eq(old_value: &u64, new_value: &u64) -> (r: bool)
        requires
            exists|k: u64| Self::should_memoize_spec(k),
        ensures
            r == Self::value_eq_spec(*old_value, *new_value);
}

/// Memoized queries store the result; equal recomputations are backdated.
pub struct AlwaysMemoizeValue;

impl<Q: QueryFunction> MemoizationPolicy<Q> for AlwaysMemoizeValue {
    open spec fn should_memoize_spec(key: u64) -> bool {
        true
    }

    open spec fn value_eq_spec(old_value: u64, new_value: u64) -> bool {
        old_value == new_value
    }

    fn should_memoize_value(key: &u64) -> (r: bool) {
        true
    }

    fn memoized_value_eq(old_value: &u64, new_value: &u64) -> (r: bool) {
        *old_value == *new_value
    }
}

/// Dependency-only queries track stamps but never store the value itself,
/// which lessens the storage requirements; no stored value ever exists to
/// compare, so no recomputation is ever backdated.
pub struct NeverMemoizeValue;

impl<Q: QueryFunction> MemoizationPolicy<Q> for NeverMemoizeValue {
    open spec fn should_memoize_spec(key: u64) -> bool {
        false
    }

    open spec fn value_eq_spec(old_value: u64, new_value: u64) -> bool {
        false
    }

    fn should_memoize_value(key: &u64) -> (r: bool) {
        false
    }

    fn memoized_value_eq(old_value: &u64, new_value: &u64) -> (r: bool) {
        false
    }
}

/// The mathematical content of a `DerivedGlobalStorage`: the slot table in
/// insertion order and the recency list with its capacity bound.
#[verifier::ext_equal]
pub struct StorageModel {
    pub group_index: u16,
    pub query_index: u16,
    pub slots: Seq<Slot>,
    pub capacity: usize,
    pub order: Seq<usize>,
}

impl StorageModel {
    pub open spec fn has_key(self, key: u64) -> bool {
        exists|i: int| 0 <= i < self.slots.len() && self.slots[i].key == key
    }

    /// The insertion position of `key`; under `wf` it is unique.
    pub open spec fn key_index_of(self, key: u64) -> int {
        choose|i: int| 0 <= i < self.slots.len() && self.slots[i].key == key
    }

    pub open spec fn distinct_keys(self) -> bool {
        forall|i: int, j: int|
            0 <= i < j < self.slots.len() ==> self.slots[i].key != self.slots[j].key
    }

    /// The address every slot must carry at its position.
    pub open spec fn address_at(self, i: int) -> DatabaseKeyIndex {
        DatabaseKeyIndex {
            group_index: self.group_index,
            query_index: self.query_index,
            key_index: i as u32,
        }
    }

    /// Well-formedness: exactly one slot per key, addresses equal insertion
    /// positions, the recency list is duplicate-free, within bounds, and
    /// tracks every slot that retains a payload.
    pub open spec fn wf(self) -> bool {
        &&& self.slots.len() <= u32::MAX
        &&& self.distinct_keys()
        &&& (forall|i: int|
            0 <= i < self.slots.len() ==> (#[trigger] self.slots[i]).database_key_index
                == self.address_at(i))
        &&& (forall|j: int| 0 <= j < self.order.len() ==> (#[trigger] self.order[j]) < self.slots.len())
        &&& distinct_seq(self.order)
        &&& (forall|i: int|
            0 <= i < self.slots.len() && (#[trigger] self.slots[i]).has_payload()
                ==> self.order.contains(i as usize))
    }

    /// The recency list is within the enabled capacity bound. Lowering the
    /// bound may break this transiently; a fetch never makes it worse, keeps
    /// it once it holds, and while it is broken each fetch clears one
    /// least-recently-used payload.
    pub open spec fn within_lru_bound(self) -> bool {
        self.capacity > 0 ==> self.order.len() <= self.capacity
    }

    /// Every revision stamp lies in the past of `rt`.
    pub open spec fn bounded_by(self, rt: RuntimeState) -> bool {
        forall|i: int|
            0 <= i < self.slots.len() ==> match (#[trigger] self.slots[i]).memo() {
                Some(m) => m.bounded_by(rt),
                None => true,
            }
    }
}

/// Every stored value was stored under the policy's consent for its key.
pub open spec fn policy_ok<Q: QueryFunction, MP: MemoizationPolicy<Q>>(m: StorageModel) -> bool {
    forall|i: int|
        0 <= i < m.slots.len() ==> match (#[trigger] m.slots[i]).memo() {
            Some(memo) => memo.value is Some ==> MP::should_memoize_spec(m.slots[i].key),
            None => true,
        }
}

/// Slot lookup: reuse the unique existing slot for `key`, or insert a fresh
/// one whose address is the next insertion index.
pub open spec fn with_slot(m: StorageModel, key: u64) -> (StorageModel, int) {
    if m.has_key(key) {
        (m, m.key_index_of(key))
    } else {
        let slot = Slot {
            key,
            database_key_index: m.address_at(m.slots.len() as int),
            state: QueryState::NotComputed,
        };
        (StorageModel { slots: m.slots.push(slot), ..m }, m.slots.len() as int)
    }
}

/// If a slot with this key stands at position `i`, lookup finds exactly it.
pub proof fn lemma_key_index_unique(m: StorageModel, i: int)
    requires
        m.distinct_keys(),
        0 <= i < m.slots.len(),
    ensures
        m.has_key(m.slots[i].key),
        m.key_index_of(m.slots[i].key) == i,
{
    let key = m.slots[i].key;
    assert(m.has_key(key));
    let w = m.key_index_of(key);
    assert(0 <= w < m.slots.len() && m.slots[w].key == key);
    if w < i {
        assert(m.slots[w].key != m.slots[i].key);
    } else if i < w {
        assert(m.slots[i].key != m.slots[w].key);
    }
}

/// Global storage for one derived query type: owns the key-to-slot table,
/// assigns stable addresses, mediates reads and invalidations, and drives the
/// LRU bookkeeping after every fetch.
pub struct DerivedGlobalStorage<Q: QueryFunction, MP: MemoizationPolicy<Q>> {
    group_index: u16,
    slots: Vec<Slot>,
    lru_list: Lru,
    policy: PhantomData<(Q, MP)>,
}

impl<Q: QueryFunction, MP: MemoizationPolicy<Q>> DerivedGlobalStorage<Q, MP> {
    pub closed spec fn model(self) -> StorageModel {
        StorageModel {
            group_index: self.group_index,
            query_index: Q::query_index_spec(),
            slots: self.slots@,
            capacity: self.lru_list.cap_spec(),
            order: self.lru_list.order_spec(),
        }
    }

    pub fn new(group_index: u16) -> (r: Self)
        ensures
            r.model() == (StorageModel {
                group_index,
                query_index: Q::query_index_spec(),
                slots: Seq::<Slot>::empty(),
                capacity: 0usize,
                order: Seq::<usize>::empty(),
            }),
            r.model().wf(),
    {
        let r = DerivedGlobalStorage {
            group_index,
            slots: Vec::new(),
            lru_list: Lru::new(),
            policy: PhantomData,
        };
        proof {
            assert(r.model() =~= StorageModel {
                group_index,
                query_index: Q::query_index_spec(),
                slots: Seq::<Slot>::empty(),
                capacity: 0usize,
                order: Seq::<usize>::empty(),
            });
        }
        r
    }

    /// The position of the slot for `key`, if one exists.
    fn find_slot(&self, key: u64) -> (r: Option<usize>)
        requires
            self.model().distinct_keys(),
        ensures
            match r {
                Some(i) => self.model().has_key(key) && i as int == self.model().key_index_of(key)
                    && i < self.model().slots.len(),
                None => !self.model().has_key(key),
            },
    {
        let n = self.slots.len();
        let mut i: usize = 0;
        while i < n
            invariant
                self.model().distinct_keys(),
                n == self.slots@.len(),
                i <= n,
                forall|j: int| 0 <= j < i ==> self.slots@[j].key != key,
            decreases n - i,
        {
            if self.slots[i].key == key {
                proof {
                    lemma_key_index_unique(self.model(), i as int);
                }
                return Some(i);
            }
            i = i + 1;
        }
        None
    }

    /// Locate the slot for `key`, creating it on first access; at most one
    /// slot ever exists per key, and the index returned is stable until a
    /// mass purge.
    fn slot_index(&mut self, key: u64) -> (idx: usize)
        requires
            old(self).model().wf(),
            old(self).model().slots.len() < u32::MAX,
        ensures
            final(self).model() == with_slot(old(self).model(), key).0,
            idx as int == with_slot(old(self).model(), key).1,
            idx < final(self).model().slots.len(),
            final(self).model().wf(),
    {
        let ghost m0 = self.model();
        if let Some(i) = self.find_slot(key) {
            return i;
        }
        let key_index_usize = self.slots.len();
        let slot = Slot::new(
            key,
            DatabaseKeyIndex {
                group_index: self.group_index,
                query_index: Q::query_index(),
                key_index: key_index_usize as u32,
            },
        );
        self.slots.push(slot);
        proof {
            let m1 = final(self).model();
            assert(m1 =~= with_slot(m0, key).0);
            assert forall|a: int, b: int| 0 <= a < b < m1.slots.len() implies m1.slots[a].key
                != m1.slots[b].key by {
                if b < m1.slots.len() - 1 {
                    assert(m0.slots[a].key != m0.slots[b].key);
                }
            }
            assert forall|a: int| 0 <= a < m1.slots.len() implies (#[trigger] m1.slots[a]).database_key_index
                == m1.address_at(a) by {
                if a < m1.slots.len() - 1 {
                    assert(m0.slots[a].database_key_index == m0.address_at(a));
                }
            }
            assert forall|a: int|
                0 <= a < m1.slots.len() && (#[trigger] m1.slots[a]).has_payload() implies
                m1.order.contains(a as usize) by {
                if a < m1.slots.len() - 1 {
                    assert(m0.slots[a].has_payload());
                }
            }
            assert(m1.wf());
        }
        key_index_usize
    }
}

/// The slot table after clearing the victim's payload.
pub open spec fn evict_in(slots: Seq<Slot>, victim: usize) -> Seq<Slot> {
    slots.update(victim as int, slots[victim as int].evicted())
}

/// The model after recording a use of `idx`: `idx` moves to the most-recent
/// end, and if the capacity bound is now exceeded the least recently used
/// slot loses its payload.
pub open spec fn record_use_model(m: StorageModel, idx: usize) -> StorageModel {
    let touched = touched_spec(m.order, idx);
    if m.capacity > 0 && touched.len() > m.capacity {
        StorageModel {
            order: touched.subrange(1, touched.len() as int),
            slots: evict_in(m.slots, touched[0]),
            ..m
        }
    } else {
        StorageModel { order: touched, ..m }
    }
}

/// Well-formedness with one exemption: the payload of the slot at `idx` need
/// not be tracked by the recency list yet, because a use of `idx` is about to
/// be recorded.
pub open spec fn wf_before_use(m: StorageModel, idx: usize) -> bool {
    &&& m.slots.len() <= u32::MAX
    &&& m.distinct_keys()
    &&& (forall|i: int|
        0 <= i < m.slots.len() ==> (#[trigger] m.slots[i]).database_key_index == m.address_at(i))
    &&& (forall|j: int| 0 <= j < m.order.len() ==> (#[trigger] m.order[j]) < m.slots.len())
    &&& distinct_seq(m.order)
    &&& (forall|i: int|
        0 <= i < m.slots.len() && (#[trigger] m.slots[i]).has_payload() && i != idx
            ==> m.order.contains(i as usize))
}

/// The post-state and outcome of one read.
#[verifier::ext_equal]
pub struct FetchOutcome {
    pub post: StorageModel,
    pub result: Result<StampedValue, Signal>,
    /// Whether the user-supplied query function ran.
    pub executed: bool,
}

/// Resolving the slot at `idx` when its memo cannot simply be returned:
/// detect a cycle through the caller's active-query stack, otherwise run the
/// query (or its declared fallback), backdate the change stamp when the
/// policy finds the recomputed value equivalent to the stored one, memoize
/// under the policy's consent, and record the use.
pub open spec fn step_compute<Q: QueryFunction, MP: MemoizationPolicy<Q>>(
    m: StorageModel,
    rt: RuntimeState,
    active: Seq<DatabaseKeyIndex>,
    idx: int,
) -> FetchOutcome {
    let slot = m.slots[idx];
    let cyc = active.contains(slot.database_key_index);
    if cyc && Q::strategy_spec() == CycleRecoveryStrategy::Fatal {
        FetchOutcome { post: m, result: Err(Signal::CycleDetected), executed: false }
    } else {
        let value = if cyc {
            Q::fallback_spec(rt.current, slot.key)
        } else {
            Q::result_spec(rt.current, slot.key)
        };
        let durability = if cyc {
            Durability::Low
        } else {
            Q::durability_spec(rt.current, slot.key)
        };
        let changed_at = match slot.memo() {
            Some(memo) => match memo.value {
                Some(v_old) => if MP::value_eq_spec(v_old, value) {
                    memo.changed_at
                } else {
                    rt.current
                },
                None => rt.current,
            },
            None => rt.current,
        };
        let memo = Memo {
            value: if MP::should_memoize_spec(slot.key) {
                Some(value)
            } else {
                None
            },
            durability,
            changed_at,
            verified_at: rt.current,
            stale_since: None,
        };
        let m1 = StorageModel {
            slots: m.slots.update(idx, Slot { state: QueryState::Memoized(memo), ..slot }),
            ..m
        };
        FetchOutcome {
            post: record_use_model(m1, idx as usize),
            result: Ok(StampedValue { value, durability, changed_at }),
            executed: !cyc,
        }
    }
}

/// Reading the slot at `idx`: a memo that is valid for `rt` and still holds
/// its value is returned unchanged (only its verification stamp is refreshed
/// and its use recorded); anything else goes through `step_compute`.
pub open spec fn step_read<Q: QueryFunction, MP: MemoizationPolicy<Q>>(
    m: StorageModel,
    rt: RuntimeState,
    active: Seq<DatabaseKeyIndex>,
    idx: int,
) -> FetchOutcome {
    let slot = m.slots[idx];
    let hit = match slot.state {
        QueryState::Memoized(memo) => memo.valid_at(rt) && memo.value is Some,
        _ => false,
    };
    if hit {
        let memo = match slot.state {
            QueryState::Memoized(memo) => memo,
            _ => arbitrary(),
        };
        let refreshed = Slot {
            state: QueryState::Memoized(Memo { verified_at: rt.current, ..memo }),
            ..slot
        };
        let m1 = StorageModel { slots: m.slots.update(idx, refreshed), ..m };
        FetchOutcome {
            post: record_use_model(m1, idx as usize),
            result: Ok(
                StampedValue {
                    value: match memo.value {
                        Some(v) => v,
                        None => 0,
                    },
                    durability: memo.durability,
                    changed_at: memo.changed_at,
                },
            ),
            executed: false,
        }
    } else {
        step_compute::<Q, MP>(m, rt, active, idx)
    }
}

/// One fetch: check cancellation, locate or create the slot, and read it.
pub open spec fn step_fetch<Q: QueryFunction, MP: MemoizationPolicy<Q>>(
    m: StorageModel,
    rt: RuntimeState,
    active: Seq<DatabaseKeyIndex>,
    key: u64,
) -> FetchOutcome {
    if rt.cancelled {
        FetchOutcome { post: m, result: Err(Signal::Cancelled), executed: false }
    } else {
        let (m1, idx) = with_slot(m, key);
        step_read::<Q, MP>(m1, rt, active, idx)
    }
}

/// Whether the caller's active-query stack already holds this address.
fn contains_address(active: &Vec<DatabaseKeyIndex>, dki: DatabaseKeyIndex) -> (r: bool)
    ensures
        r == active@.contains(dki),
{
    let n = active.len();
    let mut i: usize = 0;
    while i < n
        invariant
            n == active@.len(),
            i <= n,
            forall|j: int| 0 <= j < i ==> active@[j] != dki,
        decreases n - i,
    {
        if active[i] == dki {
            return true;
        }
        i = i + 1;
    }
    false
}

impl<Q: QueryFunction, MP: MemoizationPolicy<Q>> DerivedGlobalStorage<Q, MP> {
    /// Record a use of the slot at `idx`, clearing the payload of the least
    /// recently used slot when the capacity bound is exceeded.
    fn record_use(&mut self, idx: usize)
        requires
            wf_before_use(old(self).model(), idx),
            idx < old(self).model().slots.len(),
        ensures
            final(self).model() == record_use_model(old(self).model(), idx),
            final(self).model().wf(),
            old(self).model().within_lru_bound() ==> final(self).model().within_lru_bound(),
            forall|rt: RuntimeState|
                old(self).model().bounded_by(rt) ==> final(self).model().bounded_by(rt),
            policy_ok::<Q, MP>(old(self).model()) ==> policy_ok::<Q, MP>(final(self).model()),
    {
        let ghost m0 = self.model();
        let victim_opt = self.lru_list.record_use(idx);
        if let Some(victim) = victim_opt {
            let mut s = self.slots[victim];
            s.evict();
            self.slots.set(victim, s);
        }
        proof {
            let m2 = final(self).model();
            let expect = record_use_model(m0, idx);
            assert(m2 =~= expect);
            // Well-formedness of the result.
            assert forall|a: int, b: int| 0 <= a < b < m2.slots.len() implies m2.slots[a].key
                != m2.slots[b].key by {
                assert(m2.slots[a].key == m0.slots[a].key);
                assert(m2.slots[b].key == m0.slots[b].key);
            }
            assert forall|i: int| 0 <= i < m2.slots.len() implies (#[trigger] m2.slots[i]).database_key_index
                == m2.address_at(i) by {
                assert(m2.slots[i].database_key_index == m0.slots[i].database_key_index);
            }
            assert forall|j: int| 0 <= j < m2.order.len() implies (#[trigger] m2.order[j])
                < m2.slots.len() by {
                assert(m2.order.contains(m2.order[j]));
            }
            assert forall|i: int|
                0 <= i < m2.slots.len() && (#[trigger] m2.slots[i]).has_payload() implies
                m2.order.contains(i as usize) by {
                match victim_opt {
                    Some(v) => {
                        if i == v as int {
                            assert(m2.slots[i] == m0.slots[i].evicted());
                            assert(!m2.slots[i].has_payload());
                        } else {
                            assert(m2.slots[i] == m0.slots[i]);
                            if i == idx as int {
                                assert(m2.order.contains(idx));
                            } else {
                                assert(m0.order.contains(i as usize));
                            }
                        }
                    },
                    None => {
                        if i == idx as int {
                            assert(m2.order.contains(idx));
                        } else {
                            assert(m0.order.contains(i as usize));
                        }
                    },
                }
            }
            assert(m2.wf());
            // Stamp bounds and policy consent survive an eviction.
            assert forall|rt: RuntimeState| m0.bounded_by(rt) implies m2.bounded_by(rt) by {
                assert forall|i: int| 0 <= i < m2.slots.len() implies match (#[trigger] m2.slots[i]).memo() {
                    Some(m) => m.bounded_by(rt),
                    None => true,
                } by {
                    assert(m0.slots[i].memo() matches Some(mm) ==> mm.bounded_by(rt));
                }
            }
            if policy_ok::<Q, MP>(m0) {
                assert forall|i: int| 0 <= i < m2.slots.len() implies match (#[trigger] m2.slots[i]).memo() {
                    Some(memo) => memo.value is Some ==> MP::should_memoize_spec(m2.slots[i].key),
                    None => true,
                } by {
                    assert(m0.slots[i].memo() matches Some(mm) ==> (mm.value is Some
                        ==> MP::should_memoize_spec(m0.slots[i].key)));
                }
            }
        }
    }

    /// Resolve the slot at `idx` for `rt`: return the cached stamp when it is
    /// still valid, otherwise recompute (respecting cycle policy and
    /// backdating) and memoize.
    fn read_slot(&mut self, rt: &RuntimeState, active: &Vec<DatabaseKeyIndex>, idx: usize) -> (r:
        Result<StampedValue, Signal>)
        requires
            old(self).model().wf(),
            policy_ok::<Q, MP>(old(self).model()),
            rt.wf(),
            idx < old(self).model().slots.len(),
        ensures
            ({
                let o = step_read::<Q, MP>(old(self).model(), *rt, active@, idx as int);
                final(self).model() == o.post && r == o.result
            }),
            final(self).model().wf(),
            policy_ok::<Q, MP>(final(self).model()),
            old(self).model().within_lru_bound() ==> final(self).model().within_lru_bound(),
            old(self).model().bounded_by(*rt) ==> final(self).model().bounded_by(*rt),
    {
        let ghost m0 = self.model();
        let slot = self.slots[idx];
        match slot.state {
            QueryState::Memoized(memo) => {
                let valid = memo.stale_since.is_none() && (memo.verified_at == rt.current
                    || rt.last_changed(memo.durability).n <= memo.verified_at.n);
                if valid {
                    if let Some(v) = memo.value {
                        let refreshed = Slot {
                            state: QueryState::Memoized(Memo { verified_at: rt.current, ..memo }),
                            ..slot
                        };
                        self.slots.set(idx, refreshed);
                        proof {
                            let o = step_read::<Q, MP>(m0, *rt, active@, idx as int);
                            let m1 = StorageModel { slots: m0.slots.update(idx as int, refreshed), ..m0 };
                            assert(self.model() =~= m1);
                            assert(wf_before_use(m1, idx));
                        }
                        self.record_use(idx);
                        proof {
                            let o = step_read::<Q, MP>(m0, *rt, active@, idx as int);
                            assert(final(self).model() =~= o.post);
                            if m0.bounded_by(*rt) {
                                let m1 = StorageModel {
                                    slots: m0.slots.update(idx as int, refreshed),
                                    ..m0
                                };
                                assert forall|i: int| 0 <= i < m1.slots.len() implies match (
                                #[trigger] m1.slots[i]).memo() {
                                    Some(mm) => mm.bounded_by(*rt),
                                    None => true,
                                } by {
                                    assert(m0.slots[i].memo() matches Some(mm) ==> mm.bounded_by(*rt));
                                }
                            }
                            assert(policy_ok::<Q, MP>(final(self).model())) by {
                                let m1 = StorageModel {
                                    slots: m0.slots.update(idx as int, refreshed),
                                    ..m0
                                };
                                assert forall|i: int| 0 <= i < m1.slots.len() implies match (
                                #[trigger] m1.slots[i]).memo() {
                                    Some(mm) => mm.value is Some ==> MP::should_memoize_spec(
                                        m1.slots[i].key,
                                    ),
                                    None => true,
                                } by {
                                    assert(m0.slots[i].memo() matches Some(mm) ==> (mm.value is Some
                                        ==> MP::should_memoize_spec(m0.slots[i].key)));
                                }
                            }
                        }
                        return Ok(
                            StampedValue {
                                value: v,
                                durability: memo.durability,
                                changed_at: memo.changed_at,
                            },
                        );
                    }
                }
            },
            _ => (),
        }
        // No usable memo: compute, unless this very address is already being
        // computed on this call path.
        let dki = slot.database_key_index;
        let cyc = contains_address(active, dki);
        if cyc {
            let strat = Q::cycle_strategy();
            if strat == CycleRecoveryStrategy::Fatal {
                return Err(Signal::CycleDetected);
            }
        }
        self.slots.set(idx, Slot { state: QueryState::InProgress, ..slot });
        let computed: (u64, Durability) = if cyc {
            (Q::cycle_fallback(rt.current, slot.key), Durability::Low)
        } else {
            Q::execute(rt.current, slot.key)
        };
        let value = computed.0;
        let durability = computed.1;
        let changed_at = match slot.state {
            QueryState::Memoized(memo) => match memo.value {
                Some(v_old) => {
                    proof {
                        assert(m0.slots[idx as int].memo() == Some(memo));
                        assert(MP::should_memoize_spec(slot.key));
                    }
                    if MP::memoized_value_eq(&v_old, &value) {
                        memo.changed_at
                    } else {
                        rt.current
                    }
                },
                None => rt.current,
            },
            _ => rt.current,
        };
        let value_opt = if MP::should_memoize_value(&slot.key) {
            Some(value)
        } else {
            None
        };
        let memo = Memo {
            value: value_opt,
            durability,
            changed_at,
            verified_at: rt.current,
            stale_since: None,
        };
        self.slots.set(idx, Slot { state: QueryState::Memoized(memo), ..slot });
        let ghost m1 = StorageModel {
            slots: m0.slots.update(
                idx as int,
                Slot { state: QueryState::Memoized(memo), ..m0.slots[idx as int] },
            ),
            ..m0
        };
        proof {
            assert(self.model() =~= m1);
            assert(wf_before_use(m1, idx)) by {
                assert forall|i: int|
                    0 <= i < m1.slots.len() && (#[trigger] m1.slots[i]).has_payload() && i != idx
                    implies m1.order.contains(i as usize) by {
                    assert(m1.slots[i] == m0.slots[i]);
                    assert(m0.slots[i].has_payload());
                }
            }
        }
        self.record_use(idx);
        proof {
            let o = step_read::<Q, MP>(m0, *rt, active@, idx as int);
            assert(final(self).model() =~= o.post);
            if m0.bounded_by(*rt) {
                assert forall|i: int| 0 <= i < m1.slots.len() implies match (#[trigger] m1.slots[i]).memo() {
                    Some(mm) => mm.bounded_by(*rt),
                    None => true,
                } by {
                    if i != idx as int {
                        assert(m0.slots[i].memo() matches Some(mm) ==> mm.bounded_by(*rt));
                    } else {
                        assert(m0.slots[i].memo() matches Some(mm) ==> mm.bounded_by(*rt));
                        assert(memo.changed_at.n <= rt.current.n);
                    }
                }
            }
            assert(policy_ok::<Q, MP>(m1)) by {
                assert forall|i: int| 0 <= i < m1.slots.len() implies match (#[trigger] m1.slots[i]).memo() {
                    Some(mm) => mm.value is Some ==> MP::should_memoize_spec(m1.slots[i].key),
                    None => true,
                } by {
                    if i != idx as int {
                        assert(m0.slots[i].memo() matches Some(mm) ==> (mm.value is Some
                            ==> MP::should_memoize_spec(m0.slots[i].key)));
                    }
                }
            }
        }
        Ok(StampedValue { value, durability, changed_at })
    }

    /// Fetch the value of `key` at the runtime state `rt`, computing it if no
    /// valid memo exists. `active` is the caller's active-query stack: the
    /// addresses already being computed on this call path, used for cycle
    /// detection. The returned stamp feeds the caller's dependency tracking.
    pub fn fetch(&mut self, rt: &RuntimeState, active: &Vec<DatabaseKeyIndex>, key: u64) -> (r:
        Result<StampedValue, Signal>)
        requires
            old(self).model().wf(),
            policy_ok::<Q, MP>(old(self).model()),
            old(self).model().bounded_by(*rt),
            rt.wf(),
            old(self).model().slots.len() < u32::MAX,
        ensures
            ({
                let o = step_fetch::<Q, MP>(old(self).model(), *rt, active@, key);
                final(self).model() == o.post && r == o.result
            }),
            final(self).model().wf(),
            policy_ok::<Q, MP>(final(self).model()),
            old(self).model().within_lru_bound() ==> final(self).model().within_lru_bound(),
            final(self).model().bounded_by(*rt),
    {
        let ghost m0 = self.model();
        if rt.cancelled {
            return Err(Signal::Cancelled);
        }
        let idx = self.slot_index(key);
        proof {
            let m1 = with_slot(m0, key).0;
            assert(self.model() == m1);
            assert(policy_ok::<Q, MP>(m1)) by {
                assert forall|i: int| 0 <= i < m1.slots.len() implies match (#[trigger] m1.slots[i]).memo() {
                    Some(mm) => mm.value is Some ==> MP::should_memoize_spec(m1.slots[i].key),
                    None => true,
                } by {
                    if i < m0.slots.len() {
                        assert(m0.slots[i].memo() matches Some(mm) ==> (mm.value is Some
                            ==> MP::should_memoize_spec(m0.slots[i].key)));
                    }
                }
            }
            assert(m1.bounded_by(*rt)) by {
                assert forall|i: int| 0 <= i < m1.slots.len() implies match (#[trigger] m1.slots[i]).memo() {
                    Some(mm) => mm.bounded_by(*rt),
                    None => true,
                } by {
                    if i < m0.slots.len() {
                        assert(m0.slots[i].memo() matches Some(mm) ==> mm.bounded_by(*rt));
                    }
                }
            }
        }
        self.read_slot(rt, active, idx)
    }
}

/// The post-state and answer of `maybe_changed_since`: after the cancellation
/// check, a memo that is still valid answers cheaply from its change stamp;
/// anything else forces a read (with backdating) and compares the resulting
/// stamp.
pub open spec fn step_maybe_changed<Q: QueryFunction, MP: MemoizationPolicy<Q>>(
    m: StorageModel,
    rt: RuntimeState,
    active: Seq<DatabaseKeyIndex>,
    input: DatabaseKeyIndex,
    revision: crate::Revision,
) -> (StorageModel, Result<bool, Signal>) {
    if rt.cancelled {
        (m, Err(Signal::Cancelled))
    } else if input.group_index != m.group_index || input.query_index != m.query_index
        || input.key_index >= m.slots.len() {
        (m, Err(Signal::InvariantViolation))
    } else {
        let idx = input.key_index as int;
        let slot = m.slots[idx];
        match slot.state {
            QueryState::Memoized(memo) => if memo.valid_at(rt) {
                (m, Ok(memo.changed_at.n > revision.n))
            } else {
                let o = step_read::<Q, MP>(m, rt, active, idx);
                match o.result {
                    Ok(stamp) => (o.post, Ok(stamp.changed_at.n > revision.n)),
                    Err(e) => (o.post, Err(e)),
                }
            },
            _ => {
                let o = step_read::<Q, MP>(m, rt, active, idx);
                match o.result {
                    Ok(stamp) => (o.post, Ok(stamp.changed_at.n > revision.n)),
                    Err(e) => (o.post, Err(e)),
                }
            },
        }
    }
}

/// Invalidation: a memoized slot is marked stale as of `new_revision` and its
/// prior durability reported; a slot never computed, or an unknown key, is
/// left alone.
pub open spec fn step_invalidate(m: StorageModel, key: u64, new_revision: crate::Revision) -> (
    StorageModel,
    Option<Durability>,
) {
    if m.has_key(key) {
        let idx = m.key_index_of(key);
        let slot = m.slots[idx];
        match slot.state {
            QueryState::Memoized(memo) => (
                StorageModel {
                    slots: m.slots.update(
                        idx,
                        Slot {
                            state: QueryState::Memoized(
                                Memo { stale_since: Some(new_revision), ..memo },
                            ),
                            ..slot
                        },
                    ),
                    ..m
                },
                Some(memo.durability),
            ),
            _ => (m, None),
        }
    } else {
        (m, None)
    }
}

/// The snapshot rows of a slot table: one entry per slot holding a memo, in
/// insertion order.
pub open spec fn entries_of(slots: Seq<Slot>) -> Seq<crate::plumbing::TableEntry>
    decreases slots.len(),
{
    if slots.len() == 0 {
        Seq::empty()
    } else {
        entries_of(slots.drop_last()) + match slots.last().table_entry_spec() {
            Some(e) => seq![e],
            None => Seq::empty(),
        }
    }
}

impl<Q: QueryFunction, MP: MemoizationPolicy<Q>> DerivedGlobalStorage<Q, MP> {
    /// Answer "has the value behind this address changed since `revision`"
    /// as cheaply as the stamps allow, recomputing only when they do not.
    pub fn maybe_changed_since(
        &mut self,
        rt: &RuntimeState,
        active: &Vec<DatabaseKeyIndex>,
        input: DatabaseKeyIndex,
        revision: crate::Revision,
    ) -> (r: Result<bool, Signal>)
        requires
            old(self).model().wf(),
            policy_ok::<Q, MP>(old(self).model()),
            old(self).model().bounded_by(*rt),
            rt.wf(),
        ensures
            ({
                let o = step_maybe_changed::<Q, MP>(old(self).model(), *rt, active@, input, revision);
                final(self).model() == o.0 && r == o.1
            }),
            final(self).model().wf(),
            policy_ok::<Q, MP>(final(self).model()),
            old(self).model().within_lru_bound() ==> final(self).model().within_lru_bound(),
            final(self).model().bounded_by(*rt),
    {
        if rt.cancelled {
            return Err(Signal::Cancelled);
        }
        if input.group_index != self.group_index || input.query_index != Q::query_index() {
            return Err(Signal::InvariantViolation);
        }
        let idx = input.key_index as usize;
        if idx >= self.slots.len() {
            return Err(Signal::InvariantViolation);
        }
        let slot = self.slots[idx];
        match slot.state {
            QueryState::Memoized(memo) => {
                let valid = memo.stale_since.is_none() && (memo.verified_at == rt.current
                    || rt.last_changed(memo.durability).n <= memo.verified_at.n);
                if valid {
                    return Ok(memo.changed_at.n > revision.n);
                }
            },
            _ => (),
        }
        match self.read_slot(rt, active, idx) {
            Ok(stamp) => Ok(stamp.changed_at.n > revision.n),
            Err(e) => Err(e),
        }
    }

    /// Ensure the slot for `key` is current, exactly as a fetch would
    /// (cancellation checked first), and report the durability of its value
    /// only.
    pub fn durability(&mut self, rt: &RuntimeState, active: &Vec<DatabaseKeyIndex>, key: u64) -> (r:
        Result<Durability, Signal>)
        requires
            old(self).model().wf(),
            policy_ok::<Q, MP>(old(self).model()),
            old(self).model().bounded_by(*rt),
            rt.wf(),
            old(self).model().slots.len() < u32::MAX,
        ensures
            ({
                let o = step_fetch::<Q, MP>(old(self).model(), *rt, active@, key);
                final(self).model() == o.post && r == (match o.result {
                    Ok(stamp) => Ok(stamp.durability),
                    Err(e) => Err(e),
                })
            }),
            final(self).model().wf(),
            policy_ok::<Q, MP>(final(self).model()),
            old(self).model().within_lru_bound() ==> final(self).model().within_lru_bound(),
            final(self).model().bounded_by(*rt),
    {
        match self.fetch(rt, active, key) {
            Ok(stamp) => Ok(stamp.durability),
            Err(e) => Err(e),
        }
    }

    /// Mark the memo of `key` stale as of `new_revision` so that the next
    /// read recomputes, and report its prior durability so the caller can
    /// compute a database-wide durability bump. Applied by the revision
    /// authority while it holds the revision transition exclusively.
    pub fn invalidate(&mut self, key: u64, new_revision: crate::Revision) -> (r: Option<Durability>)
        requires
            old(self).model().wf(),
        ensures
            ({
                let o = step_invalidate(old(self).model(), key, new_revision);
                final(self).model() == o.0 && r == o.1
            }),
            final(self).model().wf(),
            forall|rt: RuntimeState|
                old(self).model().bounded_by(rt) ==> final(self).model().bounded_by(rt),
            policy_ok::<Q, MP>(old(self).model()) ==> policy_ok::<Q, MP>(final(self).model()),
    {
        let ghost m0 = self.model();
        let found = self.find_slot(key);
        match found {
            None => None,
            Some(i) => {
                let mut s = self.slots[i];
                let r = s.invalidate(new_revision);
                self.slots.set(i, s);
                proof {
                    let o = step_invalidate(m0, key, new_revision);
                    assert(final(self).model() =~= o.0);
                    let m2 = final(self).model();
                    assert forall|a: int|
                        0 <= a < m2.slots.len() && (#[trigger] m2.slots[a]).has_payload() implies
                        m2.order.contains(a as usize) by {
                        assert(m0.slots[a].has_payload());
                    }
                    assert(m2.wf());
                    assert forall|rt: RuntimeState| m0.bounded_by(rt) implies m2.bounded_by(rt) by {
                        assert forall|a: int| 0 <= a < m2.slots.len() implies match (#[trigger] m2.slots[a]).memo() {
                            Some(mm) => mm.bounded_by(rt),
                            None => true,
                        } by {
                            assert(m0.slots[a].memo() matches Some(mm) ==> mm.bounded_by(rt));
                        }
                    }
                    if policy_ok::<Q, MP>(m0) {
                        assert forall|a: int| 0 <= a < m2.slots.len() implies match (#[trigger] m2.slots[a]).memo() {
                            Some(mm) => mm.value is Some ==> MP::should_memoize_spec(m2.slots[a].key),
                            None => true,
                        } by {
                            assert(m0.slots[a].memo() matches Some(mm) ==> (mm.value is Some
                                ==> MP::should_memoize_spec(m0.slots[a].key)));
                        }
                    }
                }
                r
            },
        }
    }

    /// Snapshot of all currently memoized `(key, value)` pairs, in insertion
    /// order, for debugging and export.
    pub fn entries(&self) -> (r: Vec<crate::plumbing::TableEntry>)
        ensures
            r@ == entries_of(self.model().slots),
    {
        let mut out: Vec<crate::plumbing::TableEntry> = Vec::new();
        let n = self.slots.len();
        let mut i: usize = 0;
        while i < n
            invariant
                n == self.slots@.len(),
                i <= n,
                out@ == entries_of(self.slots@.subrange(0, i as int)),
            decreases n - i,
        {
            let ghost prefix = self.slots@.subrange(0, i as int);
            let ghost prefix1 = self.slots@.subrange(0, i as int + 1);
            match self.slots[i].as_table_entry() {
                Some(e) => out.push(e),
                None => (),
            }
            proof {
                assert(prefix1.drop_last() =~= prefix);
                assert(prefix1.last() == self.slots@[i as int]);
                assert(out@ =~= entries_of(prefix1));
            }
            i = i + 1;
        }
        proof {
            assert(self.slots@.subrange(0, n as int) =~= self.slots@);
        }
        out
    }

    /// Drop the entire slot table and the recorded recency state; addresses
    /// restart from zero. The configured capacity is kept.
    pub fn purge(&mut self)
        ensures
            final(self).model() == (StorageModel {
                slots: Seq::<Slot>::empty(),
                order: Seq::<usize>::empty(),
                ..old(self).model()
            }),
            final(self).model().wf(),
    {
        self.slots = Vec::new();
        self.lru_list.purge();
        proof {
            assert(final(self).model() =~= StorageModel {
                slots: Seq::<Slot>::empty(),
                order: Seq::<usize>::empty(),
                ..old(self).model()
            });
        }
    }

    /// Adjust the LRU bound. Payloads are never dropped here: eviction is
    /// fetch-time bookkeeping, so after a shrink every fetch that finds the
    /// recency list over the bound clears one least-recently-used payload.
    pub fn set_lru_capacity(&mut self, new_capacity: usize)
        ensures
            final(self).model() == (StorageModel {
                capacity: new_capacity,
                ..old(self).model()
            }),
    {
        self.lru_list.set_capacity(new_capacity);
        proof {
            assert(final(self).model() =~= StorageModel {
                capacity: new_capacity,
                ..old(self).model()
            });
        }
    }

    /// Flush transient state before a new revision starts: a slot left in
    /// progress by an abandoned computation is reset so the next read
    /// recomputes it.
    pub fn reset_for_new_revision(&mut self)
        requires
            old(self).model().wf(),
        ensures
            final(self).model().wf(),
            final(self).model().group_index == old(self).model().group_index,
            final(self).model().query_index == old(self).model().query_index,
            final(self).model().slots.len() == old(self).model().slots.len(),
            final(self).model().order == old(self).model().order,
            final(self).model().capacity == old(self).model().capacity,
            forall|i: int|
                0 <= i < old(self).model().slots.len() ==> final(self).model().slots[i] == (
                if old(self).model().slots[i].state is InProgress {
                    Slot { state: QueryState::NotComputed, ..old(self).model().slots[i] }
                } else {
                    old(self).model().slots[i]
                }),
            forall|rt: RuntimeState|
                old(self).model().bounded_by(rt) ==> final(self).model().bounded_by(rt),
            policy_ok::<Q, MP>(old(self).model()) ==> policy_ok::<Q, MP>(final(self).model()),
    {
        let ghost m0 = self.model();
        let n = self.slots.len();
        let mut i: usize = 0;
        while i < n
            invariant
                n == self.slots@.len(),
                n == m0.slots.len(),
                i <= n,
                self.group_index == m0.group_index,
                self.lru_list.order_spec() == m0.order,
                self.lru_list.cap_spec() == m0.capacity,
                forall|a: int|
                    0 <= a < n ==> self.slots@[a] == (if a < i && m0.slots[a].state is InProgress {
                        Slot { state: QueryState::NotComputed, ..m0.slots[a] }
                    } else {
                        m0.slots[a]
                    }),
            decreases n - i,
        {
            let s = self.slots[i];
            match s.state {
                QueryState::InProgress => {
                    self.slots.set(i, Slot { state: QueryState::NotComputed, ..s });
                },
                _ => (),
            }
            i = i + 1;
        }
        proof {
            let m2 = final(self).model();
            assert forall|a: int, b: int| 0 <= a < b < m2.slots.len() implies m2.slots[a].key
                != m2.slots[b].key by {
                assert(m2.slots[a].key == m0.slots[a].key);
                assert(m2.slots[b].key == m0.slots[b].key);
            }
            assert forall|a: int| 0 <= a < m2.slots.len() implies (#[trigger] m2.slots[a]).database_key_index
                == m2.address_at(a) by {
                assert(m2.slots[a].database_key_index == m0.slots[a].database_key_index);
            }
            assert forall|a: int|
                0 <= a < m2.slots.len() && (#[trigger] m2.slots[a]).has_payload() implies
                m2.order.contains(a as usize) by {
                assert(m0.slots[a].has_payload());
            }
            assert(m2.wf());
            assert forall|rt: RuntimeState| m0.bounded_by(rt) implies m2.bounded_by(rt) by {
                assert forall|a: int| 0 <= a < m2.slots.len() implies match (#[trigger] m2.slots[a]).memo() {
                    Some(mm) => mm.bounded_by(rt),
                    None => true,
                } by {
                    assert(m0.slots[a].memo() matches Some(mm) ==> mm.bounded_by(rt));
                }
            }
            if policy_ok::<Q, MP>(m0) {
                assert forall|a: int| 0 <= a < m2.slots.len() implies match (#[trigger] m2.slots[a]).memo() {
                    Some(mm) => mm.value is Some ==> MP::should_memoize_spec(m2.slots[a].key),
                    None => true,
                } by {
                    assert(m0.slots[a].memo() matches Some(mm) ==> (mm.value is Some
                        ==> MP::should_memoize_spec(m0.slots[a].key)));
                }
            }
        }
    }

    /// The key behind an address, for diagnostic display by the host; an
    /// address that does not belong to this storage is an invariant
    /// violation.
    pub fn fmt_index(&self, index: DatabaseKeyIndex) -> (r: Result<u64, Signal>)
        ensures
            ({
                let m = self.model();
                if index.group_index == m.group_index && index.query_index == m.query_index
                    && (index.key_index as int) < m.slots.len() {
                    r == Ok::<u64, Signal>(m.slots[index.key_index as int].key)
                } else {
                    r == Err::<u64, Signal>(Signal::InvariantViolation)
                }
            }),
    {
        if index.group_index != self.group_index || index.query_index != Q::query_index() {
            return Err(Signal::InvariantViolation);
        }
        let idx = index.key_index as usize;
        if idx >= self.slots.len() {
            return Err(Signal::InvariantViolation);
        }
        Ok(self.slots[idx].key)
    }

    /// How many slots the table holds, memoized or not.
    pub fn slot_count(&self) -> (r: usize)
        ensures
            r == self.model().slots.len(),
    {
        self.slots.len()
    }

    /// The stable address of `key`, if a slot for it exists.
    pub fn database_key_index(&self, key: u64) -> (r: Option<DatabaseKeyIndex>)
        requires
            self.model().wf(),
        ensures
            ({
                let m = self.model();
                if m.has_key(key) {
                    r == Some(m.slots[m.key_index_of(key)].database_key_index)
                } else {
                    r is None
                }
            }),
    {
        match self.find_slot(key) {
            Some(i) => Some(self.slots[i].database_key_index()),
            None => None,
        }
    }
}

/// Handle for one derived query type as seen by a database instance. It holds
/// no data of its own: every call routes to the global storage for the query
/// type, which the host owns and hands in.
pub struct DerivedStorage<Q: QueryFunction, MP: MemoizationPolicy<Q>> {
    policy: PhantomData<(Q, MP)>,
}

impl<Q: QueryFunction, MP: MemoizationPolicy<Q>> DerivedStorage<Q, MP> {
    pub fn new(_group_index: u16) -> (r: Self) {
        DerivedStorage { policy: PhantomData }
    }

    pub fn fetch(
        &self,
        global: &mut DerivedGlobalStorage<Q, MP>,
        rt: &RuntimeState,
        active: &Vec<DatabaseKeyIndex>,
        key: u64,
    ) -> (r: Result<StampedValue, Signal>)
        requires
            old(global).model().wf(),
            policy_ok::<Q, MP>(old(global).model()),
            old(global).model().bounded_by(*rt),
            rt.wf(),
            old(global).model().slots.len() < u32::MAX,
        ensures
            ({
                let o = step_fetch::<Q, MP>(old(global).model(), *rt, active@, key);
                final(global).model() == o.post && r == o.result
            }),
            final(global).model().wf(),
            policy_ok::<Q, MP>(final(global).model()),
            final(global).model().bounded_by(*rt),
    {
        global.fetch(rt, active, key)
    }

    pub fn maybe_changed_since(
        &self,
        global: &mut DerivedGlobalStorage<Q, MP>,
        rt: &RuntimeState,
        active: &Vec<DatabaseKeyIndex>,
        input: DatabaseKeyIndex,
        revision: crate::Revision,
    ) -> (r: Result<bool, Signal>)
        requires
            old(global).model().wf(),
            policy_ok::<Q, MP>(old(global).model()),
            old(global).model().bounded_by(*rt),
            rt.wf(),
        ensures
            ({
                let o = step_maybe_changed::<Q, MP>(old(global).model(), *rt, active@, input, revision);
                final(global).model() == o.0 && r == o.1
            }),
            final(global).model().wf(),
            policy_ok::<Q, MP>(final(global).model()),
            final(global).model().bounded_by(*rt),
    {
        global.maybe_changed_since(rt, active, input, revision)
    }

    pub fn durability(
        &self,
        global: &mut DerivedGlobalStorage<Q, MP>,
        rt: &RuntimeState,
        active: &Vec<DatabaseKeyIndex>,
        key: u64,
    ) -> (r: Result<Durability, Signal>)
        requires
            old(global).model().wf(),
            policy_ok::<Q, MP>(old(global).model()),
            old(global).model().bounded_by(*rt),
            rt.wf(),
            old(global).model().slots.len() < u32::MAX,
        ensures
            ({
                let o = step_fetch::<Q, MP>(old(global).model(), *rt, active@, key);
                final(global).model() == o.post && r == (match o.result {
                    Ok(stamp) => Ok(stamp.durability),
                    Err(e) => Err(e),
                })
            }),
            final(global).model().wf(),
            policy_ok::<Q, MP>(final(global).model()),
            final(global).model().bounded_by(*rt),
    {
        global.durability(rt, active, key)
    }

    pub fn entries(&self, global: &DerivedGlobalStorage<Q, MP>) -> (r: Vec<
        crate::plumbing::TableEntry,
    >)
        ensures
            r@ == entries_of(global.model().slots),
    {
        global.entries()
    }

    /// The per-instance handle holds no data, so a mass purge of it alone
    /// clears nothing; the global storage's own `purge` drops the table.
    pub fn purge(&self) {
    }

    pub fn set_lru_capacity(&self, global: &mut DerivedGlobalStorage<Q, MP>, new_capacity: usize)
        ensures
            final(global).model() == (StorageModel {
                capacity: new_capacity,
                ..old(global).model()
            }),
    {
        global.set_lru_capacity(new_capacity)
    }

    pub fn invalidate(
        &self,
        global: &mut DerivedGlobalStorage<Q, MP>,
        key: u64,
        new_revision: crate::Revision,
    ) -> (r: Option<Durability>)
        requires
            old(global).model().wf(),
        ensures
            ({
                let o = step_invalidate(old(global).model(), key, new_revision);
                final(global).model() == o.0 && r == o.1
            }),
            final(global).model().wf(),
    {
        global.invalidate(key, new_revision)
    }

    pub fn fmt_index(&self, global: &DerivedGlobalStorage<Q, MP>, index: DatabaseKeyIndex) -> (r:
        Result<u64, Signal>)
        ensures
            ({
                let m = global.model();
                if index.group_index == m.group_index && index.query_index == m.query_index
                    && (index.key_index as int) < m.slots.len() {
                    r == Ok::<u64, Signal>(m.slots[index.key_index as int].key)
                } else {
                    r == Err::<u64, Signal>(Signal::InvariantViolation)
                }
            }),
    {
        global.fmt_index(index)
    }
}

} // verus!
