//! The engine's cross-cutting guarantees, stated over the storage model and
//! proved from the step functions that the executable operations are verified
//! against.

use vstd::prelude::*;
use vstd::set_lib::lemma_len_subset;
use crate::derived::MemoizationPolicy;
use crate::derived::StorageModel;
use crate::derived::policy_ok;
use crate::derived::record_use_model;
use crate::derived::step_invalidate;
use crate::derived::wf_before_use;
use crate::derived::FetchOutcome;
use crate::derived::step_compute;
use crate::derived::step_fetch;
use crate::derived::step_read;
use crate::derived::with_slot;
use crate::derived::lemma_key_index_unique;
use crate::lru::distinct_seq;
use crate::lru::lemma_touched_props;
use crate::lru::touched_spec;
use crate::plumbing::CycleRecoveryStrategy;
use crate::plumbing::DatabaseKeyIndex;
use crate::plumbing::QueryFunction;
use crate::plumbing::RuntimeState;
use crate::plumbing::Signal;
use crate::slot::Memo;
use crate::slot::QueryState;

verus! {

/// Slot lookup yields a well-formed table and a slot carrying the key, with
/// every pre-existing slot untouched.
proof fn lemma_with_slot_wf(m: StorageModel, key: u64)
    requires
        m.wf(),
        m.has_key(key) || m.slots.len() < u32::MAX,
    ensures
        ({
            let (m1, idx) = with_slot(m, key);
            &&& m1.wf()
            &&& 0 <= idx < m1.slots.len()
            &&& m1.slots[idx].key == key
            &&& m1.group_index == m.group_index
            &&& m1.query_index == m.query_index
            &&& m1.capacity == m.capacity
            &&& m1.order == m.order
            &&& m1.slots.len() <= m.slots.len() + 1
            &&& (forall|i: int| 0 <= i < m.slots.len() ==> #[trigger] m1.slots[i] == m.slots[i])
        }),
{
    let (m1, idx) = with_slot(m, key);
    if m.has_key(key) {
        assert(0 <= idx < m.slots.len() && m.slots[idx].key == key);
    } else {
        assert forall|a: int, b: int| 0 <= a < b < m1.slots.len() implies m1.slots[a].key
            != m1.slots[b].key by {
            if b < m1.slots.len() - 1 {
                assert(m.slots[a].key != m.slots[b].key);
            } else {
                assert(!m.has_key(key));
                assert(m1.slots[a] == m.slots[a]);
            }
        }
        assert forall|a: int| 0 <= a < m1.slots.len() implies (#[trigger] m1.slots[a]).database_key_index
            == m1.address_at(a) by {
            if a < m1.slots.len() - 1 {
                assert(m.slots[a].database_key_index == m.address_at(a));
            }
        }
        assert forall|a: int|
            0 <= a < m1.slots.len() && (#[trigger] m1.slots[a]).has_payload() implies
            m1.order.contains(a as usize) by {
            if a < m1.slots.len() - 1 {
                assert(m.slots[a].has_payload());
            }
        }
        assert(m1.wf());
    }
}

/// Recording a use never moves or renames a slot; in particular the slot
/// whose use is recorded survives with its state intact, and every slot keeps
/// its key and address.
proof fn lemma_record_use_slots(m: StorageModel, idx: usize)
    requires
        distinct_seq(m.order),
        forall|j: int| 0 <= j < m.order.len() ==> (#[trigger] m.order[j]) < m.slots.len(),
        idx < m.slots.len(),
    ensures
        ({
            let p = record_use_model(m, idx);
            &&& p.slots.len() == m.slots.len()
            &&& p.slots[idx as int] == m.slots[idx as int]
            &&& (forall|i: int|
                0 <= i < m.slots.len() ==> (#[trigger] p.slots[i]).key == m.slots[i].key
                    && p.slots[i].database_key_index == m.slots[i].database_key_index)
            &&& p.group_index == m.group_index
            &&& p.query_index == m.query_index
        }),
{
    lemma_touched_props(m.order, idx);
    let t = touched_spec(m.order, idx);
    let p = record_use_model(m, idx);
    if m.capacity > 0 && t.len() > m.capacity {
        let victim = t[0];
        assert(t[t.len() - 1] == idx);
        assert(t.len() >= 2);
        assert(victim != idx);
        assert(t.contains(victim));
        assert(victim < m.slots.len()) by {
            if victim != idx {
                assert(m.order.contains(victim));
                let j = choose|j: int| 0 <= j < m.order.len() && m.order[j] == victim;
                assert(m.order[j] < m.slots.len());
            }
        }
        assert(p.slots[idx as int] == m.slots[idx as int]);
        assert forall|i: int|
            0 <= i < m.slots.len() implies (#[trigger] p.slots[i]).key == m.slots[i].key
                && p.slots[i].database_key_index == m.slots[i].database_key_index by {
            if i == victim as int {
                assert(p.slots[i] == m.slots[i].evicted());
            }
        }
    }
}

/// Replacing the slot at `idx` by one with the same key and address keeps
/// the table well-formed, except that the new slot's payload may not be
/// tracked yet: exactly the state in which a use of `idx` is recorded.
proof fn lemma_update_slot_wf(m: StorageModel, idx: usize, slot: crate::slot::Slot)
    requires
        m.wf(),
        idx < m.slots.len(),
        slot.key == m.slots[idx as int].key,
        slot.database_key_index == m.slots[idx as int].database_key_index,
    ensures
        ({
            let m1 = StorageModel { slots: m.slots.update(idx as int, slot), ..m };
            &&& wf_before_use(m1, idx)
            &&& m1.distinct_keys()
        }),
{
    let m1 = StorageModel { slots: m.slots.update(idx as int, slot), ..m };
    assert forall|a: int, b: int| 0 <= a < b < m1.slots.len() implies m1.slots[a].key
        != m1.slots[b].key by {
        assert(m1.slots[a].key == m.slots[a].key);
        assert(m1.slots[b].key == m.slots[b].key);
    }
    assert forall|a: int| 0 <= a < m1.slots.len() implies (#[trigger] m1.slots[a]).database_key_index
        == m1.address_at(a) by {
        assert(m1.slots[a].database_key_index == m.slots[a].database_key_index);
    }
    assert forall|i: int|
        0 <= i < m1.slots.len() && (#[trigger] m1.slots[i]).has_payload() && i != idx implies
        m1.order.contains(i as usize) by {
        assert(m1.slots[i] == m.slots[i]);
        assert(m.slots[i].has_payload());
    }
}

/// Recording a use restores full well-formedness (the used slot's payload
/// becomes tracked, the victim's payload is cleared), and preserves stamp
/// bounds and policy consent.
proof fn lemma_record_use_wf<Q: QueryFunction, MP: MemoizationPolicy<Q>>(m: StorageModel, idx: usize)
    requires
        wf_before_use(m, idx),
        idx < m.slots.len(),
    ensures
        ({
            let p = record_use_model(m, idx);
            &&& p.wf()
            &&& (forall|rt: RuntimeState| m.bounded_by(rt) ==> #[trigger] p.bounded_by(rt))
            &&& (policy_ok::<Q, MP>(m) ==> policy_ok::<Q, MP>(p))
        }),
{
    lemma_touched_props(m.order, idx);
    lemma_record_use_slots(m, idx);
    let t = touched_spec(m.order, idx);
    let p = record_use_model(m, idx);
    let evicted: Option<usize> = if m.capacity > 0 && t.len() > m.capacity {
        Some(t[0])
    } else {
        None
    };
    // The resulting recency list: duplicate-free, in bounds, tracking.
    assert(distinct_seq(p.order)) by {
        match evicted {
            Some(_) => {
                assert forall|a: int, b: int| 0 <= a < b < p.order.len() implies p.order[a]
                    != p.order[b] by {
                    assert(p.order[a] == t[a + 1]);
                    assert(p.order[b] == t[b + 1]);
                }
            },
            None => (),
        }
    }
    assert forall|j: int| 0 <= j < p.order.len() implies (#[trigger] p.order[j]) < p.slots.len() by {
        let v = p.order[j];
        assert(t.contains(v)) by {
            match evicted {
                Some(_) => {
                    assert(t[j + 1] == v);
                },
                None => (),
            }
        }
        if v != idx {
            assert(m.order.contains(v));
            let w = choose|w: int| 0 <= w < m.order.len() && m.order[w] == v;
            assert(m.order[w] < m.slots.len());
        }
    }
    assert forall|i: int|
        0 <= i < p.slots.len() && (#[trigger] p.slots[i]).has_payload() implies p.order.contains(
        i as usize,
    ) by {
        match evicted {
            Some(v) => {
                if i == v as int {
                    assert(p.slots[i] == m.slots[i].evicted());
                    assert(!p.slots[i].has_payload());
                } else {
                    assert(p.slots[i] == m.slots[i]);
                    assert(p.order.contains(i as usize)) by {
                        if i == idx as int {
                            assert(t[t.len() - 1] == idx);
                            assert(p.order[p.order.len() - 1] == idx);
                        } else {
                            assert(m.order.contains(i as usize));
                            let w = choose|w: int|
                                0 <= w < m.order.len() && m.order[w] == i as usize;
                            // Its position in the touched list is past the victim.
                            lemma_touched_keeps_position(m.order, idx, w);
                            let w2 = choose|w2: int| 0 <= w2 < t.len() && t[w2] == i as usize;
                            assert(w2 != 0);
                            assert(p.order[w2 - 1] == i as usize);
                        }
                    }
                }
            },
            None => {
                if i == idx as int {
                    assert(t[t.len() - 1] == idx);
                } else {
                    assert(p.slots[i] == m.slots[i]);
                    assert(m.order.contains(i as usize));
                    lemma_touched_keeps_position(m.order, idx, choose|w: int|
                        0 <= w < m.order.len() && m.order[w] == i as usize);
                }
            },
        }
    }
    assert(p.wf());
    // Stamps and policy consent: an eviction clears a value, nothing else.
    assert forall|rt: RuntimeState| m.bounded_by(rt) implies #[trigger] p.bounded_by(rt) by {
        assert forall|i: int| 0 <= i < p.slots.len() implies match (#[trigger] p.slots[i]).memo() {
            Some(mm) => mm.bounded_by(rt),
            None => true,
        } by {
            assert(m.slots[i].memo() matches Some(mm) ==> mm.bounded_by(rt));
        }
    }
    if policy_ok::<Q, MP>(m) {
        assert forall|i: int| 0 <= i < p.slots.len() implies match (#[trigger] p.slots[i]).memo() {
            Some(mm) => mm.value is Some ==> MP::should_memoize_spec(p.slots[i].key),
            None => true,
        } by {
            assert(m.slots[i].memo() matches Some(mm) ==> (mm.value is Some
                ==> MP::should_memoize_spec(m.slots[i].key)));
        }
    }
}

/// A member of the recency list other than the one being touched is still a
/// member of the touched list.
proof fn lemma_touched_keeps_position(order: Seq<usize>, idx: usize, w: int)
    requires
        0 <= w < order.len(),
        order[w] != idx,
    ensures
        touched_spec(order, idx).contains(order[w]),
{
    let t = touched_spec(order, idx);
    if order.contains(idx) {
        let p = order.index_of(idx);
        assert(0 <= p < order.len() && order[p] == idx);
        let removed = order.remove(p);
        if w < p {
            assert(removed[w] == order[w]);
            assert(t[w] == order[w]);
        } else {
            assert(w != p);
            assert(removed[w - 1] == order[w]);
            assert(t[w - 1] == order[w]);
        }
    } else {
        assert(t[w] == order[w]);
    }
}

/// After a read resolves the slot at `idx` with `Ok`, that slot holds a memo
/// verified at the current revision whose stored value, durability and change
/// stamp are exactly those of the returned stamp; and no slot's key or
/// address moved.
proof fn lemma_read_ok_memo<Q: QueryFunction, MP: MemoizationPolicy<Q>>(
    m1: StorageModel,
    rt: RuntimeState,
    active: Seq<DatabaseKeyIndex>,
    idx: int,
)
    requires
        m1.wf(),
        rt.wf(),
        0 <= idx < m1.slots.len(),
        MP::should_memoize_spec(m1.slots[idx].key),
        step_read::<Q, MP>(m1, rt, active, idx).result is Ok,
    ensures
        ({
            let o = step_read::<Q, MP>(m1, rt, active, idx);
            let stamp = o.result->Ok_0;
            &&& o.post.slots.len() == m1.slots.len()
            &&& (forall|i: int|
                0 <= i < m1.slots.len() ==> (#[trigger] o.post.slots[i]).key == m1.slots[i].key
                    && o.post.slots[i].database_key_index == m1.slots[i].database_key_index)
            &&& o.post.slots[idx].state == QueryState::Memoized(
                Memo {
                    value: Some(stamp.value),
                    durability: stamp.durability,
                    changed_at: stamp.changed_at,
                    verified_at: rt.current,
                    stale_since: None,
                },
            )
            &&& o.post.group_index == m1.group_index
            &&& o.post.query_index == m1.query_index
        }),
{
    let o = step_read::<Q, MP>(m1, rt, active, idx);
    let slot = m1.slots[idx];
    let hit = match slot.state {
        QueryState::Memoized(memo) => memo.valid_at(rt) && memo.value is Some,
        _ => false,
    };
    if hit {
        let memo = match slot.state {
            QueryState::Memoized(memo) => memo,
            _ => arbitrary(),
        };
        let refreshed = crate::slot::Slot {
            state: QueryState::Memoized(Memo { verified_at: rt.current, ..memo }),
            ..slot
        };
        let mm = StorageModel { slots: m1.slots.update(idx, refreshed), ..m1 };
        lemma_record_use_slots(mm, idx as usize);
        assert(o.post.slots[idx] == refreshed);
        assert(memo.value == Some(o.result->Ok_0.value));
    } else {
        let cyc = active.contains(slot.database_key_index);
        assert(!(cyc && Q::strategy_spec() == CycleRecoveryStrategy::Fatal));
        let value = if cyc {
            Q::fallback_spec(rt.current, slot.key)
        } else {
            Q::result_spec(rt.current, slot.key)
        };
        let durability = if cyc {
            crate::Durability::Low
        } else {
            Q::durability_spec(rt.current, slot.key)
        };
        let changed_at = match slot.memo() {
            Some(memo) => match memo.value {
                Some(v_old) => if MP::value_eq_spec(v_old, value) {
                    memo.changed_at
                } else {
                    rt.current
                },
                None => rt.current,
            },
            None => rt.current,
        };
        let memo = Memo {
            value: Some(value),
            durability,
            changed_at,
            verified_at: rt.current,
            stale_since: None,
        };
        let updated = crate::slot::Slot { state: QueryState::Memoized(memo), ..slot };
        let mm = StorageModel { slots: m1.slots.update(idx, updated), ..m1 };
        lemma_record_use_slots(mm, idx as usize);
        assert(o.post.slots[idx] == updated);
    }
}

/// One fetch preserves every invariant the engine maintains: the table stays
/// well-formed, stamp bounds and policy consent carry over, the key's slot
/// exists afterwards (unless the fetch was cancelled), and at most one slot
/// was created.
pub proof fn lemma_fetch_preserves_invariants<Q: QueryFunction, MP: MemoizationPolicy<Q>>(
    m: StorageModel,
    rt: RuntimeState,
    active: Seq<DatabaseKeyIndex>,
    key: u64,
)
    requires
        m.wf(),
        rt.wf(),
        m.has_key(key) || m.slots.len() < u32::MAX,
    ensures
        ({
            let o = step_fetch::<Q, MP>(m, rt, active, key);
            &&& o.post.wf()
            &&& (policy_ok::<Q, MP>(m) ==> policy_ok::<Q, MP>(o.post))
            &&& (m.bounded_by(rt) ==> o.post.bounded_by(rt))
            &&& (!rt.cancelled ==> o.post.has_key(key))
            &&& o.post.slots.len() <= m.slots.len() + 1
            &&& o.post.group_index == m.group_index
            &&& o.post.query_index == m.query_index
            &&& o.post.capacity == m.capacity
        }),
{
    let o = step_fetch::<Q, MP>(m, rt, active, key);
    if !rt.cancelled {
        lemma_with_slot_wf(m, key);
        let (m1, idx) = with_slot(m, key);
        assert(o == step_read::<Q, MP>(m1, rt, active, idx));
        // The invariants extend over the possibly fresh, not-computed slot.
        let policy1 = policy_ok::<Q, MP>(m1);
        if policy_ok::<Q, MP>(m) {
            assert forall|i: int| 0 <= i < m1.slots.len() implies match (#[trigger] m1.slots[i]).memo() {
                Some(mm) => mm.value is Some ==> MP::should_memoize_spec(m1.slots[i].key),
                None => true,
            } by {
                if i < m.slots.len() {
                    assert(m.slots[i].memo() matches Some(mm) ==> (mm.value is Some
                        ==> MP::should_memoize_spec(m.slots[i].key)));
                }
            }
        }
        if m.bounded_by(rt) {
            assert forall|i: int| 0 <= i < m1.slots.len() implies match (#[trigger] m1.slots[i]).memo() {
                Some(mm) => mm.bounded_by(rt),
                None => true,
            } by {
                if i < m.slots.len() {
                    assert(m.slots[i].memo() matches Some(mm) ==> mm.bounded_by(rt));
                }
            }
        }
        let slot = m1.slots[idx];
        let hit = match slot.state {
            QueryState::Memoized(memo) => memo.valid_at(rt) && memo.value is Some,
            _ => false,
        };
        if hit {
            let memo = match slot.state {
                QueryState::Memoized(memo) => memo,
                _ => arbitrary(),
            };
            let refreshed = crate::slot::Slot {
                state: QueryState::Memoized(Memo { verified_at: rt.current, ..memo }),
                ..slot
            };
            let mm = StorageModel { slots: m1.slots.update(idx, refreshed), ..m1 };
            lemma_update_slot_wf(m1, idx as usize, refreshed);
            lemma_record_use_wf::<Q, MP>(mm, idx as usize);
            lemma_record_use_slots(mm, idx as usize);
            if policy_ok::<Q, MP>(m) {
                assert(policy_ok::<Q, MP>(mm)) by {
                    assert forall|i: int| 0 <= i < mm.slots.len() implies match (#[trigger] mm.slots[i]).memo() {
                        Some(x) => x.value is Some ==> MP::should_memoize_spec(mm.slots[i].key),
                        None => true,
                    } by {
                        if i != idx {
                            assert(m1.slots[i].memo() matches Some(x) ==> (x.value is Some
                                ==> MP::should_memoize_spec(m1.slots[i].key)));
                        }
                    }
                }
            }
            if m.bounded_by(rt) {
                assert(mm.bounded_by(rt)) by {
                    assert forall|i: int| 0 <= i < mm.slots.len() implies match (#[trigger] mm.slots[i]).memo() {
                        Some(x) => x.bounded_by(rt),
                        None => true,
                    } by {
                        assert(m1.slots[i].memo() matches Some(x) ==> x.bounded_by(rt));
                    }
                }
            }
            assert(o.post.slots[idx].key == key);
            assert(o.post.has_key(key));
        } else {
            let cyc = active.contains(slot.database_key_index);
            if cyc && Q::strategy_spec() == CycleRecoveryStrategy::Fatal {
                assert(o.post == m1);
                assert(o.post.has_key(key)) by {
                    assert(m1.slots[idx].key == key);
                }
            } else {
                let value = if cyc {
                    Q::fallback_spec(rt.current, slot.key)
                } else {
                    Q::result_spec(rt.current, slot.key)
                };
                let durability = if cyc {
                    crate::Durability::Low
                } else {
                    Q::durability_spec(rt.current, slot.key)
                };
                let changed_at = match slot.memo() {
                    Some(memo) => match memo.value {
                        Some(v_old) => if MP::value_eq_spec(v_old, value) {
                            memo.changed_at
                        } else {
                            rt.current
                        },
                        None => rt.current,
                    },
                    None => rt.current,
                };
                let memo = Memo {
                    value: if MP::should_memoize_spec(slot.key) {
                        Some(value)
                    } else {
                        None
                    },
                    durability,
                    changed_at,
                    verified_at: rt.current,
                    stale_since: None,
                };
                let updated = crate::slot::Slot { state: QueryState::Memoized(memo), ..slot };
                let mm = StorageModel { slots: m1.slots.update(idx, updated), ..m1 };
                lemma_update_slot_wf(m1, idx as usize, updated);
                lemma_record_use_wf::<Q, MP>(mm, idx as usize);
                lemma_record_use_slots(mm, idx as usize);
                if policy_ok::<Q, MP>(m) {
                    assert(policy_ok::<Q, MP>(mm)) by {
                        assert forall|i: int| 0 <= i < mm.slots.len() implies match (#[trigger] mm.slots[i]).memo() {
                            Some(x) => x.value is Some ==> MP::should_memoize_spec(mm.slots[i].key),
                            None => true,
                        } by {
                            if i != idx {
                                assert(m1.slots[i].memo() matches Some(x) ==> (x.value is Some
                                    ==> MP::should_memoize_spec(m1.slots[i].key)));
                            }
                        }
                    }
                }
                if m.bounded_by(rt) {
                    assert(mm.bounded_by(rt)) by {
                        assert forall|i: int| 0 <= i < mm.slots.len() implies match (#[trigger] mm.slots[i]).memo() {
                            Some(x) => x.bounded_by(rt),
                            None => true,
                        } by {
                            if i != idx {
                                assert(m1.slots[i].memo() matches Some(x) ==> x.bounded_by(rt));
                            } else {
                                assert(m1.slots[i].memo() matches Some(x) ==> x.bounded_by(rt));
                                assert(memo.changed_at.n <= rt.current.n);
                            }
                        }
                    }
                }
                assert(o.post.slots[idx].key == key);
                assert(o.post.has_key(key));
            }
        }
    }
}

/// Idempotence: at a fixed runtime state, once a fetch of `key` has returned
/// a stamp, any immediately repeated fetch of the same key returns the
/// bit-identical stamp without executing the query function again — whatever
/// active-query stack the repeat runs under.
pub proof fn lemma_fetch_idempotent<Q: QueryFunction, MP: MemoizationPolicy<Q>>(
    m: StorageModel,
    rt: RuntimeState,
    active: Seq<DatabaseKeyIndex>,
    active2: Seq<DatabaseKeyIndex>,
    key: u64,
)
    requires
        m.wf(),
        policy_ok::<Q, MP>(m),
        m.bounded_by(rt),
        rt.wf(),
        !rt.cancelled,
        MP::should_memoize_spec(key),
        m.has_key(key) || m.slots.len() < u32::MAX,
    ensures
        ({
            let o1 = step_fetch::<Q, MP>(m, rt, active, key);
            let o2 = step_fetch::<Q, MP>(o1.post, rt, active2, key);
            o1.result is Ok ==> {
                &&& o2.result == o1.result
                &&& !o2.executed
            }
        }),
{
    let o1 = step_fetch::<Q, MP>(m, rt, active, key);
    if o1.result is Ok {
        lemma_with_slot_wf(m, key);
        let (m1, idx) = with_slot(m, key);
        assert(o1 == step_read::<Q, MP>(m1, rt, active, idx));
        lemma_read_ok_memo::<Q, MP>(m1, rt, active, idx);
        let stamp = o1.result->Ok_0;
        let post = o1.post;
        // The slot for `key` still stands at `idx` with a fresh, valid memo.
        assert(post.distinct_keys()) by {
            assert forall|a: int, b: int| 0 <= a < b < post.slots.len() implies post.slots[a].key
                != post.slots[b].key by {
                assert(post.slots[a].key == m1.slots[a].key);
                assert(post.slots[b].key == m1.slots[b].key);
            }
        }
        lemma_key_index_unique(post, idx);
        assert(post.has_key(key));
        assert(with_slot(post, key) == (post, idx));
        let o2 = step_fetch::<Q, MP>(post, rt, active2, key);
        assert(o2 == step_read::<Q, MP>(post, rt, active2, idx));
        let memo2 = Memo {
            value: Some(stamp.value),
            durability: stamp.durability,
            changed_at: stamp.changed_at,
            verified_at: rt.current,
            stale_since: None,
        };
        assert(post.slots[idx].state == QueryState::Memoized(memo2));
        assert(memo2.valid_at(rt));
        assert(o2.result == Ok::<_, Signal>(stamp));
        assert(!o2.executed);
    }
}

/// The outcome of the `n`-th of `n` consecutive fetches of one key at one
/// runtime state, each applied to the previous fetch's post-state.
pub open spec fn fetch_iter<Q: QueryFunction, MP: MemoizationPolicy<Q>>(
    m: StorageModel,
    rt: RuntimeState,
    active: Seq<DatabaseKeyIndex>,
    key: u64,
    n: nat,
) -> FetchOutcome
    decreases n,
{
    if n <= 1 {
        step_fetch::<Q, MP>(m, rt, active, key)
    } else {
        step_fetch::<Q, MP>(fetch_iter::<Q, MP>(m, rt, active, key, (n - 1) as nat).post, rt, active, key)
    }
}

/// Unrolling a fetch train from the front: the `n + 1`-st fetch from `m` is
/// the `n`-th fetch from the first fetch's post-state.
proof fn lemma_fetch_iter_shift<Q: QueryFunction, MP: MemoizationPolicy<Q>>(
    m: StorageModel,
    rt: RuntimeState,
    active: Seq<DatabaseKeyIndex>,
    key: u64,
    n: nat,
)
    requires
        n >= 1,
    ensures
        fetch_iter::<Q, MP>(m, rt, active, key, n + 1) == fetch_iter::<Q, MP>(
            step_fetch::<Q, MP>(m, rt, active, key).post,
            rt,
            active,
            key,
            n,
        ),
    decreases n,
{
    let p1 = step_fetch::<Q, MP>(m, rt, active, key).post;
    if n == 1 {
        assert(fetch_iter::<Q, MP>(m, rt, active, key, 2) == step_fetch::<Q, MP>(
            fetch_iter::<Q, MP>(m, rt, active, key, 1).post,
            rt,
            active,
            key,
        ));
        assert(fetch_iter::<Q, MP>(m, rt, active, key, 1) == step_fetch::<Q, MP>(m, rt, active, key));
        assert(fetch_iter::<Q, MP>(p1, rt, active, key, 1) == step_fetch::<Q, MP>(p1, rt, active, key));
    } else {
        lemma_fetch_iter_shift::<Q, MP>(m, rt, active, key, (n - 1) as nat);
        assert(fetch_iter::<Q, MP>(m, rt, active, key, n + 1) == step_fetch::<Q, MP>(
            fetch_iter::<Q, MP>(m, rt, active, key, n).post,
            rt,
            active,
            key,
        ));
        assert(fetch_iter::<Q, MP>(p1, rt, active, key, n) == step_fetch::<Q, MP>(
            fetch_iter::<Q, MP>(p1, rt, active, key, (n - 1) as nat).post,
            rt,
            active,
            key,
        ));
    }
}

/// Idempotence over a whole train of fetches: once the first fetch of `key`
/// returns a stamp, every one of the following fetches — however many —
/// returns the bit-identical stamp, and the query function runs at most once
/// in the whole train (in the first fetch, if at all).
pub proof fn lemma_fetch_train_idempotent<Q: QueryFunction, MP: MemoizationPolicy<Q>>(
    m: StorageModel,
    rt: RuntimeState,
    active: Seq<DatabaseKeyIndex>,
    key: u64,
    n: nat,
)
    requires
        m.wf(),
        policy_ok::<Q, MP>(m),
        m.bounded_by(rt),
        rt.wf(),
        !rt.cancelled,
        MP::should_memoize_spec(key),
        m.has_key(key) || m.slots.len() < u32::MAX,
        step_fetch::<Q, MP>(m, rt, active, key).result is Ok,
        n >= 2,
    ensures
        fetch_iter::<Q, MP>(m, rt, active, key, n).result == step_fetch::<Q, MP>(
            m,
            rt,
            active,
            key,
        ).result,
        !fetch_iter::<Q, MP>(m, rt, active, key, n).executed,
    decreases n,
{
    let o1 = step_fetch::<Q, MP>(m, rt, active, key);
    lemma_fetch_preserves_invariants::<Q, MP>(m, rt, active, key);
    lemma_fetch_idempotent::<Q, MP>(m, rt, active, active, key);
    lemma_fetch_iter_shift::<Q, MP>(m, rt, active, key, (n - 1) as nat);
    if n == 2 {
    } else {
        lemma_fetch_train_idempotent::<Q, MP>(o1.post, rt, active, key, (n - 1) as nat);
    }
}

/// Address stability: a fetch (of any key) never moves an existing key's
/// insertion index or address.
pub proof fn lemma_fetch_preserves_addresses<Q: QueryFunction, MP: MemoizationPolicy<Q>>(
    m: StorageModel,
    rt: RuntimeState,
    active: Seq<DatabaseKeyIndex>,
    key: u64,
    k: u64,
)
    requires
        m.wf(),
        rt.wf(),
        m.has_key(key) || m.slots.len() < u32::MAX,
        m.has_key(k),
    ensures
        ({
            let o = step_fetch::<Q, MP>(m, rt, active, key);
            &&& o.post.has_key(k)
            &&& o.post.key_index_of(k) == m.key_index_of(k)
            &&& o.post.slots[m.key_index_of(k)].database_key_index == m.slots[m.key_index_of(
                k,
            )].database_key_index
        }),
{
    let o = step_fetch::<Q, MP>(m, rt, active, key);
    let ik = m.key_index_of(k);
    assert(0 <= ik < m.slots.len() && m.slots[ik].key == k);
    if rt.cancelled {
        assert(o.post == m);
        lemma_key_index_unique(m, ik);
    } else {
        lemma_with_slot_wf(m, key);
        let (m1, idx) = with_slot(m, key);
        assert(o == step_read::<Q, MP>(m1, rt, active, idx));
        // Whatever the read did, keys and addresses are pointwise preserved.
        let slot = m1.slots[idx];
        let preserved = {
            &&& o.post.slots.len() == m1.slots.len()
            &&& (forall|i: int|
                0 <= i < m1.slots.len() ==> (#[trigger] o.post.slots[i]).key == m1.slots[i].key
                    && o.post.slots[i].database_key_index == m1.slots[i].database_key_index)
        };
        let hit = match slot.state {
            QueryState::Memoized(memo) => memo.valid_at(rt) && memo.value is Some,
            _ => false,
        };
        if hit {
            let memo = match slot.state {
                QueryState::Memoized(memo) => memo,
                _ => arbitrary(),
            };
            let refreshed = crate::slot::Slot {
                state: QueryState::Memoized(Memo { verified_at: rt.current, ..memo }),
                ..slot
            };
            let mm = StorageModel { slots: m1.slots.update(idx, refreshed), ..m1 };
            lemma_record_use_slots(mm, idx as usize);
            assert(preserved);
        } else {
            let cyc = active.contains(slot.database_key_index);
            if cyc && Q::strategy_spec() == CycleRecoveryStrategy::Fatal {
                assert(o.post == m1);
                assert(preserved);
            } else {
                let value = if cyc {
                    Q::fallback_spec(rt.current, slot.key)
                } else {
                    Q::result_spec(rt.current, slot.key)
                };
                let durability = if cyc {
                    crate::Durability::Low
                } else {
                    Q::durability_spec(rt.current, slot.key)
                };
                let changed_at = match slot.memo() {
                    Some(memo) => match memo.value {
                        Some(v_old) => if MP::value_eq_spec(v_old, value) {
                            memo.changed_at
                        } else {
                            rt.current
                        },
                        None => rt.current,
                    },
                    None => rt.current,
                };
                let memo = Memo {
                    value: if MP::should_memoize_spec(slot.key) {
                        Some(value)
                    } else {
                        None
                    },
                    durability,
                    changed_at,
                    verified_at: rt.current,
                    stale_since: None,
                };
                let updated = crate::slot::Slot { state: QueryState::Memoized(memo), ..slot };
                let mm = StorageModel { slots: m1.slots.update(idx, updated), ..m1 };
                lemma_record_use_slots(mm, idx as usize);
                assert(preserved);
            }
        }
        assert(o.post.slots[ik].key == k);
        assert(o.post.distinct_keys()) by {
            assert forall|a: int, b: int| 0 <= a < b < o.post.slots.len() implies o.post.slots[a].key
                != o.post.slots[b].key by {
                assert(o.post.slots[a].key == m1.slots[a].key);
                assert(o.post.slots[b].key == m1.slots[b].key);
            }
        }
        lemma_key_index_unique(o.post, ik);
    }
}

/// Address stability across two fetches: between mass purges, the first fetch
/// pins the key's insertion index, and the second fetch of the same key
/// resolves to exactly that index.
pub proof fn lemma_address_stability<Q: QueryFunction, MP: MemoizationPolicy<Q>>(
    m: StorageModel,
    rt1: RuntimeState,
    active1: Seq<DatabaseKeyIndex>,
    rt2: RuntimeState,
    active2: Seq<DatabaseKeyIndex>,
    key: u64,
)
    requires
        m.wf(),
        rt1.wf(),
        rt2.wf(),
        !rt1.cancelled,
        m.slots.len() < u32::MAX,
    ensures
        ({
            let i1 = with_slot(m, key).1;
            let o1 = step_fetch::<Q, MP>(m, rt1, active1, key);
            &&& o1.post.has_key(key)
            &&& o1.post.key_index_of(key) == i1
            &&& with_slot(o1.post, key).1 == i1
        }),
{
    lemma_with_slot_wf(m, key);
    let (m1, idx) = with_slot(m, key);
    let o1 = step_fetch::<Q, MP>(m, rt1, active1, key);
    assert(o1 == step_read::<Q, MP>(m1, rt1, active1, idx));
    // `m1` has `key` at `idx`, so stability over the read applies to `key`.
    assert(m1.has_key(key)) by {
        assert(m1.slots[idx].key == key);
    }
    lemma_key_index_unique(m1, idx);
    lemma_fetch_preserves_addresses::<Q, MP>(m1, rt1, active1, key, key);
    assert(step_fetch::<Q, MP>(m1, rt1, active1, key) == step_read::<Q, MP>(m1, rt1, active1, idx))
        by {
        assert(with_slot(m1, key) == (m1, idx));
    }
}

/// Invalidation touches only the staleness mark of one memo: every slot keeps
/// its key, address and payload, and the table stays well-formed.
proof fn lemma_invalidate_preserves(m: StorageModel, key: u64, new_revision: crate::Revision)
    requires
        m.wf(),
    ensures
        ({
            let p = step_invalidate(m, key, new_revision).0;
            &&& p.wf()
            &&& p.slots.len() == m.slots.len()
            &&& (forall|i: int|
                0 <= i < m.slots.len() ==> (#[trigger] p.slots[i]).key == m.slots[i].key
                    && p.slots[i].database_key_index == m.slots[i].database_key_index)
            &&& p.group_index == m.group_index
            &&& p.query_index == m.query_index
            &&& p.capacity == m.capacity
            &&& p.order == m.order
        }),
{
    let p = step_invalidate(m, key, new_revision).0;
    if m.has_key(key) {
        let idx = m.key_index_of(key);
        assert(0 <= idx < m.slots.len() && m.slots[idx].key == key);
        assert forall|a: int, b: int| 0 <= a < b < p.slots.len() implies p.slots[a].key
            != p.slots[b].key by {
            assert(p.slots[a].key == m.slots[a].key);
            assert(p.slots[b].key == m.slots[b].key);
        }
        assert forall|a: int| 0 <= a < p.slots.len() implies (#[trigger] p.slots[a]).database_key_index
            == p.address_at(a) by {
            assert(p.slots[a].database_key_index == m.slots[a].database_key_index);
        }
        assert forall|a: int|
            0 <= a < p.slots.len() && (#[trigger] p.slots[a]).has_payload() implies p.order.contains(
            a as usize,
        ) by {
            assert(m.slots[a].has_payload());
        }
        assert(p.wf());
    }
}

/// One storage operation between two lookups of an address, as the
/// dependency edges see it. The mass purge is deliberately absent: address
/// stability is promised only between purges.
pub enum EngineOp {
    Fetch { rt: RuntimeState, active: Seq<DatabaseKeyIndex>, key: u64 },
    Invalidate { key: u64, new_revision: crate::Revision },
    SetCapacity { new_capacity: usize },
}

/// A fetch is driven by a consistent revision authority.
pub open spec fn op_ok(op: EngineOp) -> bool {
    match op {
        EngineOp::Fetch { rt, .. } => rt.wf(),
        _ => true,
    }
}

pub open spec fn apply_op<Q: QueryFunction, MP: MemoizationPolicy<Q>>(
    m: StorageModel,
    op: EngineOp,
) -> StorageModel {
    match op {
        EngineOp::Fetch { rt, active, key } => step_fetch::<Q, MP>(m, rt, active, key).post,
        EngineOp::Invalidate { key, new_revision } => step_invalidate(m, key, new_revision).0,
        EngineOp::SetCapacity { new_capacity } => StorageModel { capacity: new_capacity, ..m },
    }
}

pub open spec fn apply_ops<Q: QueryFunction, MP: MemoizationPolicy<Q>>(
    m: StorageModel,
    ops: Seq<EngineOp>,
) -> StorageModel
    decreases ops.len(),
{
    if ops.len() == 0 {
        m
    } else {
        apply_ops::<Q, MP>(apply_op::<Q, MP>(m, ops[0]), ops.drop_first())
    }
}

/// Address stability under arbitrary interleavings: whatever fetches,
/// invalidations, evictions and capacity changes run between two lookups of a
/// key, its insertion index and address are those of the first lookup, as
/// long as no mass purge intervenes.
pub proof fn lemma_address_stability_under_ops<Q: QueryFunction, MP: MemoizationPolicy<Q>>(
    m: StorageModel,
    ops: Seq<EngineOp>,
    k: u64,
)
    requires
        m.wf(),
        m.has_key(k),
        forall|i: int| 0 <= i < ops.len() ==> op_ok(#[trigger] ops[i]),
        m.slots.len() + ops.len() <= u32::MAX,
    ensures
        ({
            let p = apply_ops::<Q, MP>(m, ops);
            &&& p.wf()
            &&& p.has_key(k)
            &&& p.key_index_of(k) == m.key_index_of(k)
            &&& p.slots[m.key_index_of(k)].database_key_index == m.slots[m.key_index_of(
                k,
            )].database_key_index
        }),
    decreases ops.len(),
{
    if ops.len() == 0 {
    } else {
        let op = ops[0];
        assert(op_ok(op));
        let m1 = apply_op::<Q, MP>(m, op);
        let ik = m.key_index_of(k);
        assert(0 <= ik < m.slots.len() && m.slots[ik].key == k);
        match op {
            EngineOp::Fetch { rt, active, key } => {
                lemma_fetch_preserves_invariants::<Q, MP>(m, rt, active, key);
                lemma_fetch_preserves_addresses::<Q, MP>(m, rt, active, key, k);
            },
            EngineOp::Invalidate { key, new_revision } => {
                lemma_invalidate_preserves(m, key, new_revision);
                lemma_key_index_unique(m1, ik);
            },
            EngineOp::SetCapacity { .. } => {
                assert(m1.wf());
                lemma_key_index_unique(m1, ik);
            },
        }
        assert(m1.has_key(k) && m1.key_index_of(k) == ik);
        assert(m1.slots[ik].database_key_index == m.slots[ik].database_key_index);
        assert(m1.slots.len() <= m.slots.len() + 1);
        let rest = ops.drop_first();
        assert forall|i: int| 0 <= i < rest.len() implies op_ok(#[trigger] rest[i]) by {
            assert(rest[i] == ops[i + 1]);
        }
        lemma_address_stability_under_ops::<Q, MP>(m1, rest, k);
    }
}

/// Backdating: when a recompute is forced at a later revision and the policy
/// finds the new value equivalent to the stored one, the change stamp of the
/// result is the old one — it is not advanced to the current revision.
pub proof fn lemma_backdating<Q: QueryFunction, MP: MemoizationPolicy<Q>>(
    m: StorageModel,
    rt: RuntimeState,
    active: Seq<DatabaseKeyIndex>,
    key: u64,
    memo: Memo,
    v_old: u64,
)
    requires
        m.wf(),
        rt.wf(),
        !rt.cancelled,
        m.slots.len() < u32::MAX,
        m.has_key(key),
        m.slots[m.key_index_of(key)].state == QueryState::Memoized(memo),
        memo.value == Some(v_old),
        // the memo does not license returning the cached stamp: a recompute runs
        !memo.valid_at(rt),
        // this call path is not already computing this address
        !active.contains(m.slots[m.key_index_of(key)].database_key_index),
        // the recomputed value is equivalent under the policy
        MP::value_eq_spec(v_old, Q::result_spec(rt.current, key)),
    ensures
        ({
            let o = step_fetch::<Q, MP>(m, rt, active, key);
            &&& o.result matches Ok(stamp)
            &&& o.result->Ok_0.changed_at == memo.changed_at
            &&& o.result->Ok_0.value == Q::result_spec(rt.current, key)
            &&& o.executed
        }),
{
    let idx = m.key_index_of(key);
    assert(0 <= idx < m.slots.len() && m.slots[idx].key == key);
    assert(with_slot(m, key) == (m, idx));
    let o = step_fetch::<Q, MP>(m, rt, active, key);
    assert(o == step_read::<Q, MP>(m, rt, active, idx));
    let slot = m.slots[idx];
    assert(!(match slot.state {
        QueryState::Memoized(mm) => mm.valid_at(rt) && mm.value is Some,
        _ => false,
    }));
    assert(o == step_compute::<Q, MP>(m, rt, active, idx));
}

/// Cycle detection: requesting an address that is already being computed on
/// the same call path, for a query with no declared recovery, surfaces the
/// cycle as an error and leaves every slot's state unchanged.
pub proof fn lemma_cycle_detected<Q: QueryFunction, MP: MemoizationPolicy<Q>>(
    m: StorageModel,
    rt: RuntimeState,
    active: Seq<DatabaseKeyIndex>,
    key: u64,
)
    requires
        m.wf(),
        rt.wf(),
        !rt.cancelled,
        m.slots.len() < u32::MAX,
        Q::strategy_spec() == CycleRecoveryStrategy::Fatal,
        ({
            let (m1, idx) = with_slot(m, key);
            &&& active.contains(m1.slots[idx].database_key_index)
            &&& !(match m1.slots[idx].state {
                QueryState::Memoized(memo) => memo.valid_at(rt) && memo.value is Some,
                _ => false,
            })
        }),
    ensures
        ({
            let o = step_fetch::<Q, MP>(m, rt, active, key);
            &&& o.result == Err::<crate::plumbing::StampedValue, Signal>(Signal::CycleDetected)
            &&& o.post == with_slot(m, key).0
            &&& !o.executed
        }),
{
    lemma_with_slot_wf(m, key);
    let (m1, idx) = with_slot(m, key);
    let o = step_fetch::<Q, MP>(m, rt, active, key);
    assert(o == step_read::<Q, MP>(m1, rt, active, idx));
    assert(o == step_compute::<Q, MP>(m1, rt, active, idx));
}

/// One execution per uncomputed key: the first fetch of a key with no slot
/// yet runs the query function exactly once, and a repeat fetch at the same
/// runtime state re-runs nothing and observes the same stamp.
pub proof fn lemma_single_execution<Q: QueryFunction, MP: MemoizationPolicy<Q>>(
    m: StorageModel,
    rt: RuntimeState,
    active: Seq<DatabaseKeyIndex>,
    active2: Seq<DatabaseKeyIndex>,
    key: u64,
)
    requires
        m.wf(),
        policy_ok::<Q, MP>(m),
        m.bounded_by(rt),
        rt.wf(),
        !rt.cancelled,
        MP::should_memoize_spec(key),
        m.slots.len() < u32::MAX,
        !m.has_key(key),
        ({
            let (m1, idx) = with_slot(m, key);
            !active.contains(m1.slots[idx].database_key_index)
        }),
    ensures
        ({
            let o1 = step_fetch::<Q, MP>(m, rt, active, key);
            let o2 = step_fetch::<Q, MP>(o1.post, rt, active2, key);
            &&& o1.executed
            &&& o1.result matches Ok(stamp)
            &&& o2.result == o1.result
            &&& !o2.executed
        }),
{
    lemma_with_slot_wf(m, key);
    let (m1, idx) = with_slot(m, key);
    let o1 = step_fetch::<Q, MP>(m, rt, active, key);
    assert(o1 == step_read::<Q, MP>(m1, rt, active, idx));
    assert(m1.slots[idx].state == QueryState::NotComputed);
    assert(o1 == step_compute::<Q, MP>(m1, rt, active, idx));
    assert(o1.executed);
    lemma_fetch_idempotent::<Q, MP>(m, rt, active, active2, key);
}

/// Eviction costs one recomputation: fetching a key whose payload was evicted
/// runs the query function exactly once, and a repeat fetch at the same
/// runtime state re-runs nothing and observes the same stamp.
pub proof fn lemma_evicted_key_recomputes<Q: QueryFunction, MP: MemoizationPolicy<Q>>(
    m: StorageModel,
    rt: RuntimeState,
    active: Seq<DatabaseKeyIndex>,
    active2: Seq<DatabaseKeyIndex>,
    key: u64,
)
    requires
        m.wf(),
        policy_ok::<Q, MP>(m),
        m.bounded_by(rt),
        rt.wf(),
        !rt.cancelled,
        MP::should_memoize_spec(key),
        m.has_key(key),
        // the slot survived its eviction: a memo without a payload
        m.slots[m.key_index_of(key)].memo() matches Some(memo) && memo.value is None,
        !active.contains(m.slots[m.key_index_of(key)].database_key_index),
    ensures
        ({
            let o1 = step_fetch::<Q, MP>(m, rt, active, key);
            let o2 = step_fetch::<Q, MP>(o1.post, rt, active2, key);
            &&& o1.executed
            &&& o1.result matches Ok(stamp)
            &&& o2.result == o1.result
            &&& !o2.executed
        }),
{
    let idx = m.key_index_of(key);
    assert(0 <= idx < m.slots.len() && m.slots[idx].key == key);
    assert(with_slot(m, key) == (m, idx));
    let o1 = step_fetch::<Q, MP>(m, rt, active, key);
    assert(o1 == step_read::<Q, MP>(m, rt, active, idx));
    assert(o1 == step_compute::<Q, MP>(m, rt, active, idx));
    assert(o1.executed);
    lemma_fetch_idempotent::<Q, MP>(m, rt, active, active2, key);
}

/// A fetch never grows the recency list past the enabled bound, and once the
/// list is within the bound it stays there; lowering the bound is then healed
/// one eviction per fetch.
pub proof fn lemma_fetch_preserves_lru_bound<Q: QueryFunction, MP: MemoizationPolicy<Q>>(
    m: StorageModel,
    rt: RuntimeState,
    active: Seq<DatabaseKeyIndex>,
    key: u64,
)
    requires
        m.wf(),
        rt.wf(),
        m.has_key(key) || m.slots.len() < u32::MAX,
        m.within_lru_bound(),
    ensures
        ({
            let o = step_fetch::<Q, MP>(m, rt, active, key);
            &&& o.post.capacity == m.capacity
            &&& o.post.within_lru_bound()
        }),
{
    let o = step_fetch::<Q, MP>(m, rt, active, key);
    if !rt.cancelled {
        lemma_with_slot_wf(m, key);
        let (m1, idx) = with_slot(m, key);
        assert(o == step_read::<Q, MP>(m1, rt, active, idx));
        lemma_touched_props(m1.order, idx as usize);
        let t = touched_spec(m1.order, idx as usize);
        assert(t.len() <= m1.order.len() + 1);
        let slot = m1.slots[idx];
        let hit = match slot.state {
            QueryState::Memoized(memo) => memo.valid_at(rt) && memo.value is Some,
            _ => false,
        };
        if hit || !(active.contains(slot.database_key_index) && Q::strategy_spec()
            == CycleRecoveryStrategy::Fatal) {
            // Both resolving paths end in one record_use step.
            if m.capacity > 0 && t.len() > m.capacity {
                assert(o.post.order.len() == t.len() - 1);
            } else {
                assert(o.post.order == t);
            }
        }
    }
}

/// The indices of the slots that retain a live payload.
pub open spec fn payload_indices(m: StorageModel) -> Set<usize> {
    Set::new(|u: usize| u < m.slots.len() && m.slots[u as int].has_payload())
}

/// LRU bound: in a well-formed storage whose recency list is within the
/// enabled bound — which every fetch preserves — at most `capacity` slots
/// retain a live payload.
pub proof fn lemma_lru_bound(m: StorageModel)
    requires
        m.wf(),
        m.capacity > 0,
        m.within_lru_bound(),
    ensures
        payload_indices(m).finite(),
        payload_indices(m).len() <= m.capacity,
{
    broadcast use vstd::seq_lib::seq_to_set_is_finite;

    let tracked_set = m.order.to_set();
    assert(payload_indices(m).subset_of(tracked_set)) by {
        assert forall|u: usize| payload_indices(m).contains(u) implies tracked_set.contains(u) by {
            assert(m.slots[u as int].has_payload());
            assert(m.order.contains(u));
        }
    }
    lemma_len_subset(payload_indices(m), tracked_set);
    m.order.lemma_cardinality_of_set();
}

} // verus!
