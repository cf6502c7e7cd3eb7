use derived_memo::Durability;
use derived_memo::Revision;
use derived_memo::derived::AlwaysMemoizeValue;
use derived_memo::derived::DerivedGlobalStorage;
use derived_memo::derived::DerivedStorage;
use derived_memo::derived::NeverMemoizeValue;
use derived_memo::plumbing::DatabaseKeyIndex;
use derived_memo::plumbing::QueryFunction;
use derived_memo::plumbing::RuntimeState;
use derived_memo::plumbing::Signal;
use derived_memo::queries::AddRevisionQuery;
use derived_memo::queries::DoubleQuery;
use derived_memo::queries::DoubleWithFallback;

fn rt(current: u64, lc_low: u64, lc_medium: u64, lc_high: u64) -> RuntimeState {
    RuntimeState {
        current: Revision { n: current },
        last_changed_low: Revision { n: lc_low },
        last_changed_medium: Revision { n: lc_medium },
        last_changed_high: Revision { n: lc_high },
        cancelled: false,
    }
}

#[test]
fn concrete_scenario_double() {
    // Query double(x) = x * 2, capacity 100.
    let mut g: DerivedGlobalStorage<DoubleQuery, AlwaysMemoizeValue> = DerivedGlobalStorage::new(0);
    g.set_lru_capacity(100);
    let empty: Vec<DatabaseKeyIndex> = Vec::new();

    // Fetch double(21) at revision 0 -> (42, changed_at = 0).
    let rt0 = rt(0, 0, 0, 0);
    let s0 = g.fetch(&rt0, &empty, 21).unwrap();
    assert_eq!(s0.value, 42);
    assert_eq!(s0.changed_at, Revision { n: 0 });

    // Bump the revision to 1 without invalidating double(21):
    // maybe_changed_since(double(21), 0) is false and nothing recomputes.
    let rt1 = rt(1, 0, 0, 0);
    let addr = g.database_key_index(21).unwrap();
    assert_eq!(addr, DatabaseKeyIndex { group_index: 0, query_index: 1, key_index: 0 });
    let changed = g.maybe_changed_since(&rt1, &empty, addr, Revision { n: 0 }).unwrap();
    assert!(!changed);
    let again = g.fetch(&rt1, &empty, 21).unwrap();
    assert_eq!(again, s0);

    // Invalidate double(21) at revision 2: the next fetch recomputes; the
    // recomputed value equals the old one, so backdating applies and
    // changed_at stays 0.
    let prior = g.invalidate(21, Revision { n: 2 });
    assert_eq!(prior, Some(Durability::Low));
    let rt2 = rt(2, 2, 0, 0);
    let s2 = g.fetch(&rt2, &empty, 21).unwrap();
    assert_eq!(s2.value, 42);
    assert_eq!(s2.changed_at, Revision { n: 0 });
}

#[test]
fn idempotent_fetch_same_revision() {
    let mut g: DerivedGlobalStorage<DoubleQuery, AlwaysMemoizeValue> = DerivedGlobalStorage::new(0);
    let empty: Vec<DatabaseKeyIndex> = Vec::new();
    let rt0 = rt(0, 0, 0, 0);
    let a = g.fetch(&rt0, &empty, 5).unwrap();
    let b = g.fetch(&rt0, &empty, 5).unwrap();
    assert_eq!(a, b);
    assert_eq!(a.value, 10);
}

#[test]
fn address_stability_between_purges() {
    let mut g: DerivedGlobalStorage<DoubleQuery, AlwaysMemoizeValue> = DerivedGlobalStorage::new(7);
    let empty: Vec<DatabaseKeyIndex> = Vec::new();
    let rt0 = rt(0, 0, 0, 0);
    g.fetch(&rt0, &empty, 10).unwrap();
    let first = g.database_key_index(10).unwrap();
    // Fetching other keys, invalidating and evicting never move the address.
    for k in 11..40 {
        g.fetch(&rt0, &empty, k).unwrap();
    }
    g.invalidate(10, Revision { n: 1 });
    g.set_lru_capacity(2);
    let rt1 = rt(1, 1, 0, 0);
    g.fetch(&rt1, &empty, 10).unwrap();
    let second = g.database_key_index(10).unwrap();
    assert_eq!(first, second);
    assert_eq!(first.key_index, 0);
    assert_eq!(first.group_index, 7);

    // A mass purge resets the table; addresses restart.
    g.purge();
    assert!(g.database_key_index(10).is_none());
    assert_eq!(g.entries().len(), 0);
    g.fetch(&rt1, &empty, 99).unwrap();
    assert_eq!(g.database_key_index(99).unwrap().key_index, 0);
}

#[test]
fn backdating_keeps_changed_at() {
    let mut g: DerivedGlobalStorage<DoubleQuery, AlwaysMemoizeValue> = DerivedGlobalStorage::new(0);
    let empty: Vec<DatabaseKeyIndex> = Vec::new();
    let rt0 = rt(0, 0, 0, 0);
    let s0 = g.fetch(&rt0, &empty, 8).unwrap();
    assert_eq!(s0.changed_at, Revision { n: 0 });
    // Something of low durability changed at revision 3: the memo is no
    // longer valid and the fetch at revision 3 recomputes, but the value is
    // equivalent, so the change stamp is not advanced.
    let rt3 = rt(3, 3, 0, 0);
    let s3 = g.fetch(&rt3, &empty, 8).unwrap();
    assert_eq!(s3.value, 16);
    assert_eq!(s3.changed_at, Revision { n: 0 });
}

#[test]
fn no_backdating_when_value_moves() {
    let mut g: DerivedGlobalStorage<AddRevisionQuery, AlwaysMemoizeValue> =
        DerivedGlobalStorage::new(0);
    let empty: Vec<DatabaseKeyIndex> = Vec::new();
    let rt0 = rt(0, 0, 0, 0);
    let s0 = g.fetch(&rt0, &empty, 100).unwrap();
    assert_eq!(s0.value, 100);
    assert_eq!(s0.changed_at, Revision { n: 0 });
    let rt4 = rt(4, 4, 0, 0);
    let s4 = g.fetch(&rt4, &empty, 100).unwrap();
    assert_eq!(s4.value, 104);
    assert_eq!(s4.changed_at, Revision { n: 4 });
}

#[test]
fn durability_licenses_skipping_revalidation() {
    let mut g: DerivedGlobalStorage<DoubleWithFallback, AlwaysMemoizeValue> =
        DerivedGlobalStorage::new(0);
    let empty: Vec<DatabaseKeyIndex> = Vec::new();
    let rt0 = rt(0, 0, 0, 0);
    let s0 = g.fetch(&rt0, &empty, 3).unwrap();
    assert_eq!(s0.durability, Durability::High);
    // Low-durability inputs changed at revision 5; a high-durability memo
    // verified at 0 is still valid and is returned unchanged.
    let rt5 = rt(5, 5, 0, 0);
    let s5 = g.fetch(&rt5, &empty, 3).unwrap();
    assert_eq!(s5, s0);
    let d = g.durability(&rt5, &empty, 3).unwrap();
    assert_eq!(d, Durability::High);
}

#[test]
fn lru_bound_holds_and_eviction_recomputes() {
    let mut g: DerivedGlobalStorage<DoubleQuery, AlwaysMemoizeValue> = DerivedGlobalStorage::new(0);
    let empty: Vec<DatabaseKeyIndex> = Vec::new();
    g.set_lru_capacity(3);
    let rt0 = rt(0, 0, 0, 0);
    for k in 0..10 {
        g.fetch(&rt0, &empty, k).unwrap();
    }
    let live = g.entries().iter().filter(|e| e.value.is_some()).count();
    assert!(live <= 3);
    // All ten slots still exist; only payloads were evicted.
    assert_eq!(g.entries().len(), 10);
    // A fetch of an evicted key recomputes and yields the right value.
    let s = g.fetch(&rt0, &empty, 0).unwrap();
    assert_eq!(s.value, 0);
    let live_after = g.entries().iter().filter(|e| e.value.is_some()).count();
    assert!(live_after <= 3);
}

#[test]
fn shrinking_capacity_defers_eviction_to_fetches() {
    let mut g: DerivedGlobalStorage<DoubleQuery, AlwaysMemoizeValue> = DerivedGlobalStorage::new(0);
    let empty: Vec<DatabaseKeyIndex> = Vec::new();
    let rt0 = rt(0, 0, 0, 0);
    for k in 0..6 {
        g.fetch(&rt0, &empty, k).unwrap();
    }
    assert_eq!(g.entries().iter().filter(|e| e.value.is_some()).count(), 6);
    // Adjusting the bound drops no memoized value by itself.
    g.set_lru_capacity(2);
    assert_eq!(g.entries().iter().filter(|e| e.value.is_some()).count(), 6);
    // Each subsequent fetch over the bound evicts one least-recently-used
    // payload; refetching a tracked key shrinks the list until the bound
    // holds, and it holds from then on.
    for pass in 0..4 {
        g.fetch(&rt0, &empty, 5).unwrap();
        let live = g.entries().iter().filter(|e| e.value.is_some()).count();
        assert_eq!(live, 5 - pass);
    }
    g.fetch(&rt0, &empty, 5).unwrap();
    assert_eq!(g.entries().iter().filter(|e| e.value.is_some()).count(), 2);
}

#[test]
fn cycle_with_fatal_strategy_is_detected() {
    // Two mutually recursive queries with identical keys on one call path:
    // the driver is computing q1(7), which asked for q2(7), which asks for
    // q1(7) again. The repeated address makes the fetch fail.
    let mut g1: DerivedGlobalStorage<DoubleQuery, AlwaysMemoizeValue> = DerivedGlobalStorage::new(0);
    let addr_q1 = DatabaseKeyIndex { group_index: 0, query_index: 1, key_index: 0 };
    let addr_q2 = DatabaseKeyIndex { group_index: 0, query_index: 2, key_index: 0 };
    let stack = vec![addr_q1, addr_q2];
    let rt0 = rt(0, 0, 0, 0);
    let r = g1.fetch(&rt0, &stack, 7);
    assert_eq!(r, Err(Signal::CycleDetected));
    // The slot exists but was left uncomputed.
    assert_eq!(g1.entries().len(), 0);
    assert_eq!(g1.database_key_index(7), Some(addr_q1));
}

#[test]
fn cycle_with_fallback_strategy_recovers() {
    let mut g2: DerivedGlobalStorage<DoubleWithFallback, AlwaysMemoizeValue> =
        DerivedGlobalStorage::new(0);
    let addr_q2 = DatabaseKeyIndex { group_index: 0, query_index: 2, key_index: 0 };
    let stack = vec![addr_q2];
    let rt0 = rt(0, 0, 0, 0);
    let s = g2.fetch(&rt0, &stack, 7).unwrap();
    assert_eq!(s.value, u64::MAX);
    assert_eq!(s.durability, Durability::Low);
}

#[test]
fn cancellation_aborts_without_mutation() {
    let mut g: DerivedGlobalStorage<DoubleQuery, AlwaysMemoizeValue> = DerivedGlobalStorage::new(0);
    let empty: Vec<DatabaseKeyIndex> = Vec::new();
    let mut cancelled = rt(0, 0, 0, 0);
    cancelled.cancelled = true;
    assert_eq!(g.fetch(&cancelled, &empty, 1), Err(Signal::Cancelled));
    assert!(g.database_key_index(1).is_none());
    // Retrying after the flag clears succeeds idempotently.
    let rt0 = rt(0, 0, 0, 0);
    assert_eq!(g.fetch(&rt0, &empty, 1).unwrap().value, 2);
}

#[test]
fn cancellation_stops_every_read() {
    let mut g: DerivedGlobalStorage<DoubleQuery, AlwaysMemoizeValue> = DerivedGlobalStorage::new(0);
    let empty: Vec<DatabaseKeyIndex> = Vec::new();
    let rt0 = rt(0, 0, 0, 0);
    g.fetch(&rt0, &empty, 21).unwrap();
    let addr = g.database_key_index(21).unwrap();
    let mut cancelled = rt0;
    cancelled.cancelled = true;
    assert_eq!(g.durability(&cancelled, &empty, 21), Err(Signal::Cancelled));
    assert_eq!(
        g.maybe_changed_since(&cancelled, &empty, addr, Revision { n: 0 }),
        Err(Signal::Cancelled)
    );
}

#[test]
fn never_memoize_tracks_stamps_only() {
    let mut g: DerivedGlobalStorage<DoubleQuery, NeverMemoizeValue> = DerivedGlobalStorage::new(0);
    let empty: Vec<DatabaseKeyIndex> = Vec::new();
    let rt0 = rt(0, 0, 0, 0);
    let s = g.fetch(&rt0, &empty, 21).unwrap();
    assert_eq!(s.value, 42);
    let entries = g.entries();
    assert_eq!(entries.len(), 1);
    assert_eq!(entries[0].key, 21);
    assert_eq!(entries[0].value, None);
    // The value is recomputed on demand and stays correct.
    let s2 = g.fetch(&rt0, &empty, 21).unwrap();
    assert_eq!(s2.value, 42);
}

#[test]
fn invalidate_only_touches_memoized_slots() {
    let mut g: DerivedGlobalStorage<DoubleQuery, AlwaysMemoizeValue> = DerivedGlobalStorage::new(0);
    assert_eq!(g.invalidate(4, Revision { n: 1 }), None);
    let empty: Vec<DatabaseKeyIndex> = Vec::new();
    let rt0 = rt(0, 0, 0, 0);
    g.fetch(&rt0, &empty, 4).unwrap();
    assert_eq!(g.invalidate(4, Revision { n: 1 }), Some(Durability::Low));
}

#[test]
fn foreign_addresses_are_invariant_violations() {
    let mut g: DerivedGlobalStorage<DoubleQuery, AlwaysMemoizeValue> = DerivedGlobalStorage::new(0);
    let empty: Vec<DatabaseKeyIndex> = Vec::new();
    let rt0 = rt(0, 0, 0, 0);
    g.fetch(&rt0, &empty, 1).unwrap();
    let wrong_group = DatabaseKeyIndex { group_index: 9, query_index: 1, key_index: 0 };
    let wrong_query = DatabaseKeyIndex { group_index: 0, query_index: 9, key_index: 0 };
    let out_of_range = DatabaseKeyIndex { group_index: 0, query_index: 1, key_index: 5 };
    let r0 = Revision { n: 0 };
    assert_eq!(g.maybe_changed_since(&rt0, &empty, wrong_group, r0), Err(Signal::InvariantViolation));
    assert_eq!(g.maybe_changed_since(&rt0, &empty, wrong_query, r0), Err(Signal::InvariantViolation));
    assert_eq!(g.maybe_changed_since(&rt0, &empty, out_of_range, r0), Err(Signal::InvariantViolation));
    assert_eq!(g.fmt_index(wrong_group), Err(Signal::InvariantViolation));
}

#[test]
fn fmt_index_names_the_key() {
    let mut g: DerivedGlobalStorage<DoubleQuery, AlwaysMemoizeValue> = DerivedGlobalStorage::new(0);
    let empty: Vec<DatabaseKeyIndex> = Vec::new();
    let rt0 = rt(0, 0, 0, 0);
    g.fetch(&rt0, &empty, 77).unwrap();
    let addr = g.database_key_index(77).unwrap();
    assert_eq!(g.fmt_index(addr), Ok(77));
}

#[test]
fn maybe_changed_since_forces_read_when_stale() {
    let mut g: DerivedGlobalStorage<DoubleQuery, AlwaysMemoizeValue> = DerivedGlobalStorage::new(0);
    let empty: Vec<DatabaseKeyIndex> = Vec::new();
    let rt0 = rt(0, 0, 0, 0);
    g.fetch(&rt0, &empty, 21).unwrap();
    let addr = g.database_key_index(21).unwrap();
    g.invalidate(21, Revision { n: 1 });
    // The forced recompute finds an equivalent value; backdating keeps the
    // change stamp at 0, so nothing changed since revision 0.
    let rt1 = rt(1, 1, 0, 0);
    let changed = g.maybe_changed_since(&rt1, &empty, addr, Revision { n: 0 }).unwrap();
    assert!(!changed);
    // For a revision-dependent query the recompute moves the stamp.
    let mut h: DerivedGlobalStorage<AddRevisionQuery, AlwaysMemoizeValue> =
        DerivedGlobalStorage::new(0);
    h.fetch(&rt0, &empty, 5).unwrap();
    let haddr = h.database_key_index(5).unwrap();
    h.invalidate(5, Revision { n: 1 });
    let changed_h = h.maybe_changed_since(&rt1, &empty, haddr, Revision { n: 0 }).unwrap();
    assert!(changed_h);
}

#[test]
fn reset_for_new_revision_keeps_memos() {
    let mut g: DerivedGlobalStorage<DoubleQuery, AlwaysMemoizeValue> = DerivedGlobalStorage::new(0);
    let empty: Vec<DatabaseKeyIndex> = Vec::new();
    let rt0 = rt(0, 0, 0, 0);
    g.fetch(&rt0, &empty, 2).unwrap();
    let before = g.entries();
    g.reset_for_new_revision();
    assert_eq!(g.entries(), before);
}

#[test]
fn storage_handle_routes_to_global() {
    let storage: DerivedStorage<DoubleQuery, AlwaysMemoizeValue> = DerivedStorage::new(0);
    let mut g: DerivedGlobalStorage<DoubleQuery, AlwaysMemoizeValue> = DerivedGlobalStorage::new(0);
    let empty: Vec<DatabaseKeyIndex> = Vec::new();
    let rt0 = rt(0, 0, 0, 0);
    storage.set_lru_capacity(&mut g, 10);
    let s = storage.fetch(&mut g, &rt0, &empty, 21).unwrap();
    assert_eq!(s.value, 42);
    let addr = g.database_key_index(21).unwrap();
    assert_eq!(storage.fmt_index(&g, addr), Ok(21));
    assert!(!storage.maybe_changed_since(&mut g, &rt0, &empty, addr, Revision { n: 0 }).unwrap());
    assert_eq!(storage.durability(&mut g, &rt0, &empty, 21), Ok(Durability::Low));
    assert_eq!(storage.entries(&g).len(), 1);
    assert_eq!(storage.invalidate(&mut g, 21, Revision { n: 1 }), Some(Durability::Low));
    storage.purge();
}

#[test]
fn query_names_for_diagnostics() {
    assert_eq!(DoubleQuery::query_name(), "double");
    assert_eq!(DoubleWithFallback::query_name(), "double_with_fallback");
    assert_eq!(AddRevisionQuery::query_name(), "add_revision");
}

#[test]
fn durability_order_and_revision_order() {
    assert!(Durability::Low.le(Durability::Medium));
    assert!(Durability::Medium.le(Durability::High));
    assert!(!Durability::High.le(Durability::Low));
    assert!(Revision { n: 1 }.lt(Revision { n: 2 }));
    assert!(!Revision { n: 2 }.lt(Revision { n: 2 }));
}
