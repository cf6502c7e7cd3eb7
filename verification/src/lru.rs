//! Cross-key recency tracking: a list of slot indices ordered from least to
//! most recently used, bounded by a configurable capacity. The list records
//! usage only; the storage that owns it clears an evicted slot's payload.

use vstd::prelude::*;

verus! {

/// No index occurs twice.
pub open spec fn distinct_seq(s: Seq<usize>) -> bool {
    forall|i: int, j: int| 0 <= i < j < s.len() ==> s[i] != s[j]
}

/// The recency list after a use of `idx`: any previous occurrence of `idx`
/// is removed and `idx` moves to the most-recent end.
pub open spec fn touched_spec(order: Seq<usize>, idx: usize) -> Seq<usize> {
    if order.contains(idx) {
        order.remove(order.index_of(idx)).push(idx)
    } else {
        order.push(idx)
    }
}

/// The recency tracker: `capacity == 0` means the bound is disabled.
pub struct Lru {
    capacity: usize,
    order: Vec<usize>,
}

impl Lru {
    pub closed spec fn cap_spec(self) -> usize {
        self.capacity
    }

    pub closed spec fn order_spec(self) -> Seq<usize> {
        self.order@
    }

    pub fn new() -> (r: Lru)
        ensures
            r.cap_spec() == 0usize,
            r.order_spec() == Seq::<usize>::empty(),
    {
        Lru { capacity: 0, order: Vec::new() }
    }

    pub fn set_capacity(&mut self, n: usize)
        ensures
            final(self).cap_spec() == n,
            final(self).order_spec() == old(self).order_spec(),
    {
        self.capacity = n;
    }

    /// Forget all recorded uses; the configured capacity is kept.
    pub fn purge(&mut self)
        ensures
            final(self).cap_spec() == old(self).cap_spec(),
            final(self).order_spec() == Seq::<usize>::empty(),
    {
        self.order = Vec::new();
    }

    /// Record a use of `idx`. When the capacity bound is enabled and now
    /// exceeded, the least recently used index is dropped and returned so the
    /// caller can clear that slot's payload.
    pub fn record_use(&mut self, idx: usize) -> (r: Option<usize>)
        requires
            distinct_seq(old(self).order_spec()),
        ensures
            final(self).cap_spec() == old(self).cap_spec(),
            ({
                let touched = touched_spec(old(self).order_spec(), idx);
                if old(self).cap_spec() > 0 && touched.len() > old(self).cap_spec() {
                    &&& r == Some(touched[0])
                    &&& final(self).order_spec() == touched.subrange(1, touched.len() as int)
                } else {
                    &&& r is None
                    &&& final(self).order_spec() == touched
                }
            }),
            distinct_seq(final(self).order_spec()),
            final(self).order_spec().contains(idx),
            final(self).order_spec().len() <= old(self).order_spec().len() + 1,
            (old(self).cap_spec() > 0 && old(self).order_spec().len() <= old(self).cap_spec())
                ==> final(self).order_spec().len() <= old(self).cap_spec(),
            forall|v: usize|
                final(self).order_spec().contains(v) ==> (v == idx || old(self).order_spec().contains(v)),
            forall|v: usize|
                (old(self).order_spec().contains(v) && r != Some(v)) ==> final(self).order_spec().contains(v),
            (r matches Some(e) ==> e != idx && old(self).order_spec().contains(e)),
    {
        let ghost order0 = self.order@;
        // Remove any previous occurrence of idx.
        let mut pos: usize = 0;
        let mut found = false;
        while pos < self.order.len() && !found
            invariant
                self == old(self),
                pos <= self.order@.len(),
                found ==> pos < self.order@.len() && self.order@[pos as int] == idx,
                !found ==> forall|j: int| 0 <= j < pos ==> self.order@[j] != idx,
            decreases self.order@.len() - pos + (if found { 0int } else { 1int }),
        {
            if self.order[pos] == idx {
                found = true;
            } else {
                pos = pos + 1;
            }
        }
        if found {
            proof {
                assert(order0.contains(idx));
                let w = order0.index_of(idx);
                assert(0 <= w < order0.len() && order0[w] == idx);
                assert(w == pos);
            }
            self.order.remove(pos);
            proof {
                let removed = order0.remove(pos as int);
                assert(self.order@ =~= removed);
                assert forall|k: int| 0 <= k < removed.len() implies removed[k] != idx by {
                    if k < pos {
                        assert(removed[k] == order0[k]);
                    } else {
                        assert(removed[k] == order0[k + 1]);
                    }
                }
                assert(!removed.contains(idx));
                assert(distinct_seq(removed)) by {
                    assert forall|i: int, j: int| 0 <= i < j < removed.len() implies removed[i]
                        != removed[j] by {
                        let i0: int = if i < pos { i } else { i + 1 };
                        let j0: int = if j < pos { j } else { j + 1 };
                        assert(removed[i] == order0[i0]);
                        assert(removed[j] == order0[j0]);
                    }
                }
            }
        } else {
            proof {
                assert(!order0.contains(idx));
            }
        }
        let ghost pruned = self.order@;
        self.order.push(idx);
        proof {
            assert(self.order@ =~= touched_spec(order0, idx));
            assert(distinct_seq(self.order@)) by {
                assert forall|i: int, j: int| 0 <= i < j < self.order@.len() implies self.order@[i]
                    != self.order@[j] by {
                    if j == self.order@.len() - 1 {
                        assert(self.order@[i] == pruned[i]);
                        assert(!pruned.contains(idx));
                    }
                }
            }
        }
        let ghost touched = self.order@;
        if self.capacity > 0 && self.order.len() > self.capacity {
            let victim = self.order.remove(0);
            proof {
                assert(self.order@ =~= touched.subrange(1, touched.len() as int));
                assert(victim == touched[0]);
                assert(touched[touched.len() - 1] == idx);
                assert(victim != idx);
                assert(distinct_seq(self.order@)) by {
                    assert forall|i: int, j: int| 0 <= i < j < self.order@.len() implies
                        self.order@[i] != self.order@[j] by {
                        assert(self.order@[i] == touched[i + 1]);
                        assert(self.order@[j] == touched[j + 1]);
                    }
                }
                assert(self.order@.contains(idx)) by {
                    assert(self.order@[self.order@.len() - 1] == idx);
                }
                assert forall|v: usize| self.order@.contains(v) implies (v == idx
                    || order0.contains(v)) by {
                    let k = choose|k: int| 0 <= k < self.order@.len() && self.order@[k] == v;
                    assert(touched[k + 1] == v);
                    lemma_touched_contains(order0, idx, v);
                }
                assert forall|v: usize| order0.contains(v) && Some(victim) != Some(v) implies
                    self.order@.contains(v) by {
                    lemma_touched_contains(order0, idx, v);
                    let k = choose|k: int| 0 <= k < touched.len() && touched[k] == v;
                    if k == 0 {
                        assert(touched[0] == victim);
                        assert(false);
                    } else {
                        assert(self.order@[k - 1] == v);
                    }
                }
                assert(order0.contains(victim)) by {
                    lemma_touched_contains(order0, idx, victim);
                }
            }
            Some(victim)
        } else {
            proof {
                assert(self.order@.contains(idx)) by {
                    assert(self.order@[self.order@.len() - 1] == idx);
                }
                assert forall|v: usize| self.order@.contains(v) implies (v == idx
                    || order0.contains(v)) by {
                    lemma_touched_contains(order0, idx, v);
                }
                assert forall|v: usize| order0.contains(v) implies self.order@.contains(v) by {
                    lemma_touched_contains(order0, idx, v);
                }
            }
            None
        }
    }
}

/// Shape of the touched list: it stays duplicate-free, ends in `idx`, and
/// holds exactly the old members plus `idx`.
pub proof fn lemma_touched_props(order: Seq<usize>, idx: usize)
    requires
        distinct_seq(order),
    ensures
        ({
            let t = touched_spec(order, idx);
            &&& distinct_seq(t)
            &&& t.len() >= 1
            &&& t[t.len() - 1] == idx
            &&& t.len() <= order.len() + 1
            &&& forall|v: usize| #[trigger] t.contains(v) <==> (v == idx || order.contains(v))
        }),
{
    let t = touched_spec(order, idx);
    assert forall|v: usize| #[trigger] t.contains(v) <==> (v == idx || order.contains(v)) by {
        lemma_touched_contains(order, idx, v);
    }
    if order.contains(idx) {
        let w = order.index_of(idx);
        let removed = order.remove(w);
        assert forall|k: int| 0 <= k < removed.len() implies removed[k] != idx by {
            if k < w {
                assert(removed[k] == order[k]);
            } else {
                assert(removed[k] == order[k + 1]);
            }
        }
        assert(distinct_seq(removed)) by {
            assert forall|i: int, j: int| 0 <= i < j < removed.len() implies removed[i]
                != removed[j] by {
                let i0: int = if i < w { i } else { i + 1 };
                let j0: int = if j < w { j } else { j + 1 };
                assert(removed[i] == order[i0]);
                assert(removed[j] == order[j0]);
            }
        }
        assert(distinct_seq(t)) by {
            assert forall|i: int, j: int| 0 <= i < j < t.len() implies t[i] != t[j] by {
                if j == t.len() - 1 {
                    assert(t[i] == removed[i]);
                    assert(removed[i] != idx);
                } else {
                    assert(t[i] == removed[i]);
                    assert(t[j] == removed[j]);
                }
            }
        }
    } else {
        assert(distinct_seq(t)) by {
            assert forall|i: int, j: int| 0 <= i < j < t.len() implies t[i] != t[j] by {
                if j == t.len() - 1 {
                    assert(t[i] == order[i]);
                    assert(order.contains(order[i]));
                } else {
                    assert(t[i] == order[i]);
                    assert(t[j] == order[j]);
                }
            }
        }
    }
}

/// Membership in the touched list: exactly the old members plus `idx`.
proof fn lemma_touched_contains(order: Seq<usize>, idx: usize, v: usize)
    ensures
        touched_spec(order, idx).contains(v) <==> (v == idx || order.contains(v)),
{
    let t = touched_spec(order, idx);
    if order.contains(idx) {
        let w = order.index_of(idx);
        let removed = order.remove(w);
        if v == idx {
            assert(t[t.len() - 1] == idx);
            assert(t.contains(v));
        }
        if order.contains(v) && v != idx {
            let k = choose|k: int| 0 <= k < order.len() && order[k] == v;
            if k < w {
                assert(removed[k] == v);
                assert(t[k] == v);
            } else {
                assert(k > w);
                assert(removed[k - 1] == v);
                assert(t[k - 1] == v);
            }
            assert(t.contains(v));
        }
        if t.contains(v) {
            let k = choose|k: int| 0 <= k < t.len() && t[k] == v;
            if k == t.len() - 1 {
                assert(v == idx);
            } else {
                assert(removed[k] == v);
                if k < w {
                    assert(order[k] == v);
                } else {
                    assert(order[k + 1] == v);
                }
                assert(order.contains(v));
            }
        }
    } else {
        if v == idx {
            assert(t[t.len() - 1] == idx);
        }
        if order.contains(v) {
            let k = choose|k: int| 0 <= k < order.len() && order[k] == v;
            assert(t[k] == v);
        }
        if t.contains(v) {
            let k = choose|k: int| 0 <= k < t.len() && t[k] == v;
            if k == t.len() - 1 {
            } else {
                assert(order[k] == v);
            }
        }
    }
}

} // verus!
