//! The per-key memo cell: one slot per distinct query call, owning the
//! per-key state machine and the revision stamps of its memoized value.

use vstd::prelude::*;
use crate::Durability;
use crate::Revision;
use crate::plumbing::DatabaseKeyIndex;
use crate::plumbing::RuntimeState;
use crate::plumbing::TableEntry;

verus! {

/// A memoized result: the value (if the policy stores one), its durability,
/// the revision at which it last changed, the revision at which it was last
/// confirmed correct, and the revision of an explicit invalidation, if any.
#[derive(Clone, Copy, PartialEq, Eq, Structural, Debug)]
pub struct Memo {
    pub value: Option<u64>,
    pub durability: Durability,
    pub changed_at: Revision,
    pub verified_at: Revision,
    pub stale_since: Option<Revision>,
}

impl Memo {
    /// The memo can be returned unchanged at this runtime state: it was not
    /// explicitly invalidated, and either it was verified at the current
    /// revision or its durability licenses skipping revalidation.
    pub open spec fn valid_at(self, rt: RuntimeState) -> bool {
        &&& self.stale_since is None
        &&& (self.verified_at == rt.current || rt.last_changed_spec(
            self.durability,
        ).n <= self.verified_at.n)
    }

    /// Both revision stamps are coherent and lie in the past of `rt`.
    pub open spec fn bounded_by(self, rt: RuntimeState) -> bool {
        &&& self.changed_at.n <= self.verified_at.n
        &&& self.verified_at.n <= rt.current.n
    }
}

/// The per-key state machine.
#[derive(Clone, Copy, PartialEq, Eq, Structural, Debug)]
pub enum QueryState {
    /// Never computed.
    NotComputed,
    /// A computation started and its result is pending; a slot left in this
    /// state belongs to an abandoned computation and is recomputed on the
    /// next read.
    InProgress,
    /// The latest completed computation.
    Memoized(Memo),
}

/// One memo cell: the key, its stable engine-wide address, and the state of
/// its computation. Eviction and invalidation never touch the identity.
#[derive(Clone, Copy, PartialEq, Eq, Structural, Debug)]
pub struct Slot {
    pub key: u64,
    pub database_key_index: DatabaseKeyIndex,
    pub state: QueryState,
}

impl Slot {
    pub open spec fn memo(self) -> Option<Memo> {
        match self.state {
            QueryState::Memoized(m) => Some(m),
            _ => None,
        }
    }

    /// The slot retains a live payload: a memo that stores a value.
    pub open spec fn has_payload(self) -> bool {
        match self.state {
            QueryState::Memoized(m) => m.value is Some,
            _ => false,
        }
    }

    pub fn new(key: u64, database_key_index: DatabaseKeyIndex) -> (r: Slot)
        ensures
            r == (Slot { key, database_key_index, state: QueryState::NotComputed }),
    {
        Slot { key, database_key_index, state: QueryState::NotComputed }
    }

    pub fn database_key_index(&self) -> (r: DatabaseKeyIndex)
        ensures
            r == self.database_key_index,
    {
        self.database_key_index
    }

    /// Discard the memoized payload, retaining identity, address and stamps;
    /// the next read recomputes from scratch.
    pub open spec fn evicted(self) -> Slot {
        match self.state {
            QueryState::Memoized(m) => Slot {
                state: QueryState::Memoized(Memo { value: None, ..m }),
                ..self
            },
            _ => self,
        }
    }

    pub fn evict(&mut self)
        ensures
            *final(self) == old(self).evicted(),
    {
        match self.state {
            QueryState::Memoized(memo) => {
                self.state = QueryState::Memoized(Memo { value: None, ..memo });
            },
            _ => (),
        }
    }

    /// Mark a memoized value stale as of `new_revision` and report its prior
    /// durability; a slot that was never computed is left alone.
    pub fn invalidate(&mut self, new_revision: Revision) -> (r: Option<Durability>)
        ensures
            match old(self).state {
                QueryState::Memoized(m) => {
                    &&& r == Some(m.durability)
                    &&& *final(self) == (Slot {
                        state: QueryState::Memoized(
                            Memo { stale_since: Some(new_revision), ..m },
                        ),
                        ..*old(self)
                    })
                },
                _ => r is None && *final(self) == *old(self),
            },
    {
        match self.state {
            QueryState::Memoized(memo) => {
                let durability = memo.durability;
                self.state = QueryState::Memoized(
                    Memo { stale_since: Some(new_revision), ..memo },
                );
                Some(durability)
            },
            _ => None,
        }
    }

    /// The row this slot contributes to the `entries` snapshot: present
    /// exactly when the slot holds a memo.
    pub open spec fn table_entry_spec(self) -> Option<TableEntry> {
        match self.state {
            QueryState::Memoized(m) => Some(TableEntry { key: self.key, value: m.value }),
            _ => None,
        }
    }

    pub fn as_table_entry(&self) -> (r: Option<TableEntry>)
        ensures
            r == self.table_entry_spec(),
    {
        match self.state {
            QueryState::Memoized(memo) => Some(
                TableEntry { key: self.key, value: memo.value },
            ),
            _ => None,
        }
    }
}

} // verus!
