//! The upward-facing, type-erased capability set every storage kind exposes
//! to a generic dependency walker, without knowledge of the concrete key and
//! value types behind an address.

use vstd::prelude::*;
use crate::Revision;
use crate::plumbing::DatabaseKeyIndex;

verus! {

pub trait Ingredient {
    fn maybe_changed_after(&self, input: DatabaseKeyIndex, revision: Revision) -> bool;
}

/// Optional capability for ingredients that wish to be notified when a new
/// revision is about to occur, giving them a chance to flush transient state.
pub trait MutIngredient: Ingredient {
    fn reset_for_new_revision(&mut self);
}

} // verus!
