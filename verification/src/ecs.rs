//! Entity identity.

use vstd::prelude::*;

verus! {

/// A generational entity handle.
///
/// An index is reused once its entity is gone; the generation is what tells
/// the old tenant from the new one.
#[derive(Copy, Clone, Debug, PartialEq, Eq, Hash, PartialOrd, Ord, Structural)]
pub struct EntityId {
    pub index: u32,
    pub generation: u32,
}

} // verus!
