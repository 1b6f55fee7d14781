//! Interest-managed replication: what each client is told.
//!
//! A spatial index hands back the dense index it assigned at insertion, which
//! says nothing about which entity that was. The mapping is recorded by
//! whoever fills the index, in insertion order — see [`Relevancy`]. That works
//! because the index is rebuilt every tick.
//!
//! # Why generation travels with spawns
//!
//! A despawned entity's index is free at once, so a spawn later in the *same
//! tick* can hand it to an unrelated entity. A client tracking entities by
//! index alone would quietly apply one entity's updates to another; the full
//! [`EntityId`] tells them apart.

use crate::ecs::EntityId;
use vstd::prelude::*;

verus! {

/// The set of entities one client can currently see, and the mapping back from
/// grid indices to entities.
///
/// Reused across ticks: the vector is cleared and refilled rather than
/// reallocated.
pub struct Relevancy {
    /// Entity per grid index, in the order they were inserted into the grid
    /// this tick.
    entities: Vec<EntityId>,
}

impl View for Relevancy {
    type V = Seq<EntityId>;

    closed spec fn view(&self) -> Seq<EntityId> {
        self.entities@
    }
}

impl Default for Relevancy {
    fn default() -> (r: Self)
        ensures
            r@ == Seq::<EntityId>::empty(),
    {
        Relevancy::new()
    }
}

impl Relevancy {
    /// Nothing recorded.
    pub fn new() -> (r: Self)
        ensures
            r@ == Seq::<EntityId>::empty(),
    {
        Relevancy { entities: Vec::new() }
    }

    /// Begin a tick. Call before re-filling the grid.
    pub fn begin(&mut self)
        ensures
            final(self)@ == Seq::<EntityId>::empty(),
    {
        self.entities.clear();
    }

    /// Record that the next grid insertion belongs to `id`.
    ///
    /// Must be called once per insertion, in the same order, or every index
    /// afterwards maps to the wrong entity. The grid assigns indices
    /// sequentially from zero, so this is a push.
    pub fn push(&mut self, id: EntityId)
        ensures
            final(self)@ == old(self)@.push(id),
    {
        self.entities.push(id);
    }

    /// The entity a grid index refers to, or `None` if the index was never
    /// recorded — which means the grid and this mapping have diverged.
    pub fn entity(&self, grid_index: u32) -> (r: Option<EntityId>)
        ensures
            r == if grid_index < self@.len() {
                Some(self@[grid_index as int])
            } else {
                None
            },
    {
        if (grid_index as usize) < self.entities.len() {
            Some(self.entities[grid_index as usize])
        } else {
            None
        }
    }

    /// How many entities were recorded this tick.
    pub fn len(&self) -> (n: usize)
        ensures
            n == self@.len(),
    {
        self.entities.len()
    }

    /// Whether no entity was recorded this tick.
    pub fn is_empty(&self) -> (r: bool)
        ensures
            r == (self@.len() == 0),
    {
        self.entities.len() == 0
    }
}

/// A grid index stands for the entity recorded at that place, counted from
/// zero, and for none where nothing was.
pub proof fn law_an_index_stands_for_its_entity(
    r: &Relevancy,
    grid_index: u32,
    entity: Option<EntityId>,
    n: usize,
    empty: bool,
)
    requires
        call_ensures(Relevancy::entity, (r, grid_index), entity),
        call_ensures(Relevancy::len, (r,), n),
        call_ensures(Relevancy::is_empty, (r,), empty),
    ensures
        grid_index < n <==> entity is Some,
        entity is Some ==> entity->0 == r@[grid_index as int],
        n == r@.len(),
        empty <==> n == 0,
{
}

/// What recording does: the entity stands for the next index, and those before
/// keep theirs. A new tick starts from none.
pub proof fn law_what_recording_an_entity_does(id: EntityId, i: int)
    ensures
        forall|r: &mut Relevancy| #[trigger]
            call_ensures(Relevancy::push, (r, id), ()) ==> {
                let after = (*final(r))@;
                &&& after.len() == r@.len() + 1
                &&& after.last() == id
                &&& 0 <= i < r@.len() ==> after[i] == r@[i]
            },
        forall|r: &mut Relevancy| #[trigger]
            call_ensures(Relevancy::begin, (r,), ()) ==> (*final(r))@.len() == 0,
{
}

} // verus!
