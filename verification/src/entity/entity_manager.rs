//! Handing out and taking back the identities of entities.

use crate::entity::entity::EntityId;
use std::collections::HashSet;
use vstd::prelude::*;

verus! {

/// Hands out entity identities and takes them back: a released identity is
/// handed out again before a new one is made.
pub struct EntityManager {
    current: EntityId,
    frees: Vec<EntityId>,
    allocated: HashSet<EntityId>,
}

impl EntityManager {
    /// The identities that are handed out and not released.
    pub closed spec fn live(&self) -> Set<EntityId> {
        self.allocated@
    }

    /// The released identities; the last one is handed out next.
    pub closed spec fn free_list(&self) -> Seq<EntityId> {
        self.frees@
    }

    /// The largest identity that was ever made.
    pub closed spec fn newest(&self) -> EntityId {
        self.current
    }

    /// Whether an identity can still be handed out: one is free, or the
    /// identities are not used up.
    pub open spec fn can_create(&self) -> bool {
        self.free_list().len() > 0 || self.newest() < u64::MAX
    }

    /// The identity that [`Self::create`] hands out next.
    pub open spec fn next_id(&self) -> EntityId
        recommends
            self.can_create(),
    {
        if self.free_list().len() > 0 {
            self.free_list().last()
        } else {
            (self.newest() + 1) as EntityId
        }
    }

    /// Every identity that is live or free was made, none is zero, none is
    /// both live and free, and none is free twice.
    pub open spec fn wf(&self) -> bool {
        &&& self.live().finite()
        &&& forall|e: EntityId| #[trigger] self.live().contains(e) ==> 1 <= e <= self.newest()
        &&& forall|i: int|
            0 <= i < self.free_list().len() ==> 1 <= (#[trigger] self.free_list()[i])
                <= self.newest() && !self.live().contains(self.free_list()[i])
        &&& forall|i: int, j: int|
            0 <= i < j < self.free_list().len() ==> self.free_list()[i] != self.free_list()[j]
    }

    /// A manager that has handed out nothing.
    pub fn new() -> (manager: Self)
        ensures
            manager.wf(),
            manager.live() == Set::<EntityId>::empty(),
            manager.free_list() == Seq::<EntityId>::empty(),
            manager.newest() == 0,
    {
        EntityManager { current: 0, frees: Vec::new(), allocated: HashSet::new() }
    }

    /// Whether an identity can still be handed out.
    pub fn has_room(&self) -> (room: bool)
        ensures
            room == self.can_create(),
    {
        !self.frees.is_empty() || self.current < u64::MAX
    }

    /// Hands out an identity that is not live: the one released last, or a
    /// new one if none is free. It is never zero.
    pub fn create(&mut self) -> (id: EntityId)
        requires
            old(self).wf(),
            old(self).can_create(),
        ensures
            final(self).wf(),
            id == old(self).next_id(),
            id != 0,
            !old(self).live().contains(id),
            final(self).live() == old(self).live().insert(id),
            final(self).free_list() == if old(self).free_list().len() > 0 {
                old(self).free_list().drop_last()
            } else {
                old(self).free_list()
            },
            final(self).newest() == if old(self).free_list().len() > 0 {
                old(self).newest()
            } else {
                (old(self).newest() + 1) as EntityId
            },
    {
        broadcast use vstd::std_specs::hash::group_hash_axioms;

        let value = match self.frees.pop() {
            Some(value) => {
                proof {
                    assert(old(self).free_list()[old(self).free_list().len() - 1] == value);
                    assert(self.free_list() =~= old(self).free_list().drop_last());
                }
                value
            },
            None => {
                self.current += 1;
                self.current
            },
        };
        self.allocated.insert(value);
        proof {
            assert forall|i: int| 0 <= i < self.free_list().len() implies 1 <= (
            #[trigger] self.free_list()[i]) <= self.newest() && !self.live().contains(
                self.free_list()[i],
            ) by {
                assert(self.free_list()[i] == old(self).free_list()[i]);
            }
        }
        value
    }

    /// Takes back the live identity `id`.
    pub fn release(&mut self, id: EntityId)
        requires
            old(self).wf(),
            old(self).live().contains(id),
        ensures
            final(self).wf(),
            final(self).live() == old(self).live().remove(id),
            final(self).free_list() == old(self).free_list().push(id),
            final(self).newest() == old(self).newest(),
    {
        broadcast use vstd::std_specs::hash::group_hash_axioms;

        self.allocated.remove(&id);
        self.frees.push(id);
        proof {
            assert forall|i: int| 0 <= i < self.free_list().len() implies 1 <= (
            #[trigger] self.free_list()[i]) <= self.newest() && !self.live().contains(
                self.free_list()[i],
            ) by {
                if i < old(self).free_list().len() {
                    assert(self.free_list()[i] == old(self).free_list()[i]);
                }
            }
        }
    }

    /// The number of live identities.
    pub fn count(&self) -> (count: usize)
        ensures
            count == self.live().len(),
    {
        broadcast use vstd::std_specs::hash::group_hash_axioms;

        self.allocated.len()
    }

    /// Whether `id` is live.
    pub fn is_live(&self, id: EntityId) -> (live: bool)
        ensures
            live == self.live().contains(id),
    {
        broadcast use vstd::std_specs::hash::group_hash_axioms;

        self.allocated.contains(&id)
    }
}

} // verus!
