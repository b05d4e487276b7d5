//! A registry of component stores by component type.

use crate::component::component::TypeKey;
use crate::data::sparse_set::SparseSet;
use crate::entity::entity::EntityId;
use vstd::prelude::*;

verus! {

/// What a registry holds after the component type `ty` was registered: the
/// type gets an empty store unless it has a store already.
pub open spec fn registered<V>(
    stores: Map<TypeKey, Map<EntityId, V>>,
    ty: TypeKey,
) -> Map<TypeKey, Map<EntityId, V>> {
    if stores.contains_key(ty) {
        stores
    } else {
        stores.insert(ty, Map::empty())
    }
}

/// Registering a component type twice is the same as registering it once.
pub proof fn lemma_register_idempotent<V>(stores: Map<TypeKey, Map<EntityId, V>>, ty: TypeKey)
    ensures
        registered(registered(stores, ty), ty) == registered(stores, ty),
        stores.contains_key(ty) ==> registered(stores, ty) == stores,
{
}

/// A registry of component stores by component type: each registered type
/// has one store, which holds the values of that type by entity.
pub struct CompManager<V> {
    components: SparseSet<TypeKey, SparseSet<EntityId, V>>,
}

impl<V> View for CompManager<V> {
    type V = Map<TypeKey, Map<EntityId, V>>;

    /// For each registered component type, the value of each entity that
    /// has one.
    open spec fn view(&self) -> Map<TypeKey, Map<EntityId, V>> {
        Map::new(
            |ty: TypeKey| self.stores()@.contains_key(ty),
            |ty: TypeKey| self.stores()@[ty]@,
        )
    }
}

impl<V> CompManager<V> {
    /// The stores by component type.
    pub closed spec fn stores(&self) -> SparseSet<TypeKey, SparseSet<EntityId, V>> {
        self.components
    }

    /// The registry and each of its stores are sound.
    pub open spec fn wf(&self) -> bool {
        &&& self.stores().wf()
        &&& forall|ty: TypeKey| #[trigger] self.stores()@.contains_key(ty)
            ==> self.stores()@[ty].wf()
    }

    /// A registry without component types.
    pub fn new() -> (manager: Self)
        ensures
            manager.wf(),
            manager@ == Map::<TypeKey, Map<EntityId, V>>::empty(),
    {
        broadcast use vstd::std_specs::hash::group_hash_axioms;

        let manager = CompManager { components: SparseSet::new() };
        proof {
            assert(manager@ =~= Map::<TypeKey, Map<EntityId, V>>::empty());
        }
        manager
    }

    /// The store of the component type `ty`; none for a type that is not
    /// registered, which is a mistake of the caller.
    pub fn query(&self, ty: TypeKey) -> (store: Option<&SparseSet<EntityId, V>>)
        requires
            self.wf(),
        ensures
            store.is_some() == self@.contains_key(ty),
            store.is_some() ==> store.unwrap().wf() && store.unwrap()@ == self@[ty],
    {
        self.components.get(ty)
    }

    /// The store of the component type `ty`, for writing; none for a type
    /// that is not registered, which is a mistake of the caller. The
    /// registry is sound again where the store is.
    pub fn query_mut(&mut self, ty: TypeKey) -> (store: Option<&mut SparseSet<EntityId, V>>)
        requires
            old(self).wf(),
        ensures
            store.is_some() == old(self)@.contains_key(ty),
            store.is_some() ==> store.unwrap().wf() && store.unwrap()@ == old(self)@[ty],
            store.is_some() ==> final(self)@ == old(self)@.insert(ty, final(store.unwrap())@),
            store.is_some() && final(store.unwrap()).wf() ==> final(self).wf(),
            store.is_none() ==> final(self)@ == old(self)@ && final(self).wf(),
    {
        proof {
            assert forall|after: Self|
                #![trigger after@]
                #![trigger after.wf()]
                old(self).stores().wf() && old(self).stores()@.contains_key(ty)
                    && after.stores().wf()
                    && after.stores()@ == old(self).stores()@.insert(ty, after.stores()@[ty])
                    implies after@ == old(self)@.insert(ty, after.stores()@[ty]@) && (
                after.stores()@[ty].wf() ==> after.wf()) by {
                assert(after@ =~= old(self)@.insert(ty, after.stores()@[ty]@));
                if after.stores()@[ty].wf() {
                    assert forall|other: TypeKey| #[trigger]
                        after.stores()@.contains_key(other) implies after.stores()@[other].wf() by {
                        if other != ty {
                            assert(old(self).stores()@.contains_key(other));
                        }
                    }
                }
            }
            assert forall|after: Self|
                #![trigger after@]
                #![trigger after.wf()]
                after.stores().wf() && after.stores()@ == old(self).stores()@ implies after@ == old(
                    self,
                )@ && after.wf() by {
                assert(after@ =~= old(self)@);
                assert forall|other: TypeKey| #[trigger]
                    after.stores()@.contains_key(other) implies after.stores()@[other].wf() by {
                    assert(old(self).stores()@.contains_key(other));
                }
            }
        }
        self.components.get_mut(ty)
    }

    /// Gives the component type `ty` an empty store, unless it has a store:
    /// to register a type again changes nothing.
    pub fn register(&mut self, ty: TypeKey)
        requires
            old(self).wf(),
        ensures
            final(self).wf(),
            final(self)@ == registered(old(self)@, ty),
            old(self)@.contains_key(ty) ==> *final(self) == *old(self),
            final(self).stores().entries().len() == old(self).stores().entries().len() + if old(
                self,
            )@.contains_key(ty) {
                0int
            } else {
                1int
            },
    {
        broadcast use vstd::std_specs::hash::group_hash_axioms;

        if self.components.get(ty).is_none() {
            self.components.insert(ty, SparseSet::new());
            proof {
                assert forall|other: TypeKey| #[trigger]
                    self.stores()@.contains_key(other) implies self.stores()@[other].wf() by {
                    if other != ty {
                        assert(old(self).stores()@.contains_key(other));
                    }
                }
                assert(self@ =~= registered(old(self)@, ty));
            }
        }
    }

    /// Sets the value of `entity` in the store of the registered component
    /// type `ty`.
    pub fn insert_by_comp_id(&mut self, ty: TypeKey, entity_id: EntityId, comp: V)
        requires
            old(self).wf(),
            old(self)@.contains_key(ty),
        ensures
            final(self).wf(),
            final(self)@ == old(self)@.insert(ty, old(self)@[ty].insert(entity_id, comp)),
    {
        match self.query_mut(ty) {
            Some(store) => {
                store.insert(entity_id, comp);
            },
            None => {},
        }
    }

    /// Removes the values of `entity` from all stores.
    pub fn remove(&mut self, entity_id: EntityId)
        requires
            old(self).wf(),
        ensures
            final(self).wf(),
            final(self)@.dom() == old(self)@.dom(),
            forall|ty: TypeKey| #[trigger]
                old(self)@.contains_key(ty)
                    ==> final(self)@[ty] == old(self)@[ty].remove(entity_id),
    {
        let count = self.components.len();
        let mut slot: usize = 0;
        while slot < count
            invariant
                self.wf(),
                count == self.stores().entries().len(),
                slot <= count,
                self.stores().keys() == old(self).stores().keys(),
                self.stores().slot_of() == old(self).stores().slot_of(),
                forall|k: int|
                    0 <= k < slot ==> (#[trigger] self.stores().values()[k])@ == old(
                        self,
                    ).stores().values()[k]@.remove(entity_id),
                forall|k: int|
                    slot <= k < count ==> (#[trigger] self.stores().values()[k]) == old(
                        self,
                    ).stores().values()[k],
            decreases count - slot,
        {
            let ghost entering = *self;
            let ghost ty = self.stores().entries()[slot as int].0;
            proof {
                assert(self.stores().slot_of().contains_key(self.stores().keys()[slot as int]));
                assert(self.stores()@.contains_key(ty));
                assert(self.stores()@[ty] == self.stores().values()[slot as int]);
            }
            let store = self.components.value_at_mut(slot);
            store.remove(entity_id);
            proof {
                assert forall|other: TypeKey| #[trigger]
                    self.stores()@.contains_key(other) implies self.stores()@[other].wf() by {
                    if other != ty {
                        assert(entering.stores()@.contains_key(other));
                    }
                }
                assert forall|k: int| 0 <= k < slot + 1 implies (
                #[trigger] self.stores().values()[k])@ == old(self).stores().values()[k]@.remove(
                    entity_id,
                ) by {
                    if k < slot {
                        assert(self.stores().values()[k] == entering.stores().values()[k]);
                    }
                }
            }
            slot += 1;
        }
        proof {
            assert(self@.dom() =~= old(self)@.dom());
            assert forall|ty: TypeKey| #[trigger] old(self)@.contains_key(ty)
                implies self@[ty] == old(
                self,
            )@[ty].remove(entity_id) by {
                assert(old(self).stores().slot_of().contains_key(ty));
                let k = old(self).stores().slot_of()[ty] as int;
                assert(self.stores().values()[k]@ == old(self).stores().values()[k]@.remove(
                    entity_id,
                ));
            }
        }
    }
}

} // verus!
