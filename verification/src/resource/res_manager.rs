//! The table of resources.

use crate::component::component::TypeKey;
use crate::data::sparse_set::SparseSet;
use vstd::prelude::*;

verus! {

/// The table of resources: at most one value per resource type.
pub struct ResManager<R> {
    components: SparseSet<TypeKey, R>,
}

impl<R> View for ResManager<R> {
    type V = Map<TypeKey, R>;

    /// The resource of each resource type that has one.
    closed spec fn view(&self) -> Map<TypeKey, R> {
        self.components@
    }
}

impl<R> ResManager<R> {
    /// The invariant of the table.
    pub closed spec fn wf(&self) -> bool {
        self.components.wf()
    }

    /// An empty table.
    pub fn new() -> (manager: Self)
        ensures
            manager.wf(),
            manager@ == Map::<TypeKey, R>::empty(),
    {
        broadcast use vstd::std_specs::hash::group_hash_axioms;

        ResManager { components: SparseSet::new() }
    }

    /// Makes `res` the resource of type `ty`, in place of an earlier one.
    pub fn set(&mut self, ty: TypeKey, res: R)
        requires
            old(self).wf(),
        ensures
            final(self).wf(),
            final(self)@ == old(self)@.insert(ty, res),
    {
        self.components.insert(ty, res);
    }

    /// The resource of type `ty`; none where no resource of that type was
    /// ever set, which is a mistake of the caller.
    pub fn query(&self, ty: TypeKey) -> (res: Option<&R>)
        requires
            self.wf(),
        ensures
            res.is_some() == self@.contains_key(ty),
            res.is_some() ==> *res.unwrap() == self@[ty],
    {
        self.components.get(ty)
    }

    /// The resource of type `ty`, for writing; none where no resource of
    /// that type was ever set, which is a mistake of the caller.
    pub fn query_mut(&mut self, ty: TypeKey) -> (res: Option<&mut R>)
        requires
            old(self).wf(),
        ensures
            res.is_some() == old(self)@.contains_key(ty),
            final(self).wf(),
            res.is_some() ==> *res.unwrap() == old(self)@[ty] && final(self)@ == old(self)@.insert(
                ty,
                *final(res.unwrap()),
            ),
            res.is_none() ==> final(self)@ == old(self)@,
    {
        self.components.get_mut(ty)
    }
}

} // verus!
