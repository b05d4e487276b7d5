//! Columns: the values of one component type, packed by row.

use crate::component::component::TypeKey;
use vstd::prelude::*;

verus! {

/// What is left of `s` after the element at `index` has been taken out by
/// moving the last element into its place.
pub open spec fn swap_removed<A>(s: Seq<A>, index: int) -> Seq<A>
    recommends
        0 <= index < s.len(),
{
    s.update(index, s.last()).drop_last()
}

/// A column: the values of one component type, one per row of the archetype
/// that owns the column.
pub struct CompStorage<V> {
    ty: TypeKey,
    components: Vec<V>,
}

impl<V> View for CompStorage<V> {
    type V = Seq<V>;

    /// The values of the column by row.
    closed spec fn view(&self) -> Seq<V> {
        self.components@
    }
}

impl<V> CompStorage<V> {
    /// The component type whose values the column holds.
    pub closed spec fn type_key(&self) -> TypeKey {
        self.ty
    }

    /// An empty column for the component type `ty`.
    pub fn new(ty: TypeKey) -> (storage: Self)
        ensures
            storage.type_key() == ty,
            storage@ == Seq::<V>::empty(),
    {
        CompStorage { ty, components: Vec::new() }
    }

    /// Appends `comp` as the value of a new last row.
    pub fn add(&mut self, comp: V)
        ensures
            final(self).type_key() == old(self).type_key(),
            final(self)@ == old(self)@.push(comp),
    {
        self.components.push(comp);
    }

    /// Overwrites the value of row `index`.
    pub fn update(&mut self, index: usize, comp: V)
        requires
            index < old(self)@.len(),
        ensures
            final(self).type_key() == old(self).type_key(),
            final(self)@ == old(self)@.update(index as int, comp),
    {
        self.components[index] = comp;
    }

    /// The value of row `index`.
    pub fn get(&self, index: usize) -> (comp: &V)
        requires
            index < self@.len(),
        ensures
            *comp == self@[index as int],
    {
        &self.components[index]
    }

    /// The value of row `index`, for writing. The column keeps its length.
    pub fn get_mut(&mut self, index: usize) -> (comp: &mut V)
        requires
            index < old(self)@.len(),
        ensures
            *comp == old(self)@[index as int],
            final(self).type_key() == old(self).type_key(),
            final(self)@ == old(self)@.update(index as int, *final(comp)),
    {
        &mut self.components[index]
    }

    /// All values of the column by row.
    pub fn components(&self) -> (values: &Vec<V>)
        ensures
            values@ == self@,
    {
        &self.components
    }

    /// All values of the column by row, for writing.
    pub fn components_mut(&mut self) -> (values: &mut Vec<V>)
        ensures
            values@ == old(self)@,
            final(self).type_key() == old(self).type_key(),
            final(self)@ == final(values)@,
    {
        &mut self.components
    }

    /// Drops the value of row `index`; the last row takes its place.
    pub fn remove(&mut self, index: usize)
        requires
            index < old(self)@.len(),
        ensures
            final(self).type_key() == old(self).type_key(),
            final(self)@ == swap_removed(old(self)@, index as int),
    {
        let _ = self.components.swap_remove(index);
    }

    /// Moves the value of row `index` to the end of `dest`, where `dest` is a
    /// column of the same component type; the last row of this column takes
    /// the place of the moved one. Returns the last row of each column after
    /// the move (zero for an empty column).
    ///
    /// A `dest` of another component type is rejected: nothing moves and the
    /// result is `(0, 0)`.
    pub fn transfer(&mut self, dest: &mut CompStorage<V>, index: usize) -> (last_rows: (usize,
        usize))
        requires
            index < old(self)@.len(),
        ensures
            final(self).type_key() == old(self).type_key(),
            final(dest).type_key() == old(dest).type_key(),
            old(self).type_key() == old(dest).type_key() ==> {
                &&& final(self)@ == swap_removed(old(self)@, index as int)
                &&& final(dest)@ == old(dest)@.push(old(self)@[index as int])
                &&& last_rows.0 == (if old(self)@.len() == 1 { 0 } else { old(self)@.len() - 2 })
                &&& last_rows.1 == old(dest)@.len()
            },
            old(self).type_key() != old(dest).type_key() ==> {
                &&& final(self)@ == old(self)@
                &&& final(dest)@ == old(dest)@
                &&& last_rows == (0usize, 0usize)
            },
    {
        if self.ty == dest.ty {
            let comp = self.components.swap_remove(index);
            dest.components.push(comp);
            if self.components.is_empty() {
                (0, dest.components.len() - 1)
            } else {
                (self.components.len() - 1, dest.components.len() - 1)
            }
        } else {
            (0, 0)
        }
    }

    /// The component type whose values the column holds.
    pub fn contained_type(&self) -> (ty: TypeKey)
        ensures
            ty == self.type_key(),
    {
        self.ty
    }

    /// An empty column of the same component type.
    pub fn duplicate(&self) -> (storage: CompStorage<V>)
        ensures
            storage.type_key() == self.type_key(),
            storage@ == Seq::<V>::empty(),
    {
        CompStorage { ty: self.ty, components: Vec::new() }
    }

    /// The number of rows of the column.
    pub fn len(&self) -> (count: usize)
        ensures
            count == self@.len(),
    {
        self.components.len()
    }
}

} // verus!
