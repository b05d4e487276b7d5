//! Views of all values of one component type, for reading and for writing.

use crate::archetype::archetype_iter::{ArchetypeQueryIter, ArchetypeQueryIterMut};
use crate::archetype::archetype_manager::ArchetypeManager;
use crate::component::component::TypeKey;
use crate::entity::entity::EntityId;
use vstd::prelude::*;

verus! {

/// The entities of `rows` with their values from `values`, from the
/// position `inner` of the block `outer` on, in the order in which a query
/// walks them: block by block, row by row.
pub open spec fn entries_from<V>(
    rows: Seq<Seq<EntityId>>,
    values: Seq<Seq<V>>,
    outer: int,
    inner: int,
) -> Seq<(EntityId, V)>
    decreases rows.len() - outer, rows[outer].len() - inner,
{
    if outer < 0 || outer >= rows.len() || inner < 0 {
        Seq::empty()
    } else if inner < rows[outer].len() {
        seq![(rows[outer][inner], values[outer][inner])]
            + entries_from(rows, values, outer, inner + 1)
    } else {
        entries_from(rows, values, outer + 1, 0)
    }
}

/// The value of the first of `entries` that belongs to `entity`.
pub open spec fn find_first<V>(entries: Seq<(EntityId, V)>, entity: EntityId) -> Option<V>
    decreases entries.len(),
{
    if entries.len() == 0 {
        None
    } else if entries[0].0 == entity {
        Some(entries[0].1)
    } else {
        find_first(entries.drop_first(), entity)
    }
}

/// Blocks in which no row from the position `inner` of the block `outer` on
/// belongs to `entity` give no value for it.
pub proof fn lemma_find_first_none<V>(
    rows: Seq<Seq<EntityId>>,
    values: Seq<Seq<V>>,
    outer: int,
    inner: int,
    entity: EntityId,
)
    requires
        0 <= outer,
        0 <= inner,
        forall|i: int, j: int|
            outer <= i < rows.len() && 0 <= j < rows[i].len() && (i > outer || j >= inner)
                ==> #[trigger] rows[i][j] != entity,
    ensures
        find_first(entries_from(rows, values, outer, inner), entity) is None,
    decreases rows.len() - outer, rows[outer].len() - inner,
{
    if outer < rows.len() {
        if inner < rows[outer].len() {
            let rest = entries_from(rows, values, outer, inner);
            assert(rest.drop_first() =~= entries_from(rows, values, outer, inner + 1));
            assert(rows[outer][inner] != entity);
            lemma_find_first_none(rows, values, outer, inner + 1, entity);
        } else {
            lemma_find_first_none(rows, values, outer + 1, 0, entity);
        }
    }
}

/// Blocks in which, from the position `inner` of the block `outer` on, the
/// row `row` of the block `block` is the only one that belongs to `entity`
/// give the value of that row for it.
pub proof fn lemma_find_first_only<V>(
    rows: Seq<Seq<EntityId>>,
    values: Seq<Seq<V>>,
    outer: int,
    inner: int,
    entity: EntityId,
    block: int,
    row: int,
)
    requires
        0 <= outer <= block < rows.len(),
        0 <= inner,
        0 <= row < rows[block].len(),
        block > outer || row >= inner,
        rows[block][row] == entity,
        forall|i: int, j: int|
            outer <= i < rows.len() && 0 <= j < rows[i].len() && (i > outer || j >= inner) && (i
                != block || j != row) ==> #[trigger] rows[i][j] != entity,
    ensures
        find_first(entries_from(rows, values, outer, inner), entity) == Some(values[block][row]),
    decreases rows.len() - outer, rows[outer].len() - inner,
{
    if inner < rows[outer].len() {
        let rest = entries_from(rows, values, outer, inner);
        assert(rest.drop_first() =~= entries_from(rows, values, outer, inner + 1));
        if outer == block && inner == row {
        } else {
            assert(rows[outer][inner] != entity);
            lemma_find_first_only(rows, values, outer, inner + 1, entity, block, row);
        }
    } else {
        lemma_find_first_only(rows, values, outer + 1, 0, entity, block, row);
    }
}

/// Blocks that differ in the value of one row only give the same entries
/// from any position behind that row on.
pub proof fn lemma_entries_behind<V>(
    rows: Seq<Seq<EntityId>>,
    values: Seq<Seq<V>>,
    block: int,
    row: int,
    comp: V,
    outer: int,
    inner: int,
)
    requires
        rows.len() == values.len(),
        forall|k: int| 0 <= k < rows.len() ==> (#[trigger] rows[k]).len() == values[k].len(),
        0 <= block < values.len(),
        0 <= row < values[block].len(),
        block < outer || (block == outer && row < inner),
    ensures
        entries_from(rows, values.update(block, values[block].update(row, comp)), outer, inner)
            == entries_from(rows, values, outer, inner),
    decreases rows.len() - outer, rows[outer].len() - inner,
{
    let changed = values.update(block, values[block].update(row, comp));
    if outer < rows.len() {
        if inner < rows[outer].len() {
            lemma_entries_behind(rows, values, block, row, comp, outer, inner + 1);
            assert(changed[outer][inner] == values[outer][inner]);
        } else {
            lemma_entries_behind(rows, values, block, row, comp, outer + 1, 0);
        }
    }
}

/// A read-only view of all values of one component type: for each archetype
/// that holds the type, the entities of its rows and the values of its
/// column.
pub struct ArchetypeQuery<'a, V> {
    indices: Vec<&'a Vec<EntityId>>,
    storages: Vec<&'a Vec<V>>,
}

impl<'a, V> View for ArchetypeQuery<'a, V> {
    type V = Seq<(EntityId, V)>;

    /// The entities with their values in the order in which the query walks
    /// them.
    open spec fn view(&self) -> Seq<(EntityId, V)> {
        entries_from(self.rows(), self.values(), 0, 0)
    }
}

impl<'a, V> ArchetypeQuery<'a, V> {
    /// The entities of the rows of each block.
    pub closed spec fn rows(&self) -> Seq<Seq<EntityId>> {
        self.indices@.map_values(|rows: &Vec<EntityId>| rows@)
    }

    /// The values of the rows of each block.
    pub closed spec fn values(&self) -> Seq<Seq<V>> {
        self.storages@.map_values(|values: &Vec<V>| values@)
    }

    /// Each block has one value per row.
    pub open spec fn wf(&self) -> bool {
        &&& self.rows().len() == self.values().len()
        &&& forall|k: int|
            0 <= k < self.rows().len()
                ==> (#[trigger] self.rows()[k]).len() == self.values()[k].len()
    }

    /// A view of the blocks whose rows are `indices` and whose values are
    /// `storages`. It is sound where there are as many lists of values as
    /// of rows, and as many values as rows in each.
    pub fn new(indices: Vec<&'a Vec<EntityId>>, storages: Vec<&'a Vec<V>>) -> (query: Self)
        ensures
            query.rows() == indices@.map_values(|rows: &Vec<EntityId>| rows@),
            query.values() == storages@.map_values(|values: &Vec<V>| values@),
            query.wf() <==> indices@.len() == storages@.len() && forall|k: int|
                0 <= k < indices@.len() ==> (#[trigger] indices@[k])@.len() == storages@[k]@.len(),
    {
        let query = ArchetypeQuery { indices, storages };
        proof {
            if indices@.len() == storages@.len() && forall|k: int|
                0 <= k < indices@.len() ==> (#[trigger] indices@[k])@.len() == storages@[k]@.len() {
                assert forall|k: int| 0 <= k < query.rows().len() implies (
                #[trigger] query.rows()[k]).len() == query.values()[k].len() by {
                    assert(indices@[k]@.len() == storages@[k]@.len());
                }
            }
            if query.wf() {
                assert forall|k: int| 0 <= k < indices@.len()
                    implies (#[trigger] indices@[k])@.len()
                    == storages@[k]@.len() by {
                    assert(query.rows()[k].len() == query.values()[k].len());
                }
            }
        }
        query
    }

    /// A cursor at the first entity of the view.
    pub fn iter(&self) -> (cursor: ArchetypeQueryIter<'_, V>)
        requires
            self.wf(),
        ensures
            cursor.wf(),
            cursor.remaining() == self@,
    {
        ArchetypeQueryIter::new(self)
    }

    /// The entities of the rows of each block.
    pub fn indices(&self) -> (indices: &Vec<&'a Vec<EntityId>>)
        ensures
            indices@.map_values(|rows: &Vec<EntityId>| rows@) == self.rows(),
    {
        &self.indices
    }

    /// The values of the rows of each block.
    pub fn storage(&self) -> (storages: &Vec<&'a Vec<V>>)
        ensures
            storages@.map_values(|values: &Vec<V>| values@) == self.values(),
    {
        &self.storages
    }

    /// The value of `entity`, if the view holds the entity: the first one
    /// where it holds the entity more than once.
    pub fn query(&self, entity_query: EntityId) -> (comp: Option<&V>)
        requires
            self.wf(),
        ensures
            comp.is_some() == find_first(self@, entity_query).is_some(),
            comp.is_some() ==> *comp.unwrap() == find_first(self@, entity_query).unwrap(),
    {
        let mut i: usize = 0;
        while i < self.indices.len()
            invariant
                self.wf(),
                i <= self.rows().len(),
                find_first(self@, entity_query) == find_first(
                    entries_from(self.rows(), self.values(), i as int, 0),
                    entity_query,
                ),
            decreases self.indices.len() - i,
        {
            let indices = self.indices[i];
            proof {
                assert(indices@ == self.rows()[i as int]);
                assert(self.storages@[i as int]@ == self.values()[i as int]);
            }
            let mut j: usize = 0;
            while j < indices.len()
                invariant
                    self.wf(),
                    i < self.rows().len(),
                    indices@ == self.rows()[i as int],
                    self.storages@[i as int]@ == self.values()[i as int],
                    j <= indices@.len(),
                    find_first(self@, entity_query) == find_first(
                        entries_from(self.rows(), self.values(), i as int, j as int),
                        entity_query,
                    ),
                decreases indices.len() - j,
            {
                proof {
                    let rest = entries_from(self.rows(), self.values(), i as int, j as int);
                    assert(rest.drop_first() =~= entries_from(
                        self.rows(),
                        self.values(),
                        i as int,
                        j + 1,
                    ));
                }
                if indices[j] == entity_query {
                    return Some(&self.storages[i][j]);
                }
                j += 1;
            }
            i += 1;
        }
        None
    }
}

/// A view of all values of one component type for writing. It holds the
/// component store and finds each value when it is asked for: no two
/// references to one value can be had at once.
pub struct ArchetypeQueryMut<'a, V> {
    /// The component store.
    pub manager: &'a mut ArchetypeManager<V>,
    /// The component type of the view.
    pub ty: TypeKey,
}

impl<'a, V> View for ArchetypeQueryMut<'a, V> {
    type V = Seq<(EntityId, V)>;

    /// The entities with their values in the order in which the view is
    /// walked.
    open spec fn view(&self) -> Seq<(EntityId, V)> {
        entries_from(self.store().block_rows(self.ty), self.store().block_values(self.ty), 0, 0)
    }
}

impl<'a, V> ArchetypeQueryMut<'a, V> {
    /// The component store as it is now.
    pub open spec fn store(&self) -> ArchetypeManager<V> {
        *self.manager
    }

    /// The component store is sound.
    pub open spec fn wf(&self) -> bool {
        self.store().wf()
    }

    /// A view of the values of the component type `ty` in `manager`.
    pub fn new(manager: &'a mut ArchetypeManager<V>, ty: TypeKey) -> (query: Self)
        ensures
            query.ty == ty,
            query.store() == *old(manager),
            *final(query.manager) == *final(manager),
    {
        ArchetypeQueryMut { manager, ty }
    }

    /// A cursor at the first entity of the view.
    pub fn iter_mut(&mut self) -> (cursor: ArchetypeQueryIterMut<'_, V>)
        requires
            old(self).wf(),
        ensures
            cursor.wf(),
            cursor.ty == old(self).ty,
            cursor.outer_index == 0,
            cursor.inner_index == 0,
            cursor.store() == old(self).store(),
            cursor.remaining() == old(self)@,
            final(self).ty == old(self).ty,
            final(self).store() == *final(cursor.manager),
            *final(final(self).manager) == *final(old(self).manager),
    {
        ArchetypeQueryIterMut::new(self)
    }

    /// The entities of the rows of each block.
    pub fn indices(&self) -> (indices: Vec<&Vec<EntityId>>)
        requires
            self.wf(),
        ensures
            indices@.map_values(|rows: &Vec<EntityId>| rows@) == self.store().block_rows(self.ty),
    {
        let count = self.manager.holder_count(self.ty);
        let mut indices: Vec<&Vec<EntityId>> = Vec::new();
        let mut block: usize = 0;
        while block < count
            invariant
                self.wf(),
                count == self.store().holders_of(self.ty).len(),
                block <= count,
                indices@.len() == block,
                forall|k: int|
                    0 <= k < block ==> (#[trigger] indices@[k])@ == self.store().block_rows(
                        self.ty,
                    )[k],
            decreases count - block,
        {
            indices.push(self.manager.rows_of_block(self.ty, block));
            block += 1;
        }
        proof {
            assert(indices@.map_values(|rows: &Vec<EntityId>| rows@) =~= self.store().block_rows(
                self.ty,
            ));
        }
        indices
    }

    /// The values of the rows of each block, for reading. Values are
    /// written through [`Self::query_mut`] or through a cursor.
    pub fn storages(&self) -> (storages: Vec<&Vec<V>>)
        requires
            self.wf(),
        ensures
            storages@.map_values(|values: &Vec<V>| values@) == self.store().block_values(self.ty),
    {
        let count = self.manager.holder_count(self.ty);
        let mut storages: Vec<&Vec<V>> = Vec::new();
        let mut block: usize = 0;
        while block < count
            invariant
                self.wf(),
                count == self.store().holders_of(self.ty).len(),
                block <= count,
                storages@.len() == block,
                forall|k: int|
                    0 <= k < block ==> (#[trigger] storages@[k])@ == self.store().block_values(
                        self.ty,
                    )[k],
            decreases count - block,
        {
            storages.push(self.manager.values_of_block(self.ty, block));
            block += 1;
        }
        proof {
            assert(storages@.map_values(|values: &Vec<V>| values@) =~= self.store().block_values(
                self.ty,
            ));
        }
        storages
    }

    /// The value of `entity`, if the entity is live and holds a component
    /// of the type of the view.
    pub fn query(&self, entity_query: EntityId) -> (comp: Option<&V>)
        requires
            self.wf(),
        ensures
            comp.is_some() == find_first(self@, entity_query).is_some(),
            comp.is_some() ==> *comp.unwrap() == find_first(self@, entity_query).unwrap(),
    {
        proof {
            self.manager.lemma_blocks_wf(self.ty);
            self.manager.lemma_blocks_complete(
                self.ty,
                self.manager.block_rows(self.ty),
                self.manager.block_values(self.ty),
                entity_query,
            );
        }
        self.manager.query(entity_query, self.ty)
    }

    /// The value of `entity`, for writing, if the entity is live and holds
    /// a component of the type of the view.
    pub fn query_mut(&mut self, entity_query: EntityId) -> (comp: Option<&mut V>)
        requires
            old(self).wf(),
        ensures
            comp.is_some() == find_first(old(self)@, entity_query).is_some(),
            comp.is_some() ==> *comp.unwrap() == find_first(old(self)@, entity_query).unwrap(),
            final(self).wf(),
            final(self).ty == old(self).ty,
            comp.is_some() ==> final(self).store()@ == old(self).store()@.insert(
                entity_query,
                old(self).store()@[entity_query].insert(old(self).ty, *final(comp.unwrap())),
            ),
            comp.is_none() ==> final(self).store() == old(self).store(),
            *final(final(self).manager) == *final(old(self).manager),
    {
        proof {
            self.manager.lemma_blocks_wf(self.ty);
            self.manager.lemma_blocks_complete(
                self.ty,
                self.manager.block_rows(self.ty),
                self.manager.block_values(self.ty),
                entity_query,
            );
        }
        self.manager.query_mut(entity_query, self.ty)
    }
}

} // verus!
