//! Cursors over the views of one component type.

use crate::archetype::archetype_manager::ArchetypeManager;
use crate::archetype::archetype_query::{
    entries_from, lemma_entries_behind, ArchetypeQuery, ArchetypeQueryMut,
};
use crate::component::component::TypeKey;
use crate::entity::entity::EntityId;
use vstd::prelude::*;

verus! {

/// A cursor over the entities of a read-only view with their values. It
/// walks the view once, block by block and row by row.
pub struct ArchetypeQueryIter<'a, V> {
    query: &'a ArchetypeQuery<'a, V>,
    outer_index: usize,
    inner_index: usize,
}

impl<'a, V> ArchetypeQueryIter<'a, V> {
    /// The view that the cursor walks.
    pub closed spec fn query(&self) -> &ArchetypeQuery<'a, V> {
        self.query
    }

    /// The block of the cursor.
    pub closed spec fn outer(&self) -> int {
        self.outer_index as int
    }

    /// The row of the cursor in its block.
    pub closed spec fn inner(&self) -> int {
        self.inner_index as int
    }

    /// The entities that the cursor has not handed out yet, with their
    /// values, in the order in which it hands them out.
    pub open spec fn remaining(&self) -> Seq<(EntityId, V)> {
        entries_from(self.query().rows(), self.query().values(), self.outer(), self.inner())
    }

    /// The view is sound.
    pub open spec fn wf(&self) -> bool {
        self.query().wf()
    }

    /// A cursor at the first entity of `query`.
    pub fn new(query: &'a ArchetypeQuery<'a, V>) -> (cursor: Self)
        ensures
            cursor.query() == query,
            cursor.remaining() == query@,
    {
        ArchetypeQueryIter { query, outer_index: 0, inner_index: 0 }
    }

    /// Hands out the next entity with its value and moves on; none when
    /// the view is walked through.
    pub fn next(&mut self) -> (item: Option<(EntityId, &'a V)>)
        requires
            old(self).wf(),
        ensures
            final(self).wf(),
            final(self).query() == old(self).query(),
            match item {
                Some((entity, value)) => old(self).remaining().len() > 0 && (entity, *value) == old(
                    self,
                ).remaining()[0] && final(self).remaining() == old(self).remaining().drop_first(),
                None => old(self).remaining().len() == 0 && final(self).remaining().len() == 0,
            },
    {
        let query = self.query;
        while self.outer_index < query.indices().len()
            invariant
                query == self.query(),
                query == old(self).query(),
                query.wf(),
                self.remaining() == old(self).remaining(),
            decreases query.rows().len() - self.outer(),
        {
            let indices = query.indices()[self.outer_index];
            let storages = query.storage()[self.outer_index];
            proof {
                assert(indices@ == query.rows()[self.outer()]);
                assert(storages@ == query.values()[self.outer()]);
            }
            if self.inner_index < indices.len() {
                let entity_id = indices[self.inner_index];
                let component = &storages[self.inner_index];
                proof {
                    assert(self.remaining().drop_first() =~= entries_from(
                        query.rows(),
                        query.values(),
                        self.outer(),
                        self.inner() + 1,
                    ));
                }
                self.inner_index += 1;
                return Some((entity_id, component));
            }
            self.outer_index += 1;
            self.inner_index = 0;
        }
        None
    }
}

/// A cursor over the entities that hold a component of one type, with
/// their values for writing. It walks them once, block by block and row by
/// row, and hands out one value at a time.
pub struct ArchetypeQueryIterMut<'a, V> {
    /// The component store.
    pub manager: &'a mut ArchetypeManager<V>,
    /// The component type of the view.
    pub ty: TypeKey,
    /// The block of the cursor.
    pub outer_index: usize,
    /// The row of the cursor in its block.
    pub inner_index: usize,
}

impl<'a, V> ArchetypeQueryIterMut<'a, V> {
    /// The entities that the cursor has not handed out yet, with their
    /// values, in the order in which it hands them out.
    pub open spec fn remaining(&self) -> Seq<(EntityId, V)> {
        entries_from(
            self.store().block_rows(self.ty),
            self.store().block_values(self.ty),
            self.outer_index as int,
            self.inner_index as int,
        )
    }

    /// The component store as it is now.
    pub open spec fn store(&self) -> ArchetypeManager<V> {
        *self.manager
    }

    /// The component store is sound.
    pub open spec fn wf(&self) -> bool {
        self.store().wf()
    }

    /// A cursor at the first entity of `query`.
    pub fn new<'q>(query: &'q mut ArchetypeQueryMut<'a, V>) -> (cursor: ArchetypeQueryIterMut<
        'q,
        V,
    >)
        ensures
            cursor.ty == old(query).ty,
            cursor.outer_index == 0,
            cursor.inner_index == 0,
            cursor.store() == old(query).store(),
            cursor.remaining() == old(query)@,
            final(query).ty == old(query).ty,
            final(query).store() == *final(cursor.manager),
            *final(final(query).manager) == *final(old(query).manager),
    {
        ArchetypeQueryIterMut {
            manager: &mut *query.manager,
            ty: query.ty,
            outer_index: 0,
            inner_index: 0,
        }
    }

    /// Hands out the next entity with its value, for writing, and moves
    /// on; none when all entities are walked through. What is written
    /// changes the value of that entity and nothing that the cursor has
    /// still to hand out.
    pub fn next(&mut self) -> (item: Option<(EntityId, &mut V)>)
        requires
            old(self).wf(),
        ensures
            final(self).wf(),
            final(self).ty == old(self).ty,
            *final(final(self).manager) == *final(old(self).manager),
            match item {
                Some((entity, value)) => {
                    &&& old(self).remaining().len() > 0
                    &&& (entity, *value) == old(self).remaining()[0]
                    &&& final(self).remaining() == old(self).remaining().drop_first()
                    &&& old(self).store()@.contains_key(entity)
                    &&& old(self).store()@[entity].contains_key(old(self).ty)
                    &&& final(self).store()@ == old(self).store()@.insert(
                        entity,
                        old(self).store()@[entity].insert(old(self).ty, *final(value)),
                    )
                },
                None => {
                    &&& old(self).remaining().len() == 0
                    &&& final(self).remaining().len() == 0
                    &&& final(self).store() == old(self).store()
                },
            },
    {
        let ty = self.ty;
        let count = self.manager.holder_count(ty);
        while self.outer_index < count
            invariant
                self.wf(),
                self.ty == ty,
                self.ty == old(self).ty,
                count == self.store().holders_of(ty).len(),
                self.store() == old(self).store(),
                *final(self.manager) == *final(old(self).manager),
                self.remaining() == old(self).remaining(),
            decreases count - self.outer_index,
        {
            let rows = self.manager.rows_of_block(ty, self.outer_index);
            if self.inner_index < rows.len() {
                let entity_id = rows[self.inner_index];
                let row = self.inner_index;
                let block = self.outer_index;
                self.inner_index += 1;
                proof {
                    let before = *self.manager;
                    before.lemma_blocks_wf(ty);
                    before.lemma_block_entity(ty, block as int, row as int);
                    assert(old(self).remaining().drop_first() =~= entries_from(
                        before.block_rows(ty),
                        before.block_values(ty),
                        block as int,
                        row + 1,
                    ));
                    assert forall|comp: V| #![trigger before.block_values(ty)[block as int].update(
                        row as int, comp)]
                        entries_from(
                            before.block_rows(ty),
                            before.block_values(ty).update(
                                block as int,
                                before.block_values(ty)[block as int].update(row as int, comp),
                            ),
                            block as int,
                            row + 1,
                        ) == entries_from(
                            before.block_rows(ty),
                            before.block_values(ty),
                            block as int,
                            row + 1,
                        ) by {
                        lemma_entries_behind(
                            before.block_rows(ty),
                            before.block_values(ty),
                            block as int,
                            row as int,
                            comp,
                            block as int,
                            row + 1,
                        );
                    }
                }
                let value = self.manager.value_of_block_mut(ty, block, row);
                return Some((entity_id, value));
            }
            self.outer_index += 1;
            self.inner_index = 0;
        }
        None
    }
}

} // verus!
