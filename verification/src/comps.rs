//! The parameters through which a task reaches components, resources and the
//! command buffer.

use crate::archetype::archetype_iter::{ArchetypeQueryIter, ArchetypeQueryIterMut};
use crate::archetype::archetype_query::{find_first, ArchetypeQuery, ArchetypeQueryMut};
use crate::commands::{CommandView, EntityCommand, EntityCommands};
use crate::entity::entity::EntityId;
use vstd::prelude::*;

verus! {

/// What a task gets to read the components of one type.
pub struct Comps<'a, V> {
    query: ArchetypeQuery<'a, V>,
}

impl<'a, V> Comps<'a, V> {
    /// The view that is read.
    pub closed spec fn query_view(&self) -> ArchetypeQuery<'a, V> {
        self.query
    }

    /// Wraps the view `query`.
    pub fn new(query: ArchetypeQuery<'a, V>) -> (comps: Self)
        ensures
            comps.query_view() == query,
    {
        Comps { query }
    }

    /// A cursor at the first entity.
    pub fn iter(&self) -> (cursor: ArchetypeQueryIter<'_, V>)
        requires
            self.query_view().wf(),
        ensures
            cursor.wf(),
            cursor.remaining() == self.query_view()@,
    {
        ArchetypeQueryIter::new(&self.query)
    }

    /// The value of `id`, if the view holds the entity.
    pub fn query(&self, id: EntityId) -> (comp: Option<&V>)
        requires
            self.query_view().wf(),
        ensures
            comp.is_some() == find_first(self.query_view()@, id).is_some(),
            comp.is_some() ==> *comp.unwrap() == find_first(self.query_view()@, id).unwrap(),
    {
        self.query.query(id)
    }
}

/// What a task gets to write the components of one type.
pub struct CompsMut<'a, V> {
    /// The view that is written.
    pub query: ArchetypeQueryMut<'a, V>,
}

impl<'a, V> CompsMut<'a, V> {
    /// Wraps the view `query`.
    pub fn new(query: ArchetypeQueryMut<'a, V>) -> (comps: Self)
        ensures
            comps.query == query,
    {
        CompsMut { query }
    }

    /// A cursor at the first entity.
    pub fn iter(&mut self) -> (cursor: ArchetypeQueryIterMut<'_, V>)
        requires
            old(self).query.wf(),
        ensures
            cursor.wf(),
            cursor.ty == old(self).query.ty,
            cursor.outer_index == 0,
            cursor.inner_index == 0,
            cursor.store() == old(self).query.store(),
            cursor.remaining() == old(self).query@,
            final(self).query.ty == old(self).query.ty,
            final(self).query.store() == *final(cursor.manager),
            *final(final(self).query.manager) == *final(old(self).query.manager),
    {
        ArchetypeQueryIterMut::new(&mut self.query)
    }
}

/// What a task gets to read one resource.
pub struct Res<'a, T> {
    resource: &'a T,
}

impl<'a, T> Res<'a, T> {
    /// The resource that is read.
    pub closed spec fn value(&self) -> T {
        *self.resource
    }

    /// Wraps `resource`.
    pub fn new(resource: &'a T) -> (res: Self)
        ensures
            res.value() == *resource,
    {
        Res { resource }
    }

    /// The resource.
    pub fn get(&self) -> (resource: &T)
        ensures
            *resource == self.value(),
    {
        self.resource
    }
}

/// What a task gets to write one resource.
pub struct ResMut<'a, T> {
    /// The resource that is written.
    pub resource: &'a mut T,
}

impl<'a, T> ResMut<'a, T> {
    /// The resource as it is now.
    pub open spec fn value(&self) -> T {
        *self.resource
    }

    /// Wraps `resource`.
    pub fn new(resource: &'a mut T) -> (res: Self)
        ensures
            res.value() == *old(resource),
            *final(res.resource) == *final(resource),
    {
        ResMut { resource }
    }

    /// The resource.
    pub fn get(&self) -> (resource: &T)
        ensures
            *resource == self.value(),
    {
        &*self.resource
    }

    /// The resource, for writing.
    pub fn get_mut(&mut self) -> (resource: &mut T)
        ensures
            *resource == old(self).value(),
            final(self).value() == *final(resource),
            *final(final(self).resource) == *final(old(self).resource),
    {
        &mut *self.resource
    }
}

/// What a task gets to create and remove entities. The commands take
/// effect after the task has returned.
pub struct Commands<'a, V> {
    /// The buffer that takes the commands.
    pub commands: &'a mut EntityCommands<V>,
}

impl<'a, V> Commands<'a, V> {
    /// The commands that are issued so far.
    pub open spec fn issued(&self) -> Seq<CommandView<V>> {
        self.commands@
    }

    /// Wraps the buffer `commands`.
    pub fn new(commands: &'a mut EntityCommands<V>) -> (wrapped: Self)
        ensures
            wrapped.issued() == old(commands)@,
            *final(wrapped.commands) == *final(commands),
    {
        Commands { commands }
    }

    /// Issues the creation of an entity and hands out the new command, to
    /// which the caller adds the components of the entity.
    pub fn create(&mut self) -> (command: &mut EntityCommand<V>)
        ensures
            command@ == CommandView::<V>::NewEntity(Seq::empty()),
            final(self).issued() == old(self).issued().push(final(command)@),
            *final(final(self).commands) == *final(old(self).commands),
    {
        self.commands.create()
    }

    /// Issues the removal of `entity`.
    pub fn remove(&mut self, entity_id: EntityId)
        ensures
            final(self).issued() == old(self).issued().push(CommandView::ReleaseEntity(entity_id)),
            *final(final(self).commands) == *final(old(self).commands),
    {
        self.commands.release(entity_id)
    }
}

} // verus!
