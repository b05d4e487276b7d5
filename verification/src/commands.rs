//! The structural changes that a task asks for while it runs.

use crate::component::component::TypeKey;
use crate::entity::entity::EntityId;
use vstd::prelude::*;

verus! {

/// A structural change that a task asks for. It takes effect after the task
/// has returned.
pub enum EntityCommand<V> {
    /// Create an entity with these component values; of two values of one
    /// component type the later one counts.
    NewEntity(Vec<(TypeKey, V)>),
    /// Remove an entity with all its components.
    ReleaseEntity(EntityId),
}

/// What a command asks for.
pub enum CommandView<V> {
    /// Create an entity with these component values.
    NewEntity(Seq<(TypeKey, V)>),
    /// Remove an entity with all its components.
    ReleaseEntity(EntityId),
}

impl<V> View for EntityCommand<V> {
    type V = CommandView<V>;

    open spec fn view(&self) -> CommandView<V> {
        match self {
            EntityCommand::NewEntity(bundle) => CommandView::NewEntity(bundle@),
            EntityCommand::ReleaseEntity(entity) => CommandView::ReleaseEntity(*entity),
        }
    }
}

impl<V> EntityCommand<V> {
    /// Adds the value `comp` of component type `ty` to the components of
    /// the entity that this command creates. A command that removes an
    /// entity stays as it is, and `comp` is dropped.
    pub fn add(&mut self, ty: TypeKey, comp: V)
        ensures
            final(self)@ == match old(self)@ {
                CommandView::NewEntity(bundle) => CommandView::NewEntity(bundle.push((ty, comp))),
                CommandView::ReleaseEntity(entity) => CommandView::ReleaseEntity(entity),
            },
    {
        match self {
            EntityCommand::NewEntity(components) => {
                components.push((ty, comp));
            },
            EntityCommand::ReleaseEntity(_) => {},
        }
    }
}

/// The commands that one task has issued, in the order of issue.
pub struct EntityCommands<V> {
    commands: Vec<EntityCommand<V>>,
}

impl<V> View for EntityCommands<V> {
    type V = Seq<CommandView<V>>;

    closed spec fn view(&self) -> Seq<CommandView<V>> {
        self.commands@.map_values(|command: EntityCommand<V>| command@)
    }
}

impl<V> EntityCommands<V> {
    /// An empty buffer.
    pub fn new() -> (buffer: Self)
        ensures
            buffer@ == Seq::<CommandView<V>>::empty(),
    {
        let buffer = EntityCommands { commands: Vec::new() };
        proof {
            assert(buffer@ =~= Seq::<CommandView<V>>::empty());
        }
        buffer
    }

    /// Issues the creation of an entity and hands out the new command, to
    /// which the caller adds the components of the entity.
    pub fn create(&mut self) -> (command: &mut EntityCommand<V>)
        ensures
            command@ == CommandView::<V>::NewEntity(Seq::empty()),
            final(self)@ == old(self)@.push(final(command)@),
    {
        self.commands.push(EntityCommand::NewEntity(Vec::new()));
        let last = self.commands.len() - 1;
        proof {
            assert forall|after: Self| #![trigger after@]
                after.commands@ == self.commands@.update(last as int, after.commands@[last as int])
                implies after@ == old(self)@.push(after.commands@[last as int]@) by {
                assert(after@ =~= old(self)@.push(after.commands@[last as int]@));
            }
        }
        &mut self.commands[last]
    }

    /// Issues the removal of `entity`.
    pub fn release(&mut self, entity_id: EntityId)
        ensures
            final(self)@ == old(self)@.push(CommandView::ReleaseEntity(entity_id)),
    {
        self.commands.push(EntityCommand::ReleaseEntity(entity_id));
        proof {
            assert(self@ =~= old(self)@.push(CommandView::ReleaseEntity(entity_id)));
        }
    }

    /// Hands out the issued commands in the order of issue and empties the
    /// buffer.
    pub fn take_commands(&mut self) -> (commands: Vec<EntityCommand<V>>)
        ensures
            commands@.map_values(|command: EntityCommand<V>| command@) == old(self)@,
            final(self)@ == Seq::<CommandView<V>>::empty(),
    {
        let mut commands: Vec<EntityCommand<V>> = Vec::new();
        core::mem::swap(&mut commands, &mut self.commands);
        proof {
            assert(self@ =~= Seq::<CommandView<V>>::empty());
        }
        commands
    }

    /// The number of issued commands.
    pub fn len(&self) -> (count: usize)
        ensures
            count == self@.len(),
    {
        self.commands.len()
    }
}

} // verus!
