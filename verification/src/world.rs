//! The world: entities, components and resources, and the commands that
//! change them between tasks.

use crate::archetype::archetype_manager::ArchetypeManager;
use crate::commands::{CommandView, EntityCommand};
use crate::component::component::TypeKey;
use crate::entity::entity::EntityId;
use crate::entity::entity_manager::EntityManager;
use crate::resource::res_manager::ResManager;
use vstd::prelude::*;

verus! {

/// The components that a list of values gives to an entity: of two values of
/// one component type the later one counts.
pub open spec fn bundle_map<V>(bundle: Seq<(TypeKey, V)>) -> Map<TypeKey, V>
    decreases bundle.len(),
{
    if bundle.len() == 0 {
        Map::empty()
    } else {
        bundle_map(bundle.drop_last()).insert(bundle.last().0, bundle.last().1)
    }
}

/// The elements of `list` in the opposite order.
pub fn reversed<T>(list: Vec<T>) -> (turned: Vec<T>)
    ensures
        turned@ == list@.reverse(),
{
    let mut list = list;
    let ghost whole = list@;
    let mut turned: Vec<T> = Vec::new();
    while list.len() > 0
        invariant
            list@.len() + turned@.len() == whole.len(),
            list@ == whole.take(list@.len() as int),
            forall|i: int| 0 <= i < turned@.len() ==> turned@[i] == whole[whole.len() - 1 - i],
        decreases list.len(),
    {
        match list.pop() {
            Some(item) => {
                turned.push(item);
            },
            None => {},
        }
        proof {
            assert(list@ =~= whole.take(list@.len() as int));
        }
    }
    proof {
        assert(turned@ =~= whole.reverse());
    }
    turned
}

/// What a world holds, as far as commands change it.
pub struct WorldState<V> {
    /// The live entities, each with its component values by type.
    pub components: Map<EntityId, Map<TypeKey, V>>,
    /// The released identities; the last one is handed out next.
    pub free_list: Seq<EntityId>,
    /// The largest identity that was ever made.
    pub newest: EntityId,
}

impl<V> WorldState<V> {
    /// Whether an entity can still be created.
    pub open spec fn can_create(self) -> bool {
        self.free_list.len() > 0 || self.newest < u64::MAX
    }

    /// The identity of the entity that is created next.
    pub open spec fn next_id(self) -> EntityId {
        if self.free_list.len() > 0 {
            self.free_list.last()
        } else {
            (self.newest + 1) as EntityId
        }
    }

    /// The state with a new entity that holds `bundle`.
    pub open spec fn created(self, bundle: Map<TypeKey, V>) -> WorldState<V> {
        WorldState {
            components: self.components.insert(self.next_id(), bundle),
            free_list: if self.free_list.len() > 0 {
                self.free_list.drop_last()
            } else {
                self.free_list
            },
            newest: if self.free_list.len() > 0 {
                self.newest
            } else {
                (self.newest + 1) as EntityId
            },
        }
    }

    /// The state without the entity `entity`, whose identity is free again.
    pub open spec fn released(self, entity: EntityId) -> WorldState<V> {
        WorldState {
            components: self.components.remove(entity),
            free_list: self.free_list.push(entity),
            newest: self.newest,
        }
    }

    /// The state after one command. The creation of an entity is dropped
    /// where the identities are used up, the removal of an entity where the
    /// entity is not live.
    pub open spec fn step(self, command: CommandView<V>) -> WorldState<V> {
        match command {
            CommandView::NewEntity(bundle) => if self.can_create() {
                self.created(bundle_map(bundle))
            } else {
                self
            },
            CommandView::ReleaseEntity(entity) => if self.components.contains_key(entity) {
                self.released(entity)
            } else {
                self
            },
        }
    }

    /// The state after `commands`, applied in their order.
    pub open spec fn run(self, commands: Seq<CommandView<V>>) -> WorldState<V>
        decreases commands.len(),
    {
        if commands.len() == 0 {
            self
        } else {
            self.run(commands.drop_last()).step(commands.last())
        }
    }
}

/// The whole state of the engine: the entities, their components, and the
/// resources.
pub struct World<V, R> {
    resources: ResManager<R>,
    archetypes: ArchetypeManager<V>,
    entities: EntityManager,
}

impl<V, R> View for World<V, R> {
    type V = WorldState<V>;

    open spec fn view(&self) -> WorldState<V> {
        WorldState {
            components: self.archetypes()@,
            free_list: self.entities().free_list(),
            newest: self.entities().newest(),
        }
    }
}

impl<V, R> World<V, R> {
    /// The store of the components.
    pub closed spec fn archetypes(&self) -> ArchetypeManager<V> {
        self.archetypes
    }

    /// The table of the resources.
    pub closed spec fn resources(&self) -> ResManager<R> {
        self.resources
    }

    /// The manager of the identities.
    pub closed spec fn entities(&self) -> EntityManager {
        self.entities
    }

    /// The three parts are sound, and the entities of the component store
    /// are the live identities.
    pub open spec fn wf(&self) -> bool {
        &&& self.archetypes().wf()
        &&& self.resources().wf()
        &&& self.entities().wf()
        &&& self.archetypes()@.dom() == self.entities().live()
    }

    /// A world without entities and without resources.
    pub fn new() -> (world: Self)
        ensures
            world.wf(),
            world@.components == Map::<EntityId, Map<TypeKey, V>>::empty(),
            world@.free_list == Seq::<EntityId>::empty(),
            world@.newest == 0,
            world.resources()@ == Map::<TypeKey, R>::empty(),
    {
        let world = World {
            archetypes: ArchetypeManager::new(),
            entities: EntityManager::new(),
            resources: ResManager::new(),
        };
        proof {
            assert(world.archetypes()@.dom() =~= world.entities().live());
        }
        world
    }

    /// Whether an entity can still be created.
    pub fn has_room(&self) -> (room: bool)
        ensures
            room == self@.can_create(),
    {
        self.entities.has_room()
    }

    /// Whether `entity` is live.
    pub fn contains(&self, entity_id: EntityId) -> (live: bool)
        ensures
            live == self@.components.contains_key(entity_id),
    {
        self.archetypes.contains(entity_id)
    }

    /// Creates an entity without components.
    pub fn create(&mut self) -> (entity_id: EntityId)
        requires
            old(self).wf(),
            old(self)@.can_create(),
        ensures
            final(self).wf(),
            entity_id != 0,
            entity_id == old(self)@.next_id(),
            !old(self)@.components.contains_key(entity_id),
            final(self)@ == old(self)@.created(Map::empty()),
            final(self).resources() == old(self).resources(),
    {
        let entity_id = self.entities.create();
        proof {
            assert(!self.archetypes()@.dom().contains(entity_id));
        }
        self.archetypes.add_entity(entity_id);
        proof {
            assert(self.archetypes()@.dom() =~= self.entities().live());
        }
        entity_id
    }

    /// Removes the live entity `entity` with all its components; its
    /// identity is free again.
    pub fn release(&mut self, entity_id: EntityId)
        requires
            old(self).wf(),
            old(self)@.components.contains_key(entity_id),
        ensures
            final(self).wf(),
            final(self)@ == old(self)@.released(entity_id),
            final(self).resources() == old(self).resources(),
    {
        proof {
            assert(self.archetypes()@.dom().contains(entity_id));
        }
        self.archetypes.remove_entity(entity_id);
        self.entities.release(entity_id);
        proof {
            assert(self.archetypes()@.dom() =~= self.entities().live());
        }
    }

    /// Attaches the value `comp` of component type `ty` to the live entity
    /// `entity`, in place of an earlier value of that type.
    pub fn add(&mut self, entity_id: EntityId, ty: TypeKey, comp: V)
        requires
            old(self).wf(),
            old(self)@.components.contains_key(entity_id),
        ensures
            final(self).wf(),
            final(self)@.components == old(self)@.components.insert(
                entity_id,
                old(self)@.components[entity_id].insert(ty, comp),
            ),
            final(self)@.free_list == old(self)@.free_list,
            final(self)@.newest == old(self)@.newest,
            final(self).resources() == old(self).resources(),
    {
        self.archetypes.add(entity_id, ty, comp);
        proof {
            assert(self.archetypes()@.dom() =~= self.entities().live());
        }
    }

    /// Detaches the component of type `ty` from the live entity `entity`.
    pub fn remove(&mut self, entity_id: EntityId, ty: TypeKey)
        requires
            old(self).wf(),
            old(self)@.components.contains_key(entity_id),
        ensures
            final(self).wf(),
            final(self)@.components == old(self)@.components.insert(
                entity_id,
                old(self)@.components[entity_id].remove(ty),
            ),
            final(self)@.free_list == old(self)@.free_list,
            final(self)@.newest == old(self)@.newest,
            final(self).resources() == old(self).resources(),
    {
        self.archetypes.remove(entity_id, ty);
        proof {
            assert(self.archetypes()@.dom() =~= self.entities().live());
        }
    }

    /// The value that `entity` has for the component type `ty`, if the
    /// entity is live and holds a component of that type.
    pub fn query(&self, entity_id: EntityId, ty: TypeKey) -> (comp: Option<&V>)
        requires
            self.wf(),
        ensures
            comp.is_some() == (self@.components.contains_key(entity_id)
                && self@.components[entity_id].contains_key(ty)),
            comp.is_some() ==> *comp.unwrap() == self@.components[entity_id][ty],
    {
        self.archetypes.query(entity_id, ty)
    }

    /// Makes `res` the resource of type `ty`, in place of an earlier one.
    pub fn set_res(&mut self, ty: TypeKey, res: R)
        requires
            old(self).wf(),
        ensures
            final(self).wf(),
            final(self)@ == old(self)@,
            final(self).resources()@ == old(self).resources()@.insert(ty, res),
    {
        self.resources.set(ty, res);
    }

    /// The number of live entities.
    pub fn entities_count(&self) -> (count: usize)
        requires
            self.wf(),
        ensures
            count == self@.components.dom().len(),
    {
        self.entities.count()
    }

    /// The component store and the resource table, for writing. The world
    /// is sound again where both are, with the live entities that they had.
    pub fn managers(&mut self) -> (managers: (&mut ArchetypeManager<V>, &mut ResManager<R>))
        ensures
            *managers.0 == old(self).archetypes(),
            *managers.1 == old(self).resources(),
            final(self).archetypes() == *final(managers.0),
            final(self).resources() == *final(managers.1),
            final(self).entities() == old(self).entities(),
    {
        (&mut self.archetypes, &mut self.resources)
    }

    /// Creates an entity with the component values of `bundle`; of two
    /// values of one component type the later one counts.
    pub fn create_with(&mut self, bundle: Vec<(TypeKey, V)>) -> (entity_id: EntityId)
        requires
            old(self).wf(),
            old(self)@.can_create(),
        ensures
            final(self).wf(),
            entity_id == old(self)@.next_id(),
            final(self)@ == old(self)@.created(bundle_map(bundle@)),
            final(self).resources() == old(self).resources(),
    {
        let entity_id = self.create();
        let ghost made = self@;
        let ghost count = bundle@.len();
        let mut rest = reversed(bundle);
        proof {
            assert(bundle@.take(0) =~= Seq::<(TypeKey, V)>::empty());
        }
        while rest.len() > 0
            invariant
                self.wf(),
                self.resources() == old(self).resources(),
                rest@.len() <= count,
                count == bundle@.len(),
                rest@ == bundle@.reverse().take(rest@.len() as int),
                self@.components.contains_key(entity_id),
                self@.components == made.components.insert(
                    entity_id,
                    bundle_map(bundle@.take(count - rest@.len())),
                ),
                self@.free_list == made.free_list,
                self@.newest == made.newest,
            decreases rest.len(),
        {
            let ghost done = count - rest@.len();
            match rest.pop() {
                Some((ty, comp)) => {
                    proof {
                        assert((ty, comp) == bundle@[done]);
                        assert(bundle@.take(done + 1).drop_last() =~= bundle@.take(done));
                    }
                    self.add(entity_id, ty, comp);
                    proof {
                        assert(self@.components =~= made.components.insert(
                            entity_id,
                            bundle_map(bundle@.take(done + 1)),
                        ));
                    }
                },
                None => {},
            }
            proof {
                assert(rest@ =~= bundle@.reverse().take(rest@.len() as int));
            }
        }
        proof {
            assert(bundle@.take(count as int) =~= bundle@);
            assert(self@.components =~= old(self)@.created(bundle_map(bundle@)).components);
        }
        entity_id
    }

    /// Applies one command; see [`WorldState::step`].
    pub fn apply_command(&mut self, command: EntityCommand<V>)
        requires
            old(self).wf(),
        ensures
            final(self).wf(),
            final(self)@ == old(self)@.step(command@),
            final(self).resources() == old(self).resources(),
    {
        match command {
            EntityCommand::NewEntity(bundle) => {
                if self.has_room() {
                    let _ = self.create_with(bundle);
                }
            },
            EntityCommand::ReleaseEntity(entity_id) => {
                if self.contains(entity_id) {
                    self.release(entity_id);
                }
            },
        }
    }

    /// Applies `commands` in their order; see [`WorldState::run`].
    pub fn apply_commands(&mut self, commands: Vec<EntityCommand<V>>)
        requires
            old(self).wf(),
        ensures
            final(self).wf(),
            final(self)@ == old(self)@.run(
                commands@.map_values(|command: EntityCommand<V>| command@),
            ),
            final(self).resources() == old(self).resources(),
    {
        let ghost issued = commands@.map_values(|command: EntityCommand<V>| command@);
        let ghost count = commands@.len();
        let mut rest = reversed(commands);
        proof {
            assert(issued.take(0) =~= Seq::<CommandView<V>>::empty());
        }
        while rest.len() > 0
            invariant
                self.wf(),
                self.resources() == old(self).resources(),
                rest@.len() <= count,
                count == commands@.len(),
                issued == commands@.map_values(|command: EntityCommand<V>| command@),
                rest@ == commands@.reverse().take(rest@.len() as int),
                self@ == old(self)@.run(issued.take(count - rest@.len())),
            decreases rest.len(),
        {
            let ghost done = count - rest@.len();
            match rest.pop() {
                Some(command) => {
                    proof {
                        assert(command == commands@[done]);
                        assert(issued.take(done + 1).drop_last() =~= issued.take(done));
                        assert(issued.take(done + 1).last() == command@);
                    }
                    self.apply_command(command);
                },
                None => {},
            }
            proof {
                assert(rest@ =~= commands@.reverse().take(rest@.len() as int));
            }
        }
        proof {
            assert(issued.take(count as int) =~= issued);
        }
    }
}

} // verus!
