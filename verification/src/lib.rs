//! An archetype-based entity-component store with an access-conflict
//! task scheduler.
//!
//! Component values of one world share a single value type `V`; each value is
//! filed under a [`component::component::TypeKey`] that names its component
//! type. Entities that hold the same set of component types share one
//! archetype, whose columns are row-aligned dense arrays.

pub mod archetype;
pub mod commands;
pub mod component;
pub mod comps;
pub mod data;
pub mod entity;
pub mod resource;
pub mod schedule;
pub mod scheduler;
pub mod world;

use crate::archetype::archetype_manager::ArchetypeManager;
use crate::commands::EntityCommands;
use crate::resource::res_manager::ResManager;
use crate::schedule::task_type::TaskType;
use vstd::prelude::*;

verus! {

/// A unit of work that the scheduler runs.
///
/// The list of accesses that a task declares decides after which earlier
/// task it has to run: it must name every component type and resource type
/// that [`Task::run`] reads or writes.
pub trait Task<V, R> {
    /// A name for diagnostics.
    fn name(&self) -> String;

    /// The accesses that the task declares.
    fn arguments(&self) -> Vec<TaskType>;

    /// Does the work of the task on the components and the resources.
    /// Entities are created and removed through `commands` only, which take
    /// effect after the task has returned: the task leaves the set of live
    /// entities as it is.
    fn run(
        &self,
        comps: &mut ArchetypeManager<V>,
        commands: &mut EntityCommands<V>,
        res: &mut ResManager<R>,
    )
        requires
            old(comps).wf(),
            old(res).wf(),
        ensures
            final(comps).wf(),
            final(comps)@.dom() == old(comps)@.dom(),
            final(res).wf(),
    ;
}

} // verus!
