//! Declared accesses of tasks and the conflicts between them.

use crate::component::component::TypeKey;
use vstd::prelude::*;

verus! {

/// One declared access of a task.
#[derive(Debug, Clone, Copy, PartialEq, Eq, Structural)]
pub enum TaskType {
    /// Reads the components of a type.
    Comp(TypeKey),
    /// Writes the components of a type.
    CompMut(TypeKey),
    /// Reads the resource of a type.
    Res(TypeKey),
    /// Writes the resource of a type.
    ResMut(TypeKey),
    /// Creates or removes entities through the command buffer.
    Entities(),
}

/// What an access touches.
pub enum AccessTarget {
    /// The components of a type.
    Component(TypeKey),
    /// The resource of a type.
    Resource(TypeKey),
}

impl TaskType {
    /// What the access touches; access to the entity table touches
    /// nothing that another access could touch.
    pub open spec fn target(self) -> Option<AccessTarget> {
        match self {
            TaskType::Comp(ty) => Some(AccessTarget::Component(ty)),
            TaskType::CompMut(ty) => Some(AccessTarget::Component(ty)),
            TaskType::Res(ty) => Some(AccessTarget::Resource(ty)),
            TaskType::ResMut(ty) => Some(AccessTarget::Resource(ty)),
            TaskType::Entities() => None,
        }
    }

    /// Whether the access writes.
    pub open spec fn writes(self) -> bool {
        self is CompMut || self is ResMut
    }

    /// Two accesses conflict where they touch the same thing and one of
    /// them writes.
    pub open spec fn conflicts(self, other: TaskType) -> bool {
        &&& self.target() is Some
        &&& self.target() == other.target()
        &&& (self.writes() || other.writes())
    }

    /// Whether this access conflicts with `other`, so that the task that
    /// declares it must run after an earlier task that declares `other`.
    pub fn is_dependant(&self, other: &TaskType) -> (depends: bool)
        ensures
            depends == self.conflicts(*other),
    {
        match self {
            TaskType::Comp(type_id) => {
                match other {
                    TaskType::CompMut(other_id) => *type_id == *other_id,
                    _ => false,
                }
            },
            TaskType::CompMut(type_id) => {
                match other {
                    TaskType::CompMut(other_id) => *type_id == *other_id,
                    TaskType::Comp(other_id) => *type_id == *other_id,
                    _ => false,
                }
            },
            TaskType::Res(type_id) => {
                match other {
                    TaskType::ResMut(other_id) => *type_id == *other_id,
                    _ => false,
                }
            },
            TaskType::ResMut(type_id) => {
                match other {
                    TaskType::Res(other_id) => *type_id == *other_id,
                    TaskType::ResMut(other_id) => *type_id == *other_id,
                    _ => false,
                }
            },
            TaskType::Entities() => false,
        }
    }
}

/// Two lists of accesses conflict where some access of the one conflicts
/// with some access of the other.
pub open spec fn lists_conflict(first: Seq<TaskType>, second: Seq<TaskType>) -> bool {
    exists|i: int, j: int|
        0 <= i < first.len() && 0 <= j < second.len() && (#[trigger] first[i]).conflicts(
            #[trigger] second[j],
        )
}

/// The conflict of two accesses does not depend on their order.
pub proof fn lemma_conflicts_symmetric(a: TaskType, b: TaskType)
    ensures
        a.conflicts(b) == b.conflicts(a),
{
}

/// The conflict of two lists of accesses does not depend on their order.
pub proof fn lemma_lists_conflict_symmetric(first: Seq<TaskType>, second: Seq<TaskType>)
    ensures
        lists_conflict(first, second) == lists_conflict(second, first),
{
    if lists_conflict(first, second) {
        let (i, j) = choose|i: int, j: int|
            0 <= i < first.len() && 0 <= j < second.len() && (#[trigger] first[i]).conflicts(
                #[trigger] second[j],
            );
        assert(second[j].conflicts(first[i]));
    }
    if lists_conflict(second, first) {
        let (i, j) = choose|i: int, j: int|
            0 <= i < second.len() && 0 <= j < first.len() && (#[trigger] second[i]).conflicts(
                #[trigger] first[j],
            );
        assert(first[j].conflicts(second[i]));
    }
}

/// Two reads never conflict, and access to the entity table conflicts with
/// nothing, itself included.
pub proof fn lemma_no_conflict_without_write(a: TaskType, b: TaskType)
    ensures
        !a.writes() && !b.writes() ==> !a.conflicts(b),
        a is Entities || b is Entities ==> !a.conflicts(b),
{
}

} // verus!
