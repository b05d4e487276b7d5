//! Tasks with their declared accesses and their dependency.

use crate::schedule::task_type::{lists_conflict, TaskType};
use crate::Task;
use vstd::prelude::*;

verus! {

/// The position of the nearest of the `earlier` lists of accesses that
/// conflicts with `own`: the dependency of a task on the tasks before it.
pub open spec fn nearest_conflict(own: Seq<TaskType>, earlier: Seq<Seq<TaskType>>) -> Option<usize>
    decreases earlier.len(),
{
    if earlier.len() == 0 {
        None
    } else if lists_conflict(own, earlier.last()) {
        Some((earlier.len() - 1) as usize)
    } else {
        nearest_conflict(own, earlier.drop_last())
    }
}

/// The dependency is a task that conflicts, and no task after it does; there
/// is none exactly if no earlier task conflicts.
pub proof fn lemma_nearest_conflict(own: Seq<TaskType>, earlier: Seq<Seq<TaskType>>)
    requires
        earlier.len() <= usize::MAX,
    ensures
        match nearest_conflict(own, earlier) {
            Some(at) => at < earlier.len() && lists_conflict(own, earlier[at as int])
                && forall|k: int|
                at < k < earlier.len() ==> !lists_conflict(own, #[trigger] earlier[k]),
            None => forall|k: int| 0 <= k < earlier.len()
                ==> !lists_conflict(own, #[trigger] earlier[k]),
        },
    decreases earlier.len(),
{
    if earlier.len() > 0 && !lists_conflict(own, earlier.last()) {
        lemma_nearest_conflict(own, earlier.drop_last());
        match nearest_conflict(own, earlier) {
            Some(at) => {
                assert forall|k: int| at < k < earlier.len() implies !lists_conflict(
                    own,
                    #[trigger] earlier[k],
                ) by {
                    if k < earlier.len() - 1 {
                        assert(earlier.drop_last()[k] == earlier[k]);
                    }
                }
                assert(earlier.drop_last()[at as int] == earlier[at as int]);
            },
            None => {
                assert forall|k: int| 0 <= k < earlier.len() implies !lists_conflict(
                    own,
                    #[trigger] earlier[k],
                ) by {
                    if k < earlier.len() - 1 {
                        assert(earlier.drop_last()[k] == earlier[k]);
                    }
                }
            },
        }
    }
}

/// A task whose accesses conflict with those of an earlier task, and with
/// those of no task between the two, depends on that earlier task.
pub proof fn lemma_depends_on_nearest(own: Seq<TaskType>, earlier: Seq<Seq<TaskType>>, at: usize)
    requires
        earlier.len() <= usize::MAX,
        at < earlier.len(),
        lists_conflict(own, earlier[at as int]),
        forall|k: int| at < k < earlier.len() ==> !lists_conflict(own, #[trigger] earlier[k]),
    ensures
        nearest_conflict(own, earlier) == Some(at),
{
    lemma_nearest_conflict(own, earlier);
    match nearest_conflict(own, earlier) {
        Some(found) => {
            if found < at {
                assert(!lists_conflict(own, earlier[at as int]));
            } else if found > at {
                assert(!lists_conflict(own, earlier[found as int]));
            }
        },
        None => {
            assert(!lists_conflict(own, earlier[at as int]));
        },
    }
}

/// A task never depends on an earlier task with which it has no conflict.
pub proof fn lemma_no_dependency_without_conflict(
    own: Seq<TaskType>,
    earlier: Seq<Seq<TaskType>>,
    at: usize,
)
    requires
        earlier.len() <= usize::MAX,
        at < earlier.len(),
        !lists_conflict(own, earlier[at as int]),
    ensures
        nearest_conflict(own, earlier) != Some(at),
{
    lemma_nearest_conflict(own, earlier);
}

/// A task with the accesses that it declares and with its dependency: the
/// position of the nearest earlier task of its block that it conflicts with.
#[verifier::reject_recursive_types(V)]
#[verifier::reject_recursive_types(R)]
pub struct SortedTask<V, R> {
    task: Box<dyn Task<V, R>>,
    access: Vec<TaskType>,
    depends: Option<usize>,
}

/// The lists of accesses of `tasks`.
pub open spec fn accesses<V, R>(tasks: Seq<SortedTask<V, R>>) -> Seq<Seq<TaskType>> {
    tasks.map_values(|task: SortedTask<V, R>| task.access())
}

impl<V, R> SortedTask<V, R> {
    /// The accesses that the task declared when it was wrapped.
    pub closed spec fn access(&self) -> Seq<TaskType> {
        self.access@
    }

    /// The recorded dependency.
    pub closed spec fn dependency(&self) -> Option<usize> {
        self.depends
    }

    /// The wrapped task.
    pub closed spec fn wrapped(&self) -> &Box<dyn Task<V, R>> {
        &self.task
    }

    /// Wraps `task` with the accesses that it declares, without a
    /// dependency.
    pub fn new(task: Box<dyn Task<V, R>>) -> (sorted: Self)
        ensures
            sorted.dependency() is None,
    {
        let access = task.arguments();
        Self::with_access(task, access)
    }

    /// Wraps `task` with the accesses `access`, without a dependency.
    pub fn with_access(task: Box<dyn Task<V, R>>, access: Vec<TaskType>) -> (sorted: Self)
        ensures
            sorted.access() == access@,
            sorted.dependency() is None,
    {
        SortedTask { task, access, depends: None }
    }

    /// Records `value` as the dependency.
    pub fn set_depends(&mut self, value: Option<usize>)
        ensures
            final(self).dependency() == value,
            final(self).access() == old(self).access(),
            final(self).wrapped() == old(self).wrapped(),
    {
        self.depends = value;
    }

    /// The position of the nearest of `tasks`, which are the tasks before
    /// the wrapped one, that the wrapped task conflicts with.
    pub fn find_dependencies(&self, tasks: &[SortedTask<V, R>]) -> (found: Option<usize>)
        ensures
            found == nearest_conflict(self.access(), accesses(tasks@)),
    {
        let mut i: usize = tasks.len();
        proof {
            assert(accesses(tasks@).take(i as int) =~= accesses(tasks@));
        }
        while i > 0
            invariant
                i <= tasks@.len(),
                nearest_conflict(self.access(), accesses(tasks@)) == nearest_conflict(
                    self.access(),
                    accesses(tasks@).take(i as int),
                ),
            decreases i,
        {
            i -= 1;
            proof {
                let upto = accesses(tasks@).take(i + 1);
                assert(upto.last() == tasks@[i as int].access());
                assert(upto.drop_last() =~= accesses(tasks@).take(i as int));
            }
            if self.check_if_depends(&tasks[i]) {
                return Some(i);
            }
        }
        None
    }

    /// Whether some access of the wrapped task conflicts with some access of
    /// `other`.
    pub fn check_if_depends(&self, other: &Self) -> (depends: bool)
        ensures
            depends == lists_conflict(self.access(), other.access()),
    {
        let mut i: usize = 0;
        while i < self.access.len()
            invariant
                i <= self.access().len(),
                forall|a: int, b: int|
                    0 <= a < i && 0 <= b < other.access().len()
                        ==> !(#[trigger] self.access()[a]).conflicts(
                        #[trigger] other.access()[b],
                    ),
            decreases self.access.len() - i,
        {
            let mut j: usize = 0;
            while j < other.access.len()
                invariant
                    i < self.access().len(),
                    j <= other.access().len(),
                    forall|a: int, b: int|
                        0 <= a < i && 0 <= b < other.access().len() ==> !(
                        #[trigger] self.access()[a]).conflicts(#[trigger] other.access()[b]),
                    forall|b: int|
                        0 <= b < j ==> !self.access()[i as int].conflicts(
                            #[trigger] other.access()[b],
                        ),
                decreases other.access.len() - j,
            {
                if self.access[i].is_dependant(&other.access[j]) {
                    return true;
                }
                j += 1;
            }
            i += 1;
        }
        false
    }

    /// The recorded dependency.
    pub fn depends_on(&self) -> (depends: Option<usize>)
        ensures
            depends == self.dependency(),
    {
        self.depends
    }

    /// The accesses that the task declared when it was wrapped.
    pub fn declared(&self) -> (access: &Vec<TaskType>)
        ensures
            access@ == self.access(),
    {
        &self.access
    }

    /// The wrapped task.
    pub fn task(&self) -> (task: &Box<dyn Task<V, R>>)
        ensures
            task == self.wrapped(),
    {
        &self.task
    }
}

} // verus!
