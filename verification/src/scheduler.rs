//! The scheduler: it records the dependencies between tasks and runs them.

use crate::commands::EntityCommands;
use crate::schedule::sorted_task::{accesses, nearest_conflict, SortedTask};
use crate::world::World;
use crate::Task;
use vstd::prelude::*;

verus! {

/// The tasks of one block in the order in which they were added.
#[verifier::reject_recursive_types(V)]
#[verifier::reject_recursive_types(R)]
pub struct SchedulerBlock<V, R> {
    id: u32,
    tasks: Vec<SortedTask<V, R>>,
}

impl<V, R> SchedulerBlock<V, R> {
    /// The number of the block.
    pub closed spec fn number(&self) -> u32 {
        self.id
    }

    /// The tasks of the block.
    pub closed spec fn tasks(&self) -> Seq<SortedTask<V, R>> {
        self.tasks@
    }

    /// Each task of the block has as its dependency the nearest earlier task
    /// of the block that it conflicts with.
    pub open spec fn resolved(&self) -> bool {
        forall|i: int|
            0 <= i < self.tasks().len() ==> (#[trigger] self.tasks()[i]).dependency()
                == nearest_conflict(self.tasks()[i].access(), accesses(self.tasks().take(i)))
    }

    /// `after` holds the tasks of `self` in the same order, each with the
    /// accesses that it had.
    pub open spec fn same_tasks(&self, after: &Self) -> bool {
        &&& after.number() == self.number()
        &&& after.tasks().len() == self.tasks().len()
        &&& forall|i: int|
            0 <= i < self.tasks().len() ==> (#[trigger] after.tasks()[i]).access()
                == self.tasks()[i].access() && after.tasks()[i].wrapped()
                == self.tasks()[i].wrapped()
    }

    /// Records the dependency of each task of the block.
    fn resolve(&mut self)
        ensures
            final(self).resolved(),
            old(self).same_tasks(final(self)),
    {
        let ghost before = self.tasks();
        let mut i: usize = 0;
        while i < self.tasks.len()
            invariant
                i <= self.tasks().len(),
                self.number() == old(self).number(),
                self.tasks().len() == before.len(),
                forall|k: int|
                    0 <= k < before.len() ==> (#[trigger] self.tasks()[k]).access()
                        == before[k].access(),
                forall|k: int|
                    0 <= k < before.len() ==> (#[trigger] self.tasks()[k]).wrapped()
                        == before[k].wrapped(),
                forall|k: int|
                    0 <= k < i ==> (#[trigger] self.tasks()[k]).dependency() == nearest_conflict(
                        self.tasks()[k].access(),
                        accesses(self.tasks().take(k)),
                    ),
            decreases self.tasks.len() - i,
        {
            let ghost entering = self.tasks();
            let (earlier, later) = self.tasks.split_at_mut(i);
            let task = &mut later[0];
            let depend_index = task.find_dependencies(earlier);
            task.set_depends(depend_index);
            proof {
                assert(earlier@ =~= entering.take(i as int));
                assert forall|k: int| 0 <= k < before.len() implies (
                #[trigger] self.tasks()[k]).access() == before[k].access() by {
                    assert(entering[k].access() == before[k].access());
                }
                assert forall|k: int| 0 <= k < before.len() implies (
                #[trigger] self.tasks()[k]).wrapped() == before[k].wrapped() by {
                    assert(entering[k].wrapped() == before[k].wrapped());
                    if k != i {
                        assert(self.tasks()[k] == entering[k]);
                    }
                }
                assert forall|k: int| 0 <= k < i + 1 implies (
                #[trigger] self.tasks()[k]).dependency() == nearest_conflict(
                    self.tasks()[k].access(),
                    accesses(self.tasks().take(k)),
                ) by {
                    assert(self.tasks().take(k) =~= entering.take(k));
                    if k < i {
                        assert(self.tasks()[k] == entering[k]);
                    }
                }
            }
            i += 1;
        }
    }
}

/// Runs tasks block by block in the order of the block numbers, and the
/// tasks of a block in the order in which they were added. Before the first
/// run after a task was added, it records for each task the nearest earlier
/// task of its block that it conflicts with.
#[verifier::reject_recursive_types(V)]
#[verifier::reject_recursive_types(R)]
pub struct Scheduler<V, R> {
    blocks: Vec<SchedulerBlock<V, R>>,
    is_sorted: bool,
}

impl<V, R> Scheduler<V, R> {
    /// The blocks in the order in which they run.
    pub closed spec fn blocks(&self) -> Seq<SchedulerBlock<V, R>> {
        self.blocks@
    }

    /// Whether the dependencies are recorded.
    pub closed spec fn sorted(&self) -> bool {
        self.is_sorted
    }

    /// The position of the block with the number `block_id`.
    pub open spec fn position_of(&self, block_id: u32) -> Option<int> {
        if exists|k: int| 0 <= k < self.blocks().len()
            && (#[trigger] self.blocks()[k]).number() == block_id {
            Some(
                choose|k: int|
                    0 <= k < self.blocks().len()
                        && (#[trigger] self.blocks()[k]).number() == block_id,
            )
        } else {
            None
        }
    }

    /// The number of blocks with a number below `block_id`: the position at
    /// which a block with that number stands.
    pub open spec fn rank_of(&self, block_id: u32) -> int
        decreases self.blocks().len(),
    {
        Self::rank_in(self.blocks(), block_id)
    }

    /// The number of `blocks` with a number below `block_id`.
    pub open spec fn rank_in(blocks: Seq<SchedulerBlock<V, R>>, block_id: u32) -> int
        decreases blocks.len(),
    {
        if blocks.len() == 0 {
            0
        } else {
            Self::rank_in(blocks.drop_last(), block_id) + if blocks.last().number() < block_id {
                1int
            } else {
                0int
            }
        }
    }

    /// The blocks stand in the order of their numbers, no two with the same
    /// number, and the dependencies are recorded where the scheduler says
    /// so.
    pub open spec fn wf(&self) -> bool {
        &&& forall|i: int, j: int|
            0 <= i < j < self.blocks().len() ==> (#[trigger] self.blocks()[i]).number() < (
            #[trigger] self.blocks()[j]).number()
        &&& self.sorted() ==> forall|k: int|
            0 <= k < self.blocks().len() ==> (#[trigger] self.blocks()[k]).resolved()
    }

    /// No block holds a task.
    pub open spec fn idle(&self) -> bool {
        forall|k: int| 0 <= k < self.blocks().len()
            ==> (#[trigger] self.blocks()[k]).tasks().len() == 0
    }

    /// `after` holds the blocks of `self` with the same tasks.
    pub open spec fn same_tasks(&self, after: &Self) -> bool {
        &&& after.blocks().len() == self.blocks().len()
        &&& forall|k: int|
            0 <= k < self.blocks().len() ==> (#[trigger] self.blocks()[k]).same_tasks(
                &after.blocks()[k],
            )
    }

    /// `after` is `self` with `task` added as the last task of the block
    /// `block_id`, which is made if it is not there.
    pub open spec fn task_added(&self, after: &Self, block_id: u32, task: SortedTask<V,
        R>) -> bool {
        match self.position_of(block_id) {
            Some(at) => {
                &&& after.blocks().len() == self.blocks().len()
                &&& after.blocks()[at].number() == block_id
                &&& after.blocks()[at].tasks() == self.blocks()[at].tasks().push(task)
                &&& forall|k: int|
                    0 <= k < self.blocks().len() && k != at ==> #[trigger] after.blocks()[k]
                        == self.blocks()[k]
            },
            None => {
                let at = self.rank_of(block_id);
                &&& after.blocks().len() == self.blocks().len() + 1
                &&& after.blocks()[at].number() == block_id
                &&& after.blocks()[at].tasks() == seq![task]
                &&& forall|k: int| 0 <= k < at ==> #[trigger] after.blocks()[k] == self.blocks()[k]
                &&& forall|k: int|
                    at < k < after.blocks().len()
                        ==> #[trigger] after.blocks()[k] == self.blocks()[k
                        - 1]
            },
        }
    }

    /// A scheduler without tasks.
    pub fn new() -> (scheduler: Self)
        ensures
            scheduler.wf(),
            !scheduler.sorted(),
            scheduler.blocks() == Seq::<SchedulerBlock<V, R>>::empty(),
    {
        Scheduler { blocks: Vec::new(), is_sorted: false }
    }

    /// Adds `new_task` as the last task of block 0.
    pub fn add_task<T: Task<V, R> + 'static>(&mut self, new_task: T)
        requires
            old(self).wf(),
        ensures
            final(self).wf(),
            !final(self).sorted(),
            exists|task: SortedTask<V, R>|
                task.dependency() is None && old(self).task_added(final(self), 0, task),
    {
        self.add_task_in_block(0, new_task);
    }

    /// Adds `new_task` as the last task of the block `block_id`. The task
    /// is asked once for the accesses that it declares.
    pub fn add_task_in_block<T: Task<V, R> + 'static>(&mut self, block_id: u32, new_task: T)
        requires
            old(self).wf(),
        ensures
            final(self).wf(),
            !final(self).sorted(),
            exists|task: SortedTask<V, R>|
                task.dependency() is None && old(self).task_added(final(self), block_id, task),
    {
        let boxed: Box<dyn Task<V, R>> = Box::new(new_task);
        let task = SortedTask::new(boxed);
        self.add_sorted_task(block_id, task);
    }

    /// Adds `task` as the last task of the block `block_id`.
    pub fn add_sorted_task(&mut self, block_id: u32, task: SortedTask<V, R>)
        requires
            old(self).wf(),
        ensures
            final(self).wf(),
            !final(self).sorted(),
            old(self).task_added(final(self), block_id, task),
    {
        self.is_sorted = false;
        let mut at: usize = 0;
        while at < self.blocks.len() && self.blocks[at].id < block_id
            invariant
                at <= self.blocks().len(),
                self.blocks() == old(self).blocks(),
                !self.sorted(),
                old(self).wf(),
                forall|k: int| 0 <= k < at ==> (#[trigger] self.blocks()[k]).number() < block_id,
                Self::rank_in(self.blocks().take(at as int), block_id) == at,
            decreases self.blocks.len() - at,
        {
            proof {
                assert(self.blocks().take(at + 1).drop_last() =~= self.blocks().take(at as int));
            }
            at += 1;
        }
        proof {
            old(self).lemma_rank(block_id, at as int);
        }
        if at < self.blocks.len() && self.blocks[at].id == block_id {
            self.blocks[at].tasks.push(task);
            proof {
                assert(old(self).position_of(block_id) == Some(at as int)) by {
                    let found = old(self).position_of(block_id).unwrap();
                    if found < at {
                        assert(old(self).blocks()[found].number()
                            < old(self).blocks()[at as int].number());
                    } else if found > at {
                        assert(old(self).blocks()[at as int].number()
                            < old(self).blocks()[found].number());
                    }
                }
                assert forall|i: int, j: int| 0 <= i < j < self.blocks().len() implies (
                #[trigger] self.blocks()[i]).number() < (#[trigger] self.blocks()[j]).number() by {
                    assert(old(self).blocks()[i].number() < old(self).blocks()[j].number());
                }
            }
        } else {
            let mut tasks: Vec<SortedTask<V, R>> = Vec::new();
            tasks.push(task);
            self.blocks.insert(at, SchedulerBlock { id: block_id, tasks });
            proof {
                assert(old(self).position_of(block_id) is None) by {
                    if old(self).position_of(block_id) is Some {
                        let found = old(self).position_of(block_id).unwrap();
                        if found < at {
                            assert(old(self).blocks()[found].number() < block_id);
                        } else if found > at {
                            assert(old(self).blocks()[at as int].number() < old(
                                self,
                            ).blocks()[found].number());
                        }
                    }
                }
                assert forall|i: int, j: int| 0 <= i < j < self.blocks().len() implies (
                #[trigger] self.blocks()[i]).number() < (#[trigger] self.blocks()[j]).number() by {
                    let oi = if i < at { i } else { i - 1 };
                    let oj = if j < at { j } else { j - 1 };
                    if i != at && j != at {
                        assert(old(self).blocks()[oi].number() < old(self).blocks()[oj].number());
                    } else if i == at {
                        if at < old(self).blocks().len() {
                            assert(old(self).blocks()[at as int].number() <= old(
                                self,
                            ).blocks()[oj].number()) by {
                                if at < oj {
                                    assert(old(self).blocks()[at as int].number() < old(
                                        self,
                                    ).blocks()[oj].number());
                                }
                            }
                        }
                    } else {
                        assert(old(self).blocks()[oi].number() < block_id);
                    }
                }
            }
        }
    }

    /// Where the first `at` blocks have numbers below `block_id` and the
    /// next block has not, `at` is the rank of `block_id`.
    proof fn lemma_rank(&self, block_id: u32, at: int)
        requires
            self.wf(),
            0 <= at <= self.blocks().len(),
            Self::rank_in(self.blocks().take(at), block_id) == at,
            at < self.blocks().len() ==> self.blocks()[at].number() >= block_id,
        ensures
            self.rank_of(block_id) == at,
    {
        self.lemma_rank_from(block_id, at, at);
    }

    /// The blocks from `upto` on, which stand behind one whose number is
    /// not below `block_id`, add nothing to the rank.
    proof fn lemma_rank_from(&self, block_id: u32, at: int, upto: int)
        requires
            self.wf(),
            0 <= at <= upto <= self.blocks().len(),
            Self::rank_in(self.blocks().take(upto), block_id) == at,
            at < self.blocks().len() ==> self.blocks()[at].number() >= block_id,
        ensures
            self.rank_of(block_id) == at,
        decreases self.blocks().len() - upto,
    {
        if upto == self.blocks().len() {
            assert(self.blocks().take(upto) =~= self.blocks());
        } else {
            assert(self.blocks().take(upto + 1).drop_last() =~= self.blocks().take(upto));
            assert(self.blocks().take(upto + 1).last() == self.blocks()[upto]);
            if at < upto {
                assert(self.blocks()[at].number() < self.blocks()[upto].number());
            }
            self.lemma_rank_from(block_id, at, upto + 1);
        }
    }

    /// The tasks of the block `block_id` in the order in which they run, if
    /// there is such a block.
    pub fn tasks_in_block(&self, block_id: u32) -> (tasks: Option<&Vec<SortedTask<V, R>>>)
        requires
            self.wf(),
        ensures
            tasks.is_some() == self.position_of(block_id).is_some(),
            tasks.is_some() ==> tasks.unwrap()@ == self.blocks()[self.position_of(
                block_id,
            ).unwrap()].tasks(),
    {
        let mut at: usize = 0;
        while at < self.blocks.len()
            invariant
                self.wf(),
                at <= self.blocks().len(),
                forall|k: int| 0 <= k < at ==> (#[trigger] self.blocks()[k]).number() != block_id,
            decreases self.blocks.len() - at,
        {
            if self.blocks[at].id == block_id {
                proof {
                    let found = self.position_of(block_id).unwrap();
                    if found < at {
                        assert(self.blocks()[found].number() < self.blocks()[at as int].number());
                    } else if found > at {
                        assert(self.blocks()[at as int].number() < self.blocks()[found].number());
                    }
                }
                return Some(&self.blocks[at].tasks);
            }
            at += 1;
        }
        None
    }

    /// Records the dependencies of all tasks.
    fn sort_tasks(&mut self)
        requires
            old(self).wf(),
        ensures
            final(self).wf(),
            final(self).sorted(),
            old(self).same_tasks(final(self)),
    {
        self.is_sorted = true;
        let mut k: usize = 0;
        while k < self.blocks.len()
            invariant
                self.sorted(),
                k <= self.blocks().len(),
                self.blocks().len() == old(self).blocks().len(),
                forall|j: int|
                    0 <= j < self.blocks().len() ==> (#[trigger] old(self).blocks()[j]).same_tasks(
                        &self.blocks()[j],
                    ),
                forall|j: int| 0 <= j < k ==> (#[trigger] self.blocks()[j]).resolved(),
            decreases self.blocks.len() - k,
        {
            let ghost entering = self.blocks();
            self.blocks[k].resolve();
            proof {
                assert forall|j: int| 0 <= j < self.blocks().len() implies (
                #[trigger] old(self).blocks()[j]).same_tasks(&self.blocks()[j]) by {
                    assert(old(self).blocks()[j].same_tasks(&entering[j]));
                }
                assert forall|j: int| 0 <= j < k + 1 implies (
                #[trigger] self.blocks()[j]).resolved() by {
                    if j < k {
                        assert(self.blocks()[j] == entering[j]);
                    }
                }
            }
            k += 1;
        }
        proof {
            assert forall|i: int, j: int| 0 <= i < j < self.blocks().len() implies (
            #[trigger] self.blocks()[i]).number() < (#[trigger] self.blocks()[j]).number() by {
                assert(old(self).blocks()[i].same_tasks(&self.blocks()[i]));
                assert(old(self).blocks()[j].same_tasks(&self.blocks()[j]));
                assert(old(self).blocks()[i].number() < old(self).blocks()[j].number());
            }
        }
    }

    /// Runs every task once: block by block in the order of the block
    /// numbers, the tasks of a block in the order in which they were added.
    /// The commands that a task issues are applied to the world when it has
    /// returned, before the next task runs. Where a task was added since
    /// the last run, the dependencies are recorded first.
    pub fn run(&mut self, world: &mut World<V, R>)
        requires
            old(self).wf(),
            old(world).wf(),
        ensures
            final(self).wf(),
            final(self).sorted(),
            old(self).same_tasks(final(self)),
            old(self).sorted() ==> final(self).blocks() == old(self).blocks(),
            final(world).wf(),
            old(self).idle() ==> *final(world) == *old(world),
    {
        if !self.is_sorted {
            self.sort_tasks();
        } else {
            proof {
                assert forall|k: int| 0 <= k < self.blocks().len() implies (
                #[trigger] old(self).blocks()[k]).same_tasks(&self.blocks()[k]) by {}
            }
        }
        proof {
            if old(self).idle() {
                assert forall|k: int| 0 <= k < self.blocks().len() implies (
                #[trigger] self.blocks()[k]).tasks().len() == 0 by {
                    assert(old(self).blocks()[k].same_tasks(&self.blocks()[k]));
                }
            }
        }
        let ghost idle = old(self).idle();
        let mut k: usize = 0;
        while k < self.blocks.len()
            invariant
                world.wf(),
                idle ==> self.idle() && *world == *old(world),
            decreases self.blocks.len() - k,
        {
            let block = &self.blocks[k];
            proof {
                if idle {
                    assert(self.blocks()[k as int].tasks().len() == 0);
                }
            }
            let mut i: usize = 0;
            while i < block.tasks.len()
                invariant
                    world.wf(),
                    idle ==> block.tasks().len() == 0 && *world == *old(world),
                decreases block.tasks.len() - i,
            {
                let mut commands = EntityCommands::<V>::new();
                {
                    let (archs, res) = world.managers();
                    block.tasks[i].task().run(archs, &mut commands, res);
                }
                world.apply_commands(commands.take_commands());
                i += 1;
            }
            k += 1;
        }
    }
}

} // verus!
