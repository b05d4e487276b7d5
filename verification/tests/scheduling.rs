use cow_ecs::archetype::archetype_manager::ArchetypeManager;
use cow_ecs::commands::{EntityCommand, EntityCommands};
use cow_ecs::comps::{Commands, Comps, CompsMut, Res, ResMut};
use cow_ecs::resource::res_manager::ResManager;
use cow_ecs::schedule::sorted_task::SortedTask;
use cow_ecs::schedule::task_type::TaskType;
use cow_ecs::scheduler::Scheduler;
use cow_ecs::world::World;
use cow_ecs::Task;

const VALUE: u64 = 1;
const OTHER: u64 = 2;
const TOTAL: u64 = 3;

struct Declares(Vec<TaskType>);

impl Task<i32, i32> for Declares {
    fn name(&self) -> String {
        "declares".to_string()
    }

    fn arguments(&self) -> Vec<TaskType> {
        self.0.clone()
    }

    fn run(
        &self,
        _comps: &mut ArchetypeManager<i32>,
        _commands: &mut EntityCommands<i32>,
        _res: &mut ResManager<i32>,
    ) {
    }
}

struct Increment;

impl Task<i32, i32> for Increment {
    fn name(&self) -> String {
        "increment".to_string()
    }

    fn arguments(&self) -> Vec<TaskType> {
        vec![TaskType::CompMut(VALUE)]
    }

    fn run(
        &self,
        comps: &mut ArchetypeManager<i32>,
        _commands: &mut EntityCommands<i32>,
        _res: &mut ResManager<i32>,
    ) {
        let mut values = CompsMut::new(comps.fetch_info_mut(VALUE));
        let mut cursor = values.iter();
        while let Some((_entity, value)) = cursor.next() {
            *value += 1;
        }
    }
}

struct Sum;

impl Task<i32, i32> for Sum {
    fn name(&self) -> String {
        "sum".to_string()
    }

    fn arguments(&self) -> Vec<TaskType> {
        vec![TaskType::Comp(VALUE), TaskType::ResMut(TOTAL)]
    }

    fn run(
        &self,
        comps: &mut ArchetypeManager<i32>,
        _commands: &mut EntityCommands<i32>,
        res: &mut ResManager<i32>,
    ) {
        let values = Comps::new(comps.fetch_info(VALUE));
        let mut sum = 0;
        let mut cursor = values.iter();
        while let Some((_entity, value)) = cursor.next() {
            sum += *value;
        }
        if let Some(total) = res.query_mut(TOTAL) {
            let mut total = ResMut::new(total);
            *total.get_mut() = sum;
        }
    }
}

struct Spawn;

impl Task<i32, i32> for Spawn {
    fn name(&self) -> String {
        "spawn".to_string()
    }

    fn arguments(&self) -> Vec<TaskType> {
        vec![TaskType::Entities()]
    }

    fn run(
        &self,
        comps: &mut ArchetypeManager<i32>,
        commands: &mut EntityCommands<i32>,
        _res: &mut ResManager<i32>,
    ) {
        let mut commands = Commands::new(commands);
        let created = commands.create();
        created.add(VALUE, 50);
        created.add(OTHER, 60);
        created.add(VALUE, 51);
        // entity 1 is still there while the task runs
        if comps.contains(1) {
            commands.remove(1);
        }
        commands.remove(99);
    }
}

fn read(ty: u64) -> TaskType {
    TaskType::Comp(ty)
}

fn write(ty: u64) -> TaskType {
    TaskType::CompMut(ty)
}

#[test]
fn conflict_needs_the_same_type_and_a_write() {
    assert!(read(VALUE).is_dependant(&write(VALUE)));
    assert!(write(VALUE).is_dependant(&read(VALUE)));
    assert!(write(VALUE).is_dependant(&write(VALUE)));
    assert!(!read(VALUE).is_dependant(&read(VALUE)));
    assert!(!write(VALUE).is_dependant(&write(OTHER)));
    assert!(!read(VALUE).is_dependant(&write(OTHER)));
    assert!(TaskType::Res(VALUE).is_dependant(&TaskType::ResMut(VALUE)));
    assert!(TaskType::ResMut(VALUE).is_dependant(&TaskType::Res(VALUE)));
    assert!(TaskType::ResMut(VALUE).is_dependant(&TaskType::ResMut(VALUE)));
    assert!(!TaskType::Res(VALUE).is_dependant(&TaskType::Res(VALUE)));
    assert!(!TaskType::ResMut(VALUE).is_dependant(&TaskType::ResMut(OTHER)));
}

#[test]
fn components_and_resources_of_one_key_do_not_conflict() {
    assert!(!write(VALUE).is_dependant(&TaskType::ResMut(VALUE)));
    assert!(!TaskType::ResMut(VALUE).is_dependant(&write(VALUE)));
    assert!(!TaskType::Res(VALUE).is_dependant(&write(VALUE)));
}

#[test]
fn entity_access_conflicts_with_nothing() {
    let entities = TaskType::Entities();
    assert!(!entities.is_dependant(&TaskType::Entities()));
    assert!(!entities.is_dependant(&write(VALUE)));
    assert!(!write(VALUE).is_dependant(&entities));
    assert!(!TaskType::ResMut(VALUE).is_dependant(&entities));
}

#[test]
fn conflict_is_symmetric() {
    let all = [
        read(VALUE),
        write(VALUE),
        read(OTHER),
        write(OTHER),
        TaskType::Res(VALUE),
        TaskType::ResMut(VALUE),
        TaskType::Entities(),
    ];
    for a in all.iter() {
        for b in all.iter() {
            assert_eq!(a.is_dependant(b), b.is_dependant(a));
        }
    }
}

#[test]
fn reader_depends_on_the_writer_before_it() {
    let alpha = SortedTask::<i32, i32>::new(Box::new(Declares(vec![write(VALUE)])));
    let gamma = SortedTask::<i32, i32>::new(Box::new(Declares(vec![read(OTHER)])));
    let beta = SortedTask::<i32, i32>::new(Box::new(Declares(vec![read(VALUE)])));
    assert!(beta.check_if_depends(&alpha));
    assert!(!gamma.check_if_depends(&alpha));
    assert!(!beta.check_if_depends(&gamma));
    assert_eq!(gamma.find_dependencies(&[]), None);
    let earlier = [alpha];
    assert_eq!(gamma.find_dependencies(&earlier), None);
    let [alpha] = earlier;
    assert_eq!(beta.find_dependencies(&[alpha, gamma]), Some(0));
}

#[test]
fn dependency_is_the_nearest_conflicting_task() {
    let first = SortedTask::<i32, i32>::with_access(Box::new(Increment), vec![write(VALUE)]);
    let second = SortedTask::<i32, i32>::with_access(Box::new(Increment), vec![write(VALUE)]);
    let third = SortedTask::<i32, i32>::with_access(Box::new(Increment), vec![read(OTHER)]);
    let last = SortedTask::<i32, i32>::with_access(
        Box::new(Increment),
        vec![read(OTHER), read(VALUE)],
    );
    assert_eq!(last.declared(), &vec![read(OTHER), read(VALUE)]);
    assert_eq!(last.find_dependencies(&[first, second, third]), Some(1));
}

#[test]
fn sorted_task_keeps_the_dependency_that_is_set() {
    let mut task = SortedTask::<i32, i32>::new(Box::new(Increment));
    assert_eq!(task.depends_on(), None);
    task.set_depends(Some(3));
    assert_eq!(task.depends_on(), Some(3));
    task.set_depends(None);
    assert_eq!(task.depends_on(), None);
    assert_eq!(task.task().name(), "increment");
    assert_eq!(task.declared().len(), 1);
}

#[test]
fn scheduler_records_dependencies_on_the_first_run() {
    let mut world = World::<i32, i32>::new();
    let mut scheduler = Scheduler::<i32, i32>::new();
    scheduler.add_task(Declares(vec![write(VALUE)]));
    scheduler.add_task(Declares(vec![read(OTHER)]));
    scheduler.add_task(Declares(vec![read(VALUE)]));
    scheduler.add_task(Declares(vec![write(OTHER), write(VALUE)]));
    {
        let tasks = scheduler.tasks_in_block(0).unwrap();
        assert_eq!(tasks.len(), 4);
        assert_eq!(tasks[2].depends_on(), None);
    }
    scheduler.run(&mut world);
    let tasks = scheduler.tasks_in_block(0).unwrap();
    assert_eq!(tasks[0].depends_on(), None);
    assert_eq!(tasks[1].depends_on(), None);
    assert_eq!(tasks[2].depends_on(), Some(0));
    assert_eq!(tasks[3].depends_on(), Some(2));
    assert!(scheduler.tasks_in_block(1).is_none());
}

#[test]
fn scheduler_resolves_each_block_by_itself() {
    let mut world = World::<i32, i32>::new();
    let mut scheduler = Scheduler::<i32, i32>::new();
    scheduler.add_task_in_block(5, Declares(vec![write(VALUE)]));
    scheduler.add_task_in_block(2, Declares(vec![write(VALUE)]));
    scheduler.add_task_in_block(5, Declares(vec![read(VALUE)]));
    scheduler.add_task_in_block(2, Declares(vec![read(OTHER)]));
    scheduler.run(&mut world);
    let low = scheduler.tasks_in_block(2).unwrap();
    assert_eq!(low.len(), 2);
    assert_eq!(low[0].depends_on(), None);
    assert_eq!(low[1].depends_on(), None);
    let high = scheduler.tasks_in_block(5).unwrap();
    assert_eq!(high.len(), 2);
    assert_eq!(high[1].depends_on(), Some(0));
    assert!(scheduler.tasks_in_block(0).is_none());
}

#[test]
fn increment_task_adds_one_to_each_value() {
    let mut world = World::<i32, i32>::new();
    let mut entities = Vec::new();
    for i in 0..5 {
        let entity = world.create();
        world.add(entity, VALUE, i);
        entities.push(entity);
    }
    let mut scheduler = Scheduler::<i32, i32>::new();
    scheduler.add_task(Increment);
    scheduler.run(&mut world);
    for (i, entity) in entities.iter().enumerate() {
        assert_eq!(world.query(*entity, VALUE), Some(&(i as i32 + 1)));
    }
    assert_eq!(world.entities_count(), 5);
    scheduler.run(&mut world);
    assert_eq!(world.query(entities[4], VALUE), Some(&6));
}

#[test]
fn tasks_run_in_the_order_of_blocks_and_of_insertion() {
    let mut world = World::<i32, i32>::new();
    world.set_res(TOTAL, 0);
    let entity = world.create();
    world.add(entity, VALUE, 1);
    let mut scheduler = Scheduler::<i32, i32>::new();
    // block 1 runs after block 0 though its task was added first
    scheduler.add_task_in_block(1, Sum);
    scheduler.add_task(Increment);
    scheduler.add_task(Increment);
    scheduler.run(&mut world);
    let (_, resources) = world.managers();
    assert_eq!(resources.query(TOTAL), Some(&3));
    assert_eq!(Res::new(resources.query(TOTAL).unwrap()).get(), &3);
}

#[test]
fn commands_take_effect_after_the_task() {
    let mut world = World::<i32, i32>::new();
    let first = world.create();
    world.add(first, VALUE, 1);
    assert_eq!(first, 1);
    let mut scheduler = Scheduler::<i32, i32>::new();
    scheduler.add_task(Spawn);
    scheduler.add_task(Increment);
    scheduler.run(&mut world);
    // the new entity 2 was there when the second task ran; entity 1 was not
    assert_eq!(world.entities_count(), 1);
    assert!(!world.contains(1));
    assert!(world.contains(2));
    assert_eq!(world.query(2, VALUE), Some(&52));
    assert_eq!(world.query(2, OTHER), Some(&60));
    assert_eq!(world.query(1, VALUE), None);
}

#[test]
fn command_buffer_keeps_the_order_of_issue() {
    let mut buffer = EntityCommands::<i32>::new();
    buffer.release(4);
    buffer.create().add(VALUE, 1);
    buffer.release(5);
    assert_eq!(buffer.len(), 3);
    let commands = buffer.take_commands();
    assert_eq!(buffer.len(), 0);
    assert_eq!(commands.len(), 3);
    assert!(matches!(commands[0], EntityCommand::ReleaseEntity(4)));
    match &commands[1] {
        EntityCommand::NewEntity(bundle) => assert_eq!(bundle, &vec![(VALUE, 1)]),
        EntityCommand::ReleaseEntity(_) => panic!("a creation was issued"),
    }
    assert!(matches!(commands[2], EntityCommand::ReleaseEntity(5)));
}

#[test]
fn adding_to_a_release_command_changes_nothing() {
    let mut command = EntityCommand::<i32>::ReleaseEntity(3);
    command.add(VALUE, 1);
    assert!(matches!(command, EntityCommand::ReleaseEntity(3)));
}

#[test]
fn world_applies_commands_in_order() {
    let mut world = World::<i32, i32>::new();
    let mut commands = Vec::new();
    commands.push(EntityCommand::NewEntity(vec![(VALUE, 1)]));
    commands.push(EntityCommand::NewEntity(vec![(VALUE, 2), (VALUE, 3)]));
    commands.push(EntityCommand::ReleaseEntity(1));
    commands.push(EntityCommand::ReleaseEntity(7));
    commands.push(EntityCommand::NewEntity(vec![]));
    world.apply_commands(commands);
    // the third creation took the identity that the removal had freed
    assert_eq!(world.entities_count(), 2);
    assert_eq!(world.query(1, VALUE), None);
    assert!(world.contains(1));
    assert_eq!(world.query(2, VALUE), Some(&3));
}
