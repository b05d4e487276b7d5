use cow_ecs::component::comp_manager::CompManager;
use cow_ecs::data::sparse_set::{SparseArrayIntersectionIter, SparseArrayIntersectionMutIter};
use cow_ecs::data::sparse_set::SparseSet;
use cow_ecs::entity::entity_manager::EntityManager;
use cow_ecs::resource::res_manager::ResManager;
use cow_ecs::world::{reversed, World};

#[test]
fn entity_ids_start_at_one() {
    let mut entities = EntityManager::new();
    assert_eq!(entities.count(), 0);
    assert!(entities.has_room());
    assert_eq!(entities.create(), 1);
    assert_eq!(entities.create(), 2);
    assert_eq!(entities.count(), 2);
    assert!(entities.is_live(1));
    assert!(!entities.is_live(0));
    assert!(!entities.is_live(3));
}

#[test]
fn released_id_is_handed_out_again_first() {
    let mut entities = EntityManager::new();
    let first = entities.create();
    let second = entities.create();
    let third = entities.create();
    entities.release(first);
    entities.release(third);
    assert_eq!(entities.count(), 1);
    assert!(entities.is_live(second));
    assert_eq!(entities.create(), third);
    assert_eq!(entities.create(), first);
    assert_eq!(entities.create(), 4);
    assert_eq!(entities.count(), 4);
}

#[test]
fn sparse_set_insert_and_get() {
    let mut set = SparseSet::<u64, i32>::new();
    set.insert(5, 50);
    set.insert(3, 30);
    set.insert(5, 51);
    assert_eq!(set.len(), 2);
    assert_eq!(set.get(5), Some(&51));
    assert_eq!(set.get(3), Some(&30));
    assert_eq!(set.get(4), None);
    if let Some(value) = set.get_mut(3) {
        *value += 1;
    }
    assert_eq!(set.get(3), Some(&31));
    assert!(set.get_mut(4).is_none());
}

#[test]
fn sparse_set_remove_moves_the_last_slot() {
    let mut set = SparseSet::<u64, i32>::new();
    set.insert(1, 10);
    set.insert(2, 20);
    set.insert(3, 30);
    set.remove(1);
    assert_eq!(set.len(), 2);
    assert_eq!(set.get(1), None);
    assert_eq!(set.get(2), Some(&20));
    assert_eq!(set.get(3), Some(&30));
    set.remove(9);
    assert_eq!(set.len(), 2);
    set.remove(2);
    set.remove(3);
    assert_eq!(set.len(), 0);
    assert_eq!(set.get(3), None);
}

#[test]
fn resource_table_keeps_one_value_per_type() {
    let mut resources = ResManager::<i32>::new();
    assert_eq!(resources.query(1), None);
    resources.set(1, 200);
    resources.set(2, 300);
    resources.set(1, 201);
    assert_eq!(resources.query(1), Some(&201));
    assert_eq!(resources.query(2), Some(&300));
    if let Some(value) = resources.query_mut(2) {
        *value = 5;
    }
    assert_eq!(resources.query(2), Some(&5));
    assert!(resources.query_mut(3).is_none());
}

#[test]
fn reversed_turns_the_list_round() {
    assert_eq!(reversed(vec![1, 2, 3]), vec![3, 2, 1]);
    assert_eq!(reversed(Vec::<i32>::new()), Vec::<i32>::new());
}

#[test]
fn world_release_removes_the_components() {
    let mut world = World::<i32, i32>::new();
    assert!(world.has_room());
    let first = world.create();
    let second = world.create();
    world.add(first, 1, 10);
    world.add(second, 1, 20);
    world.remove(second, 2);
    assert_eq!(world.entities_count(), 2);
    world.release(first);
    assert_eq!(world.entities_count(), 1);
    assert_eq!(world.query(first, 1), None);
    assert_eq!(world.query(second, 1), Some(&20));
    let again = world.create_with(vec![(1, 30), (2, 40)]);
    assert_eq!(again, first);
    assert_eq!(world.query(again, 1), Some(&30));
    assert_eq!(world.query(again, 2), Some(&40));
    world.remove(again, 1);
    assert_eq!(world.query(again, 1), None);
    assert_eq!(world.query(again, 2), Some(&40));
}

#[test]
fn registering_twice_is_registering_once() {
    let mut manager = CompManager::<i32>::new();
    assert!(manager.query(1).is_none());
    manager.register(1);
    manager.insert_by_comp_id(1, 7, 70);
    manager.register(1);
    manager.register(2);
    manager.register(1);
    assert_eq!(manager.query(1).unwrap().len(), 1);
    assert_eq!(manager.query(1).unwrap().get(7), Some(&70));
    assert_eq!(manager.query(2).unwrap().len(), 0);
    assert!(manager.query(3).is_none());
    assert!(manager.query_mut(3).is_none());
}

#[test]
fn comp_manager_removes_an_entity_from_all_stores() {
    let mut manager = CompManager::<i32>::new();
    manager.register(1);
    manager.register(2);
    manager.insert_by_comp_id(1, 7, 70);
    manager.insert_by_comp_id(1, 8, 80);
    manager.insert_by_comp_id(2, 7, 71);
    if let Some(store) = manager.query_mut(2) {
        store.insert(9, 91);
    }
    manager.remove(7);
    assert_eq!(manager.query(1).unwrap().get(7), None);
    assert_eq!(manager.query(1).unwrap().get(8), Some(&80));
    assert_eq!(manager.query(2).unwrap().get(7), None);
    assert_eq!(manager.query(2).unwrap().get(9), Some(&91));
    manager.remove(5);
    assert_eq!(manager.query(1).unwrap().len(), 1);
}

#[test]
fn sparse_set_is_walked_in_the_order_of_the_slots() {
    let mut set = SparseSet::<u64, i32>::new();
    set.insert(4, 40);
    set.insert(2, 20);
    set.insert(9, 90);
    set.remove(4);
    let mut seen = Vec::new();
    let mut cursor = set.iter();
    while let Some((key, value)) = cursor.next() {
        seen.push((key, *value));
    }
    assert_eq!(seen, vec![(9, 90), (2, 20)]);
    assert!(cursor.next().is_none());
    assert_eq!(set.key_at(0), 9);
    assert_eq!(set.value_at(1), &20);
    *set.value_at_mut(1) = 21;
    let mut cursor = set.iter_mut();
    while let Some((key, value)) = cursor.next() {
        *value += key as i32;
    }
    assert_eq!(set.get(9), Some(&99));
    assert_eq!(set.get(2), Some(&23));
}

#[test]
fn intersection_walks_the_keys_that_both_sets_hold() {
    let mut first = SparseSet::<u64, i32>::new();
    let mut second = SparseSet::<u64, String>::new();
    for key in [1u64, 2, 3, 4] {
        first.insert(key, key as i32);
    }
    second.insert(4, "four".to_string());
    second.insert(7, "seven".to_string());
    second.insert(2, "two".to_string());
    {
        let mut cursor = SparseArrayIntersectionMutIter::new(&mut first, &mut second);
        let mut keys = Vec::new();
        while let Some((key, number, name)) = cursor.next() {
            *number *= 10;
            name.push('!');
            keys.push(key);
        }
        assert_eq!(keys, vec![2, 4]);
    }
    assert_eq!(first.get(1), Some(&1));
    assert_eq!(first.get(2), Some(&20));
    assert_eq!(first.get(4), Some(&40));
    assert_eq!(second.get(2).map(|name| name.as_str()), Some("two!"));
    assert_eq!(second.get(7).map(|name| name.as_str()), Some("seven"));
    let mut nothing = SparseArrayIntersectionIter::new(first.iter(), second.iter());
    assert!(nothing.next().is_none());
}

#[test]
fn intersection_with_an_empty_set_is_empty() {
    let mut first = SparseSet::<u64, i32>::new();
    let mut second = SparseSet::<u64, i32>::new();
    second.insert(1, 1);
    assert!(SparseArrayIntersectionMutIter::new(&mut first, &mut second).next().is_none());
    assert!(SparseArrayIntersectionMutIter::new(&mut second, &mut first).next().is_none());
}
