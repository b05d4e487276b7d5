use cow_ecs::archetype::archetype::{SIGNATURE_FACTOR, SIGNATURE_SEED};
use cow_ecs::archetype::archetype::{Archetype, ArchetypeIndex};
use cow_ecs::archetype::archetype_manager::ArchetypeManager;
use cow_ecs::archetype::archetype_query::ArchetypeQuery;
use cow_ecs::component::comp_storage::CompStorage;

const A: u64 = 10;
const B: u64 = 20;
const C: u64 = 30;

#[test]
fn index_is_sorted_whatever_the_order_of_insertion() {
    let mut first = ArchetypeIndex::new();
    assert!(first.add(C));
    assert!(first.add(A));
    assert!(first.add(B));
    let mut second = ArchetypeIndex::new();
    assert!(second.add(B));
    assert!(second.add(C));
    assert!(second.add(A));
    assert_eq!(first.types(), &vec![A, B, C]);
    assert_eq!(second.types(), &vec![A, B, C]);
    assert!(first == second);
    assert_eq!(first.len(), 3);
}

#[test]
fn index_add_reports_whether_the_shape_changed() {
    let mut index = ArchetypeIndex::new();
    assert!(index.add(A));
    assert!(!index.add(A));
    assert_eq!(index.len(), 1);
    assert!(index.contains(A));
    assert!(!index.contains(B));
}

#[test]
fn index_remove_of_absent_type_changes_nothing() {
    let mut index = ArchetypeIndex::from_slice(&[B, A]);
    index.remove(C);
    assert_eq!(index.types(), &vec![A, B]);
    index.remove(A);
    assert_eq!(index.types(), &vec![B]);
    index.remove(B);
    assert_eq!(index.len(), 0);
}

#[test]
fn index_from_slice_sorts_and_drops_repetitions() {
    let index = ArchetypeIndex::from_slice(&[C, A, C, B, A]);
    assert_eq!(index.types(), &vec![A, B, C]);
    let empty = ArchetypeIndex::from_slice(&[]);
    assert_eq!(empty.len(), 0);
    assert!(empty == ArchetypeIndex::new());
}

#[test]
fn index_shapes_of_different_size_differ() {
    let small = ArchetypeIndex::from_slice(&[A]);
    let large = ArchetypeIndex::from_slice(&[A, B]);
    assert!(small != large);
    assert!(large != small);
    assert!(ArchetypeIndex::from_slice(&[A, C]) != large);
}

#[test]
fn column_swap_remove_moves_the_last_value() {
    let mut column = CompStorage::<i32>::new(A);
    column.add(1);
    column.add(2);
    column.add(3);
    column.remove(0);
    assert_eq!(column.components(), &vec![3, 2]);
    column.remove(1);
    assert_eq!(column.components(), &vec![3]);
    column.remove(0);
    assert_eq!(column.len(), 0);
}

#[test]
fn column_update_and_get() {
    let mut column = CompStorage::<i32>::new(A);
    column.add(1);
    column.add(2);
    column.update(1, 7);
    assert_eq!(*column.get(0), 1);
    assert_eq!(*column.get(1), 7);
    *column.get_mut(0) = 9;
    assert_eq!(column.components(), &vec![9, 7]);
    column.components_mut()[1] = 8;
    assert_eq!(*column.get(1), 8);
    assert_eq!(column.contained_type(), A);
}

#[test]
fn column_transfer_moves_one_value() {
    let mut source = CompStorage::<i32>::new(A);
    source.add(1);
    source.add(2);
    source.add(3);
    let mut dest = source.duplicate();
    assert_eq!(dest.len(), 0);
    assert_eq!(dest.contained_type(), A);
    assert_eq!(source.transfer(&mut dest, 0), (1, 0));
    assert_eq!(source.components(), &vec![3, 2]);
    assert_eq!(dest.components(), &vec![1]);
    assert_eq!(source.transfer(&mut dest, 1), (0, 1));
    assert_eq!(source.transfer(&mut dest, 0), (0, 2));
    assert_eq!(source.len(), 0);
    assert_eq!(dest.components(), &vec![1, 2, 3]);
}

#[test]
fn column_transfer_rejects_another_type() {
    let mut source = CompStorage::<i32>::new(A);
    source.add(1);
    let mut dest = CompStorage::<i32>::new(B);
    assert_eq!(source.transfer(&mut dest, 0), (0, 0));
    assert_eq!(source.components(), &vec![1]);
    assert_eq!(dest.len(), 0);
}

#[test]
fn archetype_rows_and_columns_stay_aligned() {
    let mut archetype = Archetype::<i32>::new(ArchetypeIndex::from_slice(&[A]));
    archetype.insert_comp_storage(A, 5);
    archetype.add_without_comp(1);
    archetype.add_without_comp(2);
    archetype.add(A, 6);
    assert_eq!(archetype.indices(), &vec![1, 2]);
    assert_eq!(archetype.storage(A), Some(&vec![5, 6]));
    assert_eq!(archetype.storage(B), None);
    assert_eq!(archetype.query(1, A), Some(&5));
    assert_eq!(archetype.query(2, A), Some(&6));
    assert_eq!(archetype.query(3, A), None);
    assert_eq!(archetype.query(1, B), None);
    archetype.update(2, A, 60);
    assert_eq!(archetype.query(2, A), Some(&60));
    archetype.discard(1);
    assert_eq!(archetype.indices(), &vec![2]);
    assert_eq!(archetype.query(2, A), Some(&60));
    assert_eq!(archetype.query(1, A), None);
}

#[test]
fn archetype_add_without_column_drops_the_value() {
    let mut archetype = Archetype::<i32>::new(ArchetypeIndex::new());
    archetype.add(A, 1);
    assert_eq!(archetype.storage(A), None);
    assert_eq!(archetype.find_column(A), None);
}

#[test]
fn archetype_transfer_moves_shared_columns_only() {
    let mut source = Archetype::<i32>::new(ArchetypeIndex::from_slice(&[A, B]));
    source.insert_comp_storage(A, 1);
    source.insert_comp_storage(B, 10);
    source.add_without_comp(7);
    source.add_without_comp(8);
    source.add(A, 2);
    source.add(B, 20);
    let mut target = source.duplicate(ArchetypeIndex::from_slice(&[A]));
    target.remove_comp_storage(B);
    assert_eq!(target.find_column(B), None);
    source.transfer(&mut target, 7);
    source.remove(7);
    assert_eq!(target.indices(), &vec![7]);
    assert_eq!(target.storage(A), Some(&vec![1]));
    assert_eq!(source.indices(), &vec![8]);
    assert_eq!(source.storage(A), Some(&vec![2]));
    assert_eq!(source.storage(B), Some(&vec![20]));
    assert_eq!(source.query(8, B), Some(&20));
    assert_eq!(source.index().types(), &vec![A, B]);
}

#[test]
fn archetype_storage_mut_and_query_mut_write_in_place() {
    let mut archetype = Archetype::<i32>::new(ArchetypeIndex::from_slice(&[A]));
    archetype.insert_comp_storage(A, 1);
    archetype.add_without_comp(4);
    if let Some(values) = archetype.storage_mut(A) {
        values[0] = 3;
    }
    assert_eq!(archetype.query(4, A), Some(&3));
    if let Some(value) = archetype.query_mut(4, A) {
        *value += 1;
    }
    assert_eq!(archetype.query(4, A), Some(&4));
    assert!(archetype.query_mut(5, A).is_none());
    assert!(archetype.storage_mut(B).is_none());
}

#[test]
fn query_returns_the_value_added_last() {
    let mut manager = ArchetypeManager::<i32>::new();
    manager.add_entity(1);
    assert_eq!(manager.query(1, A), None);
    manager.add(1, A, 1);
    manager.add(1, B, 2);
    manager.add(1, A, 3);
    assert_eq!(manager.query(1, A), Some(&3));
    manager.remove(1, A);
    assert_eq!(manager.query(1, A), None);
    manager.add(1, A, 4);
    assert_eq!(manager.query(1, A), Some(&4));
    assert_eq!(manager.query(1, B), Some(&2));
    manager.remove(1, B);
    manager.remove(1, A);
    assert_eq!(manager.query(1, A), None);
    assert_eq!(manager.query(1, B), None);
    assert!(manager.contains(1));
}

#[test]
fn adding_an_owned_type_overwrites_without_a_move() {
    let mut manager = ArchetypeManager::<i32>::new();
    manager.add_entity(1);
    manager.add(1, A, 1);
    let archetypes = manager.archetype_count();
    manager.add(1, A, 2);
    assert_eq!(manager.archetype_count(), archetypes);
    assert_eq!(manager.query(1, A), Some(&2));
}

#[test]
fn removing_an_unowned_type_changes_nothing() {
    let mut manager = ArchetypeManager::<i32>::new();
    manager.add_entity(1);
    manager.add(1, A, 1);
    let archetypes = manager.archetype_count();
    manager.remove(1, B);
    assert_eq!(manager.archetype_count(), archetypes);
    assert_eq!(manager.query(1, A), Some(&1));
    assert_eq!(manager.query(1, B), None);
}

#[test]
fn migration_keeps_the_other_values_and_the_displaced_entity() {
    let mut manager = ArchetypeManager::<i32>::new();
    for entity in 1..=3u64 {
        manager.add_entity(entity);
        manager.add(entity, A, entity as i32);
        manager.add(entity, B, 10 * entity as i32);
    }
    // the first row of {A, B} leaves: the last row takes its place
    manager.add(1, C, 100);
    assert_eq!(manager.query(1, A), Some(&1));
    assert_eq!(manager.query(1, B), Some(&10));
    assert_eq!(manager.query(1, C), Some(&100));
    assert_eq!(manager.query(2, A), Some(&2));
    assert_eq!(manager.query(2, B), Some(&20));
    assert_eq!(manager.query(2, C), None);
    assert_eq!(manager.query(3, A), Some(&3));
    assert_eq!(manager.query(3, B), Some(&30));
    // the shapes that hold A: {A}, left by all, then {A, B}, then {A, B, C}
    let pairs = manager.fetch_info(A);
    assert_eq!(pairs.indices().len(), 3);
    assert_eq!(pairs.indices()[0], &Vec::<u64>::new());
    assert_eq!(pairs.indices()[1], &vec![3, 2]);
    assert_eq!(pairs.storage()[1], &vec![3, 2]);
    assert_eq!(pairs.indices()[2], &vec![1]);
    assert_eq!(pairs.storage()[2], &vec![1]);
}

#[test]
fn removed_shape_is_made_once_and_used_again() {
    let mut manager = ArchetypeManager::<i32>::new();
    manager.add_entity(1);
    manager.add(1, A, 1);
    manager.add(1, B, 2);
    // shapes so far: {}, {A}, {A, B}
    assert_eq!(manager.archetype_count(), 3);
    manager.remove(1, A);
    // {B} is new
    assert_eq!(manager.archetype_count(), 4);
    assert_eq!(manager.query(1, A), None);
    assert_eq!(manager.query(1, B), Some(&2));
    manager.add_entity(2);
    manager.add(2, B, 5);
    assert_eq!(manager.archetype_count(), 4);
    let holders = manager.fetch_info(B);
    assert_eq!(holders.indices().len(), 2);
    assert_eq!(holders.indices()[1], &vec![1, 2]);
    assert_eq!(holders.storage()[1], &vec![2, 5]);
    assert_eq!(manager.find_archetype(&ArchetypeIndex::from_slice(&[B])), Some(3));
    assert_eq!(manager.find_archetype(&ArchetypeIndex::from_slice(&[C])), None);
    assert_eq!(manager.find_archetype(&ArchetypeIndex::new()), Some(0));
}

#[test]
fn remove_entity_drops_all_its_values() {
    let mut manager = ArchetypeManager::<i32>::new();
    manager.add_entity(1);
    manager.add_entity(2);
    manager.add(1, A, 1);
    manager.add(2, A, 2);
    manager.remove_entity(1);
    assert!(!manager.contains(1));
    assert_eq!(manager.query(1, A), None);
    assert_eq!(manager.query(2, A), Some(&2));
    manager.add_entity(1);
    assert_eq!(manager.query(1, A), None);
}

#[test]
fn fetch_info_holds_each_entity_once() {
    let mut manager = ArchetypeManager::<i32>::new();
    for entity in 1..=4u64 {
        manager.add_entity(entity);
        manager.add(entity, A, entity as i32);
    }
    manager.add(2, B, 20);
    manager.add(4, B, 40);
    let query = manager.fetch_info(A);
    let mut seen = Vec::new();
    let mut cursor = query.iter();
    while let Some((entity, value)) = cursor.next() {
        seen.push((entity, *value));
    }
    assert_eq!(seen, vec![(1, 1), (3, 3), (2, 2), (4, 4)]);
    assert!(cursor.next().is_none());
    assert_eq!(query.query(3), Some(&3));
    assert_eq!(query.query(5), None);
    let none = manager.fetch_info(C);
    assert_eq!(none.indices().len(), 0);
    assert!(none.iter().next().is_none());
    assert_eq!(manager.holder_count(A), 2);
    assert_eq!(manager.holder_count(C), 0);
    assert_eq!(manager.rows_of_block(A, 1), &vec![2, 4]);
    assert_eq!(manager.values_of_block(A, 1), &vec![2, 4]);
}

#[test]
fn fetch_info_mut_writes_each_value_once() {
    let mut manager = ArchetypeManager::<i32>::new();
    for entity in 1..=3u64 {
        manager.add_entity(entity);
        manager.add(entity, A, entity as i32);
    }
    manager.add(2, B, 7);
    {
        let mut query = manager.fetch_info_mut(A);
        assert_eq!(query.indices().len(), 2);
        assert_eq!(query.indices()[0], &vec![1, 3]);
        assert_eq!(query.storages()[0], &vec![1, 3]);
        assert_eq!(query.storages()[1], &vec![2]);
        assert_eq!(query.query(2), Some(&2));
        let mut cursor = query.iter_mut();
        let mut walked = Vec::new();
        while let Some((entity, value)) = cursor.next() {
            *value *= 10;
            walked.push(entity);
        }
        assert_eq!(walked, vec![1, 3, 2]);
        if let Some(value) = query.query_mut(3) {
            *value += 1;
        }
        assert!(query.query_mut(9).is_none());
    }
    assert_eq!(manager.query(1, A), Some(&10));
    assert_eq!(manager.query(2, A), Some(&20));
    assert_eq!(manager.query(3, A), Some(&31));
    assert_eq!(manager.query(2, B), Some(&7));
    *manager.value_of_block_mut(A, 0, 0) = 5;
    assert_eq!(manager.query(1, A), Some(&5));
    if let Some(value) = manager.query_mut(2, B) {
        *value = 8;
    }
    assert_eq!(manager.query(2, B), Some(&8));
}

#[test]
fn query_over_given_blocks_takes_the_first_match() {
    let first_rows = vec![1u64, 2];
    let second_rows = vec![2u64, 3];
    let first_values = vec![10, 20];
    let second_values = vec![21, 30];
    let query = ArchetypeQuery::new(
        vec![&first_rows, &second_rows],
        vec![&first_values, &second_values],
    );
    assert_eq!(query.query(2), Some(&20));
    assert_eq!(query.query(3), Some(&30));
    assert_eq!(query.query(4), None);
}

#[test]
fn shape_hash_mixes_each_type_in_turn() {
    assert_eq!(SIGNATURE_SEED, 0xcbf2_9ce4_8422_2325);
    assert_eq!(SIGNATURE_FACTOR, 0x0000_0100_0000_01b3);
    assert_eq!(ArchetypeIndex::new().signature(), 14695981039346656037);
    assert_eq!(ArchetypeIndex::from_slice(&[1]).signature(), 12638152016183539244);
    let two = ArchetypeIndex::from_slice(&[2, 1]);
    assert_eq!(two.signature(), 589729691727335466);
    assert_eq!(two.signature(), ArchetypeIndex::from_slice(&[1, 2]).signature());
}

#[test]
fn columns_have_one_value_per_row_after_many_moves() {
    let mut manager = ArchetypeManager::<i32>::new();
    for entity in 1..=20u64 {
        manager.add_entity(entity);
        manager.add(entity, A, entity as i32);
        if entity % 2 == 0 {
            manager.add(entity, B, 2 * entity as i32);
        }
        if entity % 3 == 0 {
            manager.add(entity, C, 3 * entity as i32);
        }
        if entity % 4 == 0 {
            manager.remove(entity, A);
        }
        if entity % 5 == 0 {
            manager.remove_entity(entity);
        }
    }
    for ty in [A, B, C] {
        let query = manager.fetch_info(ty);
        assert_eq!(query.indices().len(), query.storage().len());
        let mut seen = Vec::new();
        for (rows, values) in query.indices().iter().zip(query.storage().iter()) {
            assert_eq!(rows.len(), values.len());
            for (entity, value) in rows.iter().zip(values.iter()) {
                assert!(!seen.contains(entity));
                seen.push(*entity);
                assert_eq!(manager.query(*entity, ty), Some(value));
            }
        }
        for entity in 1..=20u64 {
            assert_eq!(seen.contains(&entity), manager.query(entity, ty).is_some());
        }
    }
    assert_eq!(manager.query(6, A), Some(&6));
    assert_eq!(manager.query(6, B), Some(&12));
    assert_eq!(manager.query(6, C), Some(&18));
    assert_eq!(manager.query(12, A), None);
    assert_eq!(manager.query(12, B), Some(&24));
    assert_eq!(manager.query(12, C), Some(&36));
    assert!(!manager.contains(20));
    assert_eq!(manager.query(20, B), None);
}

#[test]
fn archetypes_with_equal_hash_inputs_are_told_apart() {
    let mut manager = ArchetypeManager::<i32>::new();
    manager.add_entity(1);
    manager.add_entity(2);
    manager.add(1, A, 1);
    manager.add(2, B, 2);
    assert_eq!(manager.find_archetype(&ArchetypeIndex::from_slice(&[A])), Some(1));
    assert_eq!(manager.find_archetype(&ArchetypeIndex::from_slice(&[B])), Some(2));
    assert_eq!(manager.find_archetype(&ArchetypeIndex::from_slice(&[A, B])), None);
    manager.add(1, B, 3);
    assert_eq!(manager.find_archetype(&ArchetypeIndex::from_slice(&[B, A])), Some(3));
    assert_eq!(manager.archetype_count(), 4);
}

#[test]
fn transfer_of_an_entity_without_a_row_moves_no_value() {
    let mut source = Archetype::<i32>::new(ArchetypeIndex::from_slice(&[A]));
    source.insert_comp_storage(A, 1);
    source.add_without_comp(7);
    let mut target = source.duplicate(ArchetypeIndex::from_slice(&[A]));
    source.transfer(&mut target, 8);
    assert_eq!(source.indices(), &vec![7]);
    assert_eq!(source.storage(A), Some(&vec![1]));
    assert_eq!(target.indices(), &vec![8]);
    assert_eq!(target.storage(A), Some(&Vec::<i32>::new()));
}

#[test]
fn update_without_a_column_changes_nothing() {
    let mut archetype = Archetype::<i32>::new(ArchetypeIndex::from_slice(&[A]));
    archetype.insert_comp_storage(A, 1);
    archetype.add_without_comp(7);
    archetype.update(9, B, 5);
    archetype.update(7, B, 5);
    assert_eq!(archetype.storage(A), Some(&vec![1]));
    assert_eq!(archetype.storage(B), None);
    assert_eq!(archetype.query(9, A), None);
}

#[test]
fn a_view_with_uneven_blocks_can_be_made() {
    let rows = vec![1u64, 2];
    let values = vec![10];
    let query = ArchetypeQuery::new(vec![&rows], vec![&values]);
    assert_eq!(query.indices().len(), 1);
    assert_eq!(query.storage()[0].len(), 1);
}
