use bevy_ecs::archetype::{ArchetypeId, Archetypes};
use bevy_ecs::component::{ComponentId, ComponentTicks, DataLayout};
use bevy_ecs::entity::{Entities, Entity, EntityLocation};
use bevy_ecs::sorted::insert_sorted;
use bevy_ecs::sparse_set::ComponentSparseSet;
use bevy_ecs::table::{Slot, Table};

#[test]
fn sorted_remove() {
    let mut a = vec![1, 2, 3, 4, 5, 6, 7];
    let b = vec![1, 2, 3, 5, 7];
    bevy_ecs::sorted::sorted_remove(&mut a, &b);

    assert_eq!(a, vec![4, 6]);

    let mut a = vec![1];
    let b = vec![1];
    bevy_ecs::sorted::sorted_remove(&mut a, &b);

    assert_eq!(a, vec![]);

    let mut a = vec![1];
    let b = vec![2];
    bevy_ecs::sorted::sorted_remove(&mut a, &b);

    assert_eq!(a, vec![1]);
}

#[test]
fn sorted_remove_on_slots() {
    let s = |k: usize| Slot::new(ComponentId(k), None);
    let mut v = vec![s(1), s(3), s(5)];
    bevy_ecs::sorted::sorted_remove(&mut v, &[s(3), s(4)]);
    assert_eq!(v, vec![s(1), s(5)]);
}

#[test]
fn insert_sorted_keeps_order() {
    let mut v = vec![Slot::new(ComponentId(2), None), Slot::new(ComponentId(7), None)];
    insert_sorted(&mut v, Slot::new(ComponentId(5), None));
    insert_sorted(&mut v, Slot::new(ComponentId(2), Some(Entity::new(1))));
    assert_eq!(
        v,
        vec![
            Slot::new(ComponentId(2), None),
            Slot::new(ComponentId(2), Some(Entity::new(1))),
            Slot::new(ComponentId(5), None),
            Slot::new(ComponentId(7), None),
        ]
    );
}

#[test]
fn table() {
    let layout = DataLayout { size: 8, align: 8 };
    let kind = ComponentId(0);
    let mut table = Table::with_capacity(0, 1, 64);
    table.add_column(kind, None, layout);
    let entities = (0..200).map(Entity::new).collect::<Vec<_>>();
    for (row, entity) in entities.iter().cloned().enumerate() {
        table.allocate(entity);
        let value = (row as u64).to_le_bytes().to_vec();
        assert!(table.set_value(kind, None, row, value, ComponentTicks::new(0)));
    }

    assert_eq!(table.capacity(), 256);
    assert_eq!(table.len(), 200);
}

#[test]
fn table_grows_in_steps_of_grow_amount() {
    let mut table = Table::with_capacity(0, 1, 64);
    table.add_column(ComponentId(0), None, DataLayout { size: 4, align: 4 });
    let mut seen = vec![table.capacity()];
    for i in 0..200u32 {
        table.allocate(Entity::new(i));
        if *seen.last().unwrap() != table.capacity() {
            seen.push(table.capacity());
        }
    }
    assert_eq!(seen, vec![0, 64, 128, 192, 256]);
    assert_eq!(table.len(), 200);
    assert_eq!(table.capacity(), 256);
    assert_eq!(table.get_column(ComponentId(0), None).unwrap().len(), 200);
}

#[test]
fn table_swap_remove_moves_last_row() {
    let mut table = Table::new(4);
    table.add_column(ComponentId(0), None, DataLayout { size: 1, align: 1 });
    for i in 0..3u32 {
        let row = table.allocate(Entity::new(i));
        assert!(table.set_value(ComponentId(0), None, row, vec![i as u8], ComponentTicks::new(1)));
    }
    assert_eq!(table.swap_remove_unchecked(0), Some(Entity::new(2)));
    assert_eq!(table.entities(), &vec![Entity::new(2), Entity::new(1)]);
    assert_eq!(table.get_column(ComponentId(0), None).unwrap().data, vec![vec![2], vec![1]]);
    assert_eq!(table.swap_remove_unchecked(1), None);
}

#[test]
fn entity_allocator_reuses_ids_with_new_generation() {
    let mut entities = Entities::new();
    let loc = EntityLocation { archetype_id: ArchetypeId(0), index: 0 };
    let e0 = entities.allocate(loc).unwrap();
    let e1 = entities.allocate(loc).unwrap();
    assert_eq!((e0.id, e1.id), (0, 1));
    assert_eq!(entities.free(e0), Some(loc));
    assert_eq!(entities.free(e0), None);
    assert_eq!(entities.get(e0), None);
    let e2 = entities.allocate(loc).unwrap();
    assert_eq!(e2, Entity { id: 0, generation: 1 });
    assert_eq!(entities.get(e2), Some(loc));
}

#[test]
fn sparse_set_insert_remove() {
    let mut set = ComponentSparseSet::new(Slot::new(ComponentId(3), None), DataLayout { size: 1, align: 1 });
    let a = Entity::new(5);
    let b = Entity::new(2);
    set.insert(a, vec![1], 10);
    set.insert(b, vec![2], 11);
    set.insert(a, vec![3], 12);
    assert_eq!(set.get(a), Some(&vec![3]));
    assert_eq!(set.get_with_ticks(a).unwrap().1, ComponentTicks { added: 10, changed: 12 });
    assert!(set.remove(a));
    assert!(!set.remove(a));
    assert_eq!(set.get(a), None);
    assert_eq!(set.get(b), Some(&vec![2]));
    assert_eq!(set.remove_and_forget(b), Some(vec![2]));
    assert!(set.is_empty());
}

#[test]
fn change_ticks_compare_with_wraparound() {
    let t = ComponentTicks { added: 5, changed: 9 };
    assert!(t.is_added(4));
    assert!(!t.is_added(5));
    assert!(t.is_changed(8));
    assert!(!t.is_changed(9));
    let wrapped = ComponentTicks { added: 2, changed: 2 };
    assert!(wrapped.is_changed(u32::MAX - 1));
    assert!(!wrapped.is_changed(2u32.wrapping_add(1 << 31)));
    let mut old = ComponentTicks { added: 0, changed: 0 };
    old.check_ticks(4_000_000_000);
    assert_eq!(old.added, 4_000_000_000 - 1_073_741_824);
    let mut recent = ComponentTicks { added: 3_999_999_000, changed: 3_999_999_000 };
    recent.check_ticks(4_000_000_000);
    assert_eq!(recent.added, 3_999_999_000);
}

#[test]
fn archetypes_start_with_two_reserved() {
    let archetypes = Archetypes::new();
    assert_eq!(archetypes.len(), 2);
    assert_eq!(archetypes.generation().value(), 2);
    assert_eq!(archetypes.empty().id(), ArchetypeId::empty());
    assert_eq!(archetypes.resource().id(), ArchetypeId::resource());
}
