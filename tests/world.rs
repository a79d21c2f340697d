use bevy_ecs::archetype::ArchetypeId;
use bevy_ecs::component::{ComponentDescriptor, ComponentId, ComponentTicks, StorageType};
use bevy_ecs::entity::Entity;
use bevy_ecs::table::Slot;
use bevy_ecs::world::World;

fn desc(name: &str, storage: StorageType, token: u64, size: usize) -> ComponentDescriptor {
    ComponentDescriptor::new(name.to_string(), storage, Some(token), size, 1)
}

fn a_desc() -> ComponentDescriptor {
    desc("A", StorageType::Table, 1, 4)
}

fn b_desc() -> ComponentDescriptor {
    desc("B", StorageType::Table, 2, 1)
}

fn c_desc() -> ComponentDescriptor {
    desc("C", StorageType::Table, 3, 8)
}

fn slots_of(w: &World, e: Entity) -> Vec<Slot> {
    let loc = w.entities.get(e).unwrap();
    w.archetypes.archetypes[loc.archetype_id.0].components()
}

fn plain(kind: ComponentId) -> Slot {
    Slot::new(kind, None)
}

#[test]
fn spawn_with_two_components() {
    let mut w = World::new();
    let ab = w.init_bundle(100, &vec![a_desc(), b_desc()]);
    let e1 = w.spawn().unwrap();
    assert!(w.insert_bundle(e1, ab, vec![1u32.to_le_bytes().to_vec(), b"x".to_vec()]));
    let a = w.components.get_component_id(1).unwrap();
    let b = w.components.get_component_id(2).unwrap();
    assert_eq!(w.get(e1, a, None), Some(&1u32.to_le_bytes().to_vec()));
    assert_eq!(w.get(e1, b, None), Some(&b"x".to_vec()));
    assert_eq!(slots_of(&w, e1), vec![plain(a), plain(b)]);
}

#[test]
fn insert_moves_to_larger_archetype() {
    let mut w = World::new();
    let ba = w.init_bundle(101, &vec![a_desc()]);
    let bc = w.init_bundle(103, &vec![c_desc()]);
    let a = w.components.get_component_id(1).unwrap();
    let c = w.components.get_component_id(3).unwrap();
    let e2 = w.spawn().unwrap();
    assert!(w.insert_bundle(e2, ba, vec![2u32.to_le_bytes().to_vec()]));
    let before = w.entities.get(e2).unwrap().archetype_id;
    assert_eq!(slots_of(&w, e2), vec![plain(a)]);
    assert!(w.insert_bundle(e2, bc, vec![3.0f64.to_le_bytes().to_vec()]));
    let after = w.entities.get(e2).unwrap().archetype_id;
    assert_ne!(before, after);
    assert_eq!(slots_of(&w, e2), vec![plain(a), plain(c)]);
    assert_eq!(w.get(e2, a, None), Some(&2u32.to_le_bytes().to_vec()));
    assert_eq!(w.get(e2, c, None), Some(&3.0f64.to_le_bytes().to_vec()));
}

#[test]
fn remove_bundle_returns_values_and_empties_entity() {
    let mut w = World::new();
    let ab = w.init_bundle(100, &vec![a_desc(), b_desc()]);
    let a = w.components.get_component_id(1).unwrap();
    let e1 = w.spawn().unwrap();
    assert!(w.insert_bundle(e1, ab, vec![1u32.to_le_bytes().to_vec(), b"x".to_vec()]));
    let taken = w.remove_bundle(e1, ab);
    assert_eq!(taken, Some(vec![1u32.to_le_bytes().to_vec(), b"x".to_vec()]));
    assert_eq!(w.entities.get(e1).unwrap().archetype_id, ArchetypeId::empty());
    assert_eq!(w.get(e1, a, None), None);
    assert!(slots_of(&w, e1).is_empty());
}

#[test]
fn despawn_logs_and_recycles_id() {
    let mut w = World::new();
    let ab = w.init_bundle(100, &vec![a_desc(), b_desc()]);
    let a = w.components.get_component_id(1).unwrap();
    let b = w.components.get_component_id(2).unwrap();
    let e1 = w.spawn().unwrap();
    assert!(w.insert_bundle(e1, ab, vec![1u32.to_le_bytes().to_vec(), b"x".to_vec()]));
    assert!(w.despawn(e1));
    assert!(w.removed_components.contains(&(plain(a), e1)));
    assert!(w.removed_components.contains(&(plain(b), e1)));
    let again = w.spawn().unwrap();
    assert_eq!(again.id, e1.id);
    assert_eq!(again.generation, e1.generation + 1);
    assert_eq!(w.get(e1, a, None), None);
    assert!(!w.contains(e1, a, None));
    assert!(w.entities.get(e1).is_none());
}

#[test]
fn relation_to_parent_survives_parent_despawn() {
    let mut w = World::new();
    let child_of = w.new_relationship_kind(Some(77));
    let rel = w.register_relation(child_of, 78, desc("ChildOf", StorageType::Table, 78, 4));
    let p = w.spawn().unwrap();
    let c = w.spawn().unwrap();
    assert!(w.insert_relation(c, rel, p, 0u32.to_le_bytes().to_vec()));
    assert!(slots_of(&w, c).contains(&Slot::new(rel, Some(p))));
    assert_eq!(w.get(c, rel, Some(p)), Some(&0u32.to_le_bytes().to_vec()));
    assert!(w.despawn(p));
    assert!(w.contains(c, rel, Some(p)));
    assert_eq!(w.get(c, rel, Some(p)), Some(&0u32.to_le_bytes().to_vec()));
}

#[test]
fn remove_relation_hands_value_back() {
    let mut w = World::new();
    let likes = w.new_relationship_kind(Some(90));
    let rel = w.register_relation(likes, 91, desc("Likes", StorageType::Table, 91, 1));
    let x = w.spawn().unwrap();
    let y = w.spawn().unwrap();
    assert!(w.insert_relation(x, rel, y, vec![7]));
    assert_eq!(w.remove_relation(x, rel, y), Some(vec![7]));
    assert!(!w.contains(x, rel, Some(y)));
    assert_eq!(w.remove_relation(x, rel, y), None);
}

#[test]
fn stale_handle_sees_nothing() {
    let mut w = World::new();
    let ba = w.init_bundle(101, &vec![a_desc()]);
    let a = w.components.get_component_id(1).unwrap();
    let e = w.spawn().unwrap();
    assert!(w.insert_bundle(e, ba, vec![5u32.to_le_bytes().to_vec()]));
    assert!(w.despawn(e));
    let fresh = w.spawn().unwrap();
    assert!(w.insert_bundle(fresh, ba, vec![6u32.to_le_bytes().to_vec()]));
    assert_eq!(fresh.id, e.id);
    assert_eq!(w.get(e, a, None), None);
    assert!(!w.insert_bundle(e, ba, vec![9u32.to_le_bytes().to_vec()]));
    assert_eq!(w.remove_bundle(e, ba), None);
    assert_eq!(w.get(fresh, a, None), Some(&6u32.to_le_bytes().to_vec()));
}

#[test]
fn spawn_then_despawn_twice() {
    let mut w = World::new();
    let e = w.spawn().unwrap();
    assert!(w.despawn(e));
    assert!(!w.despawn(e));
    assert!(w.entity(e).is_none());
}

#[test]
fn cross_table_move_drains_source_row() {
    let mut w = World::new();
    let ba = w.init_bundle(101, &vec![a_desc()]);
    let bc = w.init_bundle(103, &vec![c_desc()]);
    let c = w.components.get_component_id(3).unwrap();
    let e = w.spawn().unwrap();
    let other = w.spawn().unwrap();
    assert!(w.insert_bundle(e, ba, vec![1u32.to_le_bytes().to_vec()]));
    assert!(w.insert_bundle(other, ba, vec![2u32.to_le_bytes().to_vec()]));
    let loc = w.entities.get(e).unwrap();
    let src_table = w.archetypes.archetypes[loc.archetype_id.0].table_id.0;
    assert_eq!(w.tables.tables[src_table].len(), 2);
    assert!(w.insert_bundle(e, bc, vec![4.5f64.to_le_bytes().to_vec()]));
    let loc2 = w.entities.get(e).unwrap();
    let dst_table = w.archetypes.archetypes[loc2.archetype_id.0].table_id.0;
    assert_ne!(src_table, dst_table);
    assert_eq!(w.tables.tables[src_table].len(), 1);
    assert_eq!(w.tables.tables[src_table].entities()[0], other);
    for col in w.tables.tables[src_table].columns.iter() {
        assert_eq!(col.len(), 1);
    }
    let dst = &w.tables.tables[dst_table];
    assert_eq!(dst.len(), 1);
    assert_eq!(dst.get_column(c, None).unwrap().data[0], 4.5f64.to_le_bytes().to_vec());
    let a = w.components.get_component_id(1).unwrap();
    assert_eq!(w.get(other, a, None), Some(&2u32.to_le_bytes().to_vec()));
}

#[test]
fn intersection_remove_without_overlap_changes_nothing() {
    let mut w = World::new();
    let ba = w.init_bundle(101, &vec![a_desc()]);
    let bc = w.init_bundle(103, &vec![c_desc()]);
    let a = w.components.get_component_id(1).unwrap();
    let e = w.spawn().unwrap();
    assert!(w.insert_bundle(e, ba, vec![1u32.to_le_bytes().to_vec()]));
    let before = w.entities.get(e).unwrap();
    assert!(w.remove_bundle_intersection(e, bc));
    assert_eq!(w.entities.get(e).unwrap(), before);
    assert!(w.removed_components.is_empty());
    assert_eq!(w.get(e, a, None), Some(&1u32.to_le_bytes().to_vec()));
}

#[test]
fn intersection_remove_drops_present_slots_only() {
    let mut w = World::new();
    let ba = w.init_bundle(101, &vec![a_desc()]);
    let bab = w.init_bundle(100, &vec![a_desc(), b_desc()]);
    let a = w.components.get_component_id(1).unwrap();
    let b = w.components.get_component_id(2).unwrap();
    let e = w.spawn().unwrap();
    assert!(w.insert_bundle(e, ba, vec![1u32.to_le_bytes().to_vec()]));
    assert!(w.remove_bundle_intersection(e, bab));
    assert_eq!(w.removed_components, vec![(plain(a), e)]);
    assert!(!w.contains(e, a, None));
    assert!(!w.contains(e, b, None));
}

#[test]
fn strict_remove_with_missing_slot_is_refused() {
    let mut w = World::new();
    let ba = w.init_bundle(101, &vec![a_desc()]);
    let bab = w.init_bundle(100, &vec![a_desc(), b_desc()]);
    let a = w.components.get_component_id(1).unwrap();
    let e = w.spawn().unwrap();
    assert!(w.insert_bundle(e, ba, vec![1u32.to_le_bytes().to_vec()]));
    assert_eq!(w.remove_bundle(e, bab), None);
    assert_eq!(w.get(e, a, None), Some(&1u32.to_le_bytes().to_vec()));
    assert!(w.removed_components.is_empty());
}

#[test]
fn insert_then_remove_restores_entity() {
    let mut w = World::new();
    let ba = w.init_bundle(101, &vec![a_desc()]);
    let bc = w.init_bundle(103, &vec![c_desc()]);
    let a = w.components.get_component_id(1).unwrap();
    let e = w.spawn().unwrap();
    assert!(w.insert_bundle(e, ba, vec![8u32.to_le_bytes().to_vec()]));
    let (_, ticks_before) = w.get_with_ticks(e, a, None).unwrap();
    let slots_before = slots_of(&w, e);
    assert!(w.insert_bundle(e, bc, vec![1.0f64.to_le_bytes().to_vec()]));
    assert!(w.remove_bundle(e, bc).is_some());
    assert_eq!(slots_of(&w, e), slots_before);
    let (v, ticks_after) = w.get_with_ticks(e, a, None).unwrap();
    assert_eq!(v, &8u32.to_le_bytes().to_vec());
    assert_eq!(ticks_before, ticks_after);
}

#[test]
fn insert_over_present_slot_replaces_value() {
    let mut w = World::new();
    let ba = w.init_bundle(101, &vec![a_desc()]);
    let a = w.components.get_component_id(1).unwrap();
    let e = w.spawn().unwrap();
    assert!(w.insert_bundle(e, ba, vec![1u32.to_le_bytes().to_vec()]));
    let arch = w.entities.get(e).unwrap().archetype_id;
    assert!(w.insert_bundle(e, ba, vec![2u32.to_le_bytes().to_vec()]));
    assert_eq!(w.entities.get(e).unwrap().archetype_id, arch);
    assert_eq!(w.get(e, a, None), Some(&2u32.to_le_bytes().to_vec()));
}

#[test]
fn insert_refuses_wrong_value_count_and_unknown_bundle() {
    let mut w = World::new();
    let ab = w.init_bundle(100, &vec![a_desc(), b_desc()]);
    let e = w.spawn().unwrap();
    assert!(!w.insert_bundle(e, ab, vec![vec![1, 0, 0, 0]]));
    assert!(!w.insert_bundle(e, bevy_ecs::bundle::BundleId(42), vec![]));
    assert!(slots_of(&w, e).is_empty());
}

#[test]
fn sparse_set_components_move_with_entity() {
    let mut w = World::new();
    let bs = w.init_bundle(200, &vec![desc("S", StorageType::SparseSet, 20, 2)]);
    let ba = w.init_bundle(101, &vec![a_desc()]);
    let s = w.components.get_component_id(20).unwrap();
    let a = w.components.get_component_id(1).unwrap();
    let e = w.spawn().unwrap();
    let f = w.spawn().unwrap();
    assert!(w.insert_bundle(e, bs, vec![vec![9, 9]]));
    assert!(w.insert_bundle(f, bs, vec![vec![1, 2]]));
    let loc = w.entities.get(e).unwrap();
    assert_eq!(w.archetypes.archetypes[loc.archetype_id.0].sparse_set_components, vec![plain(s)]);
    assert!(w.insert_bundle(e, ba, vec![3u32.to_le_bytes().to_vec()]));
    assert_eq!(w.get(e, s, None), Some(&vec![9, 9]));
    assert_eq!(w.remove_bundle(e, bs), Some(vec![vec![9, 9]]));
    assert_eq!(w.get(e, s, None), None);
    assert_eq!(w.get(f, s, None), Some(&vec![1, 2]));
    assert!(w.despawn(f));
    assert!(w.removed_components.contains(&(plain(s), f)));
}

#[test]
fn new_values_carry_change_ticks() {
    let mut w = World::new();
    let ba = w.init_bundle(101, &vec![a_desc()]);
    let a = w.components.get_component_id(1).unwrap();
    let e = w.spawn().unwrap();
    assert!(w.insert_bundle(e, ba, vec![1u32.to_le_bytes().to_vec()]));
    let (_, t) = w.get_with_ticks(e, a, None).unwrap();
    assert_eq!(t, ComponentTicks::new(w.change_tick));
}

#[test]
fn entity_views_report_slots() {
    let mut w = World::new();
    let ba = w.init_bundle(101, &vec![a_desc()]);
    let a = w.components.get_component_id(1).unwrap();
    let e = w.spawn().unwrap();
    assert!(w.insert_bundle(e, ba, vec![1u32.to_le_bytes().to_vec()]));
    let view = w.entity(e).unwrap();
    assert_eq!(view.id(), e);
    assert!(view.contains_id(a, None));
    assert!(view.contains_type_id(1));
    assert!(!view.contains_type_id(2));
    assert_eq!(view.get(a, None), Some(&1u32.to_le_bytes().to_vec()));
    assert_eq!(view.location(), w.entities.get(e).unwrap());
}

#[test]
fn archetype_identity_is_reused() {
    let mut w = World::new();
    let ba = w.init_bundle(101, &vec![a_desc()]);
    let e = w.spawn().unwrap();
    let f = w.spawn().unwrap();
    assert!(w.insert_bundle(e, ba, vec![1u32.to_le_bytes().to_vec()]));
    let count = w.archetypes.len();
    assert!(w.insert_bundle(f, ba, vec![2u32.to_le_bytes().to_vec()]));
    assert_eq!(w.archetypes.len(), count);
    assert_eq!(w.entities.get(e).unwrap().archetype_id, w.entities.get(f).unwrap().archetype_id);
}

fn assert_bookkeeping(w: &World) {
    for (a, arch) in w.archetypes.archetypes.iter().enumerate() {
        assert_eq!(arch.id().0, a);
        let table = &w.tables.tables[arch.table_id().0];
        for (i, e) in arch.entities().iter().enumerate() {
            let loc = w.entities.get(*e).unwrap();
            assert_eq!(loc.archetype_id.0, a);
            assert_eq!(loc.index, i);
            let row = arch.entity_table_row(i);
            assert_eq!(table.entities()[row], *e);
        }
    }
    for table in w.tables.tables.iter() {
        for col in table.columns.iter() {
            assert_eq!(col.len(), table.len());
            assert_eq!(col.ticks.len(), table.len());
        }
    }
}

#[test]
fn bookkeeping_agrees_after_mutations() {
    let mut w = World::new();
    let ba = w.init_bundle(101, &vec![a_desc()]);
    let bab = w.init_bundle(100, &vec![a_desc(), b_desc()]);
    let bc = w.init_bundle(103, &vec![c_desc()]);
    let mut es = Vec::new();
    for i in 0..6u32 {
        let e = w.spawn().unwrap();
        assert!(w.insert_bundle(e, ba, vec![i.to_le_bytes().to_vec()]));
        es.push(e);
    }
    assert!(w.insert_bundle(es[1], bc, vec![1.0f64.to_le_bytes().to_vec()]));
    assert!(w.insert_bundle(es[3], bab, vec![7u32.to_le_bytes().to_vec(), vec![1]]));
    assert!(w.despawn(es[0]));
    assert!(w.remove_bundle(es[3], bab).is_some());
    assert!(w.remove_bundle_intersection(es[1], bab));
    assert!(w.despawn(es[5]));
    assert_bookkeeping(&w);
    let a = w.components.get_component_id(1).unwrap();
    assert_eq!(w.get(es[2], a, None), Some(&2u32.to_le_bytes().to_vec()));
    assert_eq!(w.get(es[4], a, None), Some(&4u32.to_le_bytes().to_vec()));
    assert_eq!(w.get(es[3], a, None), None);
    assert_eq!(w.get(es[1], a, None), None);
}

#[test]
fn present_slots_always_have_values() {
    let mut w = World::new();
    let bab = w.init_bundle(100, &vec![a_desc(), b_desc()]);
    let bs = w.init_bundle(200, &vec![desc("S", StorageType::SparseSet, 20, 1)]);
    let e = w.spawn().unwrap();
    assert!(w.insert_bundle(e, bab, vec![vec![1, 0, 0, 0], vec![2]]));
    assert!(w.insert_bundle(e, bs, vec![vec![3]]));
    for s in slots_of(&w, e) {
        assert!(w.get(e, s.kind, s.target).is_some());
    }
    let c = w.register_component(3, c_desc());
    assert!(w.get(e, c, None).is_none());
}

#[test]
fn archetype_lookup_is_deterministic() {
    let mut w = World::new();
    let ba = w.init_bundle(101, &vec![a_desc()]);
    let e = w.spawn().unwrap();
    assert!(w.insert_bundle(e, ba, vec![vec![0, 0, 0, 0]]));
    let loc = w.entities.get(e).unwrap();
    let arch = &w.archetypes.archetypes[loc.archetype_id.0];
    let table_id = arch.table_id();
    let t = arch.table_components().clone();
    let s = arch.sparse_set_components().clone();
    let first = w.archetypes.get_id_or_insert(table_id, t.clone(), s.clone());
    let second = w.archetypes.get_id_or_insert(table_id, t, s);
    assert_eq!(first, loc.archetype_id);
    assert_eq!(first, second);
}

#[test]
fn registry_and_bundles_reuse_ids() {
    let mut w = World::new();
    let a1 = w.register_component(1, a_desc());
    let a2 = w.register_component(1, a_desc());
    assert_eq!(a1, a2);
    let r = w.register_resource(1, a_desc());
    assert_ne!(r, a1);
    let b1 = w.init_bundle(100, &vec![a_desc(), b_desc()]);
    let b2 = w.init_bundle(100, &vec![a_desc(), b_desc()]);
    assert_eq!(b1.index(), b2.index());
    assert_eq!(w.bundles.get(b1).unwrap().components().len(), 2);
}

#[test]
fn entity_mut_follows_its_entity() {
    let mut w = World::new();
    let ba = w.init_bundle(101, &vec![a_desc()]);
    let a = w.components.get_component_id(1).unwrap();
    let e = w.spawn().unwrap();
    let mut handle = bevy_ecs::entity_ref::EntityMut { entity: e, location: w.entities.get(e).unwrap() };
    assert!(handle.insert(&mut w, ba, vec![5u32.to_le_bytes().to_vec()]));
    assert_eq!(handle.location(), w.entities.get(e).unwrap());
    assert!(handle.contains_id(&w, a, None));
    assert_eq!(handle.remove(&mut w, ba), Some(vec![5u32.to_le_bytes().to_vec()]));
    assert_eq!(handle.location().archetype_id, ArchetypeId::empty());
}

#[test]
fn replace_value_stamps_changed_tick() {
    let mut w = World::new();
    let ba = w.init_bundle(101, &vec![a_desc()]);
    let a = w.components.get_component_id(1).unwrap();
    let e = w.spawn().unwrap();
    assert!(w.insert_bundle(e, ba, vec![1u32.to_le_bytes().to_vec()]));
    let added = w.get_with_ticks(e, a, None).unwrap().1.added;
    w.increment_change_tick();
    let now = w.change_tick;
    assert!(w.replace_value(e, a, None, 9u32.to_le_bytes().to_vec()));
    let (v, t) = w.get_with_ticks(e, a, None).unwrap();
    assert_eq!(v, &9u32.to_le_bytes().to_vec());
    assert_eq!(t, ComponentTicks { added, changed: now });
    let c = w.register_component(3, c_desc());
    assert!(!w.replace_value(e, c, None, vec![0; 8]));
}

#[test]
fn despawn_keeps_other_entities_values() {
    let mut w = World::new();
    let ba = w.init_bundle(101, &vec![a_desc()]);
    let bs = w.init_bundle(200, &vec![desc("S", StorageType::SparseSet, 20, 1)]);
    let a = w.components.get_component_id(1).unwrap();
    let s = w.components.get_component_id(20).unwrap();
    let mut es = Vec::new();
    for i in 0..4u32 {
        let e = w.spawn().unwrap();
        assert!(w.insert_bundle(e, ba, vec![i.to_le_bytes().to_vec()]));
        assert!(w.insert_bundle(e, bs, vec![vec![i as u8]]));
        es.push(e);
    }
    assert!(w.despawn(es[0]));
    for i in 1..4usize {
        assert_eq!(w.get(es[i], a, None), Some(&(i as u32).to_le_bytes().to_vec()));
        assert_eq!(w.get(es[i], s, None), Some(&vec![i as u8]));
    }
}

#[test]
fn relation_insert_refused_for_unknown_kind_or_stale_entity() {
    let mut w = World::new();
    let p = w.spawn().unwrap();
    let c = w.spawn().unwrap();
    assert!(!w.insert_relation(c, ComponentId(5), p, vec![1]));
    let k = w.new_relationship_kind(Some(70));
    let rel = w.register_relation(k, 71, desc("R", StorageType::Table, 71, 1));
    assert!(w.despawn(c));
    assert!(!w.insert_relation(c, rel, p, vec![1]));
    assert_eq!(w.remove_relation(p, rel, c), None);
}
