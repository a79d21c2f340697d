use vstd::prelude::*;

use crate::archetype::{AddBundle, ArchetypeId, Archetypes, ComponentStatus};
use crate::bundle::{tokens_distinct, BundleId, Bundles};
use crate::component::{ComponentDescriptor, ComponentId, ComponentTicks, Components, RelationshipKindId, StorageType};
use crate::entity::{Entities, Entity, EntityLocation};
use crate::sorted::{insert_sorted, is_sorted, sorted_remove};
use crate::sparse_set::SparseSets;
use crate::entity_ref::EntityRef;
use crate::table::{slots_contain as slots_contain_exec, Slot, TableId, Tables};

verus! {

/// An entity taken out of its archetype whose table row is still in place: the state in the
/// middle of a move.
pub ghost struct Detached {
    pub entity: Entity,
    pub table: int,
    pub row: int,
}

/// A copy of a byte vector.
pub fn copy_bytes(v: &Vec<u8>) -> (r: Vec<u8>)
    ensures
        r@ == v@,
{
    let mut r: Vec<u8> = Vec::new();
    let mut i: usize = 0;
    while i < v.len()
        invariant
            i <= v.len(),
            r@ == v@.take(i as int),
        decreases v.len() - i,
    {
        r.push(v[i]);
        assert(v@.take(i + 1) =~= v@.take(i as int).push(v@[i as int]));
        i = i + 1;
    }
    assert(v@.take(i as int) =~= v@);
    r
}

/// The log entries of `e` losing each of `slots`, in order.
pub open spec fn removal_log(slots: Seq<Slot>, e: Entity) -> Seq<(Slot, Entity)> {
    slots.map_values(|s: Slot| (s, e))
}

/// An archetype index as an archetype id.
pub open spec fn as_archetype_id(r: Option<usize>) -> Option<ArchetypeId> {
    match r {
        Some(d) => Some(ArchetypeId(d)),
        None => None,
    }
}

/// The storage core: entities, the registries, archetypes, tables and sparse sets, and the log
/// of removed slots.
pub struct World {
    pub entities: Entities,
    pub components: Components,
    pub archetypes: Archetypes,
    pub tables: Tables,
    pub sparse_sets: SparseSets,
    pub bundles: Bundles,
    pub removed_components: Vec<(Slot, Entity)>,
    pub change_tick: u32,
    pub last_change_tick: u32,
}

impl World {
    pub open spec fn num_archetypes(&self) -> int {
        self.archetypes.archetypes.len() as int
    }

    pub open spec fn arch_table(&self, a: int) -> int {
        self.archetypes.archetypes[a].table_id.0 as int
    }

    /// The sub-structures are well formed, and each archetype agrees with its table, with the
    /// registry and with the sparse sets.
    #[verifier::opaque]
    pub open spec fn wf_layout(&self) -> bool {
        &&& self.entities.wf()
        &&& self.components.wf()
        &&& self.archetypes.wf()
        &&& self.tables.wf()
        &&& self.sparse_sets.wf()
        &&& self.bundles.wf(&self.components)
        &&& self.wf_edges()
        &&& forall|a: int| 0 <= a < self.num_archetypes() ==> {
            &&& (#[trigger] self.archetypes.archetypes[a]).table_id.0 < self.tables.tables.len()
            &&& self.tables.tables[self.archetypes.archetypes[a].table_id.0 as int].slots()
                == self.archetypes.archetypes[a].table_components@
            &&& is_sorted(self.archetypes.archetypes[a].table_components@)
            &&& is_sorted(self.archetypes.archetypes[a].sparse_set_components@)
        }
        &&& forall|a: int, k: int| 0 <= a < self.num_archetypes() && 0 <= k < self.archetypes.archetypes[a].table_components.len() ==> {
            &&& self.components.contains_id((#[trigger] self.archetypes.archetypes[a].table_components[k]).kind)
            &&& self.components.storage_type_of(self.archetypes.archetypes[a].table_components[k].kind) == StorageType::Table
        }
        &&& forall|a: int, k: int| 0 <= a < self.num_archetypes() && 0 <= k < self.archetypes.archetypes[a].sparse_set_components.len() ==> {
            &&& self.components.contains_id((#[trigger] self.archetypes.archetypes[a].sparse_set_components[k]).kind)
            &&& self.components.storage_type_of(self.archetypes.archetypes[a].sparse_set_components[k].kind) == StorageType::SparseSet
            &&& self.sparse_sets.has_set(self.archetypes.archetypes[a].sparse_set_components[k])
        }
    }

    /// The position of the sparse set of slot `s`.
    pub open spec fn set_index(&self, s: Slot) -> int {
        choose|k: int| 0 <= k < self.sparse_sets.sets.len() && (#[trigger] self.sparse_sets.sets[k]).slot == s
    }

    /// The entity bookkeeping agrees everywhere, except for a detached entity when there is one:
    /// - every live entity stands where its location says, in an archetype entry that names it;
    /// - every archetype entry holds a live entity whose location points back at it;
    /// - every archetype entry's table row holds the same entity;
    /// - every table row is reached from exactly the archetype entry of its entity;
    /// - every entity is in the sparse set of each sparse-set slot of its archetype.
    #[verifier::opaque]
    pub open spec fn wf_entities(&self, det: Option<Detached>) -> bool {
        &&& self.archetypes.archetypes.len() >= 2
        &&& self.archetypes.archetypes[1].entities.len() == 0
        &&& forall|id: int| 0 <= id < self.entities.meta.len() && (#[trigger] self.entities.meta[id]).location is Some
            && !(det matches Some(d) && d.entity.id == id) ==> {
                let loc = self.entities.meta[id].location.unwrap();
                &&& loc.archetype_id.0 < self.num_archetypes()
                &&& loc.index < self.archetypes.archetypes[loc.archetype_id.0 as int].entities.len()
                &&& self.archetypes.archetypes[loc.archetype_id.0 as int].entities[loc.index as int]
                    == (Entity { id: id as u32, generation: self.entities.meta[id].generation })
            }
        &&& forall|a: int, i: int| 0 <= a < self.num_archetypes() && 0 <= i < self.archetypes.archetypes[a].entities.len() ==> {
            let e = #[trigger] self.archetypes.archetypes[a].entities[i];
            &&& self.entities.is_live(e)
            &&& self.entities.location_of(e) == (EntityLocation { archetype_id: ArchetypeId(a as usize), index: i as usize })
            &&& !(det matches Some(d) && d.entity == e)
            &&& self.archetypes.archetypes[a].entity_rows[i] < self.tables.tables[self.arch_table(a)].entities.len()
            &&& self.tables.tables[self.arch_table(a)].entities[self.archetypes.archetypes[a].entity_rows[i] as int] == e
            &&& forall|k: int| 0 <= k < self.archetypes.archetypes[a].sparse_set_components.len() ==>
                self.sparse_sets.sets[self.set_index(#[trigger] self.archetypes.archetypes[a].sparse_set_components[k])].contains(e)
        }
        &&& forall|t: int, r: int| 0 <= t < self.tables.tables.len() && 0 <= r < self.tables.tables[t].entities.len()
            && !(det matches Some(d) && d.table == t && d.row == r) ==> {
                let e = #[trigger] self.tables.tables[t].entities[r];
                let loc = self.entities.location_of(e);
                &&& self.entities.is_live(e)
                &&& !(det matches Some(d) && d.entity == e)
                &&& loc.archetype_id.0 < self.num_archetypes()
                &&& loc.index < self.archetypes.archetypes[loc.archetype_id.0 as int].entities.len()
                &&& self.arch_table(loc.archetype_id.0 as int) == t
                &&& self.archetypes.archetypes[loc.archetype_id.0 as int].entity_rows[loc.index as int] == r
            }
        &&& det matches Some(d) ==> {
            &&& self.entities.is_live(d.entity)
            &&& 0 <= d.table < self.tables.tables.len()
            &&& 0 <= d.row < self.tables.tables[d.table].entities.len()
            &&& self.tables.tables[d.table].entities[d.row] == d.entity
        }
    }

    pub open spec fn wf(&self) -> bool {
        &&& self.wf_layout()
        &&& self.wf_entities(None)
    }

    pub open spec fn table_set(&self, a: int) -> Set<Slot> {
        self.archetypes.archetypes[a].table_components@.to_set()
    }

    pub open spec fn sparse_set_set(&self, a: int) -> Set<Slot> {
        self.archetypes.archetypes[a].sparse_set_components@.to_set()
    }

    /// The slots of archetype `a`.
    pub open spec fn slot_set(&self, a: int) -> Set<Slot> {
        self.table_set(a) + self.sparse_set_set(a)
    }

    pub open spec fn bundle_slots(&self, b: BundleId) -> Set<Slot> {
        self.bundles.info(b).relation_ids@.to_set()
    }

    /// The slots of `s` whose kind is kept in storage `st`.
    pub open spec fn of_storage(&self, s: Set<Slot>, st: StorageType) -> Set<Slot> {
        s.filter(|x: Slot| self.components.storage_type_of(x.kind) == st)
    }

    /// Archetype `d` has the slots of `a` and those of bundle `b`, each under its storage class.
    pub open spec fn is_add_result(&self, a: int, b: BundleId, d: int) -> bool {
        &&& self.table_set(d) == self.table_set(a) + self.of_storage(self.bundle_slots(b), StorageType::Table)
        &&& self.sparse_set_set(d) == self.sparse_set_set(a) + self.of_storage(self.bundle_slots(b), StorageType::SparseSet)
    }

    /// Archetype `d` has the slots of `a` but those of bundle `b`.
    pub open spec fn is_remove_result(&self, a: int, b: BundleId, d: int) -> bool {
        &&& self.table_set(d) == self.table_set(a) - self.bundle_slots(b)
        &&& self.sparse_set_set(d) == self.sparse_set_set(a) - self.bundle_slots(b)
    }

    /// `status` gives, for each slot of bundle `b` in order, whether archetype `a` already has it.
    pub open spec fn status_ok(&self, a: int, b: BundleId, status: Seq<ComponentStatus>) -> bool {
        &&& status.len() == self.bundles.info(b).relation_ids.len()
        &&& forall|k: int| 0 <= k < status.len() ==> #[trigger] status[k] == (if self.archetypes.archetypes[a].has_slot(
            self.bundles.info(b).relation_ids[k]) { ComponentStatus::Mutated } else { ComponentStatus::Added })
    }

    proof fn lemma_status_same(&self, o: &World, a: int, b: BundleId, status: Seq<ComponentStatus>)
        requires
            o.status_ok(a, b, status),
            self.bundles.info(b) == o.bundles.info(b),
            self.archetypes.archetypes[a].same_layout(&o.archetypes.archetypes[a]),
        ensures
            self.status_ok(a, b, status),
    {
        assert forall|k: int| 0 <= k < status.len() implies #[trigger] status[k] == (if self.archetypes.archetypes[a].has_slot(
            self.bundles.info(b).relation_ids[k]) { ComponentStatus::Mutated } else { ComponentStatus::Added }) by {
            assert(o.archetypes.archetypes[a].has_slot(o.bundles.info(b).relation_ids[k])
                == self.archetypes.archetypes[a].has_slot(self.bundles.info(b).relation_ids[k]));
        }
    }

    /// Every cached transition leads where the transition's definition says.
    #[verifier::opaque]
    pub open spec fn wf_edges(&self) -> bool {
        &&& forall|a: int, b: BundleId| 0 <= a < self.num_archetypes()
            && (#[trigger] self.archetypes.archetypes[a].edges.add_edge(b)) is Some ==> {
                let ab = self.archetypes.archetypes[a].edges.add_edge(b).unwrap();
                &&& self.bundles.contains_id(b)
                &&& ab.archetype_id.0 < self.num_archetypes()
                &&& ab.archetype_id.0 != 1
                &&& self.is_add_result(a, b, ab.archetype_id.0 as int)
                &&& self.status_ok(a, b, ab.bundle_status@)
            }
        &&& forall|a: int, b: BundleId| 0 <= a < self.num_archetypes()
            && (#[trigger] self.archetypes.archetypes[a].edges.remove_edge(b)) is Some ==> {
                let r = self.archetypes.archetypes[a].edges.remove_edge(b).unwrap();
                &&& self.bundles.contains_id(b)
                &&& (r is Some <==> self.bundle_slots(b).subset_of(self.slot_set(a)))
                &&& (r matches Some(d) ==> d.0 < self.num_archetypes() && d.0 != 1 && self.is_remove_result(a, b, d.0 as int))
            }
        &&& forall|a: int, b: BundleId| 0 <= a < self.num_archetypes()
            && (#[trigger] self.archetypes.archetypes[a].edges.remove_intersection_edge(b)) is Some ==> {
                let r = self.archetypes.archetypes[a].edges.remove_intersection_edge(b).unwrap();
                &&& self.bundles.contains_id(b)
                &&& r matches Some(d) && d.0 < self.num_archetypes() && d.0 != 1 && self.is_remove_result(a, b, d.0 as int)
            }
    }

    /// The cached transitions stay valid when no archetype's slots or edges, no bundle and no
    /// registered kind changes.
    #[verifier::spinoff_prover]
    proof fn lemma_edges_kept(&self, o: &World)
        requires
            o.wf_edges(),
            self.archetypes.archetypes.len() >= o.archetypes.archetypes.len(),
            forall|a: int| 0 <= a < o.num_archetypes() ==> (#[trigger] self.archetypes.archetypes[a]).same_layout(&o.archetypes.archetypes[a])
                && self.archetypes.archetypes[a].edges == o.archetypes.archetypes[a].edges,
            forall|a: int, b: BundleId| o.num_archetypes() <= a < self.num_archetypes() ==>
                (#[trigger] self.archetypes.archetypes[a].edges.add_edge(b)) is None,
            forall|a: int, b: BundleId| o.num_archetypes() <= a < self.num_archetypes() ==>
                (#[trigger] self.archetypes.archetypes[a].edges.remove_edge(b)) is None,
            forall|a: int, b: BundleId| o.num_archetypes() <= a < self.num_archetypes() ==>
                (#[trigger] self.archetypes.archetypes[a].edges.remove_intersection_edge(b)) is None,
            self.bundles == o.bundles,
            self.components == o.components,
        ensures
            self.wf_edges(),
    {
        reveal(World::wf_layout); reveal(World::wf_entities); reveal(World::wf_edges);
        assert forall|a: int| 0 <= a < o.num_archetypes() implies self.table_set(a) == o.table_set(a)
            && self.sparse_set_set(a) == o.sparse_set_set(a) && self.slot_set(a) == o.slot_set(a) by {
            assert(self.archetypes.archetypes[a].same_layout(&o.archetypes.archetypes[a]));
        }
        assert forall|a: int, b: BundleId| 0 <= a < self.num_archetypes()
            && (#[trigger] self.archetypes.archetypes[a].edges.add_edge(b)) is Some implies {
                let ab = self.archetypes.archetypes[a].edges.add_edge(b).unwrap();
                &&& self.bundles.contains_id(b)
                &&& ab.archetype_id.0 < self.num_archetypes()
                &&& ab.archetype_id.0 != 1
                &&& self.is_add_result(a, b, ab.archetype_id.0 as int)
                &&& self.status_ok(a, b, ab.bundle_status@)
            } by {
            if a < o.num_archetypes() {
                assert(self.archetypes.archetypes[a].edges == o.archetypes.archetypes[a].edges);
                assert(o.archetypes.archetypes[a].edges.add_edge(b) is Some);
                let d = o.archetypes.archetypes[a].edges.add_edge(b).unwrap().archetype_id.0 as int;
                self.lemma_status_same(o, a, b, o.archetypes.archetypes[a].edges.add_edge(b).unwrap().bundle_status@);
                assert(self.archetypes.archetypes[d].same_layout(&o.archetypes.archetypes[d]));
                assert(self.table_set(d) == o.table_set(d));
                assert(self.sparse_set_set(d) == o.sparse_set_set(d));
            }
        }
        assert forall|a: int, b: BundleId| 0 <= a < self.num_archetypes()
            && (#[trigger] self.archetypes.archetypes[a].edges.remove_edge(b)) is Some implies {
                let r = self.archetypes.archetypes[a].edges.remove_edge(b).unwrap();
                &&& self.bundles.contains_id(b)
                &&& (r is Some <==> self.bundle_slots(b).subset_of(self.slot_set(a)))
                &&& (r matches Some(d) ==> d.0 < self.num_archetypes() && d.0 != 1 && self.is_remove_result(a, b, d.0 as int))
            } by {
            if a < o.num_archetypes() {
                assert(self.archetypes.archetypes[a].edges == o.archetypes.archetypes[a].edges);
                assert(o.archetypes.archetypes[a].edges.remove_edge(b) is Some);
                assert(self.archetypes.archetypes[a].same_layout(&o.archetypes.archetypes[a]));
                assert(self.table_set(a) == o.table_set(a));
                assert(self.sparse_set_set(a) == o.sparse_set_set(a));
                assert(self.slot_set(a) == o.slot_set(a));
                let r = o.archetypes.archetypes[a].edges.remove_edge(b).unwrap();
                if r is Some {
                    let d = r.unwrap().0 as int;
                    assert(self.archetypes.archetypes[d].same_layout(&o.archetypes.archetypes[d]));
                    assert(self.table_set(d) == o.table_set(d));
                    assert(self.sparse_set_set(d) == o.sparse_set_set(d));
                }
            }
        }
        assert forall|a: int, b: BundleId| 0 <= a < self.num_archetypes()
            && (#[trigger] self.archetypes.archetypes[a].edges.remove_intersection_edge(b)) is Some implies {
                let r = self.archetypes.archetypes[a].edges.remove_intersection_edge(b).unwrap();
                &&& self.bundles.contains_id(b)
                &&& r matches Some(d) && d.0 < self.num_archetypes() && d.0 != 1 && self.is_remove_result(a, b, d.0 as int)
            } by {
            if a < o.num_archetypes() {
                assert(self.archetypes.archetypes[a].edges == o.archetypes.archetypes[a].edges);
                assert(o.archetypes.archetypes[a].edges.remove_intersection_edge(b) is Some);
                assert(self.archetypes.archetypes[a].same_layout(&o.archetypes.archetypes[a]));
                assert(self.table_set(a) == o.table_set(a));
                assert(self.sparse_set_set(a) == o.sparse_set_set(a));
                assert(self.slot_set(a) == o.slot_set(a));
                let r = o.archetypes.archetypes[a].edges.remove_intersection_edge(b).unwrap();
                if r is Some {
                    let d = r.unwrap().0 as int;
                    assert(self.archetypes.archetypes[d].same_layout(&o.archetypes.archetypes[d]));
                    assert(self.table_set(d) == o.table_set(d));
                    assert(self.sparse_set_set(d) == o.sparse_set_set(d));
                }
            }
        }
    }

    /// Everything but the archetypes' entity lists and the entities' locations is as in `old`.
    pub open spec fn same_storage(&self, old: &World) -> bool {
        &&& self.components == old.components
        &&& self.tables == old.tables
        &&& self.sparse_sets == old.sparse_sets
        &&& self.bundles == old.bundles
        &&& self.removed_components == old.removed_components
        &&& self.change_tick == old.change_tick
        &&& self.last_change_tick == old.last_change_tick
    }

    /// Takes a live entity out of its archetype, leaving its table row in place. Returns that row.
    #[verifier::spinoff_prover]
    fn detach(&mut self, e: Entity, loc: EntityLocation) -> (row: usize)
        requires
            old(self).wf(),
            old(self).entities.is_live(e),
            loc == old(self).entities.location_of(e),
        ensures
            final(self).wf_layout(),
            final(self).wf_entities(Some(Detached { entity: e, table: old(self).arch_table(loc.archetype_id.0 as int), row: row as int })),
            row == old(self).archetypes.archetypes[loc.archetype_id.0 as int].entity_rows[loc.index as int],
            final(self).same_storage(old(self)),
            final(self).archetypes.archetypes.len() == old(self).archetypes.archetypes.len(),
            final(self).archetypes.archetype_component_count == old(self).archetypes.archetype_component_count,
            forall|a: int| 0 <= a < final(self).num_archetypes() ==> (#[trigger] final(self).archetypes.archetypes[a]).same_layout(&old(self).archetypes.archetypes[a])
                && final(self).archetypes.archetypes[a].edges == old(self).archetypes.archetypes[a].edges,
            forall|a: int| 0 <= a < final(self).num_archetypes() && a != loc.archetype_id.0 ==> #[trigger] final(self).archetypes.archetypes[a] == old(self).archetypes.archetypes[a],
            final(self).archetypes.archetypes[loc.archetype_id.0 as int].entities@
                == old(self).archetypes.archetypes[loc.archetype_id.0 as int].entities@.update(loc.index as int,
                    old(self).archetypes.archetypes[loc.archetype_id.0 as int].entities@.last()).drop_last(),
            final(self).entities.meta.len() == old(self).entities.meta.len(),
            final(self).entities.meta[e.id as int] == old(self).entities.meta[e.id as int],
            forall|i: int| 0 <= i < final(self).entities.meta.len() && (#[trigger] old(self).entities.meta[i]).location is Some ==>
                final(self).entities.meta[i].location is Some
                && final(self).entities.meta[i].location.unwrap().archetype_id == old(self).entities.meta[i].location.unwrap().archetype_id,
            forall|x: Entity| old(self).entities.is_live(x) ==> #[trigger] final(self).entities.is_live(x),
            forall|x: Entity| #[trigger] final(self).entities.is_live(x) ==> old(self).entities.is_live(x),
            final(self).entities.free_list@ == old(self).entities.free_list@,
            forall|x: Entity| x != e && old(self).entities.is_live(x) ==> #[trigger] final(self).row_of(x) == old(self).row_of(x)
                && final(self).entities.location_of(x).archetype_id == old(self).entities.location_of(x).archetype_id,
            forall|i: int| 0 <= i < final(self).entities.meta.len() ==>
                (#[trigger] final(self).entities.meta[i]).generation == old(self).entities.meta[i].generation,
    {
        proof { reveal(World::wf_layout); reveal(World::wf_entities); reveal(World::wf_edges); }
        let a = loc.archetype_id.0;
        let ghost o = *old(self);
        let ghost oa = o.archetypes.archetypes[a as int];
        let ghost last = oa.entities.len() - 1;
        let ghost m = oa.entities@.last();
        proof {
            assert(oa.entities[loc.index as int] == e);
            assert(o.entities.is_live(m));
        }
        let result = self.archetypes.archetypes[a].swap_remove(loc.index);
        if let Some(moved) = result.swapped_entity {
            self.entities.set_location(moved, loc);
        }
        let ghost t_a = o.arch_table(a as int);
        let ghost d = Detached { entity: e, table: t_a, row: result.table_row as int };
        proof {
            self.lemma_edges_kept(&o);
            let n = self.archetypes;
            assert forall|x: int| 0 <= x < n.archetypes.len() implies (#[trigger] n.archetypes[x]).wf()
                && n.archetypes[x].id == ArchetypeId(x as usize) by {
                if x != a { assert(n.archetypes[x] == o.archetypes.archetypes[x]); }
            }
            assert forall|x: int, y: int| 0 <= x < n.archetypes.len() && 0 <= y < n.archetypes.len() && x != 1 && y != 1 && x != y
                implies !Archetypes::same_identity(#[trigger] n.archetypes[x], #[trigger] n.archetypes[y]) by {
                assert(!Archetypes::same_identity(o.archetypes.archetypes[x], o.archetypes.archetypes[y]));
            }
            assert(self.archetypes.wf());
            assert forall|x: int| 0 <= x < self.num_archetypes() implies {
                &&& (#[trigger] self.archetypes.archetypes[x]).table_id.0 < self.tables.tables.len()
                &&& self.tables.tables[self.archetypes.archetypes[x].table_id.0 as int].slots()
                    == self.archetypes.archetypes[x].table_components@
                &&& is_sorted(self.archetypes.archetypes[x].table_components@)
                &&& is_sorted(self.archetypes.archetypes[x].sparse_set_components@)
            } by {
                assert(self.archetypes.archetypes[x].same_layout(&o.archetypes.archetypes[x]));
            }
            assert forall|x: int, k: int| 0 <= x < self.num_archetypes() && 0 <= k < self.archetypes.archetypes[x].table_components.len() implies {
                &&& self.components.contains_id((#[trigger] self.archetypes.archetypes[x].table_components[k]).kind)
                &&& self.components.storage_type_of(self.archetypes.archetypes[x].table_components[k].kind) == StorageType::Table
            } by {
                assert(self.archetypes.archetypes[x].table_components@ == o.archetypes.archetypes[x].table_components@);
                assert(o.archetypes.archetypes[x].table_components[k] == self.archetypes.archetypes[x].table_components[k]);
            }
            assert forall|x: int, k: int| 0 <= x < self.num_archetypes() && 0 <= k < self.archetypes.archetypes[x].sparse_set_components.len() implies {
                &&& self.components.contains_id((#[trigger] self.archetypes.archetypes[x].sparse_set_components[k]).kind)
                &&& self.components.storage_type_of(self.archetypes.archetypes[x].sparse_set_components[k].kind) == StorageType::SparseSet
                &&& self.sparse_sets.has_set(self.archetypes.archetypes[x].sparse_set_components[k])
            } by {
                assert(self.archetypes.archetypes[x].sparse_set_components@ == o.archetypes.archetypes[x].sparse_set_components@);
                assert(o.archetypes.archetypes[x].sparse_set_components[k] == self.archetypes.archetypes[x].sparse_set_components[k]);
            }
            assert forall|x: Entity| o.entities.is_live(x) implies #[trigger] self.entities.is_live(x) by {
                if x.id == m.id && last != loc.index {
                    assert(x == m);
                }
            }
            // locations of live ids
            assert forall|id: int| 0 <= id < self.entities.meta.len() && (#[trigger] self.entities.meta[id]).location is Some
                && !(Some(d) matches Some(dd) && dd.entity.id == id) implies {
                    let l = self.entities.meta[id].location.unwrap();
                    &&& l.archetype_id.0 < self.num_archetypes()
                    &&& l.index < self.archetypes.archetypes[l.archetype_id.0 as int].entities.len()
                    &&& self.archetypes.archetypes[l.archetype_id.0 as int].entities[l.index as int]
                        == (Entity { id: id as u32, generation: self.entities.meta[id].generation })
                } by {
                if last != loc.index && id == m.id {
                } else {
                    assert(self.entities.meta[id] == o.entities.meta[id]);
                    let l = o.entities.meta[id].location.unwrap();
                    if l.archetype_id.0 == a {
                        let x = o.archetypes.archetypes[a as int].entities[l.index as int];
                        assert(o.entities.location_of(x) == l);
                        if l.index == last {
                            assert(x == m);
                        }
                    }
                }
            }
            assert forall|x: int, i: int| 0 <= x < self.num_archetypes() && 0 <= i < self.archetypes.archetypes[x].entities.len() implies {
                let y = #[trigger] self.archetypes.archetypes[x].entities[i];
                &&& self.entities.is_live(y)
                &&& self.entities.location_of(y) == (EntityLocation { archetype_id: ArchetypeId(x as usize), index: i as usize })
                &&& !(Some(d) matches Some(dd) && dd.entity == y)
                &&& self.archetypes.archetypes[x].entity_rows[i] < self.tables.tables[self.arch_table(x)].entities.len()
                &&& self.tables.tables[self.arch_table(x)].entities[self.archetypes.archetypes[x].entity_rows[i] as int] == y
                &&& forall|k: int| 0 <= k < self.archetypes.archetypes[x].sparse_set_components.len() ==>
                    self.sparse_sets.sets[self.set_index(#[trigger] self.archetypes.archetypes[x].sparse_set_components[k])].contains(y)
            } by {
                let j = if x == a && i == loc.index { last } else { i };
                let y = o.archetypes.archetypes[x].entities[j];
                assert(self.archetypes.archetypes[x].entities[i] == y);
                assert(self.archetypes.archetypes[x].entity_rows[i] == o.archetypes.archetypes[x].entity_rows[j]);
                assert(o.entities.location_of(y) == (EntityLocation { archetype_id: ArchetypeId(x as usize), index: j as usize }));
                assert(self.archetypes.archetypes[x].sparse_set_components@ == o.archetypes.archetypes[x].sparse_set_components@);
                assert forall|k: int| 0 <= k < self.archetypes.archetypes[x].sparse_set_components.len() implies
                    self.sparse_sets.sets[self.set_index(#[trigger] self.archetypes.archetypes[x].sparse_set_components[k])].contains(y) by {
                    assert(o.archetypes.archetypes[x].sparse_set_components[k] == self.archetypes.archetypes[x].sparse_set_components[k]);
                }
            }
            assert forall|t: int, r: int| 0 <= t < self.tables.tables.len() && 0 <= r < self.tables.tables[t].entities.len()
                && !(Some(d) matches Some(dd) && dd.table == t && dd.row == r) implies {
                    let y = #[trigger] self.tables.tables[t].entities[r];
                    let l = self.entities.location_of(y);
                    &&& self.entities.is_live(y)
                    &&& !(Some(d) matches Some(dd) && dd.entity == y)
                    &&& l.archetype_id.0 < self.num_archetypes()
                    &&& l.index < self.archetypes.archetypes[l.archetype_id.0 as int].entities.len()
                    &&& self.arch_table(l.archetype_id.0 as int) == t
                    &&& self.archetypes.archetypes[l.archetype_id.0 as int].entity_rows[l.index as int] == r
                } by {
                let y = o.tables.tables[t].entities[r];
                let l = o.entities.location_of(y);
                if y == e {
                    assert(l == loc);
                }
                if l.archetype_id.0 == a && l.index == last {
                    assert(y == m);
                }
            }
        }
        proof {
            assert forall|x: Entity| x != e && o.entities.is_live(x) implies #[trigger] self.row_of(x) == o.row_of(x)
                && self.entities.location_of(x).archetype_id == o.entities.location_of(x).archetype_id by {
                let l = o.entities.location_of(x);
                assert(o.entities.meta[x.id as int].location is Some);
                assert(o.archetypes.archetypes[l.archetype_id.0 as int].entities[l.index as int] == x);
                if x == m && last != loc.index {
                    assert(o.entities.location_of(m) == (EntityLocation { archetype_id: ArchetypeId(a), index: last as usize }));
                } else {
                    assert(x.id != e.id);
                    if x.id == m.id && last != loc.index { assert(x == m); }
                    assert(self.entities.meta[x.id as int] == o.entities.meta[x.id as int]);
                    if l.archetype_id.0 == a {
                        assert(l.index != loc.index);
                        if l.index == last { assert(x == m); }
                    }
                }
            }
        }
        result.table_row
    }

    /// Puts a detached entity into archetype `a`, whose table holds its row.
    #[verifier::spinoff_prover]
    fn attach(&mut self, e: Entity, a: usize, row: usize) -> (loc: EntityLocation)
        requires
            old(self).wf_layout(),
            a < old(self).num_archetypes(),
            a != 1,
            old(self).wf_entities(Some(Detached { entity: e, table: old(self).arch_table(a as int), row: row as int })),
            forall|k: int| 0 <= k < old(self).archetypes.archetypes[a as int].sparse_set_components.len() ==>
                old(self).sparse_sets.sets[old(self).set_index(#[trigger] old(self).archetypes.archetypes[a as int].sparse_set_components[k])].contains(e),
        ensures
            final(self).wf(),
            loc == (EntityLocation { archetype_id: ArchetypeId(a), index: old(self).archetypes.archetypes[a as int].entities.len() as usize }),
            final(self).entities.is_live(e),
            final(self).entities.location_of(e) == loc,
            final(self).row_of(e) == row,
            final(self).same_storage(old(self)),
            final(self).archetypes.archetypes.len() == old(self).archetypes.archetypes.len(),
            final(self).archetypes.archetype_component_count == old(self).archetypes.archetype_component_count,
            forall|x: int| 0 <= x < final(self).num_archetypes() ==> (#[trigger] final(self).archetypes.archetypes[x]).same_layout(&old(self).archetypes.archetypes[x])
                && final(self).archetypes.archetypes[x].edges == old(self).archetypes.archetypes[x].edges,
            forall|x: int| 0 <= x < final(self).num_archetypes() && x != a ==> #[trigger] final(self).archetypes.archetypes[x] == old(self).archetypes.archetypes[x],
            final(self).archetypes.archetypes[a as int].entities@ == old(self).archetypes.archetypes[a as int].entities@.push(e),
            final(self).archetypes.archetypes[a as int].entity_rows@ == old(self).archetypes.archetypes[a as int].entity_rows@.push(row),
            forall|x: Entity| #[trigger] final(self).entities.is_live(x) == old(self).entities.is_live(x),
            forall|x: Entity| x.id != e.id && x.id < old(self).entities.meta.len() ==> #[trigger] final(self).entities.location_of(x) == old(self).entities.location_of(x),
            final(self).entities.meta.len() == old(self).entities.meta.len(),
            final(self).entities.free_list@ == old(self).entities.free_list@,
            forall|i: int| 0 <= i < final(self).entities.meta.len() ==>
                (#[trigger] final(self).entities.meta[i]).generation == old(self).entities.meta[i].generation,
    {
        proof { reveal(World::wf_layout); reveal(World::wf_entities); reveal(World::wf_edges); }
        let ghost o = *old(self);
        let loc = self.archetypes.archetypes[a].allocate(e, row);
        self.entities.set_location(e, loc);
        proof {
            self.lemma_edges_kept(&o);
            let n = self.archetypes;
            assert forall|x: int| 0 <= x < n.archetypes.len() implies (#[trigger] n.archetypes[x]).wf()
                && n.archetypes[x].id == ArchetypeId(x as usize) by {
                if x != a { assert(n.archetypes[x] == o.archetypes.archetypes[x]); }
            }
            assert forall|x: int, y: int| 0 <= x < n.archetypes.len() && 0 <= y < n.archetypes.len() && x != 1 && y != 1 && x != y
                implies !Archetypes::same_identity(#[trigger] n.archetypes[x], #[trigger] n.archetypes[y]) by {
                assert(!Archetypes::same_identity(o.archetypes.archetypes[x], o.archetypes.archetypes[y]));
            }
            assert forall|x: int| 0 <= x < self.num_archetypes() implies {
                &&& (#[trigger] self.archetypes.archetypes[x]).table_id.0 < self.tables.tables.len()
                &&& self.tables.tables[self.archetypes.archetypes[x].table_id.0 as int].slots()
                    == self.archetypes.archetypes[x].table_components@
                &&& is_sorted(self.archetypes.archetypes[x].table_components@)
                &&& is_sorted(self.archetypes.archetypes[x].sparse_set_components@)
            } by {
                assert(self.archetypes.archetypes[x].same_layout(&o.archetypes.archetypes[x]));
            }
            assert forall|x: int, k: int| 0 <= x < self.num_archetypes() && 0 <= k < self.archetypes.archetypes[x].table_components.len() implies {
                &&& self.components.contains_id((#[trigger] self.archetypes.archetypes[x].table_components[k]).kind)
                &&& self.components.storage_type_of(self.archetypes.archetypes[x].table_components[k].kind) == StorageType::Table
            } by {
                assert(o.archetypes.archetypes[x].table_components[k] == self.archetypes.archetypes[x].table_components[k]);
            }
            assert forall|x: int, k: int| 0 <= x < self.num_archetypes() && 0 <= k < self.archetypes.archetypes[x].sparse_set_components.len() implies {
                &&& self.components.contains_id((#[trigger] self.archetypes.archetypes[x].sparse_set_components[k]).kind)
                &&& self.components.storage_type_of(self.archetypes.archetypes[x].sparse_set_components[k].kind) == StorageType::SparseSet
                &&& self.sparse_sets.has_set(self.archetypes.archetypes[x].sparse_set_components[k])
            } by {
                assert(o.archetypes.archetypes[x].sparse_set_components[k] == self.archetypes.archetypes[x].sparse_set_components[k]);
            }
            assert forall|id: int| 0 <= id < self.entities.meta.len() && (#[trigger] self.entities.meta[id]).location is Some implies {
                    let l = self.entities.meta[id].location.unwrap();
                    &&& l.archetype_id.0 < self.num_archetypes()
                    &&& l.index < self.archetypes.archetypes[l.archetype_id.0 as int].entities.len()
                    &&& self.archetypes.archetypes[l.archetype_id.0 as int].entities[l.index as int]
                        == (Entity { id: id as u32, generation: self.entities.meta[id].generation })
                } by {
                if id != e.id {
                    assert(self.entities.meta[id] == o.entities.meta[id]);
                }
            }
            assert forall|x: int, i: int| 0 <= x < self.num_archetypes() && 0 <= i < self.archetypes.archetypes[x].entities.len() implies {
                let y = #[trigger] self.archetypes.archetypes[x].entities[i];
                &&& self.entities.is_live(y)
                &&& self.entities.location_of(y) == (EntityLocation { archetype_id: ArchetypeId(x as usize), index: i as usize })
                &&& self.archetypes.archetypes[x].entity_rows[i] < self.tables.tables[self.arch_table(x)].entities.len()
                &&& self.tables.tables[self.arch_table(x)].entities[self.archetypes.archetypes[x].entity_rows[i] as int] == y
                &&& forall|k: int| 0 <= k < self.archetypes.archetypes[x].sparse_set_components.len() ==>
                    self.sparse_sets.sets[self.set_index(#[trigger] self.archetypes.archetypes[x].sparse_set_components[k])].contains(y)
            } by {
                assert(self.archetypes.archetypes[x].sparse_set_components@ == o.archetypes.archetypes[x].sparse_set_components@);
                if x == a && i == o.archetypes.archetypes[a as int].entities.len() {
                    assert forall|k: int| 0 <= k < self.archetypes.archetypes[x].sparse_set_components.len() implies
                        self.sparse_sets.sets[self.set_index(#[trigger] self.archetypes.archetypes[x].sparse_set_components[k])].contains(e) by {
                        assert(o.archetypes.archetypes[x].sparse_set_components[k] == self.archetypes.archetypes[x].sparse_set_components[k]);
                    }
                } else {
                    let y = o.archetypes.archetypes[x].entities[i];
                    assert(self.archetypes.archetypes[x].entities[i] == y);
                    assert(self.archetypes.archetypes[x].entity_rows[i] == o.archetypes.archetypes[x].entity_rows[i]);
                    assert(y.id != e.id);
                    assert forall|k: int| 0 <= k < self.archetypes.archetypes[x].sparse_set_components.len() implies
                        self.sparse_sets.sets[self.set_index(#[trigger] self.archetypes.archetypes[x].sparse_set_components[k])].contains(y) by {
                        assert(o.archetypes.archetypes[x].sparse_set_components[k] == self.archetypes.archetypes[x].sparse_set_components[k]);
                    }
                }
            }
            assert forall|t: int, r: int| 0 <= t < self.tables.tables.len() && 0 <= r < self.tables.tables[t].entities.len() implies {
                    let y = #[trigger] self.tables.tables[t].entities[r];
                    let l = self.entities.location_of(y);
                    &&& self.entities.is_live(y)
                    &&& l.archetype_id.0 < self.num_archetypes()
                    &&& l.index < self.archetypes.archetypes[l.archetype_id.0 as int].entities.len()
                    &&& self.arch_table(l.archetype_id.0 as int) == t
                    &&& self.archetypes.archetypes[l.archetype_id.0 as int].entity_rows[l.index as int] == r
                } by {
                let y = o.tables.tables[t].entities[r];
                if !(t == o.arch_table(a as int) && r == row) {
                    assert(y.id != e.id);
                }
            }
            assert(self.wf_entities(None));
        }
        loc
    }

    /// Moves the row of a detached entity from table `t1` to table `t2`.
    #[verifier::spinoff_prover]
    fn move_detached(&mut self, e: Entity, t1: usize, r1: usize, t2: usize) -> (new_row: usize)
        requires
            old(self).wf_layout(),
            old(self).wf_entities(Some(Detached { entity: e, table: t1 as int, row: r1 as int })),
            t1 != t2,
            t2 < old(self).tables.tables.len(),
        ensures
            final(self).wf_layout(),
            final(self).wf_entities(Some(Detached { entity: e, table: t2 as int, row: new_row as int })),
            final(self).tables.tables.len() == old(self).tables.tables.len(),
            final(self).tables.tables[t1 as int].is_swap_removed(&old(self).tables.tables[t1 as int], r1 as int),
            final(self).tables.tables[t2 as int].is_row_received(&old(self).tables.tables[t2 as int], &old(self).tables.tables[t1 as int], r1 as int),
            forall|t: int| 0 <= t < final(self).tables.tables.len() && t != t1 && t != t2 ==> #[trigger] final(self).tables.tables[t] == old(self).tables.tables[t],
            new_row == old(self).tables.tables[t2 as int].entities.len(),
            final(self).entities == old(self).entities,
            final(self).components == old(self).components,
            final(self).sparse_sets == old(self).sparse_sets,
            final(self).bundles == old(self).bundles,
            final(self).removed_components == old(self).removed_components,
            final(self).change_tick == old(self).change_tick,
            final(self).last_change_tick == old(self).last_change_tick,
            final(self).archetypes.archetypes.len() == old(self).archetypes.archetypes.len(),
            final(self).archetypes.archetype_component_count == old(self).archetypes.archetype_component_count,
            forall|x: int| 0 <= x < final(self).num_archetypes() ==> (#[trigger] final(self).archetypes.archetypes[x]).same_layout(&old(self).archetypes.archetypes[x])
                && final(self).archetypes.archetypes[x].edges == old(self).archetypes.archetypes[x].edges
                && final(self).archetypes.archetypes[x].entities@ == old(self).archetypes.archetypes[x].entities@,
    {
        proof { reveal(World::wf_layout); reveal(World::wf_entities); reveal(World::wf_edges); }
        let ghost o = *old(self);
        let ghost last = o.tables.tables[t1 as int].entities.len() - 1;
        let res = self.tables.move_row_between(TableId(t1), TableId(t2), r1);
        let ghost mid = *self;
        let ghost m2 = o.tables.tables[t1 as int].entities@.last();
        let ghost loc2 = o.entities.location_of(m2);
        match res.swapped_entity {
            Some(moved) => {
                proof {
                    assert(o.tables.tables[t1 as int].entities[last] == m2);
                }
                match self.entities.get(moved) {
                    Some(l) => {
                        self.archetypes.archetypes[l.archetype_id.0].set_entity_table_row(l.index, r1);
                    },
                    None => {},
                }
            },
            None => {},
        }
        proof {
            self.lemma_edges_kept(&o);
            let n = self.archetypes;
            assert forall|x: int| 0 <= x < n.archetypes.len() implies (#[trigger] n.archetypes[x]).wf()
                && n.archetypes[x].id == ArchetypeId(x as usize) by {
                assert(n.archetypes[x].same_layout(&o.archetypes.archetypes[x]));
            }
            assert forall|x: int, y: int| 0 <= x < n.archetypes.len() && 0 <= y < n.archetypes.len() && x != 1 && y != 1 && x != y
                implies !Archetypes::same_identity(#[trigger] n.archetypes[x], #[trigger] n.archetypes[y]) by {
                assert(!Archetypes::same_identity(o.archetypes.archetypes[x], o.archetypes.archetypes[y]));
            }
            assert forall|t: int| 0 <= t < self.tables.tables.len() implies (#[trigger] self.tables.tables[t]).slots() == o.tables.tables[t].slots() by {
                assert(self.tables.tables[t].slots() =~= o.tables.tables[t].slots());
            }
            assert forall|x: int| 0 <= x < self.num_archetypes() implies {
                &&& (#[trigger] self.archetypes.archetypes[x]).table_id.0 < self.tables.tables.len()
                &&& self.tables.tables[self.archetypes.archetypes[x].table_id.0 as int].slots()
                    == self.archetypes.archetypes[x].table_components@
                &&& is_sorted(self.archetypes.archetypes[x].table_components@)
                &&& is_sorted(self.archetypes.archetypes[x].sparse_set_components@)
            } by {
                assert(self.archetypes.archetypes[x].same_layout(&o.archetypes.archetypes[x]));
            }
            assert forall|x: int, k: int| 0 <= x < self.num_archetypes() && 0 <= k < self.archetypes.archetypes[x].table_components.len() implies {
                &&& self.components.contains_id((#[trigger] self.archetypes.archetypes[x].table_components[k]).kind)
                &&& self.components.storage_type_of(self.archetypes.archetypes[x].table_components[k].kind) == StorageType::Table
            } by {
                assert(o.archetypes.archetypes[x].table_components[k] == self.archetypes.archetypes[x].table_components[k]);
            }
            assert forall|x: int, k: int| 0 <= x < self.num_archetypes() && 0 <= k < self.archetypes.archetypes[x].sparse_set_components.len() implies {
                &&& self.components.contains_id((#[trigger] self.archetypes.archetypes[x].sparse_set_components[k]).kind)
                &&& self.components.storage_type_of(self.archetypes.archetypes[x].sparse_set_components[k].kind) == StorageType::SparseSet
                &&& self.sparse_sets.has_set(self.archetypes.archetypes[x].sparse_set_components[k])
            } by {
                assert(o.archetypes.archetypes[x].sparse_set_components[k] == self.archetypes.archetypes[x].sparse_set_components[k]);
            }
            let d = Detached { entity: e, table: t2 as int, row: res.new_row as int };
            assert forall|x: int, i: int| 0 <= x < self.num_archetypes() && 0 <= i < self.archetypes.archetypes[x].entities.len() implies {
                let y = #[trigger] self.archetypes.archetypes[x].entities[i];
                &&& self.entities.is_live(y)
                &&& self.entities.location_of(y) == (EntityLocation { archetype_id: ArchetypeId(x as usize), index: i as usize })
                &&& !(Some(d) matches Some(dd) && dd.entity == y)
                &&& self.archetypes.archetypes[x].entity_rows[i] < self.tables.tables[self.arch_table(x)].entities.len()
                &&& self.tables.tables[self.arch_table(x)].entities[self.archetypes.archetypes[x].entity_rows[i] as int] == y
                &&& forall|k: int| 0 <= k < self.archetypes.archetypes[x].sparse_set_components.len() ==>
                    self.sparse_sets.sets[self.set_index(#[trigger] self.archetypes.archetypes[x].sparse_set_components[k])].contains(y)
            } by {
                let y = o.archetypes.archetypes[x].entities[i];
                assert(self.archetypes.archetypes[x].entities[i] == y);
                assert(self.archetypes.archetypes[x].sparse_set_components@ == o.archetypes.archetypes[x].sparse_set_components@);
                assert forall|k: int| 0 <= k < self.archetypes.archetypes[x].sparse_set_components.len() implies
                    self.sparse_sets.sets[self.set_index(#[trigger] self.archetypes.archetypes[x].sparse_set_components[k])].contains(y) by {
                    assert(o.archetypes.archetypes[x].sparse_set_components[k] == self.archetypes.archetypes[x].sparse_set_components[k]);
                }
                let orow = o.archetypes.archetypes[x].entity_rows[i];
                assert(o.tables.tables[o.arch_table(x)].entities[orow as int] == y);
                if o.arch_table(x) == t1 {
                    if orow == last && r1 != last {
                        assert(y == m2);
                        assert(loc2 == (EntityLocation { archetype_id: ArchetypeId(x as usize), index: i as usize }));
                    } else if orow == r1 {
                        assert(y == e);
                    }
                }
                if x == loc2.archetype_id.0 && i == loc2.index && r1 != last {
                    assert(o.tables.tables[t1 as int].entities[last] == m2);
                }
            }
            assert forall|t: int, r: int| 0 <= t < self.tables.tables.len() && 0 <= r < self.tables.tables[t].entities.len()
                && !(Some(d) matches Some(dd) && dd.table == t && dd.row == r) implies {
                    let y = #[trigger] self.tables.tables[t].entities[r];
                    let l = self.entities.location_of(y);
                    &&& self.entities.is_live(y)
                    &&& !(Some(d) matches Some(dd) && dd.entity == y)
                    &&& l.archetype_id.0 < self.num_archetypes()
                    &&& l.index < self.archetypes.archetypes[l.archetype_id.0 as int].entities.len()
                    &&& self.arch_table(l.archetype_id.0 as int) == t
                    &&& self.archetypes.archetypes[l.archetype_id.0 as int].entity_rows[l.index as int] == r
                } by {
                if t == t1 {
                    if r == r1 {
                        assert(self.tables.tables[t].entities[r] == m2) by {
                            assert(self.tables.tables[t].entities[r] == o.tables.tables[t1 as int].entities[last]);
                        };
                        assert(o.tables.tables[t1 as int].entities[last] == m2);
                    } else {
                        assert(self.tables.tables[t].entities[r] == o.tables.tables[t].entities[r]);
                    }
                } else if t == t2 {
                    assert(self.tables.tables[t].entities[r] == o.tables.tables[t].entities[r]);
                } else {
                    assert(self.tables.tables[t] == o.tables.tables[t]);
                }
            }
        }
        res.new_row
    }

    /// Live entity `e` has slot `s`.
    pub open spec fn has(&self, e: Entity, s: Slot) -> bool {
        &&& self.entities.is_live(e)
        &&& self.archetypes.archetypes[self.entities.location_of(e).archetype_id.0 as int].has_slot(s)
    }

    pub open spec fn column_pos(&self, t: int, s: Slot) -> int {
        choose|c: int| 0 <= c < self.tables.tables[t].columns.len() && (#[trigger] self.tables.tables[t].columns[c]).relationship == s
    }

    /// The table row of live entity `e`.
    pub open spec fn row_of(&self, e: Entity) -> int {
        let loc = self.entities.location_of(e);
        self.archetypes.archetypes[loc.archetype_id.0 as int].entity_rows[loc.index as int] as int
    }

    /// The value that `e` holds in slot `s`, which it has.
    pub open spec fn value_of(&self, e: Entity, s: Slot) -> Vec<u8> {
        let a = self.entities.location_of(e).archetype_id.0 as int;
        let t = self.arch_table(a);
        if self.archetypes.archetypes[a].table_components@.contains(s) {
            self.tables.tables[t].columns[self.column_pos(t, s)].data[self.row_of(e)]
        } else {
            self.sparse_sets.sets[self.set_index(s)].value_of(e)
        }
    }

    /// The change ticks of the value that `e` holds in slot `s`, which it has.
    pub open spec fn ticks_of(&self, e: Entity, s: Slot) -> ComponentTicks {
        let a = self.entities.location_of(e).archetype_id.0 as int;
        let t = self.arch_table(a);
        if self.archetypes.archetypes[a].table_components@.contains(s) {
            self.tables.tables[t].columns[self.column_pos(t, s)].ticks[self.row_of(e)]
        } else {
            self.sparse_sets.sets[self.set_index(s)].ticks_of(e)
        }
    }

    /// A world with the two reserved archetypes and the empty table.
    #[verifier::spinoff_prover]
    pub fn new() -> (r: World)
        ensures
            r.wf(),
            r.entities.meta.len() == 0,
            r.entities.free_list.len() == 0,
            r.archetypes.archetypes.len() == 2,
            r.archetypes.archetypes[0].entities.len() == 0,
            r.archetypes.archetype_component_count == 0,
            r.tables.tables.len() == 1,
            r.sparse_sets.sets.len() == 0,
            r.components.components.len() == 0,
            r.components.kinds.len() == 2,
            r.components.dummy_infos.len() == 0,
            r.bundles.bundle_infos.len() == 0,
            r.bundles.bundle_ids.len() == 0,
            r.bundles.relation_bundle_ids.len() == 0,
            r.removed_components.len() == 0,
            r.change_tick == 1,
            r.last_change_tick == 0,
    {
        proof { reveal(World::wf_layout); reveal(World::wf_entities); reveal(World::wf_edges); }
        let w = World {
            entities: Entities::new(),
            components: Components::new(),
            archetypes: Archetypes::new(),
            tables: Tables::new(),
            sparse_sets: SparseSets::new(),
            bundles: Bundles::new(),
            removed_components: Vec::new(),
            change_tick: 1,
            last_change_tick: 0,
        };
        proof {
            assert(w.tables.tables[0].slots() =~= Seq::<Slot>::empty());
            assert(w.archetypes.archetypes[0].table_components@ =~= Seq::<Slot>::empty());
            assert(w.archetypes.archetypes[1].table_components@ =~= Seq::<Slot>::empty());
        }
        w
    }

    /// Creates an entity with no slots, in the empty archetype. `None` once the id space is
    /// used up.
    #[verifier::spinoff_prover]
    pub fn spawn(&mut self) -> (r: Option<Entity>)
        requires
            old(self).wf(),
        ensures
            final(self).wf(),
            r is Some <==> old(self).entities.can_allocate(),
            r is None ==> *final(self) == *old(self),
            r matches Some(e) ==> {
                &&& final(self).entities.is_live(e)
                &&& !old(self).entities.is_live(e)
                &&& !old(self).entities.is_stale(e)
                &&& final(self).entities.location_of(e).archetype_id == ArchetypeId(0)
                &&& forall|s: Slot| !final(self).has(e, s)
                &&& final(self).others_kept(old(self), e)
                &&& (old(self).entities.free_list.len() > 0 ==> e.id == old(self).entities.free_list@.last()
                    && e.generation == old(self).entities.meta[e.id as int].generation)
                &&& (old(self).entities.free_list.len() == 0 ==> e.id == old(self).entities.meta.len() && e.generation == 0)
            },
            forall|x: Entity| #[trigger] final(self).entities.is_live(x) <==> old(self).entities.is_live(x) || r == Some(x),
            forall|x: Entity| old(self).entities.is_stale(x) ==> #[trigger] final(self).entities.is_stale(x),
    {
        proof { reveal(World::wf_layout); reveal(World::wf_entities); reveal(World::wf_edges); }
        let len0 = self.archetypes.archetypes[0].entities.len();
        let ghost o = *old(self);
        match self.entities.allocate(EntityLocation { archetype_id: ArchetypeId(0), index: len0 }) {
            None => None,
            Some(e) => {
                let row = self.tables.tables[0].allocate(e);
                let ghost mid = *self;
                proof {
                    assert(self.tables.tables[0].slots() =~= o.tables.tables[0].slots());
                    self.lemma_edges_kept(&o);
                    assert forall|x: int, i: int| 0 <= x < self.num_archetypes() && 0 <= i < self.archetypes.archetypes[x].entities.len()
                        implies (#[trigger] self.archetypes.archetypes[x].entities[i]).id != e.id by {
                        let y = o.archetypes.archetypes[x].entities[i];
                        assert(o.entities.is_live(y));
                    }
                    assert forall|t: int, r: int| 0 <= t < self.tables.tables.len() && 0 <= r < self.tables.tables[t].entities.len()
                        && !(t == 0 && r == row) implies (#[trigger] self.tables.tables[t].entities[r]).id != e.id by {
                        let y = o.tables.tables[t].entities[r];
                        if t == 0 { assert(self.tables.tables[t].entities[r] == y); }
                        assert(o.entities.is_live(y));
                    }
                    assert forall|id: int| 0 <= id < self.entities.meta.len() && (#[trigger] self.entities.meta[id]).location is Some
                        && id != e.id implies {
                            let l = self.entities.meta[id].location.unwrap();
                            &&& l.archetype_id.0 < self.num_archetypes()
                            &&& l.index < self.archetypes.archetypes[l.archetype_id.0 as int].entities.len()
                            &&& self.archetypes.archetypes[l.archetype_id.0 as int].entities[l.index as int]
                                == (Entity { id: id as u32, generation: self.entities.meta[id].generation })
                        } by {
                        assert(self.entities.meta[id] == o.entities.meta[id]);
                    }
                    assert forall|x: int, i: int| 0 <= x < self.num_archetypes() && 0 <= i < self.archetypes.archetypes[x].entities.len() implies {
                        let y = #[trigger] self.archetypes.archetypes[x].entities[i];
                        &&& self.entities.is_live(y)
                        &&& self.entities.location_of(y) == (EntityLocation { archetype_id: ArchetypeId(x as usize), index: i as usize })
                        &&& y != e
                        &&& self.archetypes.archetypes[x].entity_rows[i] < self.tables.tables[self.arch_table(x)].entities.len()
                        &&& self.tables.tables[self.arch_table(x)].entities[self.archetypes.archetypes[x].entity_rows[i] as int] == y
                        &&& forall|k: int| 0 <= k < self.archetypes.archetypes[x].sparse_set_components.len() ==>
                            self.sparse_sets.sets[self.set_index(#[trigger] self.archetypes.archetypes[x].sparse_set_components[k])].contains(y)
                    } by {
                        let y = o.archetypes.archetypes[x].entities[i];
                        assert(o.entities.is_live(y));
                        assert(self.entities.meta[y.id as int] == o.entities.meta[y.id as int]);
                        let orow = o.archetypes.archetypes[x].entity_rows[i];
                        assert(o.tables.tables[o.arch_table(x)].entities[orow as int] == y);
                    }
                    assert forall|t: int, r: int| 0 <= t < self.tables.tables.len() && 0 <= r < self.tables.tables[t].entities.len()
                        && !(t == 0 && r == row) implies {
                            let y = #[trigger] self.tables.tables[t].entities[r];
                            let l = self.entities.location_of(y);
                            &&& self.entities.is_live(y)
                            &&& y != e
                            &&& l.archetype_id.0 < self.num_archetypes()
                            &&& l.index < self.archetypes.archetypes[l.archetype_id.0 as int].entities.len()
                            &&& self.arch_table(l.archetype_id.0 as int) == t
                            &&& self.archetypes.archetypes[l.archetype_id.0 as int].entity_rows[l.index as int] == r
                        } by {
                        let y = o.tables.tables[t].entities[r];
                        if t == 0 { assert(self.tables.tables[t].entities[r] == y); }
                        assert(o.entities.is_live(y));
                        assert(self.entities.meta[y.id as int] == o.entities.meta[y.id as int]);
                    }
                    assert(self.wf_entities(Some(Detached { entity: e, table: 0, row: row as int })));
                }
                self.attach(e, 0, row);
                proof {
                    assert forall|x: Entity| old(self).entities.is_live(x) && x != e implies
                        #[trigger] self.entities.location_of(x) == old(self).entities.location_of(x) by {
                        if x.id == e.id { assert(false); }
                    }
                }
                Some(e)
            },
        }
    }

    /// Other live entities keep their locations and their values.
    pub open spec fn others_kept(&self, old: &World, e: Entity) -> bool {
        forall|x: Entity| old.entities.is_live(x) && x != e ==> {
            &&& #[trigger] self.entities.is_live(x)
            &&& self.entities.location_of(x) == old.entities.location_of(x)
        }
    }

    /// Whether live entity `e` has the slot `(kind, target)`.
    #[verifier::spinoff_prover]
    pub fn contains(&self, e: Entity, kind: ComponentId, target: Option<Entity>) -> (r: bool)
        requires
            self.wf(),
        ensures
            r == self.has(e, Slot { kind, target }),
    {
        proof { reveal(World::wf_layout); reveal(World::wf_entities); reveal(World::wf_edges); }
        match self.entities.get(e) {
            None => false,
            Some(loc) => self.archetypes.archetypes[loc.archetype_id.0].contains(kind, target),
        }
    }

    /// The value that `e` holds in slot `(kind, target)`: `None` for a stale handle or a slot that
    /// the entity lacks.
    #[verifier::spinoff_prover]
    pub fn get(&self, e: Entity, kind: ComponentId, target: Option<Entity>) -> (r: Option<&Vec<u8>>)
        requires
            self.wf(),
        ensures
            r is Some <==> self.has(e, Slot { kind, target }),
            r matches Some(v) ==> *v == self.value_of(e, Slot { kind, target }),
    {
        proof { reveal(World::wf_layout); reveal(World::wf_entities); reveal(World::wf_edges); }
        match self.get_with_ticks(e, kind, target) {
            Some((v, _)) => Some(v),
            None => None,
        }
    }

    /// The value and change ticks that `e` holds in slot `(kind, target)`.
    #[verifier::spinoff_prover]
    pub fn get_with_ticks(&self, e: Entity, kind: ComponentId, target: Option<Entity>) -> (r: Option<(&Vec<u8>, ComponentTicks)>)
        requires
            self.wf(),
        ensures
            r is Some <==> self.has(e, Slot { kind, target }),
            r matches Some((v, t)) ==> *v == self.value_of(e, Slot { kind, target })
                && t == self.ticks_of(e, Slot { kind, target }),
    {
        proof { reveal(World::wf_layout); reveal(World::wf_entities); reveal(World::wf_edges); }
        let s = Slot { kind, target };
        let loc = match self.entities.get(e) {
            None => { return None; },
            Some(loc) => loc,
        };
        let a = loc.archetype_id.0;
        let arch = &self.archetypes.archetypes[a];
        proof {
            let y = self.archetypes.archetypes[a as int].entities[loc.index as int];
            assert(y == e);
        }
        match arch.get_storage_type(kind, target) {
            None => None,
            Some(StorageType::Table) => {
                let table = &self.tables.tables[arch.table_id.0];
                proof {
                    let k = choose|k: int| 0 <= k < arch.table_components.len() && arch.table_components@[k] == s;
                    assert(table.slots()[k] == s);
                    assert(table.columns[k].relationship == s);
                }
                match table.column_index(kind, target) {
                    None => None,
                    Some(c) => {
                        let row = arch.entity_rows[loc.index];
                        proof {
                            assert(table.columns[c as int].wf());
                            assert(c == self.column_pos(arch.table_id.0 as int, s));
                        }
                        match table.columns[c].get(row) {
                            Some(x) => Some(x),
                            None => None,
                        }
                    },
                }
            },
            Some(StorageType::SparseSet) => {
                proof {
                    let k = choose|k: int| 0 <= k < arch.sparse_set_components.len() && arch.sparse_set_components@[k] == s;
                    assert(self.sparse_sets.has_set(arch.sparse_set_components[k]));
                    assert(self.sparse_sets.sets[self.set_index(arch.sparse_set_components[k])].contains(e));
                }
                match self.sparse_sets.index_of(kind, target) {
                    None => None,
                    Some(k) => {
                        proof {
                            assert(k == self.set_index(s));
                            assert(self.sparse_sets.sets[k as int].wf());
                        }
                        self.sparse_sets.sets[k].get_with_ticks(e)
                    },
                }
            },
        }
    }

    /// `self` keeps the entity bookkeeping of `old`: the same entities, the same registries,
    /// the old archetypes with their slots and entity lists, the old tables with their slots and
    /// row entities, the old sparse sets with their slots and every live entity they held; new
    /// archetypes and tables hold no entity yet.
    pub open spec fn keeps_entities(&self, old: &World) -> bool {
        &&& self.entities == old.entities
        &&& self.components == old.components
        &&& self.bundles == old.bundles
        &&& self.archetypes.archetypes.len() >= old.archetypes.archetypes.len()
        &&& forall|a: int| 0 <= a < old.num_archetypes() ==> {
            &&& (#[trigger] self.archetypes.archetypes[a]).same_layout(&old.archetypes.archetypes[a])
            &&& self.archetypes.archetypes[a].entities@ == old.archetypes.archetypes[a].entities@
            &&& self.archetypes.archetypes[a].entity_rows@ == old.archetypes.archetypes[a].entity_rows@
        }
        &&& forall|a: int| old.num_archetypes() <= a < self.num_archetypes() ==> (#[trigger] self.archetypes.archetypes[a]).entities.len() == 0
        &&& self.tables.tables.len() >= old.tables.tables.len()
        &&& forall|t: int| 0 <= t < old.tables.tables.len() ==> (#[trigger] self.tables.tables[t]).entities@ == old.tables.tables[t].entities@
            && self.tables.tables[t].slots() == old.tables.tables[t].slots()
        &&& forall|t: int| old.tables.tables.len() <= t < self.tables.tables.len() ==> (#[trigger] self.tables.tables[t]).entities.len() == 0
        &&& self.sparse_sets.sets.len() >= old.sparse_sets.sets.len()
        &&& forall|k: int| 0 <= k < old.sparse_sets.sets.len() ==> (#[trigger] self.sparse_sets.sets[k]).slot == old.sparse_sets.sets[k].slot
        &&& forall|k: int, x: Entity| 0 <= k < old.sparse_sets.sets.len() && old.entities.is_live(x)
            && (#[trigger] old.sparse_sets.sets[k]).contains(x) ==> #[trigger] self.sparse_sets.sets[k].contains(x)
    }

    /// `self` is `old` with more storage: new archetypes, tables and sparse sets that hold no
    /// entity yet, and possibly new cached transitions; nothing else differs.
    pub open spec fn grows_from(&self, old: &World) -> bool {
        &&& self.keeps_entities(old)
        &&& self.removed_components == old.removed_components
        &&& self.change_tick == old.change_tick
        &&& self.last_change_tick == old.last_change_tick
        &&& forall|t: int| 0 <= t < old.tables.tables.len() ==> #[trigger] self.tables.tables[t] == old.tables.tables[t]
        &&& forall|k: int| 0 <= k < old.sparse_sets.sets.len() ==> #[trigger] self.sparse_sets.sets[k] == old.sparse_sets.sets[k]
    }

    #[verifier::spinoff_prover]
    proof fn lemma_set_index_kept(&self, old: &World, s: Slot)
        requires
            old.sparse_sets.has_set(s),
            self.sparse_sets.wf(),
            self.sparse_sets.sets.len() >= old.sparse_sets.sets.len(),
            forall|k: int| 0 <= k < old.sparse_sets.sets.len() ==> (#[trigger] self.sparse_sets.sets[k]).slot == old.sparse_sets.sets[k].slot,
        ensures
            self.set_index(s) == old.set_index(s),
            self.sparse_sets.has_set(s),
    {
        reveal(World::wf_layout); reveal(World::wf_entities); reveal(World::wf_edges);
        let k = old.set_index(s);
        assert(self.sparse_sets.sets[k].slot == s);
        let k2 = self.set_index(s);
        assert(self.sparse_sets.sets[k2].slot == s);
    }

    /// Growth keeps the entity bookkeeping.
    #[verifier::spinoff_prover]
    proof fn lemma_grow_entities(&self, old: &World)
        requires
            old.wf_layout(),
            old.wf_entities(None),
            self.keeps_entities(old),
            self.sparse_sets.wf(),
        ensures
            self.wf_entities(None),
    {
        reveal(World::wf_layout); reveal(World::wf_entities); reveal(World::wf_edges);
        assert forall|a: int, i: int| 0 <= a < self.num_archetypes() && 0 <= i < self.archetypes.archetypes[a].entities.len() implies {
            let e = #[trigger] self.archetypes.archetypes[a].entities[i];
            &&& self.entities.is_live(e)
            &&& self.entities.location_of(e) == (EntityLocation { archetype_id: ArchetypeId(a as usize), index: i as usize })
            &&& self.archetypes.archetypes[a].entity_rows[i] < self.tables.tables[self.arch_table(a)].entities.len()
            &&& self.tables.tables[self.arch_table(a)].entities[self.archetypes.archetypes[a].entity_rows[i] as int] == e
            &&& forall|k: int| 0 <= k < self.archetypes.archetypes[a].sparse_set_components.len() ==>
                self.sparse_sets.sets[self.set_index(#[trigger] self.archetypes.archetypes[a].sparse_set_components[k])].contains(e)
        } by {
            assert(a < old.num_archetypes());
            let e = old.archetypes.archetypes[a].entities[i];
            assert(self.archetypes.archetypes[a].entities[i] == e);
            assert(self.archetypes.archetypes[a].entity_rows[i] == old.archetypes.archetypes[a].entity_rows[i]);
            assert(self.arch_table(a) == old.arch_table(a));
            assert forall|k: int| 0 <= k < self.archetypes.archetypes[a].sparse_set_components.len() implies
                self.sparse_sets.sets[self.set_index(#[trigger] self.archetypes.archetypes[a].sparse_set_components[k])].contains(e) by {
                let sl = old.archetypes.archetypes[a].sparse_set_components[k];
                assert(self.archetypes.archetypes[a].sparse_set_components[k] == sl);
                assert(old.sparse_sets.has_set(sl));
                self.lemma_set_index_kept(old, sl);
                assert(old.sparse_sets.sets[old.set_index(sl)].contains(e));
            }
        }
        assert forall|t: int, r: int| 0 <= t < self.tables.tables.len() && 0 <= r < self.tables.tables[t].entities.len() implies {
                let e = #[trigger] self.tables.tables[t].entities[r];
                let loc = self.entities.location_of(e);
                &&& self.entities.is_live(e)
                &&& loc.archetype_id.0 < self.num_archetypes()
                &&& loc.index < self.archetypes.archetypes[loc.archetype_id.0 as int].entities.len()
                &&& self.arch_table(loc.archetype_id.0 as int) == t
                &&& self.archetypes.archetypes[loc.archetype_id.0 as int].entity_rows[loc.index as int] == r
            } by {
            assert(t < old.tables.tables.len());
            assert(self.tables.tables[t].entities@ == old.tables.tables[t].entities@);
            let e = old.tables.tables[t].entities[r];
            let l = old.entities.location_of(e);
            assert(self.archetypes.archetypes[l.archetype_id.0 as int].same_layout(&old.archetypes.archetypes[l.archetype_id.0 as int]));
        }
        assert forall|id: int| 0 <= id < self.entities.meta.len() && (#[trigger] self.entities.meta[id]).location is Some implies {
                let l = self.entities.meta[id].location.unwrap();
                &&& l.archetype_id.0 < self.num_archetypes()
                &&& l.index < self.archetypes.archetypes[l.archetype_id.0 as int].entities.len()
                &&& self.archetypes.archetypes[l.archetype_id.0 as int].entities[l.index as int]
                    == (Entity { id: id as u32, generation: self.entities.meta[id].generation })
            } by {
            let l = old.entities.meta[id].location.unwrap();
            assert(self.archetypes.archetypes[l.archetype_id.0 as int].entities@ == old.archetypes.archetypes[l.archetype_id.0 as int].entities@);
        }
        assert(self.archetypes.archetypes[1].entities@ == old.archetypes.archetypes[1].entities@);
    }

    /// The layout conditions of the archetypes of `old` still hold after growth.
    #[verifier::spinoff_prover]
    proof fn lemma_grow_layout(&self, old: &World)
        requires
            old.wf_layout(),
            self.keeps_entities(old),
            self.sparse_sets.wf(),
        ensures
            forall|a: int| 0 <= a < old.num_archetypes() ==> {
                &&& (#[trigger] self.archetypes.archetypes[a]).table_id.0 < self.tables.tables.len()
                &&& self.tables.tables[self.archetypes.archetypes[a].table_id.0 as int].slots()
                    == self.archetypes.archetypes[a].table_components@
                &&& is_sorted(self.archetypes.archetypes[a].table_components@)
                &&& is_sorted(self.archetypes.archetypes[a].sparse_set_components@)
            },
            forall|a: int, k: int| 0 <= a < old.num_archetypes() && 0 <= k < self.archetypes.archetypes[a].table_components.len() ==> {
                &&& self.components.contains_id((#[trigger] self.archetypes.archetypes[a].table_components[k]).kind)
                &&& self.components.storage_type_of(self.archetypes.archetypes[a].table_components[k].kind) == StorageType::Table
            },
            forall|a: int, k: int| 0 <= a < old.num_archetypes() && 0 <= k < self.archetypes.archetypes[a].sparse_set_components.len() ==> {
                &&& self.components.contains_id((#[trigger] self.archetypes.archetypes[a].sparse_set_components[k]).kind)
                &&& self.components.storage_type_of(self.archetypes.archetypes[a].sparse_set_components[k].kind) == StorageType::SparseSet
                &&& self.sparse_sets.has_set(self.archetypes.archetypes[a].sparse_set_components[k])
            },
    {
        reveal(World::wf_layout); reveal(World::wf_entities); reveal(World::wf_edges);
        assert forall|a: int| 0 <= a < old.num_archetypes() implies {
            &&& (#[trigger] self.archetypes.archetypes[a]).table_id.0 < self.tables.tables.len()
            &&& self.tables.tables[self.archetypes.archetypes[a].table_id.0 as int].slots()
                == self.archetypes.archetypes[a].table_components@
            &&& is_sorted(self.archetypes.archetypes[a].table_components@)
            &&& is_sorted(self.archetypes.archetypes[a].sparse_set_components@)
        } by {
            assert(self.archetypes.archetypes[a].same_layout(&old.archetypes.archetypes[a]));
        }
        assert forall|a: int, k: int| 0 <= a < old.num_archetypes() && 0 <= k < self.archetypes.archetypes[a].table_components.len() implies {
            &&& self.components.contains_id((#[trigger] self.archetypes.archetypes[a].table_components[k]).kind)
            &&& self.components.storage_type_of(self.archetypes.archetypes[a].table_components[k].kind) == StorageType::Table
        } by {
            assert(self.archetypes.archetypes[a].same_layout(&old.archetypes.archetypes[a]));
            assert(old.archetypes.archetypes[a].table_components[k] == self.archetypes.archetypes[a].table_components[k]);
        }
        assert forall|a: int, k: int| 0 <= a < old.num_archetypes() && 0 <= k < self.archetypes.archetypes[a].sparse_set_components.len() implies {
            &&& self.components.contains_id((#[trigger] self.archetypes.archetypes[a].sparse_set_components[k]).kind)
            &&& self.components.storage_type_of(self.archetypes.archetypes[a].sparse_set_components[k].kind) == StorageType::SparseSet
            &&& self.sparse_sets.has_set(self.archetypes.archetypes[a].sparse_set_components[k])
        } by {
            assert(self.archetypes.archetypes[a].same_layout(&old.archetypes.archetypes[a]));
            let sl = old.archetypes.archetypes[a].sparse_set_components[k];
            assert(sl == self.archetypes.archetypes[a].sparse_set_components[k]);
            self.lemma_set_index_kept(old, sl);
        }
    }

    /// Slots in order, registered, and kept under storage class `st`.
    pub open spec fn slots_fit(&self, v: Seq<Slot>, st: StorageType) -> bool {
        &&& is_sorted(v)
        &&& forall|k: int| 0 <= k < v.len() ==> {
            &&& self.components.contains_id((#[trigger] v[k]).kind)
            &&& self.components.storage_type_of(v[k].kind) == st
            &&& (st == StorageType::SparseSet ==> self.sparse_sets.has_set(v[k]))
        }
    }

    /// The archetype with the given sorted slots, with its table, created when missing.
    #[verifier::spinoff_prover]
    fn archetype_for(&mut self, table_slots: Vec<Slot>, sparse_slots: Vec<Slot>) -> (d: usize)
        requires
            old(self).wf(),
            old(self).slots_fit(table_slots@, StorageType::Table),
            old(self).slots_fit(sparse_slots@, StorageType::SparseSet),
            old(self).archetypes.has_room(table_slots.len() + sparse_slots.len()),
        ensures
            final(self).wf(),
            final(self).grows_from(old(self)),
            final(self).archetypes.holds_identity(d as int, table_slots@, sparse_slots@),
            forall|a: int| 0 <= a < old(self).num_archetypes() ==>
                (#[trigger] final(self).archetypes.archetypes[a]).edges == old(self).archetypes.archetypes[a].edges,
    {
        proof { reveal(World::wf_layout); reveal(World::wf_entities); reveal(World::wf_edges); }
        let ghost o = *old(self);
        proof {
            crate::sorted::lemma_sorted_distinct(table_slots@);
        }
        let table_id = self.tables.get_id_or_insert(&table_slots, &self.components);
        let ghost tsl = table_slots@;
        let ghost ssl = sparse_slots@;
        let d = self.archetypes.get_id_or_insert(table_id, table_slots, sparse_slots);
        proof {
            let n = d.0 as int;
            if o.archetypes.has_identity(tsl, ssl) {
                assert(self.archetypes == o.archetypes);
            } else {
                assert(self.archetypes.archetypes[n].table_components@ == tsl);
                assert forall|a: int| 0 <= a < o.num_archetypes() implies
                    #[trigger] self.archetypes.archetypes[a] == o.archetypes.archetypes[a] by {
                    assert(self.archetypes.archetypes@.drop_last()[a] == o.archetypes.archetypes@[a]);
                }
            }
            assert forall|a: int| 0 <= a < o.num_archetypes() implies {
                &&& (#[trigger] self.archetypes.archetypes[a]).same_layout(&o.archetypes.archetypes[a])
                &&& self.archetypes.archetypes[a].entities@ == o.archetypes.archetypes[a].entities@
                &&& self.archetypes.archetypes[a].entity_rows@ == o.archetypes.archetypes[a].entity_rows@
            } by {
                if !o.archetypes.has_identity(tsl, ssl) {
                    assert(self.archetypes.archetypes[a] == o.archetypes.archetypes[a]);
                }
            }
            assert(self.grows_from(&o));
            self.lemma_grow_entities(&o);
            self.lemma_grow_layout(&o);
            self.lemma_edges_kept(&o);
            if !o.archetypes.has_identity(tsl, ssl) {
                assert forall|a: int| 0 <= a < self.num_archetypes() implies {
                    &&& (#[trigger] self.archetypes.archetypes[a]).table_id.0 < self.tables.tables.len()
                    &&& self.tables.tables[self.archetypes.archetypes[a].table_id.0 as int].slots()
                        == self.archetypes.archetypes[a].table_components@
                    &&& is_sorted(self.archetypes.archetypes[a].table_components@)
                    &&& is_sorted(self.archetypes.archetypes[a].sparse_set_components@)
                } by {
                    if a == n {
                    }
                }
                assert forall|a: int, k: int| 0 <= a < self.num_archetypes() && 0 <= k < self.archetypes.archetypes[a].table_components.len() implies {
                    &&& self.components.contains_id((#[trigger] self.archetypes.archetypes[a].table_components[k]).kind)
                    &&& self.components.storage_type_of(self.archetypes.archetypes[a].table_components[k].kind) == StorageType::Table
                } by {
                    if a == n {
                        assert(self.archetypes.archetypes[a].table_components[k] == tsl[k]);
                    }
                }
                assert forall|a: int, k: int| 0 <= a < self.num_archetypes() && 0 <= k < self.archetypes.archetypes[a].sparse_set_components.len() implies {
                    &&& self.components.contains_id((#[trigger] self.archetypes.archetypes[a].sparse_set_components[k]).kind)
                    &&& self.components.storage_type_of(self.archetypes.archetypes[a].sparse_set_components[k].kind) == StorageType::SparseSet
                    &&& self.sparse_sets.has_set(self.archetypes.archetypes[a].sparse_set_components[k])
                } by {
                    if a == n {
                        assert(self.archetypes.archetypes[a].sparse_set_components[k] == ssl[k]);
                    }
                }
            }
        }
        d.0
    }

    /// Records the add-bundle transition from `a` by `b` to `d`.
    #[verifier::spinoff_prover]
    fn cache_add_edge(&mut self, a: usize, b: BundleId, d: usize, status: Vec<ComponentStatus>)
        requires
            old(self).wf(),
            a < old(self).num_archetypes(),
            d < old(self).num_archetypes(),
            d != 1,
            old(self).bundles.contains_id(b),
            old(self).is_add_result(a as int, b, d as int),
            old(self).status_ok(a as int, b, status@),
        ensures
            final(self).wf(),
            final(self).grows_from(old(self)),
            final(self).archetypes.archetypes.len() == old(self).archetypes.archetypes.len(),
            final(self).archetypes.archetypes[a as int].edges.add_edge(b) == Some(AddBundle { archetype_id: ArchetypeId(d), bundle_status: status }),
    {
        proof { reveal(World::wf_layout); reveal(World::wf_entities); reveal(World::wf_edges); }
        let ghost o = *old(self);
        self.archetypes.archetypes[a].edges.set_add_bundle(b, ArchetypeId(d), status);
        proof {
            let n = self.archetypes;
            assert forall|x: int| 0 <= x < n.archetypes.len() implies (#[trigger] n.archetypes[x]).wf()
                && n.archetypes[x].id == ArchetypeId(x as usize) by {
                if x != a { assert(n.archetypes[x] == o.archetypes.archetypes[x]); }
            }
            assert forall|x: int, y: int| 0 <= x < n.archetypes.len() && 0 <= y < n.archetypes.len() && x != 1 && y != 1 && x != y
                implies !Archetypes::same_identity(#[trigger] n.archetypes[x], #[trigger] n.archetypes[y]) by {
                assert(!Archetypes::same_identity(o.archetypes.archetypes[x], o.archetypes.archetypes[y]));
            }
            assert(self.grows_from(&o));
            self.lemma_grow_entities(&o);
            self.lemma_grow_layout(&o);
            self.lemma_edges_changed(&o, a as int);
        }
    }

    /// Records the remove-bundle transition (strict, or of the intersection) from `a` by `b`.
    #[verifier::spinoff_prover]
    fn cache_remove_edge(&mut self, a: usize, b: BundleId, r: Option<usize>, intersection: bool)
        requires
            old(self).wf(),
            a < old(self).num_archetypes(),
            old(self).bundles.contains_id(b),
            r matches Some(d) ==> d < old(self).num_archetypes() && d != 1 && old(self).is_remove_result(a as int, b, d as int),
            intersection ==> r is Some,
            !intersection ==> (r is Some <==> old(self).bundle_slots(b).subset_of(old(self).slot_set(a as int))),
        ensures
            final(self).wf(),
            final(self).grows_from(old(self)),
            final(self).archetypes.archetypes.len() == old(self).archetypes.archetypes.len(),
            !intersection ==> final(self).archetypes.archetypes[a as int].edges.remove_edge(b) == Some(as_archetype_id(r)),
            intersection ==> final(self).archetypes.archetypes[a as int].edges.remove_intersection_edge(b) == Some(as_archetype_id(r)),
    {
        proof { reveal(World::wf_layout); reveal(World::wf_entities); reveal(World::wf_edges); }
        let ghost o = *old(self);
        let target = match r {
            Some(d) => Some(ArchetypeId(d)),
            None => None,
        };
        if intersection {
            self.archetypes.archetypes[a].edges.set_remove_bundle_intersection(b, target);
        } else {
            self.archetypes.archetypes[a].edges.set_remove_bundle(b, target);
        }
        proof {
            let n = self.archetypes;
            assert forall|x: int| 0 <= x < n.archetypes.len() implies (#[trigger] n.archetypes[x]).wf()
                && n.archetypes[x].id == ArchetypeId(x as usize) by {
                if x != a { assert(n.archetypes[x] == o.archetypes.archetypes[x]); }
            }
            assert forall|x: int, y: int| 0 <= x < n.archetypes.len() && 0 <= y < n.archetypes.len() && x != 1 && y != 1 && x != y
                implies !Archetypes::same_identity(#[trigger] n.archetypes[x], #[trigger] n.archetypes[y]) by {
                assert(!Archetypes::same_identity(o.archetypes.archetypes[x], o.archetypes.archetypes[y]));
            }
            assert(self.grows_from(&o));
            self.lemma_grow_entities(&o);
            self.lemma_grow_layout(&o);
            self.lemma_edges_changed(&o, a as int);
        }
    }

    /// Cached transitions stay valid when one archetype's edges change to valid ones.
    #[verifier::spinoff_prover]
    proof fn lemma_edges_changed(&self, o: &World, a0: int)
        requires
            o.wf_edges(),
            self.archetypes.archetypes.len() == o.archetypes.archetypes.len(),
            forall|a: int| 0 <= a < self.num_archetypes() ==> (#[trigger] self.archetypes.archetypes[a]).same_layout(&o.archetypes.archetypes[a]),
            forall|a: int| 0 <= a < self.num_archetypes() && a != a0 ==> (#[trigger] self.archetypes.archetypes[a]).edges == o.archetypes.archetypes[a].edges,
            self.bundles == o.bundles,
            self.components == o.components,
            forall|b: BundleId| (#[trigger] self.archetypes.archetypes[a0].edges.add_edge(b)) != o.archetypes.archetypes[a0].edges.add_edge(b) ==> {
                let ab = self.archetypes.archetypes[a0].edges.add_edge(b).unwrap();
                &&& self.archetypes.archetypes[a0].edges.add_edge(b) is Some
                &&& o.bundles.contains_id(b)
                &&& ab.archetype_id.0 < o.num_archetypes()
                &&& ab.archetype_id.0 != 1
                &&& o.is_add_result(a0, b, ab.archetype_id.0 as int)
                &&& o.status_ok(a0, b, ab.bundle_status@)
            },
            forall|b: BundleId| (#[trigger] self.archetypes.archetypes[a0].edges.remove_edge(b)) != o.archetypes.archetypes[a0].edges.remove_edge(b) ==> {
                let r = self.archetypes.archetypes[a0].edges.remove_edge(b).unwrap();
                &&& self.archetypes.archetypes[a0].edges.remove_edge(b) is Some
                &&& o.bundles.contains_id(b)
                &&& (r is Some <==> o.bundle_slots(b).subset_of(o.slot_set(a0)))
                &&& (r matches Some(d) ==> d.0 < o.num_archetypes() && d.0 != 1 && o.is_remove_result(a0, b, d.0 as int))
            },
            forall|b: BundleId| (#[trigger] self.archetypes.archetypes[a0].edges.remove_intersection_edge(b)) != o.archetypes.archetypes[a0].edges.remove_intersection_edge(b) ==> {
                let r = self.archetypes.archetypes[a0].edges.remove_intersection_edge(b).unwrap();
                &&& self.archetypes.archetypes[a0].edges.remove_intersection_edge(b) is Some
                &&& o.bundles.contains_id(b)
                &&& r matches Some(d) && d.0 < o.num_archetypes() && d.0 != 1 && o.is_remove_result(a0, b, d.0 as int)
            },
        ensures
            self.wf_edges(),
    {
        reveal(World::wf_layout); reveal(World::wf_entities); reveal(World::wf_edges);
        assert forall|a: int| 0 <= a < o.num_archetypes() implies self.table_set(a) == o.table_set(a)
            && self.sparse_set_set(a) == o.sparse_set_set(a) && self.slot_set(a) == o.slot_set(a) by {
            assert(self.archetypes.archetypes[a].same_layout(&o.archetypes.archetypes[a]));
        }
        assert forall|a: int, b: BundleId| 0 <= a < self.num_archetypes()
            && (#[trigger] self.archetypes.archetypes[a].edges.add_edge(b)) is Some implies {
                let ab = self.archetypes.archetypes[a].edges.add_edge(b).unwrap();
                &&& self.bundles.contains_id(b)
                &&& ab.archetype_id.0 < self.num_archetypes()
                &&& ab.archetype_id.0 != 1
                &&& self.is_add_result(a, b, ab.archetype_id.0 as int)
                &&& self.status_ok(a, b, ab.bundle_status@)
            } by {
            let ab = self.archetypes.archetypes[a].edges.add_edge(b).unwrap();
            let d = ab.archetype_id.0 as int;
            if a != a0 || self.archetypes.archetypes[a0].edges.add_edge(b) == o.archetypes.archetypes[a0].edges.add_edge(b) {
                assert(o.archetypes.archetypes[a].edges.add_edge(b) is Some);
            }
            self.lemma_status_same(o, a, b, ab.bundle_status@);
            assert(self.table_set(d) == o.table_set(d));
            assert(self.sparse_set_set(d) == o.sparse_set_set(d));
            assert(self.table_set(a) == o.table_set(a));
            assert(self.sparse_set_set(a) == o.sparse_set_set(a));
        }
        assert forall|a: int, b: BundleId| 0 <= a < self.num_archetypes()
            && (#[trigger] self.archetypes.archetypes[a].edges.remove_edge(b)) is Some implies {
                let r = self.archetypes.archetypes[a].edges.remove_edge(b).unwrap();
                &&& self.bundles.contains_id(b)
                &&& (r is Some <==> self.bundle_slots(b).subset_of(self.slot_set(a)))
                &&& (r matches Some(d) ==> d.0 < self.num_archetypes() && d.0 != 1 && self.is_remove_result(a, b, d.0 as int))
            } by {
            let r = self.archetypes.archetypes[a].edges.remove_edge(b).unwrap();
            if a != a0 || self.archetypes.archetypes[a0].edges.remove_edge(b) == o.archetypes.archetypes[a0].edges.remove_edge(b) {
                assert(o.archetypes.archetypes[a].edges.remove_edge(b) is Some);
            }
            assert(self.slot_set(a) == o.slot_set(a));
            assert(self.table_set(a) == o.table_set(a));
            assert(self.sparse_set_set(a) == o.sparse_set_set(a));
            if r is Some {
                let d = r.unwrap().0 as int;
                assert(self.table_set(d) == o.table_set(d));
                assert(self.sparse_set_set(d) == o.sparse_set_set(d));
            }
        }
        assert forall|a: int, b: BundleId| 0 <= a < self.num_archetypes()
            && (#[trigger] self.archetypes.archetypes[a].edges.remove_intersection_edge(b)) is Some implies {
                let r = self.archetypes.archetypes[a].edges.remove_intersection_edge(b).unwrap();
                &&& self.bundles.contains_id(b)
                &&& r matches Some(d) && d.0 < self.num_archetypes() && d.0 != 1 && self.is_remove_result(a, b, d.0 as int)
            } by {
            let r = self.archetypes.archetypes[a].edges.remove_intersection_edge(b).unwrap();
            if a != a0 || self.archetypes.archetypes[a0].edges.remove_intersection_edge(b) == o.archetypes.archetypes[a0].edges.remove_intersection_edge(b) {
                assert(o.archetypes.archetypes[a].edges.remove_intersection_edge(b) is Some);
            }
            assert(self.table_set(a) == o.table_set(a));
            assert(self.sparse_set_set(a) == o.sparse_set_set(a));
            if r is Some {
                let d = r.unwrap().0 as int;
                assert(self.table_set(d) == o.table_set(d));
                assert(self.sparse_set_set(d) == o.sparse_set_set(d));
            }
        }
    }

    /// Creates the sparse set of each of `slots` that has none yet.
    #[verifier::spinoff_prover]
    fn ensure_sets(&mut self, slots: &Vec<Slot>)
        requires
            old(self).wf(),
            forall|k: int| 0 <= k < slots.len() ==> old(self).components.contains_id(#[trigger] slots[k].kind),
        ensures
            final(self).wf(),
            final(self).grows_from(old(self)),
            final(self).archetypes == old(self).archetypes,
            final(self).tables == old(self).tables,
            forall|k: int| 0 <= k < slots.len() ==> final(self).sparse_sets.has_set(#[trigger] slots[k]),
    {
        proof { reveal(World::wf_layout); reveal(World::wf_entities); reveal(World::wf_edges); }
        let ghost o = *old(self);
        let mut i: usize = 0;
        while i < slots.len()
            invariant
                i <= slots.len(),
                o.wf(),
                o == *old(self),
                self.wf(),
                self.grows_from(&o),
                self.archetypes == o.archetypes,
                self.tables == o.tables,
                forall|k: int| 0 <= k < slots.len() ==> o.components.contains_id(#[trigger] slots[k].kind),
                forall|k: int| 0 <= k < i ==> self.sparse_sets.has_set(#[trigger] slots[k]),
            decreases slots.len() - i,
        {
            proof { reveal(World::wf_layout); reveal(World::wf_entities); reveal(World::wf_edges); }
            let s = slots[i];
            let layout = self.components.components[s.kind.0].data.layout;
            let ghost before = *self;
            self.sparse_sets.get_or_insert(s.kind, s.target, layout);
            proof {
                assert(self.grows_from(&o));
                self.lemma_grow_entities(&o);
                self.lemma_grow_layout(&o);
                self.lemma_edges_kept(&o);
                assert forall|k: int| 0 <= k < i + 1 implies self.sparse_sets.has_set(#[trigger] slots[k]) by {
                    if k < i {
                        assert(before.sparse_sets.has_set(slots[k]));
                        let j = choose|j: int| 0 <= j < before.sparse_sets.sets.len() && (#[trigger] before.sparse_sets.sets[j]).slot == slots[k];
                        assert(self.sparse_sets.sets[j] == before.sparse_sets.sets[j]);
                    }
                }
            }
            i = i + 1;
        }
    }

    /// The slots and storage classes of a bundle, copied out.
    #[verifier::spinoff_prover]
    fn bundle_contents(&self, b: BundleId) -> (r: (Vec<Slot>, Vec<StorageType>))
        requires
            self.bundles.contains_id(b),
        ensures
            r.0@ == self.bundles.info(b).relation_ids@,
            r.1@ == self.bundles.info(b).storage_types@,
    {
        let info = &self.bundles.bundle_infos[b.0];
        let mut slots: Vec<Slot> = Vec::new();
        let mut storage: Vec<StorageType> = Vec::new();
        let mut k: usize = 0;
        while k < info.relation_ids.len()
            invariant
                k <= info.relation_ids.len(),
                slots@ == info.relation_ids@.take(k as int),
            decreases info.relation_ids.len() - k,
        {
            slots.push(info.relation_ids[k]);
            assert(info.relation_ids@.take(k + 1) =~= info.relation_ids@.take(k as int).push(info.relation_ids@[k as int]));
            k = k + 1;
        }
        let mut j: usize = 0;
        while j < info.storage_types.len()
            invariant
                j <= info.storage_types.len(),
                storage@ == info.storage_types@.take(j as int),
            decreases info.storage_types.len() - j,
        {
            storage.push(info.storage_types[j]);
            assert(info.storage_types@.take(j + 1) =~= info.storage_types@.take(j as int).push(info.storage_types@[j as int]));
            j = j + 1;
        }
        assert(slots@ =~= info.relation_ids@);
        assert(storage@ =~= info.storage_types@);
        (slots, storage)
    }

    /// The slot count that a transition out of `a` by `b` may reach.
    pub open spec fn add_room(&self, a: int, b: BundleId) -> int {
        self.archetypes.archetypes[a].table_components.len() + self.archetypes.archetypes[a].sparse_set_components.len()
            + self.bundles.info(b).relation_ids.len()
    }

    /// The archetype reached from `a` by adding bundle `b`: the slots of `a` plus those of `b`,
    /// each under its storage class. Creates what it needs (tables, sparse sets, the archetype)
    /// and caches the transition.
    #[verifier::spinoff_prover]
    pub fn add_bundle_to_archetype(&mut self, a: usize, b: BundleId) -> (d: usize)
        requires
            old(self).wf(),
            a < old(self).num_archetypes(),
            a != 1,
            old(self).bundles.contains_id(b),
            old(self).archetypes.has_room(old(self).add_room(a as int, b)),
        ensures
            final(self).wf(),
            final(self).grows_from(old(self)),
            d < final(self).num_archetypes(),
            d != 1,
            final(self).is_add_result(a as int, b, d as int),
            final(self).archetypes.archetypes[a as int].edges.add_edge(b) matches Some(ab)
                && ab.archetype_id.0 == d && final(self).status_ok(a as int, b, ab.bundle_status@),
    {
        proof { reveal(World::wf_layout); reveal(World::wf_entities); reveal(World::wf_edges); }
        match self.archetypes.archetypes[a].edges.get_add_bundle(b) {
            Some(ab) => {
                let d = ab.archetype_id.0;
                proof {
                    let x = self.archetypes.archetypes[a as int].edges.add_edge(b).unwrap();
                    assert(x.archetype_id.0 == d);
                }
                return d;
            },
            None => {},
        }
        let ghost o = *old(self);
        let (slots, storage) = self.bundle_contents(b);
        let mut new_table = crate::table::copy_slots(&self.archetypes.archetypes[a].table_components);
        let mut new_sparse = crate::table::copy_slots(&self.archetypes.archetypes[a].sparse_set_components);
        let mut status: Vec<ComponentStatus> = Vec::new();
        let mut added = false;
        let ghost arch = o.archetypes.archetypes[a as int];
        let mut k: usize = 0;
        while k < slots.len()
            invariant
                *self == o,
                o.wf(),
                a < o.num_archetypes(),
                o.bundles.contains_id(b),
                arch == o.archetypes.archetypes[a as int],
                slots@ == o.bundles.info(b).relation_ids@,
                storage@ == o.bundles.info(b).storage_types@,
                k <= slots.len(),
                is_sorted(new_table@),
                is_sorted(new_sparse@),
                new_table@.to_set() == o.table_set(a as int) + o.of_storage(slots@.take(k as int).to_set(), StorageType::Table),
                new_sparse@.to_set() == o.sparse_set_set(a as int) + o.of_storage(slots@.take(k as int).to_set(), StorageType::SparseSet),
                new_table@.len() + new_sparse@.len() <= arch.table_components.len() + arch.sparse_set_components.len() + k,
                !added ==> new_table@ == arch.table_components@ && new_sparse@ == arch.sparse_set_components@,
                !added ==> slots@.take(k as int).to_set().subset_of(o.slot_set(a as int)),
                status.len() == k,
                forall|j: int| 0 <= j < k ==> #[trigger] status@[j] == (if o.archetypes.archetypes[a as int].has_slot(slots@[j])
                    { ComponentStatus::Mutated } else { ComponentStatus::Added }),
            decreases slots.len() - k,
        {
            proof { reveal(World::wf_layout); reveal(World::wf_entities); reveal(World::wf_edges); }
            let s = slots[k];
            proof {
                assert(slots@.take(k + 1).to_set() =~= slots@.take(k as int).to_set().insert(s)) by {
                    assert(slots@.take(k + 1) =~= slots@.take(k as int).push(s));
                    slots@.take(k as int).lemma_push_to_set_commute(s);
                }
            }
            if self.archetypes.archetypes[a].contains(s.kind, s.target) {
                status.push(ComponentStatus::Mutated);
            } else {
                status.push(ComponentStatus::Added);
                added = true;
                proof {
                    assert(slots@[k as int] == s);
                    assert(!o.slot_set(a as int).contains(s));
                    assert(!slots@.take(k as int).to_set().contains(s)) by {
                        if slots@.take(k as int).contains(s) {
                            let j = choose|j: int| 0 <= j < k && slots@.take(k as int)[j] == s;
                            assert(slots@[j] == s);
                            assert(crate::table::slots_distinct(o.bundles.info(b).relation_ids@));
                        }
                    }
                    assert(!new_table@.to_set().contains(s));
                    assert(!new_sparse@.to_set().contains(s));
                }
                match storage[k] {
                    StorageType::Table => { insert_sorted(&mut new_table, s); },
                    StorageType::SparseSet => { insert_sorted(&mut new_sparse, s); },
                }
            }
            k = k + 1;
        }
        proof {
            assert(slots@.take(slots@.len() as int) =~= slots@);
        }
        if !added {
            proof {
                self.lemma_add_within(a as int, b);
            }
            proof { assert(self.status_ok(a as int, b, status@)); }
            self.cache_add_edge(a, b, a, status);
            return a;
        }
        proof {
            self.lemma_slots_registered(new_table@, a as int, b, StorageType::Table);
            self.lemma_slots_registered(new_sparse@, a as int, b, StorageType::SparseSet);
        }
        self.ensure_sets(&new_sparse);
        proof {
            assert(self.slots_fit(new_table@, StorageType::Table));
            assert(self.slots_fit(new_sparse@, StorageType::SparseSet));
        }
        let d = self.archetype_for(new_table, new_sparse);
        proof {
            assert(o.status_ok(a as int, b, status@));
            self.lemma_status_same(&o, a as int, b, status@);
        }
        self.cache_add_edge(a, b, d, status);
        d
    }

    /// Adding a bundle whose slots an archetype has already leads back to that archetype.
    #[verifier::spinoff_prover]
    proof fn lemma_add_within(&self, a: int, b: BundleId)
        requires
            self.wf(),
            0 <= a < self.num_archetypes(),
            self.bundle_slots(b).subset_of(self.slot_set(a)),
        ensures
            self.is_add_result(a, b, a),
    {
        reveal(World::wf_layout); reveal(World::wf_entities); reveal(World::wf_edges);
        let arch = self.archetypes.archetypes[a];
        assert(self.table_set(a) + self.of_storage(self.bundle_slots(b), StorageType::Table) =~= self.table_set(a)) by {
            assert forall|x: Slot| self.of_storage(self.bundle_slots(b), StorageType::Table).contains(x) implies self.table_set(a).contains(x) by {
                assert(self.slot_set(a).contains(x));
                if arch.sparse_set_components@.contains(x) {
                    let k = choose|k: int| 0 <= k < arch.sparse_set_components.len() && arch.sparse_set_components@[k] == x;
                    assert(self.components.storage_type_of(arch.sparse_set_components[k].kind) == StorageType::SparseSet);
                }
            }
        }
        assert(self.sparse_set_set(a) + self.of_storage(self.bundle_slots(b), StorageType::SparseSet) =~= self.sparse_set_set(a)) by {
            assert forall|x: Slot| self.of_storage(self.bundle_slots(b), StorageType::SparseSet).contains(x) implies self.sparse_set_set(a).contains(x) by {
                assert(self.slot_set(a).contains(x));
                if arch.table_components@.contains(x) {
                    let k = choose|k: int| 0 <= k < arch.table_components.len() && arch.table_components@[k] == x;
                    assert(self.components.storage_type_of(arch.table_components[k].kind) == StorageType::Table);
                }
            }
        }
    }

    /// The slots of an archetype plus those of a bundle, under one storage class, are registered
    /// and of that class.
    #[verifier::spinoff_prover]
    proof fn lemma_slots_registered(&self, v: Seq<Slot>, a: int, b: BundleId, st: StorageType)
        requires
            self.wf(),
            0 <= a < self.num_archetypes(),
            self.bundles.contains_id(b),
            v.to_set() == (if st == StorageType::Table { self.table_set(a) } else { self.sparse_set_set(a) })
                + self.of_storage(self.bundle_slots(b), st),
        ensures
            forall|k: int| 0 <= k < v.len() ==> {
                &&& self.components.contains_id((#[trigger] v[k]).kind)
                &&& self.components.storage_type_of(v[k].kind) == st
            },
    {
        reveal(World::wf_layout); reveal(World::wf_entities); reveal(World::wf_edges);
        let arch = self.archetypes.archetypes[a];
        let info = self.bundles.info(b);
        assert(info.wf(&self.components));
        assert forall|k: int| 0 <= k < v.len() implies {
            &&& self.components.contains_id((#[trigger] v[k]).kind)
            &&& self.components.storage_type_of(v[k].kind) == st
        } by {
            let x = v[k];
            assert(v.to_set().contains(x));
            if st == StorageType::Table && arch.table_components@.contains(x) {
                let j = choose|j: int| 0 <= j < arch.table_components.len() && arch.table_components@[j] == x;
                assert(arch.table_components[j] == x);
            } else if st == StorageType::SparseSet && arch.sparse_set_components@.contains(x) {
                let j = choose|j: int| 0 <= j < arch.sparse_set_components.len() && arch.sparse_set_components@[j] == x;
                assert(arch.sparse_set_components[j] == x);
            } else {
                assert(self.bundle_slots(b).contains(x));
                let j = choose|j: int| 0 <= j < info.relation_ids.len() && info.relation_ids@[j] == x;
                assert(info.relation_ids[j] == x);
            }
        }
    }

    /// The archetype reached from `a` by removing bundle `b`: the slots of `a` but those of `b`.
    /// A strict removal (`intersection` false) yields `None` when `a` lacks a slot of `b`; a
    /// removal of the intersection always yields an archetype. Caches the transition.
    #[verifier::spinoff_prover]
    pub fn remove_bundle_from_archetype(&mut self, a: usize, b: BundleId, intersection: bool) -> (r: Option<usize>)
        requires
            old(self).wf(),
            a < old(self).num_archetypes(),
            a != 1,
            old(self).bundles.contains_id(b),
            old(self).archetypes.has_room(old(self).add_room(a as int, b)),
        ensures
            final(self).wf(),
            final(self).grows_from(old(self)),
            intersection ==> r is Some,
            !intersection ==> (r is Some <==> old(self).bundle_slots(b).subset_of(old(self).slot_set(a as int))),
            r matches Some(d) ==> d < final(self).num_archetypes() && d != 1 && final(self).is_remove_result(a as int, b, d as int),
            !intersection ==> final(self).archetypes.archetypes[a as int].edges.remove_edge(b) == Some(as_archetype_id(r)),
            intersection ==> final(self).archetypes.archetypes[a as int].edges.remove_intersection_edge(b) == Some(as_archetype_id(r)),
    {
        proof { reveal(World::wf_layout); reveal(World::wf_entities); reveal(World::wf_edges); }
        let cached = if intersection {
            self.archetypes.archetypes[a].edges.get_remove_bundle_intersection(b)
        } else {
            self.archetypes.archetypes[a].edges.get_remove_bundle(b)
        };
        match cached {
            Some(result) => {
                return match result {
                    Some(d) => Some(d.0),
                    None => None,
                };
            },
            None => {},
        }
        let ghost o = *old(self);
        let (slots, storage) = self.bundle_contents(b);
        let mut removed_table: Vec<Slot> = Vec::new();
        let mut removed_sparse: Vec<Slot> = Vec::new();
        let ghost arch = o.archetypes.archetypes[a as int];
        let mut k: usize = 0;
        while k < slots.len()
            invariant
                *self == o,
                o == *old(self),
                o.wf(),
                a < o.num_archetypes(),
                o.bundles.contains_id(b),
                arch == o.archetypes.archetypes[a as int],
                slots@ == o.bundles.info(b).relation_ids@,
                storage@ == o.bundles.info(b).storage_types@,
                k <= slots.len(),
                is_sorted(removed_table@),
                is_sorted(removed_sparse@),
                removed_table@.to_set() == slots@.take(k as int).to_set().intersect(o.table_set(a as int)),
                removed_sparse@.to_set() == slots@.take(k as int).to_set().intersect(o.sparse_set_set(a as int)),
                !intersection ==> slots@.take(k as int).to_set().subset_of(o.slot_set(a as int)),
            decreases slots.len() - k,
        {
            proof { reveal(World::wf_layout); reveal(World::wf_entities); reveal(World::wf_edges); }
            let s = slots[k];
            proof {
                assert(slots@.take(k + 1).to_set() =~= slots@.take(k as int).to_set().insert(s)) by {
                    assert(slots@.take(k + 1) =~= slots@.take(k as int).push(s));
                    slots@.take(k as int).lemma_push_to_set_commute(s);
                }
                assert(slots@[k as int] == s);
                assert(!slots@.take(k as int).to_set().contains(s)) by {
                    if slots@.take(k as int).contains(s) {
                        let j = choose|j: int| 0 <= j < k && slots@.take(k as int)[j] == s;
                        assert(slots@[j] == s);
                        assert(crate::table::slots_distinct(o.bundles.info(b).relation_ids@));
                    }
                }
                assert(o.bundles.info(b).wf(&o.components));
                assert(storage@[k as int] == o.components.storage_type_of(s.kind));
            }
            if self.archetypes.archetypes[a].contains(s.kind, s.target) {
                match storage[k] {
                    StorageType::Table => {
                        proof {
                            if arch.sparse_set_components@.contains(s) {
                                let j = choose|j: int| 0 <= j < arch.sparse_set_components.len() && arch.sparse_set_components@[j] == s;
                                assert(o.components.storage_type_of(arch.sparse_set_components[j].kind) == StorageType::SparseSet);
                            }
                        }
                        proof { assert(!removed_table@.to_set().contains(s)); }
                        insert_sorted(&mut removed_table, s);
                        proof {
                            assert(removed_table@.to_set() =~= slots@.take(k + 1).to_set().intersect(o.table_set(a as int)));
                            assert(removed_sparse@.to_set() =~= slots@.take(k + 1).to_set().intersect(o.sparse_set_set(a as int)));
                        }
                    },
                    StorageType::SparseSet => {
                        proof {
                            if arch.table_components@.contains(s) {
                                let j = choose|j: int| 0 <= j < arch.table_components.len() && arch.table_components@[j] == s;
                                assert(o.components.storage_type_of(arch.table_components[j].kind) == StorageType::Table);
                            }
                        }
                        proof { assert(!removed_sparse@.to_set().contains(s)); }
                        insert_sorted(&mut removed_sparse, s);
                        proof {
                            assert(removed_table@.to_set() =~= slots@.take(k + 1).to_set().intersect(o.table_set(a as int)));
                            assert(removed_sparse@.to_set() =~= slots@.take(k + 1).to_set().intersect(o.sparse_set_set(a as int)));
                        }
                    },
                }
            } else {
                if !intersection {
                    proof {
                        assert(!o.bundle_slots(b).subset_of(o.slot_set(a as int))) by {
                            assert(o.bundle_slots(b).contains(s));
                        }
                    }
                    self.cache_remove_edge(a, b, None, false);
                    return None;
                }
                proof {
                    assert(removed_table@.to_set() =~= slots@.take(k + 1).to_set().intersect(o.table_set(a as int)));
                    assert(removed_sparse@.to_set() =~= slots@.take(k + 1).to_set().intersect(o.sparse_set_set(a as int)));
                }
            }
            k = k + 1;
        }
        proof {
            assert(slots@.take(slots@.len() as int) =~= slots@);
        }
        let mut next_table = crate::table::copy_slots(&self.archetypes.archetypes[a].table_components);
        let mut next_sparse = crate::table::copy_slots(&self.archetypes.archetypes[a].sparse_set_components);
        sorted_remove(&mut next_table, removed_table.as_slice());
        sorted_remove(&mut next_sparse, removed_sparse.as_slice());
        proof {
            assert(removed_table@.to_set() == o.bundle_slots(b).intersect(o.table_set(a as int)));
            assert(removed_sparse@.to_set() == o.bundle_slots(b).intersect(o.sparse_set_set(a as int)));
            assert forall|x: Slot| next_table@.to_set().contains(x) <==> (o.table_set(a as int) - o.bundle_slots(b)).contains(x) by {
                assert(next_table@.contains(x) <==> arch.table_components@.contains(x) && !removed_table@.contains(x));
                assert(removed_table@.contains(x) <==> removed_table@.to_set().contains(x));
            }
            assert forall|x: Slot| next_sparse@.to_set().contains(x) <==> (o.sparse_set_set(a as int) - o.bundle_slots(b)).contains(x) by {
                assert(next_sparse@.contains(x) <==> arch.sparse_set_components@.contains(x) && !removed_sparse@.contains(x));
                assert(removed_sparse@.contains(x) <==> removed_sparse@.to_set().contains(x));
            }
            assert(next_table@.to_set() =~= o.table_set(a as int) - o.bundle_slots(b));
            assert(next_sparse@.to_set() =~= o.sparse_set_set(a as int) - o.bundle_slots(b));
            assert forall|i: int| 0 <= i < next_table@.len() implies {
                &&& self.components.contains_id((#[trigger] next_table@[i]).kind)
                &&& self.components.storage_type_of(next_table@[i].kind) == StorageType::Table
            } by {
                assert(next_table@.contains(next_table@[i]));
                let j = choose|j: int| 0 <= j < arch.table_components.len() && arch.table_components@[j] == next_table@[i];
                assert(arch.table_components[j] == next_table@[i]);
            }
            assert forall|i: int| 0 <= i < next_sparse@.len() implies {
                &&& self.components.contains_id((#[trigger] next_sparse@[i]).kind)
                &&& self.components.storage_type_of(next_sparse@[i].kind) == StorageType::SparseSet
                &&& self.sparse_sets.has_set(next_sparse@[i])
            } by {
                assert(next_sparse@.contains(next_sparse@[i]));
                let j = choose|j: int| 0 <= j < arch.sparse_set_components.len() && arch.sparse_set_components@[j] == next_sparse@[i];
                assert(arch.sparse_set_components[j] == next_sparse@[i]);
            }
            assert(self.slots_fit(next_table@, StorageType::Table));
            assert(self.slots_fit(next_sparse@, StorageType::SparseSet));
        }
        let d = self.archetype_for(next_table, next_sparse);
        proof {
            assert(self.table_set(a as int) == o.table_set(a as int));
            assert(self.sparse_set_set(a as int) == o.sparse_set_set(a as int));
            assert(self.is_remove_result(a as int, b, d as int));
            if !intersection {
                assert(o.bundle_slots(b).subset_of(o.slot_set(a as int)));
            }
        }
        self.cache_remove_edge(a, b, Some(d), intersection);
        Some(d)
    }

    /// Stores `value` for live entity `e` in the sparse set of slot `s`.
    #[verifier::spinoff_prover]
    fn write_sparse(&mut self, e: Entity, s: Slot, value: Vec<u8>, change_tick: u32)
        requires
            old(self).wf(),
            old(self).entities.is_live(e),
            old(self).sparse_sets.has_set(s),
        ensures
            final(self).wf(),
            final(self).keeps_entities(old(self)),
            final(self).archetypes == old(self).archetypes,
            final(self).tables == old(self).tables,
            final(self).removed_components == old(self).removed_components,
            final(self).change_tick == old(self).change_tick,
            final(self).last_change_tick == old(self).last_change_tick,
            final(self).sparse_sets.sets.len() == old(self).sparse_sets.sets.len(),
            final(self).set_index(s) == old(self).set_index(s),
            final(self).sparse_sets.sets[old(self).set_index(s)].contains(e),
            final(self).sparse_sets.sets[old(self).set_index(s)].value_of(e) == value,
            final(self).sparse_sets.sets[old(self).set_index(s)].ticks_of(e).changed == change_tick,
            old(self).sparse_sets.sets[old(self).set_index(s)].contains(e) ==>
                final(self).sparse_sets.sets[old(self).set_index(s)].ticks_of(e).added == old(self).sparse_sets.sets[old(self).set_index(s)].ticks_of(e).added,
            forall|k: int| 0 <= k < final(self).sparse_sets.sets.len() && k != old(self).set_index(s) ==>
                #[trigger] final(self).sparse_sets.sets[k] == old(self).sparse_sets.sets[k],
            forall|x: Entity| x != e && old(self).entities.is_live(x) ==> {
                &&& (#[trigger] final(self).sparse_sets.sets[old(self).set_index(s)].contains(x)) == old(self).sparse_sets.sets[old(self).set_index(s)].contains(x)
                &&& old(self).sparse_sets.sets[old(self).set_index(s)].contains(x) ==>
                    final(self).sparse_sets.sets[old(self).set_index(s)].value_of(x) == old(self).sparse_sets.sets[old(self).set_index(s)].value_of(x)
                    && final(self).sparse_sets.sets[old(self).set_index(s)].ticks_of(x) == old(self).sparse_sets.sets[old(self).set_index(s)].ticks_of(x)
            },
    {
        proof { reveal(World::wf_layout); reveal(World::wf_entities); reveal(World::wf_edges); }
        let ghost o = *old(self);
        let ghost ki = o.set_index(s);
        match self.sparse_sets.index_of(s.kind, s.target) {
            Some(k) => {
                proof {
                    assert(o.sparse_sets.sets[ki].slot == s);
                    assert(k == ki);
                }
                self.sparse_sets.sets[k].insert(e, value, change_tick);
                proof {
                    assert forall|x: Entity| x != e && o.entities.is_live(x) implies x.id != e.id by {}
                    assert forall|k2: int, k3: int| 0 <= k2 < self.sparse_sets.sets.len() && 0 <= k3 < self.sparse_sets.sets.len() && k2 != k3
                        implies (#[trigger] self.sparse_sets.sets[k2]).slot != (#[trigger] self.sparse_sets.sets[k3]).slot by {
                        assert(o.sparse_sets.sets[k2].slot != o.sparse_sets.sets[k3].slot);
                    }
                    assert forall|k2: int| 0 <= k2 < self.sparse_sets.sets.len() implies (#[trigger] self.sparse_sets.sets[k2]).wf() by {
                        if k2 != ki { assert(self.sparse_sets.sets[k2] == o.sparse_sets.sets[k2]); }
                    }
                    assert(self.sparse_sets.wf());
                    assert forall|k2: int, x: Entity| 0 <= k2 < o.sparse_sets.sets.len() && o.entities.is_live(x)
                        && (#[trigger] o.sparse_sets.sets[k2]).contains(x) implies #[trigger] self.sparse_sets.sets[k2].contains(x) by {
                        if k2 == ki && x != e {
                            assert(x.id != e.id);
                        }
                    }
                    assert forall|k2: int| 0 <= k2 < o.sparse_sets.sets.len() implies (#[trigger] self.sparse_sets.sets[k2]).slot == o.sparse_sets.sets[k2].slot by {
                        if k2 != ki { assert(self.sparse_sets.sets[k2] == o.sparse_sets.sets[k2]); }
                    }
                    assert(self.keeps_entities(&o));
                    self.lemma_grow_entities(&o);
                    self.lemma_grow_layout(&o);
                    self.lemma_edges_kept(&o);
                    self.lemma_set_index_kept(&o, s);
                }
            },
            None => {},
        }
    }

    /// Writes `value` into the column of slot `s` of table `t` at `row`: as a fresh value stamped
    /// added and changed at `change_tick`, or over an existing one, stamped changed.
    #[verifier::spinoff_prover]
    fn write_column(&mut self, t: usize, s: Slot, row: usize, value: Vec<u8>, change_tick: u32, added: bool)
        requires
            old(self).wf(),
            t < old(self).tables.tables.len(),
            old(self).tables.tables[t as int].has_slot(s),
            row < old(self).tables.tables[t as int].entities.len(),
        ensures
            final(self).wf(),
            final(self).keeps_entities(old(self)),
            final(self).archetypes == old(self).archetypes,
            final(self).sparse_sets == old(self).sparse_sets,
            final(self).removed_components == old(self).removed_components,
            final(self).change_tick == old(self).change_tick,
            final(self).last_change_tick == old(self).last_change_tick,
            final(self).tables.tables.len() == old(self).tables.tables.len(),
            forall|t2: int| 0 <= t2 < final(self).tables.tables.len() && t2 != t ==> #[trigger] final(self).tables.tables[t2] == old(self).tables.tables[t2],
            final(self).tables.tables[t as int].same_shape(&old(self).tables.tables[t as int]),
            final(self).tables.tables[t as int].entities@ == old(self).tables.tables[t as int].entities@,
            final(self).column_pos(t as int, s) == old(self).column_pos(t as int, s),
            final(self).tables.tables[t as int].columns[old(self).column_pos(t as int, s)].data@
                == old(self).tables.tables[t as int].columns[old(self).column_pos(t as int, s)].data@.update(row as int, value),
            final(self).tables.tables[t as int].columns[old(self).column_pos(t as int, s)].ticks@
                == old(self).tables.tables[t as int].columns[old(self).column_pos(t as int, s)].ticks@.update(row as int,
                    if added { ComponentTicks::new_spec(change_tick) } else {
                        ComponentTicks { added: old(self).tables.tables[t as int].columns[old(self).column_pos(t as int, s)].ticks[row as int].added, changed: change_tick }
                    }),
            forall|c: int| 0 <= c < final(self).tables.tables[t as int].columns.len() && c != old(self).column_pos(t as int, s) ==>
                #[trigger] final(self).tables.tables[t as int].columns[c] == old(self).tables.tables[t as int].columns[c],
    {
        proof { reveal(World::wf_layout); reveal(World::wf_entities); reveal(World::wf_edges); }
        let ghost o = *old(self);
        let ghost cp = o.column_pos(t as int, s);
        match self.tables.tables[t].column_index(s.kind, s.target) {
            Some(c) => {
                proof {
                    assert(o.tables.tables[t as int].columns[cp].relationship == s);
                    assert(o.tables.tables[t as int].wf());
                    assert(c == cp);
                    assert(o.tables.tables[t as int].columns[c as int].wf());
                }
                if added {
                    self.tables.tables[t].columns[c].initialize(row, value, ComponentTicks::new(change_tick));
                } else {
                    self.tables.tables[t].columns[c].replace(row, value, change_tick);
                }
                proof {
                    let nt = self.tables.tables[t as int];
                    let ot = o.tables.tables[t as int];
                    assert forall|c2: int| 0 <= c2 < nt.columns.len() implies (#[trigger] nt.columns[c2]).wf()
                        && nt.columns[c2].data.len() == nt.entities.len() by {
                        if c2 != c { assert(nt.columns[c2] == ot.columns[c2]); }
                    }
                    assert forall|c2: int, c3: int| 0 <= c2 < nt.columns.len() && 0 <= c3 < nt.columns.len() && c2 != c3
                        implies (#[trigger] nt.columns[c2]).relationship != (#[trigger] nt.columns[c3]).relationship by {
                        assert(ot.columns[c2].relationship != ot.columns[c3].relationship);
                    }
                    assert(nt.wf());
                    assert forall|t2: int| 0 <= t2 < self.tables.tables.len() implies (#[trigger] self.tables.tables[t2]).wf() by {
                        if t2 != t { assert(self.tables.tables[t2] == o.tables.tables[t2]); }
                    }
                    assert(nt.slots() =~= ot.slots());
                    assert forall|t2: int| 0 <= t2 < o.tables.tables.len() implies (#[trigger] self.tables.tables[t2]).entities@ == o.tables.tables[t2].entities@
                        && self.tables.tables[t2].slots() == o.tables.tables[t2].slots() by {
                        if t2 != t { assert(self.tables.tables[t2] == o.tables.tables[t2]); }
                    }
                    assert(self.keeps_entities(&o));
                    self.lemma_grow_entities(&o);
                    self.lemma_grow_layout(&o);
                    self.lemma_edges_kept(&o);
                    assert(nt.columns[cp].relationship == s);
                    assert(self.column_pos(t as int, s) == cp);
                }
            },
            None => {},
        }
    }

    /// The values (and ticks) of `e` in the table slots that archetypes `a` (in `old`) and `d`
    /// share are as they were.
    #[verifier::opaque]
    pub open spec fn carries_table_values(&self, old: &World, e: Entity, a: int, d: int) -> bool {
        forall|s: Slot| old.archetypes.archetypes[a].table_components@.contains(s)
            && old.archetypes.archetypes[d].table_components@.contains(s) ==>
            #[trigger] self.value_of(e, s) == old.value_of(e, s) && self.ticks_of(e, s) == old.ticks_of(e, s)
    }

    /// The sparse-set values of `e` in sets of slots outside `excluded` are as in `old`.
    #[verifier::opaque]
    pub open spec fn sparse_values_kept(&self, old: &World, e: Entity, excluded: Seq<Slot>) -> bool {
        forall|s: Slot| old.sparse_sets.has_set(s) && !excluded.contains(s) && old.sparse_sets.sets[old.set_index(s)].contains(e) ==> {
            &&& #[trigger] self.sparse_sets.sets[old.set_index(s)].contains(e)
            &&& self.sparse_sets.sets[old.set_index(s)].value_of(e) == old.sparse_sets.sets[old.set_index(s)].value_of(e)
            &&& self.sparse_sets.sets[old.set_index(s)].ticks_of(e) == old.sparse_sets.sets[old.set_index(s)].ticks_of(e)
        }
    }

    /// The values of `e` in the table slots of its archetype outside `excluded` are as in `old`.
    #[verifier::opaque]
    pub open spec fn table_values_kept(&self, old: &World, e: Entity, a: int, excluded: Seq<Slot>) -> bool {
        forall|s: Slot| #![trigger self.value_of(e, s)] old.archetypes.archetypes[a].table_components@.contains(s)
            && !excluded.contains(s) ==>
            self.value_of(e, s) == old.value_of(e, s) && self.ticks_of(e, s) == old.ticks_of(e, s)
    }

    /// `e` holds `vals[j]` in `slots[j]` for each `j < k` whose storage is not a sparse set.
    #[verifier::opaque]
    pub open spec fn table_values_written(&self, e: Entity, slots: Seq<Slot>, storage: Seq<StorageType>, vals: Seq<Vec<u8>>, k: int) -> bool {
        forall|j: int| 0 <= j < k && storage[j] != StorageType::SparseSet ==> #[trigger] self.value_of(e, slots[j]) == vals[j]
    }

    /// Every slot that live entity `e` has in `self` it had in `old`, with the same value and
    /// ticks.
    #[verifier::opaque]
    pub open spec fn keeps_values_of(&self, old: &World, e: Entity) -> bool {
        forall|s: Slot| #![trigger self.value_of(e, s)] self.has(e, s) ==>
            self.value_of(e, s) == old.value_of(e, s) && self.ticks_of(e, s) == old.ticks_of(e, s)
    }

    /// In table `t` the column of slot `s` is the one at `c`.
    #[verifier::spinoff_prover]
    proof fn lemma_column_pos(&self, t: int, s: Slot, c: int)
        requires
            self.tables.wf(),
            0 <= t < self.tables.tables.len(),
            0 <= c < self.tables.tables[t].columns.len(),
            self.tables.tables[t].columns[c].relationship == s,
        ensures
            self.column_pos(t, s) == c,
    {
        reveal(World::wf_layout); reveal(World::wf_entities); reveal(World::wf_edges);
        let p = self.column_pos(t, s);
        assert(self.tables.tables[t].columns[p].relationship == s);
        assert(self.tables.tables[t].wf());
    }

    /// A slot in the table slots of archetype `a` has a column in the archetype's table.
    #[verifier::spinoff_prover]
    proof fn lemma_table_slot_column(&self, a: int, s: Slot)
        requires
            self.wf_layout(),
            0 <= a < self.num_archetypes(),
            self.archetypes.archetypes[a].table_components@.contains(s),
        ensures
            0 <= self.column_pos(self.arch_table(a), s) < self.tables.tables[self.arch_table(a)].columns.len(),
            self.tables.tables[self.arch_table(a)].columns[self.column_pos(self.arch_table(a), s)].relationship == s,
            self.tables.tables[self.arch_table(a)].has_slot(s),
    {
        reveal(World::wf_layout); reveal(World::wf_entities); reveal(World::wf_edges);
        let arch = self.archetypes.archetypes[a];
        let t = self.arch_table(a);
        let k = choose|k: int| 0 <= k < arch.table_components.len() && arch.table_components@[k] == s;
        assert(self.tables.tables[t].slots()[k] == s);
        assert(self.tables.tables[t].columns[k].relationship == s);
        self.lemma_column_pos(t, s, k);
    }

    /// Moves live entity `e` from its archetype into archetype `d`; its table values follow it
    /// where `d`'s table has their slots.
    #[verifier::rlimit(100)]
    #[verifier::spinoff_prover]
    fn relocate(&mut self, e: Entity, d: usize) -> (row: usize)
        requires
            old(self).wf(),
            old(self).entities.is_live(e),
            d < old(self).num_archetypes(),
            d != 1,
            d != old(self).entities.location_of(e).archetype_id.0,
            forall|k: int| 0 <= k < old(self).archetypes.archetypes[d as int].sparse_set_components.len() ==>
                old(self).sparse_sets.sets[old(self).set_index(#[trigger] old(self).archetypes.archetypes[d as int].sparse_set_components[k])].contains(e),
        ensures
            final(self).wf(),
            final(self).entities.is_live(e),
            final(self).entities.location_of(e).archetype_id.0 == d,
            final(self).row_of(e) == row,
            forall|x: Entity| #[trigger] final(self).entities.is_live(x) == old(self).entities.is_live(x),
            forall|x: Entity| final(self).entities.is_live(x) && x != e ==>
                final(self).entities.location_of(x).archetype_id == old(self).entities.location_of(x).archetype_id,
            final(self).components == old(self).components,
            final(self).bundles == old(self).bundles,
            final(self).sparse_sets == old(self).sparse_sets,
            final(self).removed_components == old(self).removed_components,
            final(self).change_tick == old(self).change_tick,
            final(self).last_change_tick == old(self).last_change_tick,
            final(self).archetypes.archetypes.len() == old(self).archetypes.archetypes.len(),
            forall|a: int| 0 <= a < final(self).num_archetypes() ==> (#[trigger] final(self).archetypes.archetypes[a]).same_layout(&old(self).archetypes.archetypes[a])
                && final(self).archetypes.archetypes[a].edges == old(self).archetypes.archetypes[a].edges,
            final(self).tables.tables.len() == old(self).tables.tables.len(),
            forall|t: int| 0 <= t < final(self).tables.tables.len() ==> (#[trigger] final(self).tables.tables[t]).same_shape(&old(self).tables.tables[t]),
            final(self).carries_table_values(old(self), e, old(self).entities.location_of(e).archetype_id.0 as int, d as int),
            old(self).arch_table(old(self).entities.location_of(e).archetype_id.0 as int) != old(self).arch_table(d as int) ==>
                final(self).tables.tables[old(self).arch_table(old(self).entities.location_of(e).archetype_id.0 as int)].entities.len() + 1
                    == old(self).tables.tables[old(self).arch_table(old(self).entities.location_of(e).archetype_id.0 as int)].entities.len(),
    {
        let ghost o = *old(self);
        let loc = self.entities.get(e).unwrap();
        let a = loc.archetype_id.0;
        proof {
            o.lemma_live_location(e);
        }
        let t1 = self.archetypes.archetypes[a].table_id.0;
        let t2 = self.archetypes.archetypes[d].table_id.0;
        proof {
            assert(o.arch_table(d as int) == t2);
            assert(o.arch_table(a as int) == t1);
        }
        let r1 = self.detach(e, loc);
        let ghost after_detach = *self;
        let r2 = if t1 == t2 {
            r1
        } else {
            self.move_detached(e, t1, r1, t2)
        };
        let ghost before_attach = *self;
        proof {
            assert forall|k: int| 0 <= k < self.archetypes.archetypes[d as int].sparse_set_components.len() implies
                self.sparse_sets.sets[self.set_index(#[trigger] self.archetypes.archetypes[d as int].sparse_set_components[k])].contains(e) by {
                assert(self.archetypes.archetypes[d as int].sparse_set_components[k] == o.archetypes.archetypes[d as int].sparse_set_components[k]);
            }
        }
        self.attach(e, d, r2);
        proof {
            assert forall|x: Entity| self.entities.is_live(x) && x != e implies
                self.entities.location_of(x).archetype_id == o.entities.location_of(x).archetype_id by {
                if x.id == e.id {
                    assert(false);
                }
            }
            assert forall|t: int| 0 <= t < self.tables.tables.len() implies (#[trigger] self.tables.tables[t]).same_shape(&o.tables.tables[t]) by {
                if t1 != t2 && (t == t1 || t == t2) {
                } else {
                    assert(self.tables.tables[t] == o.tables.tables[t]);
                }
            }
            assert(a as int == o.entities.location_of(e).archetype_id.0);
            self.lemma_live_location(e);
            assert(self.arch_table(d as int) == t2);
            assert forall|s: Slot| o.archetypes.archetypes[a as int].table_components@.contains(s)
                && o.archetypes.archetypes[d as int].table_components@.contains(s) implies
                #[trigger] self.value_of(e, s) == o.value_of(e, s) && self.ticks_of(e, s) == o.ticks_of(e, s) by {
                o.lemma_table_slot_column(a as int, s);
                o.lemma_table_slot_column(d as int, s);
                let c1 = o.column_pos(t1 as int, s);
                let c2 = o.column_pos(t2 as int, s);
                assert(self.archetypes.archetypes[d as int].table_components@ == o.archetypes.archetypes[d as int].table_components@);
                assert(self.row_of(e) == r2);
                assert(o.row_of(e) == r1);
                assert(self.tables.tables[t2 as int].columns[c2].relationship == s);
                self.lemma_column_pos(t2 as int, s, c2);
                if t1 == t2 {
                    assert(self.tables.tables[t2 as int] == o.tables.tables[t2 as int]);
                } else {
                    assert(self.tables.tables[t2 as int].is_row_received(&o.tables.tables[t2 as int], &o.tables.tables[t1 as int], r1 as int));
                    assert(o.tables.tables[t1 as int].columns[c1].relationship == o.tables.tables[t2 as int].columns[c2].relationship);
                    assert(self.tables.tables[t2 as int].columns[c2].data@ == o.tables.tables[t2 as int].columns[c2].data@.push(o.tables.tables[t1 as int].columns[c1].data[r1 as int]));
                    assert(self.tables.tables[t2 as int].columns[c2].ticks@ == o.tables.tables[t2 as int].columns[c2].ticks@.push(o.tables.tables[t1 as int].columns[c1].ticks[r1 as int]));
                    assert(o.tables.tables[t2 as int].wf());
                    assert(o.tables.tables[t2 as int].columns[c2].data@.len() == o.tables.tables[t2 as int].entities.len());
                    assert(r2 == o.tables.tables[t2 as int].entities.len());
                }
                assert(self.value_of(e, s) == self.tables.tables[t2 as int].columns[c2].data[r2 as int]);
                assert(o.value_of(e, s) == o.tables.tables[t1 as int].columns[c1].data[r1 as int]);
                assert(self.ticks_of(e, s) == self.tables.tables[t2 as int].columns[c2].ticks[r2 as int]);
                assert(o.ticks_of(e, s) == o.tables.tables[t1 as int].columns[c1].ticks[r1 as int]);
            }
            reveal(World::carries_table_values);
            assert(self.carries_table_values(&o, e, a as int, d as int));
        }
        r2
    }

    /// Where a live entity stands in a well-formed world.
    #[verifier::spinoff_prover]
    proof fn lemma_live_location(&self, e: Entity)
        requires
            self.wf(),
            self.entities.is_live(e),
        ensures
            ({
                let loc = self.entities.location_of(e);
                let a = loc.archetype_id.0 as int;
                &&& 0 <= a < self.num_archetypes()
                &&& a != 1
                &&& loc.index < self.archetypes.archetypes[a].entities.len()
                &&& self.archetypes.archetypes[a].entities[loc.index as int] == e
                &&& 0 <= self.arch_table(a) < self.tables.tables.len()
                &&& 0 <= self.row_of(e) < self.tables.tables[self.arch_table(a)].entities.len()
            }),
            forall|a: int| 0 <= a < self.num_archetypes() ==> 0 <= #[trigger] self.arch_table(a) < self.tables.tables.len(),
            self.entities.wf(),
            self.components.wf(),
            self.archetypes.wf(),
            self.tables.wf(),
            self.sparse_sets.wf(),
            self.bundles.wf(&self.components),
    {
        reveal(World::wf_layout);
        reveal(World::wf_entities);
        let loc = self.entities.location_of(e);
        let a = loc.archetype_id.0 as int;
        assert(self.entities.meta[e.id as int].location is Some);
        assert(self.archetypes.archetypes[a].entities[loc.index as int] == e);
        assert forall|a2: int| 0 <= a2 < self.num_archetypes() implies 0 <= #[trigger] self.arch_table(a2) < self.tables.tables.len() by {
            assert(self.archetypes.archetypes[a2].table_id.0 < self.tables.tables.len());
        }
    }

    /// Every live entity is in the sparse set of each sparse-set slot of its archetype.
    #[verifier::spinoff_prover]
    proof fn lemma_sparse_membership(&self, e: Entity)
        requires
            self.wf(),
            self.entities.is_live(e),
        ensures
            forall|s: Slot| #[trigger] self.archetypes.archetypes[self.entities.location_of(e).archetype_id.0 as int].sparse_set_components@.contains(s)
                ==> self.sparse_sets.has_set(s) && self.sparse_sets.sets[self.set_index(s)].contains(e),
            forall|s: Slot| #[trigger] self.archetypes.archetypes[self.entities.location_of(e).archetype_id.0 as int].table_components@.contains(s)
                ==> self.components.storage_type_of(s.kind) == StorageType::Table,
            forall|s: Slot| #[trigger] self.archetypes.archetypes[self.entities.location_of(e).archetype_id.0 as int].sparse_set_components@.contains(s)
                ==> self.components.storage_type_of(s.kind) == StorageType::SparseSet,
    {
        reveal(World::wf_layout);
        reveal(World::wf_entities);
        self.lemma_live_location(e);
        let loc = self.entities.location_of(e);
        let a = loc.archetype_id.0 as int;
        let arch = self.archetypes.archetypes[a];
        assert(arch.entities[loc.index as int] == e);
        assert forall|s: Slot| #[trigger] arch.sparse_set_components@.contains(s)
            implies self.sparse_sets.has_set(s) && self.sparse_sets.sets[self.set_index(s)].contains(e)
            && self.components.storage_type_of(s.kind) == StorageType::SparseSet by {
            let k = choose|k: int| 0 <= k < arch.sparse_set_components.len() && arch.sparse_set_components@[k] == s;
            assert(arch.sparse_set_components[k] == s);
        }
        assert forall|s: Slot| #[trigger] arch.table_components@.contains(s)
            implies self.components.storage_type_of(s.kind) == StorageType::Table by {
            let k = choose|k: int| 0 <= k < arch.table_components.len() && arch.table_components@[k] == s;
            assert(arch.table_components[k] == s);
        }
    }

    /// Writes the sparse-set values of a bundle for `e` and hands back the table values, each at
    /// its position in the bundle (blank where the slot is a sparse-set one).
    #[verifier::spinoff_prover]
    fn stage_sparse(&mut self, e: Entity, slots: &Vec<Slot>, storage: &Vec<StorageType>, values: Vec<Vec<u8>>) -> (r: Vec<Vec<u8>>)
        requires
            old(self).wf(),
            old(self).entities.is_live(e),
            crate::table::slots_distinct(slots@),
            storage.len() == slots.len(),
            values.len() == slots.len(),
            forall|k: int| 0 <= k < slots.len() && storage@[k] == StorageType::SparseSet ==> old(self).sparse_sets.has_set(#[trigger] slots@[k]),
        ensures
            final(self).wf(),
            final(self).keeps_entities(old(self)),
            final(self).archetypes == old(self).archetypes,
            final(self).tables == old(self).tables,
            final(self).removed_components == old(self).removed_components,
            final(self).change_tick == old(self).change_tick,
            final(self).last_change_tick == old(self).last_change_tick,
            final(self).sparse_sets.sets.len() == old(self).sparse_sets.sets.len(),
            r.len() == slots.len(),
            forall|k: int| 0 <= k < slots.len() && storage@[k] != StorageType::SparseSet ==> #[trigger] r@[k] == values@[k],
            forall|k: int| 0 <= k < slots.len() && storage@[k] == StorageType::SparseSet ==> {
                &&& final(self).sparse_sets.sets[final(self).set_index(#[trigger] slots@[k])].contains(e)
                &&& final(self).sparse_sets.sets[final(self).set_index(slots@[k])].value_of(e) == values@[k]
                &&& final(self).sparse_sets.sets[final(self).set_index(slots@[k])].ticks_of(e).changed == old(self).change_tick
            },
            forall|s: Slot| old(self).sparse_sets.has_set(s) ==> #[trigger] final(self).set_index(s) == old(self).set_index(s),
            final(self).sparse_values_kept(old(self), e, slots@),
    {
        let ghost o = *old(self);
        let ghost orig = values@;
        let mut values = values;
        let mut staged: Vec<Vec<u8>> = Vec::new();
        let tick = self.change_tick;
        let mut k: usize = 0;
        proof {
            o.lemma_live_location(e);
            reveal(World::sparse_values_kept);
            assert(self.sparse_values_kept(&o, e, slots@.take(0)));
        }
        while k < slots.len()
            invariant
                o == *old(self),
                o.wf(),
                o.entities.is_live(e),
                self.wf(),
                self.keeps_entities(&o),
                self.entities == o.entities,
                self.components == o.components,
                self.bundles == o.bundles,
                self.archetypes == o.archetypes,
                self.tables == o.tables,
                self.removed_components == o.removed_components,
                self.change_tick == o.change_tick,
                self.last_change_tick == o.last_change_tick,
                tick == o.change_tick,
                self.sparse_sets.sets.len() == o.sparse_sets.sets.len(),
                forall|k2: int| 0 <= k2 < o.sparse_sets.sets.len() ==> (#[trigger] self.sparse_sets.sets[k2]).slot == o.sparse_sets.sets[k2].slot,
                forall|k2: int, x: Entity| 0 <= k2 < o.sparse_sets.sets.len() && o.entities.is_live(x)
                    && (#[trigger] o.sparse_sets.sets[k2]).contains(x) ==> #[trigger] self.sparse_sets.sets[k2].contains(x),
                crate::table::slots_distinct(slots@),
                storage.len() == slots.len(),
                values.len() == slots.len(),
                k <= slots.len(),
                staged.len() == k,
                forall|j: int| 0 <= j < slots.len() && storage@[j] == StorageType::SparseSet ==> o.sparse_sets.has_set(#[trigger] slots@[j]),
                forall|j: int| k <= j < slots.len() ==> #[trigger] values@[j] == orig[j],
                forall|j: int| 0 <= j < k && storage@[j] != StorageType::SparseSet ==> #[trigger] staged@[j] == orig[j],
                forall|s: Slot| o.sparse_sets.has_set(s) ==> #[trigger] self.set_index(s) == o.set_index(s),
                forall|j: int| 0 <= j < k && storage@[j] == StorageType::SparseSet ==> {
                    &&& self.sparse_sets.sets[o.set_index(#[trigger] slots@[j])].contains(e)
                    &&& self.sparse_sets.sets[o.set_index(slots@[j])].value_of(e) == orig[j]
                    &&& self.sparse_sets.sets[o.set_index(slots@[j])].ticks_of(e).changed == tick
                },
                self.sparse_values_kept(&o, e, slots@.take(k as int)),
            decreases slots.len() - k,
        {
            let mut v: Vec<u8> = Vec::new();
            values.set_and_swap(k, &mut v);
            let ghost before = *self;
            if storage[k] == StorageType::SparseSet {
                let sl = slots[k];
                proof {
                    assert(o.sparse_sets.has_set(slots@[k as int]));
                    assert(before.sparse_sets.has_set(sl)) by {
                        let j = choose|j: int| 0 <= j < o.sparse_sets.sets.len() && (#[trigger] o.sparse_sets.sets[j]).slot == sl;
                        assert(before.sparse_sets.sets[j].slot == sl);
                    }
                }
                self.write_sparse(e, sl, v, tick);
                staged.push(Vec::new());
                proof {
                    let ki = o.set_index(sl);
                    assert(before.set_index(sl) == ki);
                    self.lemma_live_location(e);
                    assert forall|k2: int| 0 <= k2 < o.sparse_sets.sets.len() implies (#[trigger] self.sparse_sets.sets[k2]).slot == o.sparse_sets.sets[k2].slot by {
                        assert(before.sparse_sets.sets[k2].slot == o.sparse_sets.sets[k2].slot);
                    }
                    assert forall|k2: int, x: Entity| 0 <= k2 < o.sparse_sets.sets.len() && o.entities.is_live(x)
                        && (#[trigger] o.sparse_sets.sets[k2]).contains(x) implies #[trigger] self.sparse_sets.sets[k2].contains(x) by {
                        assert(before.sparse_sets.sets[k2].contains(x));
                    }
                    assert forall|s: Slot| o.sparse_sets.has_set(s) implies #[trigger] self.set_index(s) == o.set_index(s) by {
                        self.lemma_set_index_kept(&o, s);
                    }
                    assert(self.keeps_entities(&o));
                    assert forall|j: int| 0 <= j < k + 1 && storage@[j] == StorageType::SparseSet implies {
                        &&& self.sparse_sets.sets[o.set_index(#[trigger] slots@[j])].contains(e)
                        &&& self.sparse_sets.sets[o.set_index(slots@[j])].value_of(e) == orig[j]
                        &&& self.sparse_sets.sets[o.set_index(slots@[j])].ticks_of(e).changed == tick
                    } by {
                        if j < k {
                            assert(slots@[j] != sl);
                            assert(o.set_index(slots@[j]) != ki) by {
                                assert(o.sparse_sets.sets[o.set_index(slots@[j])].slot == slots@[j]);
                                assert(o.sparse_sets.sets[ki].slot == sl);
                            }
                        }
                    }
                    reveal(World::sparse_values_kept);
                    assert forall|s: Slot| o.sparse_sets.has_set(s) && !slots@.take(k + 1).contains(s) && o.sparse_sets.sets[o.set_index(s)].contains(e) implies {
                        &&& #[trigger] self.sparse_sets.sets[o.set_index(s)].contains(e)
                        &&& self.sparse_sets.sets[o.set_index(s)].value_of(e) == o.sparse_sets.sets[o.set_index(s)].value_of(e)
                        &&& self.sparse_sets.sets[o.set_index(s)].ticks_of(e) == o.sparse_sets.sets[o.set_index(s)].ticks_of(e)
                    } by {
                        assert(slots@.take(k + 1)[k as int] == sl);
                        assert(s != sl);
                        assert(!slots@.take(k as int).contains(s)) by {
                            if slots@.take(k as int).contains(s) {
                                let j = choose|j: int| 0 <= j < k && slots@.take(k as int)[j] == s;
                                assert(slots@.take(k + 1)[j] == s);
                            }
                        }
                        assert(o.set_index(s) != ki) by {
                            assert(o.sparse_sets.sets[o.set_index(s)].slot == s);
                            assert(o.sparse_sets.sets[ki].slot == sl);
                        }
                        assert(before.sparse_sets.sets[o.set_index(s)].contains(e));
                        assert(self.sparse_sets.sets[o.set_index(s)] == before.sparse_sets.sets[o.set_index(s)]);
                    }
                    assert(self.sparse_values_kept(&o, e, slots@.take(k + 1)));
                }
            } else {
                staged.push(v);
                proof {
                    reveal(World::sparse_values_kept);
                    assert forall|s: Slot| o.sparse_sets.has_set(s) && !slots@.take(k + 1).contains(s) && o.sparse_sets.sets[o.set_index(s)].contains(e) implies {
                        &&& #[trigger] self.sparse_sets.sets[o.set_index(s)].contains(e)
                        &&& self.sparse_sets.sets[o.set_index(s)].value_of(e) == o.sparse_sets.sets[o.set_index(s)].value_of(e)
                        &&& self.sparse_sets.sets[o.set_index(s)].ticks_of(e) == o.sparse_sets.sets[o.set_index(s)].ticks_of(e)
                    } by {
                        assert(!slots@.take(k as int).contains(s)) by {
                            if slots@.take(k as int).contains(s) {
                                let j = choose|j: int| 0 <= j < k && slots@.take(k as int)[j] == s;
                                assert(slots@.take(k + 1)[j] == s);
                            }
                        }
                        assert(before.sparse_sets.sets[o.set_index(s)].contains(e));
                        assert(self.sparse_sets == before.sparse_sets);
                    }
                    assert(self.sparse_values_kept(&o, e, slots@.take(k + 1)));
                }
            }
            k = k + 1;
        }
        proof {
            assert(slots@.take(slots.len() as int) =~= slots@);
        }
        staged
    }

    /// Writes the table values of a bundle for `e`, whose archetype has all their slots: as fresh
    /// values where `added[k]`, over the old ones elsewhere.
    #[verifier::spinoff_prover]
    fn write_table_values(&mut self, e: Entity, slots: &Vec<Slot>, storage: &Vec<StorageType>, staged: Vec<Vec<u8>>, added: &Vec<bool>)
        requires
            old(self).wf(),
            old(self).entities.is_live(e),
            crate::table::slots_distinct(slots@),
            storage.len() == slots.len(),
            staged.len() == slots.len(),
            added.len() == slots.len(),
            forall|k: int| 0 <= k < slots.len() && storage@[k] != StorageType::SparseSet ==>
                old(self).archetypes.archetypes[old(self).entities.location_of(e).archetype_id.0 as int].table_components@.contains(#[trigger] slots@[k]),
        ensures
            final(self).wf(),
            final(self).keeps_entities(old(self)),
            final(self).archetypes == old(self).archetypes,
            final(self).sparse_sets == old(self).sparse_sets,
            final(self).entities == old(self).entities,
            final(self).removed_components == old(self).removed_components,
            final(self).change_tick == old(self).change_tick,
            final(self).last_change_tick == old(self).last_change_tick,
            final(self).table_values_written(e, slots@, storage@, staged@, slots.len() as int),
            final(self).table_values_kept(old(self), e, old(self).entities.location_of(e).archetype_id.0 as int, slots@),
            forall|k: int| 0 <= k < slots.len() && storage@[k] != StorageType::SparseSet ==>
                #[trigger] final(self).ticks_of(e, slots@[k]) == (if added@[k] { ComponentTicks::new_spec(old(self).change_tick) } else {
                    ComponentTicks { added: old(self).ticks_of(e, slots@[k]).added, changed: old(self).change_tick } }),
    {
        let ghost o = *old(self);
        let ghost orig = staged@;
        let mut staged = staged;
        let tick = self.change_tick;
        let loc = self.entities.get(e).unwrap();
        proof { o.lemma_live_location(e); }
        let a = loc.archetype_id.0;
        let row = self.archetypes.archetypes[a].entity_rows[loc.index];
        let t = self.archetypes.archetypes[a].table_id.0;
        let ghost ai = a as int;
        let ghost ti = t as int;
        proof {
            assert(o.row_of(e) == row);
            assert(o.arch_table(ai) == t);
        }
        let mut k: usize = 0;
        while k < slots.len()
            invariant
                o == *old(self),
                o.wf(),
                o.entities.is_live(e),
                self.wf(),
                self.keeps_entities(&o),
                self.archetypes == o.archetypes,
                self.sparse_sets == o.sparse_sets,
                self.entities == o.entities,
                self.removed_components == o.removed_components,
                self.change_tick == o.change_tick,
                self.last_change_tick == o.last_change_tick,
                tick == o.change_tick,
                ai == o.entities.location_of(e).archetype_id.0,
                0 <= ai < o.num_archetypes(),
                row == o.row_of(e),
                ti == t,
                t == o.arch_table(ai),
                t < self.tables.tables.len(),
                row < self.tables.tables[ti].entities.len(),
                self.tables.tables.len() == o.tables.tables.len(),
                forall|t2: int| 0 <= t2 < self.tables.tables.len() && t2 != ti ==> #[trigger] self.tables.tables[t2] == o.tables.tables[t2],
                self.tables.tables[ti].columns.len() == o.tables.tables[ti].columns.len(),
                self.tables.tables[ti].entities@ == o.tables.tables[ti].entities@,
                crate::table::slots_distinct(slots@),
                storage.len() == slots.len(),
                staged.len() == slots.len(),
                added.len() == slots.len(),
                k <= slots.len(),
                forall|j: int| k <= j < slots.len() ==> #[trigger] staged@[j] == orig[j],
                forall|j: int| 0 <= j < slots.len() && storage@[j] != StorageType::SparseSet ==>
                    o.archetypes.archetypes[ai].table_components@.contains(#[trigger] slots@[j]),
                forall|c: int| 0 <= c < self.tables.tables[ti].columns.len() ==>
                    (#[trigger] self.tables.tables[ti].columns[c]).relationship == o.tables.tables[ti].columns[c].relationship,
                forall|c: int| 0 <= c < self.tables.tables[ti].columns.len() && !slots@.take(k as int).contains(o.tables.tables[ti].columns[c].relationship) ==>
                    #[trigger] self.tables.tables[ti].columns[c] == o.tables.tables[ti].columns[c],
                forall|c: int, j: int| 0 <= c < self.tables.tables[ti].columns.len() && 0 <= j < k && storage@[j] != StorageType::SparseSet
                    && (#[trigger] self.tables.tables[ti].columns[c]).relationship == #[trigger] slots@[j] ==>
                    self.tables.tables[ti].columns[c].data[row as int] == orig[j],
                forall|c: int, j: int| 0 <= c < self.tables.tables[ti].columns.len() && 0 <= j < k && storage@[j] != StorageType::SparseSet
                    && (#[trigger] self.tables.tables[ti].columns[c]).relationship == #[trigger] slots@[j] ==>
                    self.tables.tables[ti].columns[c].ticks[row as int] == (if added@[j] { ComponentTicks::new_spec(tick) } else {
                        ComponentTicks { added: o.tables.tables[ti].columns[c].ticks[row as int].added, changed: tick } }),
            decreases slots.len() - k,
        {
            let ghost before = *self;
            proof {
                assert forall|x: Slot| slots@.take(k as int).contains(x) implies slots@.take(k + 1).contains(x) by {
                    let j = choose|j: int| 0 <= j < k && slots@.take(k as int)[j] == x;
                    assert(slots@.take(k + 1)[j] == x);
                }
                assert(slots@.take(k + 1)[k as int] == slots@[k as int]);
            }
            if storage[k] != StorageType::SparseSet {
                let mut v: Vec<u8> = Vec::new();
                staged.set_and_swap(k, &mut v);
                let sl = slots[k];
                proof {
                    o.lemma_table_slot_column(ai, sl);
                    self.lemma_live_location(e);
                    let c = o.column_pos(ti, sl);
                    assert(self.tables.tables[ti].columns[c].relationship == sl);
                    assert(self.tables.tables[ti].has_slot(sl));
                }
                self.write_column(t, sl, row, v, tick, added[k]);
                proof {
                    self.lemma_live_location(e);
                    before.lemma_live_location(e);
                    let cs = before.column_pos(ti, sl);
                    assert forall|c: int| 0 <= c < self.tables.tables[ti].columns.len() && !slots@.take(k + 1).contains(o.tables.tables[ti].columns[c].relationship) implies
                        #[trigger] self.tables.tables[ti].columns[c] == o.tables.tables[ti].columns[c] by {
                        assert(o.tables.tables[ti].columns[c].relationship != sl);
                        assert(c != cs);
                        if slots@.take(k as int).contains(o.tables.tables[ti].columns[c].relationship) {
                            assert(slots@.take(k + 1).contains(o.tables.tables[ti].columns[c].relationship));
                        }
                    }
                    assert forall|c: int, j: int| 0 <= c < self.tables.tables[ti].columns.len() && 0 <= j < k + 1 && storage@[j] != StorageType::SparseSet
                        && (#[trigger] self.tables.tables[ti].columns[c]).relationship == #[trigger] slots@[j] implies
                        self.tables.tables[ti].columns[c].data[row as int] == orig[j] by {
                        if j == k {
                            assert(c == cs);
                        } else {
                            assert(slots@[j] != sl);
                            assert(c != cs);
                            assert(self.tables.tables[ti].columns[c] == before.tables.tables[ti].columns[c]);
                        }
                    }
                    assert forall|c: int, j: int| 0 <= c < self.tables.tables[ti].columns.len() && 0 <= j < k + 1 && storage@[j] != StorageType::SparseSet
                        && (#[trigger] self.tables.tables[ti].columns[c]).relationship == #[trigger] slots@[j] implies
                        self.tables.tables[ti].columns[c].ticks[row as int] == (if added@[j] { ComponentTicks::new_spec(tick) } else {
                            ComponentTicks { added: o.tables.tables[ti].columns[c].ticks[row as int].added, changed: tick } }) by {
                        if j == k {
                            assert(c == cs);
                            assert(!slots@.take(k as int).contains(sl)) by {
                                if slots@.take(k as int).contains(sl) {
                                    let jj = choose|jj: int| 0 <= jj < k && slots@.take(k as int)[jj] == sl;
                                    assert(slots@[jj] == sl);
                                }
                            }
                            assert(before.tables.tables[ti].columns[c] == o.tables.tables[ti].columns[c]);
                        } else {
                            assert(slots@[j] != sl);
                            assert(c != cs);
                            assert(self.tables.tables[ti].columns[c] == before.tables.tables[ti].columns[c]);
                        }
                    }
                }
            } else {
                proof {
                    assert forall|c: int| 0 <= c < self.tables.tables[ti].columns.len() && !slots@.take(k + 1).contains(o.tables.tables[ti].columns[c].relationship) implies
                        #[trigger] self.tables.tables[ti].columns[c] == o.tables.tables[ti].columns[c] by {
                        if slots@.take(k as int).contains(o.tables.tables[ti].columns[c].relationship) {
                            assert(slots@.take(k + 1).contains(o.tables.tables[ti].columns[c].relationship));
                        }
                    }
                }
            }
            k = k + 1;
        }
        proof {
            assert(slots@.take(slots.len() as int) =~= slots@);
            self.lemma_live_location(e);
            reveal(World::table_values_written);
            reveal(World::table_values_kept);
            assert forall|j: int| 0 <= j < slots.len() && storage@[j] != StorageType::SparseSet implies #[trigger] self.value_of(e, slots@[j]) == orig[j] by {
                let sl = slots@[j];
                o.lemma_table_slot_column(ai, sl);
                let c = o.column_pos(ti, sl);
                assert(self.tables.tables[ti].columns[c].relationship == sl);
                self.lemma_column_pos(ti, sl, c);
                assert(self.row_of(e) == row);
            }
            assert forall|s2: Slot| #![trigger self.value_of(e, s2)] o.archetypes.archetypes[ai].table_components@.contains(s2) && !slots@.contains(s2) implies
                self.value_of(e, s2) == o.value_of(e, s2) && self.ticks_of(e, s2) == o.ticks_of(e, s2) by {
                o.lemma_table_slot_column(ai, s2);
                let c = o.column_pos(ti, s2);
                assert(self.tables.tables[ti].columns[c].relationship == s2);
                self.lemma_column_pos(ti, s2, c);
                assert(self.tables.tables[ti].columns[c] == o.tables.tables[ti].columns[c]);
                assert(self.row_of(e) == row);
            }
            assert forall|j: int| 0 <= j < slots.len() && storage@[j] != StorageType::SparseSet implies
                #[trigger] self.ticks_of(e, slots@[j]) == (if added@[j] { ComponentTicks::new_spec(o.change_tick) } else {
                    ComponentTicks { added: o.ticks_of(e, slots@[j]).added, changed: o.change_tick } }) by {
                let sl = slots@[j];
                o.lemma_table_slot_column(ai, sl);
                let c = o.column_pos(ti, sl);
                assert(self.tables.tables[ti].columns[c].relationship == sl);
                self.lemma_column_pos(ti, sl, c);
                assert(self.row_of(e) == row);
            }
            assert(self.table_values_written(e, slots@, storage@, orig, slots.len() as int));
            assert(self.table_values_kept(&o, e, ai, slots@));
        }
    }

    /// The conditions under which `insert_bundle(e, b, values)` does its work: a live entity, a
    /// registered bundle, one value per slot of the bundle, and room for the archetype ids.
    pub open spec fn can_insert(&self, e: Entity, b: BundleId, n: nat) -> bool {
        &&& self.entities.is_live(e)
        &&& self.bundles.contains_id(b)
        &&& n == self.bundles.info(b).relation_ids.len()
        &&& self.archetypes.has_room(self.add_room(self.entities.location_of(e).archetype_id.0 as int, b))
    }

    /// Whether room is left for the archetype ids of a transition out of `a` by `b`.
    #[verifier::spinoff_prover]
    fn has_room_for(&self, a: usize, b: BundleId) -> (r: bool)
        requires
            a < self.num_archetypes(),
            self.bundles.contains_id(b),
        ensures
            r == self.archetypes.has_room(self.add_room(a as int, b)),
    {
        let n1 = self.archetypes.archetypes[a].table_components.len();
        let n2 = self.archetypes.archetypes[a].sparse_set_components.len();
        let n3 = self.bundles.bundle_infos[b.0].relation_ids.len();
        let c = self.archetypes.archetype_component_count;
        if n1 > usize::MAX - c {
            return false;
        }
        if n2 > usize::MAX - c - n1 {
            return false;
        }
        if n3 > usize::MAX - c - n1 - n2 {
            return false;
        }
        true
    }

    /// Adds the values of bundle `b` (one per slot, in bundle order) to live entity `e`. Slots
    /// the entity lacks are added, moving it to the archetype with them; slots it has get the
    /// new value. Returns false, changing nothing, when `e` is stale, `b` unknown, the values do
    /// not match the bundle or the archetype ids are exhausted.
    #[verifier::spinoff_prover]
    #[verifier::rlimit(100)]
    pub fn insert_bundle(&mut self, e: Entity, b: BundleId, values: Vec<Vec<u8>>) -> (ok: bool)
        requires
            old(self).wf(),
        ensures
            final(self).wf(),
            ok == old(self).can_insert(e, b, values.len() as nat),
            !ok ==> *final(self) == *old(self),
            ok ==> final(self).inserted(old(self), e, b),
            ok ==> final(self).others_keep_slots(old(self), e),
            ok ==> forall|k: int| 0 <= k < values.len() ==>
                final(self).value_of(e, #[trigger] old(self).bundles.info(b).relation_ids[k]) == values@[k],
            ok ==> forall|k: int| 0 <= k < values.len() ==>
                final(self).ticks_of(e, #[trigger] old(self).bundles.info(b).relation_ids[k]).changed == old(self).change_tick,
            ok ==> forall|k: int| 0 <= k < values.len() && old(self).bundles.info(b).storage_types[k] == StorageType::Table
                && !old(self).has(e, old(self).bundles.info(b).relation_ids[k]) ==>
                final(self).ticks_of(e, #[trigger] old(self).bundles.info(b).relation_ids[k]) == ComponentTicks::new_spec(old(self).change_tick),
            ok ==> forall|k: int| 0 <= k < values.len() && old(self).bundles.info(b).storage_types[k] == StorageType::Table
                && old(self).has(e, old(self).bundles.info(b).relation_ids[k]) ==>
                final(self).ticks_of(e, #[trigger] old(self).bundles.info(b).relation_ids[k]).added
                    == old(self).ticks_of(e, old(self).bundles.info(b).relation_ids[k]).added,
            ok ==> final(self).source_row_drained(old(self), e),
            forall|x: Entity| #[trigger] final(self).entities.is_live(x) == old(self).entities.is_live(x),
    {
        let ghost o = *old(self);
        let loc = match self.entities.get(e) {
            None => { return false; },
            Some(l) => l,
        };
        proof { o.lemma_live_location(e); }
        let a = loc.archetype_id.0;
        if b.0 >= self.bundles.bundle_infos.len() {
            return false;
        }
        if values.len() != self.bundles.bundle_infos[b.0].relation_ids.len() {
            return false;
        }
        if !self.has_room_for(a, b) {
            return false;
        }
        let d = self.add_bundle_to_archetype(a, b);
        let ghost w1 = *self;
        let (slots, storage) = self.bundle_contents(b);
        proof {
            w1.lemma_live_location(e);
            w1.lemma_sparse_membership(e);
            assert(w1.entities.location_of(e) == loc);
            assert(w1.bundles.info(b).wf(&w1.components));
            assert forall|k: int| 0 <= k < slots.len() && storage@[k] == StorageType::SparseSet implies w1.sparse_sets.has_set(#[trigger] slots@[k]) by {
                assert(w1.bundle_slots(b).contains(slots@[k]));
                assert(w1.of_storage(w1.bundle_slots(b), StorageType::SparseSet).contains(slots@[k]));
                assert(w1.sparse_set_set(d as int).contains(slots@[k]));
                let j = choose|j: int| 0 <= j < w1.archetypes.archetypes[d as int].sparse_set_components.len()
                    && w1.archetypes.archetypes[d as int].sparse_set_components@[j] == slots@[k];
                w1.lemma_d_sparse_has_set(d as int, j);
            }
        }
        let mut added: Vec<bool> = Vec::new();
        let mut i: usize = 0;
        while i < slots.len()
            invariant
                i <= slots.len(),
                added.len() == i,
                a < self.archetypes.archetypes.len(),
                self.archetypes == w1.archetypes,
                forall|j: int| 0 <= j < i ==> #[trigger] added@[j] == !w1.archetypes.archetypes[a as int].has_slot(slots@[j]),
            decreases slots.len() - i,
        {
            added.push(!self.archetypes.archetypes[a].contains(slots[i].kind, slots[i].target));
            i = i + 1;
        }
        let ghost vals = values@;
        let staged = self.stage_sparse(e, &slots, &storage, values);
        let ghost w2 = *self;
        let ghost staged_view = staged@;
        if d != a {
            proof {
                w2.lemma_live_location(e);
                assert forall|k: int| 0 <= k < w2.archetypes.archetypes[d as int].sparse_set_components.len() implies
                    w2.sparse_sets.sets[w2.set_index(#[trigger] w2.archetypes.archetypes[d as int].sparse_set_components[k])].contains(e) by {
                    let sl = w2.archetypes.archetypes[d as int].sparse_set_components[k];
                    assert(w1.sparse_set_set(d as int).contains(sl));
                    if w1.sparse_set_set(a as int).contains(sl) {
                        assert(w1.archetypes.archetypes[a as int].sparse_set_components@.contains(sl));
                        assert(w1.sparse_sets.sets[w1.set_index(sl)].contains(e));
                        assert(w1.sparse_sets.has_set(sl));
                        assert(w2.set_index(sl) == w1.set_index(sl));
                        assert(w2.sparse_sets.sets[w1.set_index(sl)].contains(e));
                    } else {
                        assert(w1.of_storage(w1.bundle_slots(b), StorageType::SparseSet).contains(sl));
                        let j = choose|j: int| 0 <= j < slots.len() && slots@[j] == sl;
                        assert(slots@[j] == sl);
                        assert(storage@[j] == w1.components.storage_type_of(sl.kind));
                    }
                }
            }
            self.relocate(e, d);
        }
        let ghost w3 = *self;
        proof {
            w3.lemma_live_location(e);
            assert(w3.entities.location_of(e).archetype_id.0 == d);
            assert forall|k: int| 0 <= k < slots.len() && storage@[k] != StorageType::SparseSet implies
                w3.archetypes.archetypes[w3.entities.location_of(e).archetype_id.0 as int].table_components@.contains(#[trigger] slots@[k]) by {
                assert(w1.bundles.info(b).storage_types@[k] == w1.components.storage_type_of(slots@[k].kind));
                assert(w1.bundle_slots(b).contains(slots@[k]));
                assert(w1.of_storage(w1.bundle_slots(b), StorageType::Table).contains(slots@[k]));
                assert(w1.table_set(d as int).contains(slots@[k]));
                assert(w3.archetypes.archetypes[d as int].table_components@ == w1.archetypes.archetypes[d as int].table_components@);
            }
        }
        self.write_table_values(e, &slots, &storage, staged, &added);
        proof {
            self.lemma_insert_effects(&o, &w1, &w2, &w3, e, b, a as int, d as int, slots@, storage@, vals, staged_view, added@);
            self.lemma_insert_ticks(&o, &w1, &w2, &w3, e, b, a as int, d as int, slots@, storage@, vals, staged_view, added@);
        }
        true
    }

    #[verifier::spinoff_prover]
    proof fn lemma_d_sparse_has_set(&self, d: int, j: int)
        requires
            self.wf(),
            0 <= d < self.num_archetypes(),
            0 <= j < self.archetypes.archetypes[d].sparse_set_components.len(),
        ensures
            self.sparse_sets.has_set(self.archetypes.archetypes[d].sparse_set_components[j]),
    {
        reveal(World::wf_layout);
    }

    /// In a well-formed world the table slots of an archetype are kept in tables, its sparse-set
    /// slots in sparse sets.
    #[verifier::spinoff_prover]
    proof fn lemma_slot_classes(&self, a: int)
        requires
            self.wf(),
            0 <= a < self.num_archetypes(),
        ensures
            forall|s: Slot| #[trigger] self.archetypes.archetypes[a].table_components@.contains(s)
                ==> self.components.storage_type_of(s.kind) == StorageType::Table,
            forall|s: Slot| #[trigger] self.archetypes.archetypes[a].sparse_set_components@.contains(s)
                ==> self.components.storage_type_of(s.kind) == StorageType::SparseSet && self.sparse_sets.has_set(s),
    {
        reveal(World::wf_layout);
        let arch = self.archetypes.archetypes[a];
        assert forall|s: Slot| #[trigger] arch.table_components@.contains(s)
            implies self.components.storage_type_of(s.kind) == StorageType::Table by {
            let k = choose|k: int| 0 <= k < arch.table_components.len() && arch.table_components@[k] == s;
            assert(arch.table_components[k] == s);
        }
        assert forall|s: Slot| #[trigger] arch.sparse_set_components@.contains(s)
            implies self.components.storage_type_of(s.kind) == StorageType::SparseSet && self.sparse_sets.has_set(s) by {
            let k = choose|k: int| 0 <= k < arch.sparse_set_components.len() && arch.sparse_set_components@[k] == s;
            assert(arch.sparse_set_components[k] == s);
        }
    }

    /// What an insertion leaves behind, from the facts of its steps.
    #[verifier::rlimit(100)]
    #[verifier::spinoff_prover]
    proof fn lemma_insert_effects(&self, o: &World, w1: &World, w2: &World, w3: &World, e: Entity, b: BundleId, a: int, d: int,
        slots: Seq<Slot>, storage: Seq<StorageType>, vals: Seq<Vec<u8>>, staged: Seq<Vec<u8>>, added: Seq<bool>)
        requires
            o.wf(),
            o.entities.is_live(e),
            a == o.entities.location_of(e).archetype_id.0,
            0 <= a < o.num_archetypes(),
            w1.wf(),
            w1.grows_from(o),
            0 <= d < w1.num_archetypes(),
            w1.is_add_result(a, b, d),
            w1.bundles.contains_id(b),
            slots == w1.bundles.info(b).relation_ids@,
            storage == w1.bundles.info(b).storage_types@,
            vals.len() == slots.len(),
            staged.len() == slots.len(),
            w2.wf(),
            w2.keeps_entities(w1),
            w2.archetypes == w1.archetypes,
            w2.tables == w1.tables,
            w2.sparse_values_kept(w1, e, slots),
            forall|s: Slot| w1.sparse_sets.has_set(s) ==> #[trigger] w2.set_index(s) == w1.set_index(s),
            forall|k: int| 0 <= k < slots.len() && storage[k] != StorageType::SparseSet ==> #[trigger] staged[k] == vals[k],
            forall|k: int| 0 <= k < slots.len() && storage[k] == StorageType::SparseSet ==> {
                &&& w2.sparse_sets.sets[w2.set_index(#[trigger] slots[k])].contains(e)
                &&& w2.sparse_sets.sets[w2.set_index(slots[k])].value_of(e) == vals[k]
                &&& w2.sparse_sets.sets[w2.set_index(slots[k])].ticks_of(e).changed == o.change_tick
            },
            added.len() == slots.len(),
            forall|k: int| 0 <= k < slots.len() ==> #[trigger] added[k] == !w1.archetypes.archetypes[a].has_slot(slots[k]),
            w3.change_tick == o.change_tick,
            forall|k: int| 0 <= k < slots.len() && storage[k] != StorageType::SparseSet ==>
                #[trigger] self.ticks_of(e, slots[k]) == (if added[k] { ComponentTicks::new_spec(w3.change_tick) } else {
                    ComponentTicks { added: w3.ticks_of(e, slots[k]).added, changed: w3.change_tick } }),
            w3.wf(),
            w3.entities.is_live(e),
            w3.entities.location_of(e).archetype_id.0 == d,
            w3.sparse_sets == w2.sparse_sets,
            w3.components == w2.components,
            w3.bundles == w2.bundles,
            w3.archetypes.archetypes.len() == w2.archetypes.archetypes.len(),
            forall|x: int| 0 <= x < w3.num_archetypes() ==> (#[trigger] w3.archetypes.archetypes[x]).same_layout(&w2.archetypes.archetypes[x]),
            forall|x: Entity| #[trigger] w3.entities.is_live(x) == w2.entities.is_live(x),
            d != a ==> w3.carries_table_values(w2, e, a, d),
            d == a ==> *w3 == *w2,
            forall|x: Entity| w3.entities.is_live(x) && x != e ==>
                w3.entities.location_of(x).archetype_id == w2.entities.location_of(x).archetype_id,
            self.wf(),
            self.keeps_entities(w3),
            self.archetypes == w3.archetypes,
            self.sparse_sets == w3.sparse_sets,
            self.entities == w3.entities,
            self.table_values_written(e, slots, storage, staged, slots.len() as int),
            self.table_values_kept(w3, e, d, slots),
        ensures
            self.entities.is_live(e),
            forall|s: Slot| #[trigger] self.has(e, s) <==> o.has(e, s) || o.bundle_slots(b).contains(s),
            forall|k: int| 0 <= k < slots.len() ==> self.value_of(e, #[trigger] slots[k]) == vals[k],
            forall|s: Slot| o.has(e, s) && !o.bundle_slots(b).contains(s) ==>
                #[trigger] self.value_of(e, s) == o.value_of(e, s) && self.ticks_of(e, s) == o.ticks_of(e, s),
            forall|x: Entity| #[trigger] self.entities.is_live(x) == o.entities.is_live(x),
            self.others_keep_slots(o, e),
    {
        reveal(World::table_values_written);
        reveal(World::table_values_kept);
        reveal(World::sparse_values_kept);
        reveal(World::carries_table_values);
        o.lemma_live_location(e);
        w1.lemma_live_location(e);
        self.lemma_live_location(e);
        w1.lemma_slot_classes(a);
        w1.lemma_slot_classes(d);
        w1.lemma_sparse_membership(e);
        self.lemma_slot_classes(d);
        let arch_a = w1.archetypes.archetypes[a];
        let arch_d = w1.archetypes.archetypes[d];
        assert(w1.entities.location_of(e) == o.entities.location_of(e));
        assert(arch_a.same_layout(&o.archetypes.archetypes[a]));
        assert(self.entities.location_of(e).archetype_id.0 == d);
        assert(self.archetypes.archetypes[d].same_layout(&arch_d)) by {
            assert(w3.archetypes.archetypes[d].same_layout(&w2.archetypes.archetypes[d]));
        }
        assert(w1.bundles.info(b).wf(&w1.components));
        // slots
        assert forall|s: Slot| #[trigger] self.has(e, s) <==> o.has(e, s) || o.bundle_slots(b).contains(s) by {
            assert(o.bundle_slots(b) == w1.bundle_slots(b));
            assert(self.archetypes.archetypes[d].has_slot(s) == (w1.table_set(d).contains(s) || w1.sparse_set_set(d).contains(s)));
            assert(o.archetypes.archetypes[a].has_slot(s) == (w1.table_set(a).contains(s) || w1.sparse_set_set(a).contains(s)));
            if w1.bundle_slots(b).contains(s) {
                let st = w1.components.storage_type_of(s.kind);
                if st == StorageType::Table {
                    assert(w1.of_storage(w1.bundle_slots(b), StorageType::Table).contains(s));
                } else {
                    assert(w1.of_storage(w1.bundle_slots(b), StorageType::SparseSet).contains(s));
                }
            }
        }
        // bundle values
        assert forall|k: int| 0 <= k < slots.len() implies self.value_of(e, #[trigger] slots[k]) == vals[k] by {
            let sl = slots[k];
            assert(storage[k] == w1.components.storage_type_of(sl.kind));
            if storage[k] == StorageType::SparseSet {
                assert(!self.archetypes.archetypes[d].table_components@.contains(sl));
                assert(w2.sparse_sets.sets[w2.set_index(sl)].value_of(e) == vals[k]);
                assert(self.set_index(sl) == w2.set_index(sl));
            } else {
                assert(self.value_of(e, slots[k]) == staged[k]);
            }
        }
        // old values outside the bundle
        assert forall|s: Slot| o.has(e, s) && !o.bundle_slots(b).contains(s) implies
            #[trigger] self.value_of(e, s) == o.value_of(e, s) && self.ticks_of(e, s) == o.ticks_of(e, s) by {
            assert(o.bundle_slots(b) == w1.bundle_slots(b));
            assert(!slots.contains(s));
            if arch_a.table_components@.contains(s) {
                assert(w1.table_set(a).contains(s));
                assert(w1.table_set(d).contains(s));
                assert(arch_d.table_components@.contains(s));
                // o -> w1: the table of a and the entity's row are unchanged
                let t = o.arch_table(a);
                assert(w1.arch_table(a) == t);
                assert(w1.tables.tables[t] == o.tables.tables[t]);
                assert(w1.row_of(e) == o.row_of(e)) by {
                    assert(w1.archetypes.archetypes[a].entity_rows@ == o.archetypes.archetypes[a].entity_rows@);
                }
                assert(w1.value_of(e, s) == o.value_of(e, s));
                assert(w1.ticks_of(e, s) == o.ticks_of(e, s));
                assert(w2.value_of(e, s) == w1.value_of(e, s));
                assert(w2.ticks_of(e, s) == w1.ticks_of(e, s));
                assert(w3.value_of(e, s) == w2.value_of(e, s));
                assert(w3.ticks_of(e, s) == w2.ticks_of(e, s));
                assert(self.archetypes.archetypes[d].table_components@.contains(s));
                assert(w3.archetypes.archetypes[d].table_components@.contains(s));
                assert(self.value_of(e, s) == w3.value_of(e, s));
                assert(self.ticks_of(e, s) == w3.ticks_of(e, s));
            } else {
                assert(arch_a.sparse_set_components@.contains(s));
                assert(w1.sparse_set_set(d).contains(s));
                assert(arch_d.sparse_set_components@.contains(s));
                assert(!arch_d.table_components@.contains(s));
                assert(!arch_a.table_components@.contains(s));
                assert(w1.sparse_sets.has_set(s));
                assert(w1.sparse_sets.sets[w1.set_index(s)].contains(e));
                assert(o.sparse_sets.has_set(s)) by {
                    o.lemma_slot_classes(a);
                }
                w1.lemma_set_index_kept(o, s);
                assert(w1.sparse_sets.sets[w1.set_index(s)] == o.sparse_sets.sets[o.set_index(s)]);
                assert(self.set_index(s) == w2.set_index(s));
                assert(self.archetypes.archetypes[d].sparse_set_components@ == arch_d.sparse_set_components@);
                assert(!self.archetypes.archetypes[d].table_components@.contains(s));
                let i1 = w1.set_index(s);
                assert(w2.sparse_sets.sets[i1].contains(e));
                assert(w2.sparse_sets.sets[i1].value_of(e) == w1.sparse_sets.sets[i1].value_of(e));
                assert(w2.sparse_sets.sets[i1].ticks_of(e) == w1.sparse_sets.sets[i1].ticks_of(e));
                assert(self.value_of(e, s) == self.sparse_sets.sets[self.set_index(s)].value_of(e));
                assert(self.ticks_of(e, s) == self.sparse_sets.sets[self.set_index(s)].ticks_of(e));
                assert(o.value_of(e, s) == o.sparse_sets.sets[o.set_index(s)].value_of(e));
                assert(o.ticks_of(e, s) == o.sparse_sets.sets[o.set_index(s)].ticks_of(e));
            }
        }
        assert forall|x: Entity, s2: Slot| x != e && o.entities.is_live(x) implies #[trigger] self.has(x, s2) == o.has(x, s2) by {
            let ax = o.entities.location_of(x).archetype_id.0 as int;
            o.lemma_live_location(x);
            assert(w1.entities.location_of(x) == o.entities.location_of(x));
            assert(w1.archetypes.archetypes[ax].same_layout(&o.archetypes.archetypes[ax]));
            assert(w2.entities.location_of(x) == o.entities.location_of(x));
            assert(w3.entities.is_live(x));
            assert(w3.entities.location_of(x).archetype_id.0 == ax);
            assert(w3.archetypes.archetypes[ax].same_layout(&w2.archetypes.archetypes[ax]));
            assert(self.entities.location_of(x) == w3.entities.location_of(x));
        }
    }

    #[verifier::spinoff_prover]
    #[verifier::rlimit(100)]
    /// The change ticks an insertion leaves on the values it wrote, from the facts of its steps.
    #[verifier::rlimit(100)]
    #[verifier::spinoff_prover]
    proof fn lemma_insert_ticks(&self, o: &World, w1: &World, w2: &World, w3: &World, e: Entity, b: BundleId, a: int, d: int,
        slots: Seq<Slot>, storage: Seq<StorageType>, vals: Seq<Vec<u8>>, staged: Seq<Vec<u8>>, added: Seq<bool>)
        requires
            o.wf(),
            o.entities.is_live(e),
            a == o.entities.location_of(e).archetype_id.0,
            0 <= a < o.num_archetypes(),
            w1.wf(),
            w1.grows_from(o),
            0 <= d < w1.num_archetypes(),
            w1.is_add_result(a, b, d),
            w1.bundles.contains_id(b),
            slots == w1.bundles.info(b).relation_ids@,
            storage == w1.bundles.info(b).storage_types@,
            vals.len() == slots.len(),
            staged.len() == slots.len(),
            w2.wf(),
            w2.keeps_entities(w1),
            w2.archetypes == w1.archetypes,
            w2.tables == w1.tables,
            w2.sparse_values_kept(w1, e, slots),
            forall|s: Slot| w1.sparse_sets.has_set(s) ==> #[trigger] w2.set_index(s) == w1.set_index(s),
            forall|k: int| 0 <= k < slots.len() && storage[k] != StorageType::SparseSet ==> #[trigger] staged[k] == vals[k],
            forall|k: int| 0 <= k < slots.len() && storage[k] == StorageType::SparseSet ==> {
                &&& w2.sparse_sets.sets[w2.set_index(#[trigger] slots[k])].contains(e)
                &&& w2.sparse_sets.sets[w2.set_index(slots[k])].value_of(e) == vals[k]
                &&& w2.sparse_sets.sets[w2.set_index(slots[k])].ticks_of(e).changed == o.change_tick
            },
            added.len() == slots.len(),
            forall|k: int| 0 <= k < slots.len() ==> #[trigger] added[k] == !w1.archetypes.archetypes[a].has_slot(slots[k]),
            w3.change_tick == o.change_tick,
            forall|k: int| 0 <= k < slots.len() && storage[k] != StorageType::SparseSet ==>
                #[trigger] self.ticks_of(e, slots[k]) == (if added[k] { ComponentTicks::new_spec(w3.change_tick) } else {
                    ComponentTicks { added: w3.ticks_of(e, slots[k]).added, changed: w3.change_tick } }),
            w3.wf(),
            w3.entities.is_live(e),
            w3.entities.location_of(e).archetype_id.0 == d,
            w3.sparse_sets == w2.sparse_sets,
            w3.components == w2.components,
            w3.bundles == w2.bundles,
            w3.archetypes.archetypes.len() == w2.archetypes.archetypes.len(),
            forall|x: int| 0 <= x < w3.num_archetypes() ==> (#[trigger] w3.archetypes.archetypes[x]).same_layout(&w2.archetypes.archetypes[x]),
            forall|x: Entity| #[trigger] w3.entities.is_live(x) == w2.entities.is_live(x),
            d != a ==> w3.carries_table_values(w2, e, a, d),
            d == a ==> *w3 == *w2,
            forall|x: Entity| w3.entities.is_live(x) && x != e ==>
                w3.entities.location_of(x).archetype_id == w2.entities.location_of(x).archetype_id,
            self.wf(),
            self.keeps_entities(w3),
            self.archetypes == w3.archetypes,
            self.sparse_sets == w3.sparse_sets,
            self.entities == w3.entities,
            self.table_values_written(e, slots, storage, staged, slots.len() as int),
            self.table_values_kept(w3, e, d, slots),
        ensures
            forall|k: int| 0 <= k < slots.len() ==> #[trigger] self.ticks_of(e, slots[k]).changed == o.change_tick,
            forall|k: int| 0 <= k < slots.len() && storage[k] == StorageType::Table && !o.has(e, slots[k]) ==>
                #[trigger] self.ticks_of(e, slots[k]) == ComponentTicks::new_spec(o.change_tick),
            forall|k: int| 0 <= k < slots.len() && storage[k] == StorageType::Table && o.has(e, slots[k]) ==>
                #[trigger] self.ticks_of(e, slots[k]).added == o.ticks_of(e, slots[k]).added,
    {
        reveal(World::table_values_written);
        reveal(World::table_values_kept);
        reveal(World::sparse_values_kept);
        reveal(World::carries_table_values);
        o.lemma_live_location(e);
        w1.lemma_live_location(e);
        self.lemma_live_location(e);
        w1.lemma_slot_classes(a);
        w1.lemma_slot_classes(d);
        w1.lemma_sparse_membership(e);
        self.lemma_slot_classes(d);
        let arch_a = w1.archetypes.archetypes[a];
        let arch_d = w1.archetypes.archetypes[d];
        assert(w1.entities.location_of(e) == o.entities.location_of(e));
        assert(arch_a.same_layout(&o.archetypes.archetypes[a]));
        assert(self.entities.location_of(e).archetype_id.0 == d);
        assert(self.archetypes.archetypes[d].same_layout(&arch_d)) by {
            assert(w3.archetypes.archetypes[d].same_layout(&w2.archetypes.archetypes[d]));
        }
        assert(w1.bundles.info(b).wf(&w1.components));
        w1.lemma_grow_values(o, e);
        assert forall|k: int| 0 <= k < slots.len() implies #[trigger] self.ticks_of(e, slots[k]).changed == o.change_tick
            && (storage[k] == StorageType::Table && !o.has(e, slots[k]) ==> self.ticks_of(e, slots[k]) == ComponentTicks::new_spec(o.change_tick))
            && (storage[k] == StorageType::Table && o.has(e, slots[k]) ==> self.ticks_of(e, slots[k]).added == o.ticks_of(e, slots[k]).added) by {
            let sl = slots[k];
            assert(storage[k] == w1.components.storage_type_of(sl.kind));
            assert(w1.has(e, sl) == o.has(e, sl));
            if storage[k] == StorageType::SparseSet {
                assert(!self.archetypes.archetypes[d].table_components@.contains(sl));
                assert(self.set_index(sl) == w2.set_index(sl));
            } else {
                if o.has(e, sl) {
                    assert(!added[k]);
                    assert(!arch_a.sparse_set_components@.contains(sl));
                    assert(arch_a.table_components@.contains(sl));
                    assert(w1.table_set(d).contains(sl));
                    assert(arch_d.table_components@.contains(sl));
                    let t = o.arch_table(a);
                    assert(w1.arch_table(a) == t);
                    assert(w1.tables.tables[t] == o.tables.tables[t]);
                    assert(w1.row_of(e) == o.row_of(e)) by {
                        assert(w1.archetypes.archetypes[a].entity_rows@ == o.archetypes.archetypes[a].entity_rows@);
                    }
                    assert(w1.ticks_of(e, sl) == o.ticks_of(e, sl));
                    assert(w2.ticks_of(e, sl) == w1.ticks_of(e, sl));
                    assert(w3.value_of(e, sl) == w2.value_of(e, sl));
                    assert(w3.ticks_of(e, sl) == w2.ticks_of(e, sl));
                    assert(self.ticks_of(e, sl).added == o.ticks_of(e, sl).added);
                } else {
                    assert(added[k]);
                }
            }
        }
        assert forall|k: int| 0 <= k < slots.len() && storage[k] == StorageType::Table && o.has(e, slots[k]) implies
            #[trigger] self.ticks_of(e, slots[k]).added == o.ticks_of(e, slots[k]).added by {
            assert(self.ticks_of(e, slots[k]).changed == o.change_tick);
        }
    }

    /// Facts about a live entity's values survive growth.
    #[verifier::spinoff_prover]
    proof fn lemma_grow_values(&self, old: &World, e: Entity)
        requires
            old.wf(),
            self.wf(),
            self.grows_from(old),
            old.entities.is_live(e),
        ensures
            forall|s: Slot| #[trigger] self.has(e, s) == old.has(e, s),
            forall|s: Slot| old.has(e, s) ==> #[trigger] self.value_of(e, s) == old.value_of(e, s)
                && self.ticks_of(e, s) == old.ticks_of(e, s),
    {
        old.lemma_live_location(e);
        self.lemma_live_location(e);
        let a = old.entities.location_of(e).archetype_id.0 as int;
        assert(self.archetypes.archetypes[a].same_layout(&old.archetypes.archetypes[a]));
        assert(self.archetypes.archetypes[a].entity_rows@ == old.archetypes.archetypes[a].entity_rows@);
        old.lemma_slot_classes(a);
        assert forall|s: Slot| old.has(e, s) implies #[trigger] self.value_of(e, s) == old.value_of(e, s)
            && self.ticks_of(e, s) == old.ticks_of(e, s) by {
            if !old.archetypes.archetypes[a].table_components@.contains(s) {
                self.lemma_set_index_kept(old, s);
            }
        }
    }

    /// A copy of the value that `e` holds in slot `s`.
    #[verifier::spinoff_prover]
    fn read_value(&self, e: Entity, s: Slot) -> (r: Vec<u8>)
        requires
            self.wf(),
            self.has(e, s),
        ensures
            r@ == self.value_of(e, s)@,
    {
        let v = self.get(e, s.kind, s.target).unwrap();
        copy_bytes(v)
    }

    /// Takes the values of bundle `b` off live entity `e`, which must have all of its slots, and
    /// returns them in bundle order; `e` moves to the archetype without them. `None`, with no
    /// entity's slots or values changed, when `e` is stale, `b` unknown, a slot of `b` missing, or
    /// the archetype ids exhausted.
    #[verifier::spinoff_prover]
    pub fn remove_bundle(&mut self, e: Entity, b: BundleId) -> (r: Option<Vec<Vec<u8>>>)
        requires
            old(self).wf(),
        ensures
            final(self).wf(),
            r is Some <==> old(self).can_remove(e, b),
            r is None ==> final(self).entities == old(self).entities,
            r is None ==> final(self).grows_from(old(self)),
            r is None ==> forall|x: Entity, s: Slot| old(self).entities.is_live(x) ==> #[trigger] final(self).has(x, s) == old(self).has(x, s),
            r is None ==> forall|s: Slot| old(self).has(e, s) ==> #[trigger] final(self).value_of(e, s) == old(self).value_of(e, s),
            r matches Some(vs) ==> {
                &&& final(self).others_keep_slots(old(self), e)
                &&& vs.len() == old(self).bundles.info(b).relation_ids.len()
                &&& forall|k: int| 0 <= k < vs.len() ==> (#[trigger] vs@[k])@ == old(self).value_of(e, old(self).bundles.info(b).relation_ids[k])@
                &&& final(self).removed(old(self), e, b)
                &&& final(self).removed_components@ == old(self).removed_components@ + removal_log(old(self).bundles.info(b).relation_ids@, e)
            },
            forall|x: Entity| #[trigger] final(self).entities.is_live(x) == old(self).entities.is_live(x),
    {
        let ghost o = *old(self);
        let loc = match self.entities.get(e) {
            None => { return None; },
            Some(l) => l,
        };
        proof { o.lemma_live_location(e); }
        let a = loc.archetype_id.0;
        if b.0 >= self.bundles.bundle_infos.len() {
            return None;
        }
        if !self.has_room_for(a, b) {
            return None;
        }
        let dopt = self.remove_bundle_from_archetype(a, b, false);
        let ghost w1 = *self;
        proof {
            w1.lemma_grow_values(&o, e);
            assert forall|x: Entity, s: Slot| o.entities.is_live(x) implies #[trigger] w1.has(x, s) == o.has(x, s) by {
                w1.lemma_grow_values(&o, x);
            }
        }
        let d = match dopt {
            None => { return None; },
            Some(d) => d,
        };
        let (slots, storage) = self.bundle_contents(b);
        proof {
            w1.lemma_live_location(e);
            assert(w1.entities.location_of(e) == loc);
        }
        let mut vs: Vec<Vec<u8>> = Vec::new();
        let mut k: usize = 0;
        while k < slots.len()
            invariant
                *self == w1,
                w1.wf(),
                w1.entities.is_live(e),
                w1.entities.location_of(e).archetype_id.0 == a,
                slots@ == w1.bundles.info(b).relation_ids@,
                w1.bundle_slots(b).subset_of(w1.slot_set(a as int)),
                k <= slots.len(),
                vs.len() == k,
                forall|j: int| 0 <= j < k ==> (#[trigger] vs@[j])@ == w1.value_of(e, slots@[j])@,
            decreases slots.len() - k,
        {
            proof {
                assert(w1.bundle_slots(b).contains(slots@[k as int]));
                assert(w1.has(e, slots@[k as int]));
            }
            let v = self.read_value(e, slots[k]);
            vs.push(v);
            k = k + 1;
        }
        let ghost w1b = *self;
        if d != a {
            proof {
                w1.lemma_sparse_membership(e);
                assert forall|k2: int| 0 <= k2 < w1.archetypes.archetypes[d as int].sparse_set_components.len() implies
                    w1.sparse_sets.sets[w1.set_index(#[trigger] w1.archetypes.archetypes[d as int].sparse_set_components[k2])].contains(e) by {
                    let sl = w1.archetypes.archetypes[d as int].sparse_set_components[k2];
                    assert(w1.sparse_set_set(d as int).contains(sl));
                    assert(w1.archetypes.archetypes[a as int].sparse_set_components@.contains(sl));
                }
            }
            self.relocate(e, d);
        }
        let ghost w2 = *self;
        let mut i: usize = 0;
        while i < slots.len()
            invariant
                w1.wf(),
                w2.wf(),
                self.wf(),
                i <= slots.len(),
                slots@ == w1.bundles.info(b).relation_ids@,
                storage@ == w1.bundles.info(b).storage_types@,
                self.entities == w2.entities,
                self.archetypes == w2.archetypes,
                self.tables == w2.tables,
                self.components == w2.components,
                self.bundles == w2.bundles,
                self.removed_components == w2.removed_components,
                w2.entities.is_live(e),
                w2.entities.location_of(e).archetype_id.0 == d,
                w2.components == w1.components,
                w2.bundles == w1.bundles,
                w1.is_remove_result(a as int, b, d as int),
                w1.bundle_slots(b).subset_of(w1.slot_set(a as int)),
                0 <= a < w1.num_archetypes(),
                crate::table::slots_distinct(slots@),
                storage.len() == slots.len(),
                w1.entities.is_live(e),
                w1.entities.location_of(e).archetype_id.0 == a,
                w1.bundles.contains_id(b),
                w2.num_archetypes() == w1.num_archetypes(),
                forall|k2: int| 0 <= k2 < self.sparse_sets.sets.len() ==> (#[trigger] self.sparse_sets.sets[k2]).slot == w2.sparse_sets.sets[k2].slot,
                w2.sparse_sets.sets.len() == w1.sparse_sets.sets.len(),
                forall|k2: int| 0 <= k2 < w1.sparse_sets.sets.len() ==> (#[trigger] w2.sparse_sets.sets[k2]).slot == w1.sparse_sets.sets[k2].slot,
                w2.archetypes.archetypes[d as int].sparse_set_components@ == w1.archetypes.archetypes[d as int].sparse_set_components@,
                0 <= d < w1.num_archetypes(),
                self.sparse_sets.sets.len() == w2.sparse_sets.sets.len(),
                forall|t: Slot| w2.sparse_sets.has_set(t) ==> #[trigger] self.set_index(t) == w2.set_index(t),
                forall|t: Slot| w2.sparse_sets.has_set(t) && !slots@.take(i as int).contains(t) ==>
                    #[trigger] self.sparse_sets.sets[w2.set_index(t)] == w2.sparse_sets.sets[w2.set_index(t)],
            decreases slots.len() - i,
        {
            proof {
                assert forall|x: Slot| slots@.take(i as int).contains(x) implies slots@.take(i + 1).contains(x) by {
                    let j = choose|j: int| 0 <= j < i && slots@.take(i as int)[j] == x;
                    assert(slots@.take(i + 1)[j] == x);
                }
                assert(slots@.take(i + 1)[i as int] == slots@[i as int]);
            }
            if storage[i] == StorageType::SparseSet {
                let sl = slots[i];
                let ghost before = *self;
                proof {
                    w1.lemma_slot_classes(a as int);
                    w1.lemma_live_location(e);
                    assert(w1.bundles.info(b).wf(&w1.components));
                    assert(w1.bundle_slots(b).contains(sl));
                    assert(!w1.sparse_set_set(d as int).contains(sl));
                    w2.lemma_slot_classes(d as int);
                    assert(w1.components.storage_type_of(sl.kind) == StorageType::SparseSet);
                    assert(w1.sparse_sets.has_set(sl)) by {
                        assert(w1.slot_set(a as int).contains(sl));
                        if w1.table_set(a as int).contains(sl) {
                            assert(w1.archetypes.archetypes[a as int].table_components@.contains(sl));
                        }
                        assert(w1.archetypes.archetypes[a as int].sparse_set_components@.contains(sl));
                    }
                    assert(w2.sparse_sets.has_set(sl)) by {
                        let j = choose|j: int| 0 <= j < w1.sparse_sets.sets.len() && (#[trigger] w1.sparse_sets.sets[j]).slot == sl;
                        w2.lemma_live_location(e);
                        w1.lemma_live_location(e);
                        assert(w2.sparse_sets.sets.len() == w1.sparse_sets.sets.len());
                        assert(w2.sparse_sets.sets[j].slot == sl);
                    }
                    assert(self.sparse_sets.has_set(sl)) by {
                        let j = w2.set_index(sl);
                        assert(self.sparse_sets.sets[j].slot == sl) by {
                            self.lemma_live_location(e);
                            if !slots@.take(i as int).contains(sl) {
                            } else {
                                let jj = choose|jj: int| 0 <= jj < i && slots@.take(i as int)[jj] == sl;
                                assert(slots@[jj] == sl);
                                assert(crate::table::slots_distinct(slots@));
                            }
                        }
                    }
                }
                self.forget_sparse(e, sl);
                proof {
                    assert forall|t: Slot| w2.sparse_sets.has_set(t) implies #[trigger] self.set_index(t) == w2.set_index(t) by {
                        assert(before.set_index(t) == w2.set_index(t));
                        self.lemma_live_location(e);
                        before.lemma_live_location(e);
                        assert(before.sparse_sets.has_set(t)) by {
                            let j = choose|j: int| 0 <= j < w2.sparse_sets.sets.len() && (#[trigger] w2.sparse_sets.sets[j]).slot == t;
                            assert(before.sparse_sets.sets[j].slot == t);
                        }
                        self.lemma_set_index_kept(&before, t);
                    }
                    assert forall|t: Slot| w2.sparse_sets.has_set(t) && !slots@.take(i + 1).contains(t) implies
                        #[trigger] self.sparse_sets.sets[w2.set_index(t)] == w2.sparse_sets.sets[w2.set_index(t)] by {
                        assert(!slots@.take(i as int).contains(t));
                        assert(t != sl);
                        assert(w2.set_index(t) != w2.set_index(sl)) by {
                            assert(w2.sparse_sets.sets[w2.set_index(t)].slot == t);
                            assert(w2.sparse_sets.sets[w2.set_index(sl)].slot == sl);
                        }
                        assert(before.set_index(sl) == w2.set_index(sl));
                    }
                }
            } else {
                proof {
                    assert forall|t: Slot| w2.sparse_sets.has_set(t) && !slots@.take(i + 1).contains(t) implies
                        #[trigger] self.sparse_sets.sets[w2.set_index(t)] == w2.sparse_sets.sets[w2.set_index(t)] by {
                        assert(!slots@.take(i as int).contains(t));
                    }
                }
            }
            i = i + 1;
        }
        let mut li: usize = 0;
        let ghost w3 = *self;
        while li < slots.len()
            invariant
                li <= slots.len(),
                self.entities == w3.entities,
                self.archetypes == w3.archetypes,
                self.tables == w3.tables,
                self.sparse_sets == w3.sparse_sets,
                self.components == w3.components,
                self.bundles == w3.bundles,
                self.change_tick == w3.change_tick,
                self.last_change_tick == w3.last_change_tick,
                self.removed_components@ == w3.removed_components@ + removal_log(slots@.take(li as int), e),
            decreases slots.len() - li,
        {
            self.removed_components.push((slots[li], e));
            proof {
                assert(removal_log(slots@.take(li + 1), e) =~= removal_log(slots@.take(li as int), e).push((slots@[li as int], e)));
                assert(w3.removed_components@ + removal_log(slots@.take(li + 1), e) =~= (w3.removed_components@ + removal_log(slots@.take(li as int), e)).push((slots@[li as int], e)));
            }
            li = li + 1;
        }
        proof {
            assert(slots@.take(slots.len() as int) =~= slots@);
            assert(self.wf()) by {
                self.lemma_log_irrelevant(&w3);
            }
            self.lemma_remove_effects(&o, &w1, &w2, &w3, e, b, a as int, d as int, slots@, storage@);
            assert(o.bundle_slots(b) == w1.bundle_slots(b));
            assert forall|k2: int| 0 <= k2 < vs.len() implies (#[trigger] vs@[k2])@ == o.value_of(e, o.bundles.info(b).relation_ids[k2])@ by {
                assert(w1.bundle_slots(b).contains(slots@[k2]));
                assert(o.has(e, slots@[k2]));
            }
        }
        Some(vs)
    }

    /// `remove_bundle(e, b)` succeeds: a live entity, a registered bundle whose slots it all has,
    /// and room for the archetype ids.
    pub open spec fn can_remove(&self, e: Entity, b: BundleId) -> bool {
        &&& self.entities.is_live(e)
        &&& self.bundles.contains_id(b)
        &&& self.archetypes.has_room(self.add_room(self.entities.location_of(e).archetype_id.0 as int, b))
        &&& self.bundle_slots(b).subset_of(self.slot_set(self.entities.location_of(e).archetype_id.0 as int))
    }

    /// Drops the entry of `e` from the sparse set of slot `s`, which `e`'s archetype (if `e` is
    /// live) does not have.
    #[verifier::spinoff_prover]
    fn forget_sparse(&mut self, e: Entity, s: Slot) -> (r: Option<Vec<u8>>)
        requires
            old(self).wf(),
            old(self).sparse_sets.has_set(s),
            old(self).entities.is_live(e) ==>
                !old(self).archetypes.archetypes[old(self).entities.location_of(e).archetype_id.0 as int].sparse_set_components@.contains(s),
        ensures
            final(self).wf(),
            final(self).archetypes == old(self).archetypes,
            final(self).tables == old(self).tables,
            final(self).entities == old(self).entities,
            final(self).components == old(self).components,
            final(self).bundles == old(self).bundles,
            final(self).removed_components == old(self).removed_components,
            final(self).change_tick == old(self).change_tick,
            final(self).last_change_tick == old(self).last_change_tick,
            final(self).sparse_sets.sets.len() == old(self).sparse_sets.sets.len(),
            forall|k: int| 0 <= k < final(self).sparse_sets.sets.len() ==> (#[trigger] final(self).sparse_sets.sets[k]).slot == old(self).sparse_sets.sets[k].slot,
            forall|k: int| 0 <= k < final(self).sparse_sets.sets.len() && k != old(self).set_index(s) ==>
                #[trigger] final(self).sparse_sets.sets[k] == old(self).sparse_sets.sets[k],
            !final(self).sparse_sets.sets[old(self).set_index(s)].contains(e),
            forall|x: Entity| x != e ==> {
                &&& (#[trigger] final(self).sparse_sets.sets[old(self).set_index(s)].contains(x)) == old(self).sparse_sets.sets[old(self).set_index(s)].contains(x)
                &&& (old(self).sparse_sets.sets[old(self).set_index(s)].contains(x) ==>
                    final(self).sparse_sets.sets[old(self).set_index(s)].value_of(x) == old(self).sparse_sets.sets[old(self).set_index(s)].value_of(x)
                    && final(self).sparse_sets.sets[old(self).set_index(s)].ticks_of(x) == old(self).sparse_sets.sets[old(self).set_index(s)].ticks_of(x))
            },
            forall|t: Slot| old(self).sparse_sets.has_set(t) ==> #[trigger] final(self).set_index(t) == old(self).set_index(t),
    {
        let ghost o = *old(self);
        let ghost ki = o.set_index(s);
        proof {
            reveal(World::wf_layout);
            reveal(World::wf_entities);
            reveal(World::wf_edges);
        }
        let k = self.sparse_sets.index_of(s.kind, s.target).unwrap();
        proof {
            assert(o.sparse_sets.sets[ki].slot == s);
            assert(k == ki);
        }
        let r = self.sparse_sets.sets[k].remove_and_forget(e);
        proof {
            assert forall|k2: int, k3: int| 0 <= k2 < self.sparse_sets.sets.len() && 0 <= k3 < self.sparse_sets.sets.len() && k2 != k3
                implies (#[trigger] self.sparse_sets.sets[k2]).slot != (#[trigger] self.sparse_sets.sets[k3]).slot by {
                assert(o.sparse_sets.sets[k2].slot != o.sparse_sets.sets[k3].slot);
            }
            assert forall|k2: int| 0 <= k2 < self.sparse_sets.sets.len() implies (#[trigger] self.sparse_sets.sets[k2]).wf() by {
                if k2 != ki { assert(self.sparse_sets.sets[k2] == o.sparse_sets.sets[k2]); }
            }
            assert(self.sparse_sets.wf());
            assert forall|k2: int| 0 <= k2 < o.sparse_sets.sets.len() implies (#[trigger] self.sparse_sets.sets[k2]).slot == o.sparse_sets.sets[k2].slot by {
                if k2 != ki { assert(self.sparse_sets.sets[k2] == o.sparse_sets.sets[k2]); }
            }
            assert forall|t: Slot| o.sparse_sets.has_set(t) implies #[trigger] self.set_index(t) == o.set_index(t) by {
                self.lemma_set_index_kept(&o, t);
            }
            // entity bookkeeping: every sparse-set membership of an archetype entry is kept
            assert forall|a: int, i: int| 0 <= a < self.num_archetypes() && 0 <= i < self.archetypes.archetypes[a].entities.len() implies
                forall|k2: int| 0 <= k2 < self.archetypes.archetypes[a].sparse_set_components.len() ==>
                    self.sparse_sets.sets[self.set_index(#[trigger] self.archetypes.archetypes[a].sparse_set_components[k2])].contains(#[trigger] self.archetypes.archetypes[a].entities[i]) by {
                let x = self.archetypes.archetypes[a].entities[i];
                assert forall|k2: int| 0 <= k2 < self.archetypes.archetypes[a].sparse_set_components.len() implies
                    self.sparse_sets.sets[self.set_index(#[trigger] self.archetypes.archetypes[a].sparse_set_components[k2])].contains(x) by {
                    let sl = self.archetypes.archetypes[a].sparse_set_components[k2];
                    assert(o.sparse_sets.sets[o.set_index(sl)].contains(x));
                    assert(o.sparse_sets.has_set(sl));
                    if x == e {
                        assert(o.entities.location_of(e).archetype_id.0 == a);
                        assert(o.archetypes.archetypes[a].sparse_set_components@.contains(sl));
                    }
                }
            }
            assert forall|x: int, k2: int| 0 <= x < self.num_archetypes() && 0 <= k2 < self.archetypes.archetypes[x].sparse_set_components.len() implies
                self.sparse_sets.has_set(#[trigger] self.archetypes.archetypes[x].sparse_set_components[k2]) by {
                let sl = self.archetypes.archetypes[x].sparse_set_components[k2];
                assert(o.sparse_sets.has_set(sl));
                self.lemma_set_index_kept(&o, sl);
            }
            self.lemma_edges_kept(&o);
        }
        proof {
            assert forall|x: Entity| x != e implies {
                &&& (#[trigger] self.sparse_sets.sets[ki].contains(x)) == o.sparse_sets.sets[ki].contains(x)
                &&& (o.sparse_sets.sets[ki].contains(x) ==>
                    self.sparse_sets.sets[ki].value_of(x) == o.sparse_sets.sets[ki].value_of(x)
                    && self.sparse_sets.sets[ki].ticks_of(x) == o.sparse_sets.sets[ki].ticks_of(x))
            } by {
                if x.id == e.id {
                    assert(x.id == e.id && x != e);
                }
            }
        }
        r
    }

    /// The removal log takes no part in well-formedness.
    #[verifier::spinoff_prover]
    proof fn lemma_log_irrelevant(&self, other: &World)
        requires
            other.wf(),
            self.entities == other.entities,
            self.archetypes == other.archetypes,
            self.tables == other.tables,
            self.sparse_sets == other.sparse_sets,
            self.components == other.components,
            self.bundles == other.bundles,
        ensures
            self.wf(),
    {
        reveal(World::wf_layout);
        reveal(World::wf_entities);
        reveal(World::wf_edges);
    }

    /// What a strict removal leaves behind, from the facts of its steps.
    #[verifier::rlimit(100)]
    #[verifier::spinoff_prover]
    proof fn lemma_remove_effects(&self, o: &World, w1: &World, w2: &World, w3: &World, e: Entity, b: BundleId, a: int, d: int,
        slots: Seq<Slot>, storage: Seq<StorageType>)
        requires
            o.wf(),
            o.entities.is_live(e),
            a == o.entities.location_of(e).archetype_id.0,
            0 <= a < o.num_archetypes(),
            w1.wf(),
            w1.grows_from(o),
            0 <= d < w1.num_archetypes(),
            w1.is_remove_result(a, b, d),
            w1.bundles.contains_id(b),
            slots == w1.bundles.info(b).relation_ids@,
            storage == w1.bundles.info(b).storage_types@,
            w2.wf(),
            w2.entities.is_live(e),
            w2.entities.location_of(e).archetype_id.0 == d,
            w2.sparse_sets == w1.sparse_sets,
            w2.components == w1.components,
            w2.bundles == w1.bundles,
            w2.archetypes.archetypes.len() == w1.archetypes.archetypes.len(),
            forall|x: int| 0 <= x < w2.num_archetypes() ==> (#[trigger] w2.archetypes.archetypes[x]).same_layout(&w1.archetypes.archetypes[x]),
            forall|x: Entity| #[trigger] w2.entities.is_live(x) == w1.entities.is_live(x),
            forall|x: Entity| w2.entities.is_live(x) && x != e ==>
                w2.entities.location_of(x).archetype_id == w1.entities.location_of(x).archetype_id,
            d != a ==> w2.carries_table_values(w1, e, a, d),
            d == a ==> *w2 == *w1,
            w3.entities == w2.entities,
            w3.archetypes == w2.archetypes,
            w3.tables == w2.tables,
            w3.components == w2.components,
            forall|t: Slot| w2.sparse_sets.has_set(t) ==> #[trigger] w3.set_index(t) == w2.set_index(t),
            forall|t: Slot| w2.sparse_sets.has_set(t) && !slots.take(slots.len() as int).contains(t) ==>
                #[trigger] w3.sparse_sets.sets[w2.set_index(t)] == w2.sparse_sets.sets[w2.set_index(t)],
            self.wf(),
            self.entities == w3.entities,
            self.archetypes == w3.archetypes,
            self.tables == w3.tables,
            self.sparse_sets == w3.sparse_sets,
            self.components == w3.components,
        ensures
            self.entities.is_live(e),
            forall|s: Slot| #[trigger] self.has(e, s) <==> o.has(e, s) && !o.bundle_slots(b).contains(s),
            self.keeps_values_of(o, e),
            self.others_keep_slots(o, e),
    {
        reveal(World::carries_table_values);
        reveal(World::keeps_values_of);
        o.lemma_live_location(e);
        w1.lemma_live_location(e);
        w1.lemma_slot_classes(a);
        w1.lemma_slot_classes(d);
        w1.lemma_sparse_membership(e);
        w1.lemma_grow_values(o, e);
        assert(slots.take(slots.len() as int) =~= slots);
        let arch_a = w1.archetypes.archetypes[a];
        let arch_d = w1.archetypes.archetypes[d];
        assert(w1.entities.location_of(e) == o.entities.location_of(e));
        assert(self.entities.location_of(e).archetype_id.0 == d);
        assert(self.archetypes.archetypes[d].same_layout(&arch_d));
        assert(o.bundle_slots(b) == w1.bundle_slots(b));
        assert forall|s: Slot| #[trigger] self.has(e, s) <==> o.has(e, s) && !o.bundle_slots(b).contains(s) by {
            assert(self.archetypes.archetypes[d].has_slot(s) == (w1.table_set(d).contains(s) || w1.sparse_set_set(d).contains(s)));
            assert(w1.has(e, s) == (w1.table_set(a).contains(s) || w1.sparse_set_set(a).contains(s)));
        }
        assert forall|s: Slot| self.has(e, s) implies #[trigger] self.value_of(e, s) == o.value_of(e, s)
            && self.ticks_of(e, s) == o.ticks_of(e, s) by {
            assert(w1.has(e, s));
            assert(o.has(e, s));
            assert(w1.value_of(e, s) == o.value_of(e, s));
            assert(w1.ticks_of(e, s) == o.ticks_of(e, s));
            assert(!w1.bundle_slots(b).contains(s));
            assert(!slots.contains(s));
            if arch_d.table_components@.contains(s) {
                assert(w1.table_set(d).contains(s));
                assert(arch_a.table_components@.contains(s));
                assert(w2.value_of(e, s) == w1.value_of(e, s));
                assert(w2.ticks_of(e, s) == w1.ticks_of(e, s));
                assert(self.archetypes.archetypes[d].table_components@.contains(s));
                assert(self.value_of(e, s) == w2.value_of(e, s));
                assert(self.ticks_of(e, s) == w2.ticks_of(e, s));
            } else {
                assert(w1.sparse_set_set(d).contains(s));
                assert(arch_a.sparse_set_components@.contains(s));
                assert(!arch_a.table_components@.contains(s));
                assert(w1.sparse_sets.has_set(s));
                assert(w2.sparse_sets.has_set(s));
                assert(self.sparse_sets.sets[w2.set_index(s)] == w2.sparse_sets.sets[w2.set_index(s)]);
                assert(w3.set_index(s) == w2.set_index(s));
                self.lemma_live_location(e);
                assert(self.set_index(s) == w3.set_index(s)) by {
                    let j = w2.set_index(s);
                    assert(w2.sparse_sets.sets[j].slot == s);
                    assert(self.sparse_sets.sets[j].slot == s);
                    assert(self.sparse_sets.sets[self.set_index(s)].slot == s);
                }
                assert(!self.archetypes.archetypes[d].table_components@.contains(s));
                assert(self.value_of(e, s) == self.sparse_sets.sets[self.set_index(s)].value_of(e));
                assert(self.ticks_of(e, s) == self.sparse_sets.sets[self.set_index(s)].ticks_of(e));
                assert(w1.value_of(e, s) == w1.sparse_sets.sets[w1.set_index(s)].value_of(e));
                assert(w1.ticks_of(e, s) == w1.sparse_sets.sets[w1.set_index(s)].ticks_of(e));
                w2.lemma_live_location(e);
                w2.lemma_set_index_kept(w1, s);
                assert(w2.set_index(s) == w1.set_index(s));
                assert(self.value_of(e, s) == w1.value_of(e, s));
                assert(self.ticks_of(e, s) == w1.ticks_of(e, s));
            }
        }
        assert(self.keeps_values_of(o, e));
        assert forall|x: Entity, s2: Slot| x != e && o.entities.is_live(x) implies #[trigger] self.has(x, s2) == o.has(x, s2) by {
            let ax = o.entities.location_of(x).archetype_id.0 as int;
            o.lemma_live_location(x);
            assert(w1.entities.location_of(x) == o.entities.location_of(x));
            assert(w1.archetypes.archetypes[ax].same_layout(&o.archetypes.archetypes[ax]));
            assert(w2.entities.is_live(x));
            assert(w2.entities.location_of(x).archetype_id.0 == ax);
            assert(w2.archetypes.archetypes[ax].same_layout(&w1.archetypes.archetypes[ax]));
            assert(self.entities.location_of(x) == w2.entities.location_of(x));
        }
    }

    /// Removes the table row of a detached entity and frees the entity.
    #[verifier::spinoff_prover]
    fn drop_detached(&mut self, e: Entity, t: usize, r: usize)
        requires
            old(self).wf_layout(),
            old(self).wf_entities(Some(Detached { entity: e, table: t as int, row: r as int })),
        ensures
            final(self).wf(),
            !final(self).entities.is_live(e),
            e.generation < u32::MAX ==> final(self).entities.is_stale(e),
            forall|x: Entity| x != e ==> #[trigger] final(self).entities.is_live(x) == old(self).entities.is_live(x),
            final(self).entities.meta.len() == old(self).entities.meta.len(),
            forall|i: int| 0 <= i < final(self).entities.meta.len() && i != e.id ==> #[trigger] final(self).entities.meta[i] == old(self).entities.meta[i],
            e.generation < u32::MAX ==> final(self).entities.free_list@ == old(self).entities.free_list@.push(e.id)
                && final(self).entities.meta[e.id as int].generation == e.generation + 1,
            forall|x: Entity| old(self).entities.is_stale(x) ==> #[trigger] final(self).entities.is_stale(x),
            final(self).tables.tables.len() == old(self).tables.tables.len(),
            forall|t2: int| 0 <= t2 < final(self).tables.tables.len() ==> (#[trigger] final(self).tables.tables[t2]).same_shape(&old(self).tables.tables[t2]),
            forall|t2: int| 0 <= t2 < final(self).tables.tables.len() && t2 != t ==> #[trigger] final(self).tables.tables[t2] == old(self).tables.tables[t2],
            forall|x: Entity| x != e && old(self).entities.is_live(x) ==> final(self).entities.location_of(x) == old(self).entities.location_of(x)
                && 0 <= final(self).row_of(x) < final(self).tables.tables[old(self).arch_table(old(self).entities.location_of(x).archetype_id.0 as int)].entities.len()
                && final(self).row_kept(old(self), x),
            final(self).archetypes.archetypes.len() == old(self).archetypes.archetypes.len(),
            forall|x: int| 0 <= x < final(self).num_archetypes() ==> (#[trigger] final(self).archetypes.archetypes[x]).same_layout(&old(self).archetypes.archetypes[x]),
            final(self).sparse_sets == old(self).sparse_sets,
            final(self).components == old(self).components,
            final(self).bundles == old(self).bundles,
            final(self).removed_components == old(self).removed_components,
            final(self).change_tick == old(self).change_tick,
            final(self).last_change_tick == old(self).last_change_tick,
    {
        proof { reveal(World::wf_layout); reveal(World::wf_entities); reveal(World::wf_edges); }
        let ghost o = *old(self);
        let ghost last = o.tables.tables[t as int].entities.len() - 1;
        let ghost m2 = o.tables.tables[t as int].entities@.last();
        let ghost loc2 = o.entities.location_of(m2);
        let moved = self.tables.tables[t].swap_remove_unchecked(r);
        match moved {
            Some(m) => {
                proof { assert(o.tables.tables[t as int].entities[last] == m2); }
                match self.entities.get(m) {
                    Some(l) => {
                        self.archetypes.archetypes[l.archetype_id.0].set_entity_table_row(l.index, r);
                    },
                    None => {},
                }
            },
            None => {},
        }
        let ghost before_free = *self;
        self.entities.free(e);
        proof {
            self.lemma_edges_kept(&o);
            let n = self.archetypes;
            assert forall|x: int| 0 <= x < n.archetypes.len() implies (#[trigger] n.archetypes[x]).wf()
                && n.archetypes[x].id == ArchetypeId(x as usize) by {
                assert(n.archetypes[x].same_layout(&o.archetypes.archetypes[x]));
            }
            assert forall|x: int, y: int| 0 <= x < n.archetypes.len() && 0 <= y < n.archetypes.len() && x != 1 && y != 1 && x != y
                implies !Archetypes::same_identity(#[trigger] n.archetypes[x], #[trigger] n.archetypes[y]) by {
                assert(!Archetypes::same_identity(o.archetypes.archetypes[x], o.archetypes.archetypes[y]));
            }
            assert forall|t2: int| 0 <= t2 < self.tables.tables.len() implies (#[trigger] self.tables.tables[t2]).slots() == o.tables.tables[t2].slots() by {
                assert(self.tables.tables[t2].slots() =~= o.tables.tables[t2].slots());
            }
            assert forall|x: int| 0 <= x < self.num_archetypes() implies {
                &&& (#[trigger] self.archetypes.archetypes[x]).table_id.0 < self.tables.tables.len()
                &&& self.tables.tables[self.archetypes.archetypes[x].table_id.0 as int].slots()
                    == self.archetypes.archetypes[x].table_components@
                &&& is_sorted(self.archetypes.archetypes[x].table_components@)
                &&& is_sorted(self.archetypes.archetypes[x].sparse_set_components@)
            } by {
                assert(self.archetypes.archetypes[x].same_layout(&o.archetypes.archetypes[x]));
            }
            assert forall|x: int, k: int| 0 <= x < self.num_archetypes() && 0 <= k < self.archetypes.archetypes[x].table_components.len() implies {
                &&& self.components.contains_id((#[trigger] self.archetypes.archetypes[x].table_components[k]).kind)
                &&& self.components.storage_type_of(self.archetypes.archetypes[x].table_components[k].kind) == StorageType::Table
            } by {
                assert(o.archetypes.archetypes[x].table_components[k] == self.archetypes.archetypes[x].table_components[k]);
            }
            assert forall|x: int, k: int| 0 <= x < self.num_archetypes() && 0 <= k < self.archetypes.archetypes[x].sparse_set_components.len() implies {
                &&& self.components.contains_id((#[trigger] self.archetypes.archetypes[x].sparse_set_components[k]).kind)
                &&& self.components.storage_type_of(self.archetypes.archetypes[x].sparse_set_components[k].kind) == StorageType::SparseSet
                &&& self.sparse_sets.has_set(self.archetypes.archetypes[x].sparse_set_components[k])
            } by {
                assert(o.archetypes.archetypes[x].sparse_set_components[k] == self.archetypes.archetypes[x].sparse_set_components[k]);
            }
            assert forall|id: int| 0 <= id < self.entities.meta.len() && (#[trigger] self.entities.meta[id]).location is Some implies {
                    let l = self.entities.meta[id].location.unwrap();
                    &&& l.archetype_id.0 < self.num_archetypes()
                    &&& l.index < self.archetypes.archetypes[l.archetype_id.0 as int].entities.len()
                    &&& self.archetypes.archetypes[l.archetype_id.0 as int].entities[l.index as int]
                        == (Entity { id: id as u32, generation: self.entities.meta[id].generation })
                } by {
                assert(id != e.id);
                assert(self.entities.meta[id] == o.entities.meta[id]);
            }
            assert forall|x: int, i: int| 0 <= x < self.num_archetypes() && 0 <= i < self.archetypes.archetypes[x].entities.len() implies {
                let y = #[trigger] self.archetypes.archetypes[x].entities[i];
                &&& self.entities.is_live(y)
                &&& self.entities.location_of(y) == (EntityLocation { archetype_id: ArchetypeId(x as usize), index: i as usize })
                &&& self.archetypes.archetypes[x].entity_rows[i] < self.tables.tables[self.arch_table(x)].entities.len()
                &&& self.tables.tables[self.arch_table(x)].entities[self.archetypes.archetypes[x].entity_rows[i] as int] == y
                &&& forall|k: int| 0 <= k < self.archetypes.archetypes[x].sparse_set_components.len() ==>
                    self.sparse_sets.sets[self.set_index(#[trigger] self.archetypes.archetypes[x].sparse_set_components[k])].contains(y)
            } by {
                let y = o.archetypes.archetypes[x].entities[i];
                assert(self.archetypes.archetypes[x].entities[i] == y);
                assert(y != e);
                assert(y.id != e.id);
                assert(self.entities.meta[y.id as int] == o.entities.meta[y.id as int]);
                assert(self.archetypes.archetypes[x].sparse_set_components@ == o.archetypes.archetypes[x].sparse_set_components@);
                assert forall|k: int| 0 <= k < self.archetypes.archetypes[x].sparse_set_components.len() implies
                    self.sparse_sets.sets[self.set_index(#[trigger] self.archetypes.archetypes[x].sparse_set_components[k])].contains(y) by {
                    assert(o.archetypes.archetypes[x].sparse_set_components[k] == self.archetypes.archetypes[x].sparse_set_components[k]);
                }
                let orow = o.archetypes.archetypes[x].entity_rows[i];
                assert(o.tables.tables[o.arch_table(x)].entities[orow as int] == y);
                if o.arch_table(x) == t {
                    if orow == last && r != last {
                        assert(y == m2);
                        assert(loc2 == (EntityLocation { archetype_id: ArchetypeId(x as usize), index: i as usize }));
                    } else if orow == r {
                        assert(y == e);
                    }
                }
                if x == loc2.archetype_id.0 && i == loc2.index && r != last {
                    assert(o.tables.tables[t as int].entities[last] == m2);
                }
            }
            assert forall|t2: int, r2: int| 0 <= t2 < self.tables.tables.len() && 0 <= r2 < self.tables.tables[t2].entities.len() implies {
                    let y = #[trigger] self.tables.tables[t2].entities[r2];
                    let l = self.entities.location_of(y);
                    &&& self.entities.is_live(y)
                    &&& l.archetype_id.0 < self.num_archetypes()
                    &&& l.index < self.archetypes.archetypes[l.archetype_id.0 as int].entities.len()
                    &&& self.arch_table(l.archetype_id.0 as int) == t2
                    &&& self.archetypes.archetypes[l.archetype_id.0 as int].entity_rows[l.index as int] == r2
                } by {
                let y = self.tables.tables[t2].entities[r2];
                if t2 == t {
                    if r2 == r {
                        assert(y == o.tables.tables[t as int].entities[last]);
                        assert(y == m2);
                    } else {
                        assert(y == o.tables.tables[t2].entities[r2]);
                    }
                } else {
                    assert(self.tables.tables[t2] == o.tables.tables[t2]);
                }
                assert(y != e);
                assert(y.id != e.id);
                assert(self.entities.meta[y.id as int] == o.entities.meta[y.id as int]);
            }
            assert(self.archetypes.archetypes[1].entities@ == o.archetypes.archetypes[1].entities@);
            assert forall|x: Entity| x != e implies #[trigger] self.entities.is_live(x) == o.entities.is_live(x) by {
                if x.id == e.id && o.entities.is_live(x) {
                    assert(x == e);
                }
            }
        }
        proof {
            assert forall|t2: int| 0 <= t2 < self.tables.tables.len() implies (#[trigger] self.tables.tables[t2]).same_shape(&o.tables.tables[t2]) by {
                if t2 != t { assert(self.tables.tables[t2] == o.tables.tables[t2]); }
            }
            assert forall|x: Entity| x != e && o.entities.is_live(x) implies self.entities.location_of(x) == o.entities.location_of(x)
                && 0 <= self.row_of(x) < self.tables.tables[o.arch_table(o.entities.location_of(x).archetype_id.0 as int)].entities.len()
                && self.row_kept(&o, x) by {
                let l = o.entities.location_of(x);
                let ax = l.archetype_id.0 as int;
                assert(x.id != e.id);
                assert(self.entities.meta[x.id as int] == o.entities.meta[x.id as int]);
                assert(o.entities.meta[x.id as int].location is Some);
                assert(o.archetypes.archetypes[ax].entities[l.index as int] == x);
                let r0 = o.archetypes.archetypes[ax].entity_rows[l.index as int];
                let tx = o.arch_table(ax);
                assert(o.tables.tables[tx].entities[r0 as int] == x);
                assert(self.archetypes.archetypes[ax].same_layout(&o.archetypes.archetypes[ax]));
                if tx == t {
                    assert(r0 != r);
                    if r0 == last {
                        assert(x == m2);
                        assert(loc2 == l);
                        assert(self.row_of(x) == r);
                    } else {
                        assert(self.row_of(x) == r0);
                    }
                    assert forall|c: int| #![trigger o.tables.tables[tx].columns[c]] 0 <= c < o.tables.tables[tx].columns.len() implies {
                        &&& self.tables.tables[tx].columns[c].data[self.row_of(x)] == o.tables.tables[tx].columns[c].data[o.row_of(x)]
                        &&& self.tables.tables[tx].columns[c].ticks[self.row_of(x)] == o.tables.tables[tx].columns[c].ticks[o.row_of(x)]
                    } by {
                        assert(o.tables.tables[tx].columns[c].wf());
                    }
                } else {
                    assert(self.row_of(x) == r0);
                }
            }
        }
    }

    /// Destroys live entity `e`: logs each of its slots as removed, drops its values and frees
    /// its id, whose next handle gets a new generation. Returns false, changing nothing, for a
    /// stale handle.
    #[verifier::spinoff_prover]
    pub fn despawn(&mut self, e: Entity) -> (r: bool)
        requires
            old(self).wf(),
        ensures
            final(self).wf(),
            r == old(self).entities.is_live(e),
            !r ==> *final(self) == *old(self),
            r ==> !final(self).entities.is_live(e),
            r && e.generation < u32::MAX ==> final(self).entities.is_stale(e),
            r ==> forall|s: Slot| !#[trigger] final(self).has(e, s),
            r ==> final(self).removed_components@ == old(self).removed_components@ + removal_log(
                old(self).archetypes.archetypes[old(self).entities.location_of(e).archetype_id.0 as int].table_components@
                    + old(self).archetypes.archetypes[old(self).entities.location_of(e).archetype_id.0 as int].sparse_set_components@,
                e,
            ),
            forall|x: Entity| x != e ==> #[trigger] final(self).entities.is_live(x) == old(self).entities.is_live(x),
            r ==> final(self).others_keep_slots(old(self), e),
            r ==> final(self).others_keep_values(old(self), e),
            r && e.generation < u32::MAX ==> final(self).entities.free_list@ == old(self).entities.free_list@.push(e.id)
                && final(self).entities.meta[e.id as int].generation == e.generation + 1,
            forall|x: Entity| old(self).entities.is_stale(x) ==> #[trigger] final(self).entities.is_stale(x),
    {
        let ghost o = *old(self);
        let loc = match self.entities.get(e) {
            None => { return false; },
            Some(l) => l,
        };
        proof {
            o.lemma_live_location(e);
            o.lemma_slot_classes(loc.archetype_id.0 as int);
        }
        let a = loc.archetype_id.0;
        let comps = self.archetypes.archetypes[a].components();
        let sparse = crate::table::copy_slots(&self.archetypes.archetypes[a].sparse_set_components);
        let t = self.archetypes.archetypes[a].table_id.0;
        proof { assert(o.arch_table(a as int) == t); }
        let row = self.detach(e, loc);
        let ghost w0 = *self;
        self.drop_detached(e, t, row);
        let ghost w1 = *self;
        proof {
            assert forall|k: int| 0 <= k < sparse.len() implies w1.sparse_sets.has_set(#[trigger] sparse@[k]) by {
                assert(o.archetypes.archetypes[a as int].sparse_set_components@[k] == sparse@[k]);
                assert(o.archetypes.archetypes[a as int].sparse_set_components@.contains(sparse@[k]));
            }
        }
        let mut i: usize = 0;
        while i < sparse.len()
            invariant
                i <= sparse.len(),
                self.wf(),
                !self.entities.is_live(e),
                w1.sparse_sets.sets.len() == o.sparse_sets.sets.len(),
                forall|k: int| 0 <= k < sparse.len() ==> w1.sparse_sets.has_set(#[trigger] sparse@[k]),
                forall|k2: int| 0 <= k2 < self.sparse_sets.sets.len() ==> (#[trigger] self.sparse_sets.sets[k2]).slot == w1.sparse_sets.sets[k2].slot,
                self.sparse_sets.sets.len() == w1.sparse_sets.sets.len(),
                self.entities == w1.entities,
                self.archetypes == w1.archetypes,
                self.removed_components == w1.removed_components,
                self.tables == w1.tables,
                forall|k2: int, x: Entity| 0 <= k2 < self.sparse_sets.sets.len() && x != e ==> {
                    &&& (#[trigger] self.sparse_sets.sets[k2].contains(x)) == w1.sparse_sets.sets[k2].contains(x)
                    &&& (w1.sparse_sets.sets[k2].contains(x) ==>
                        self.sparse_sets.sets[k2].value_of(x) == w1.sparse_sets.sets[k2].value_of(x)
                        && self.sparse_sets.sets[k2].ticks_of(x) == w1.sparse_sets.sets[k2].ticks_of(x))
                },
                forall|x: Entity| #[trigger] self.entities.is_live(x) == w1.entities.is_live(x),
            decreases sparse.len() - i,
        {
            let sl = sparse[i];
            proof {
                assert(w1.sparse_sets.has_set(sl));
                let j = choose|j: int| 0 <= j < w1.sparse_sets.sets.len() && (#[trigger] w1.sparse_sets.sets[j]).slot == sl;
                assert(self.sparse_sets.sets[j].slot == sl);
            }
            let ghost before = *self;
            self.forget_sparse(e, sl);
            proof {
                assert forall|k2: int, x: Entity| 0 <= k2 < self.sparse_sets.sets.len() && x != e implies {
                    &&& (#[trigger] self.sparse_sets.sets[k2].contains(x)) == w1.sparse_sets.sets[k2].contains(x)
                    &&& (w1.sparse_sets.sets[k2].contains(x) ==>
                        self.sparse_sets.sets[k2].value_of(x) == w1.sparse_sets.sets[k2].value_of(x)
                        && self.sparse_sets.sets[k2].ticks_of(x) == w1.sparse_sets.sets[k2].ticks_of(x))
                } by {
                    assert(before.sparse_sets.sets[k2].contains(x) == w1.sparse_sets.sets[k2].contains(x));
                    if k2 == before.set_index(sl) {
                        assert(self.sparse_sets.sets[before.set_index(sl)].contains(x) == before.sparse_sets.sets[before.set_index(sl)].contains(x));
                    } else {
                        assert(self.sparse_sets.sets[k2] == before.sparse_sets.sets[k2]);
                    }
                }
            }
            i = i + 1;
        }
        let ghost w2 = *self;
        let mut li: usize = 0;
        while li < comps.len()
            invariant
                li <= comps.len(),
                self.entities == w2.entities,
                self.archetypes == w2.archetypes,
                self.tables == w2.tables,
                self.sparse_sets == w2.sparse_sets,
                self.components == w2.components,
                self.bundles == w2.bundles,
                self.removed_components@ == w2.removed_components@ + removal_log(comps@.take(li as int), e),
            decreases comps.len() - li,
        {
            self.removed_components.push((comps[li], e));
            proof {
                assert(removal_log(comps@.take(li + 1), e) =~= removal_log(comps@.take(li as int), e).push((comps@[li as int], e)));
                assert(w2.removed_components@ + removal_log(comps@.take(li + 1), e) =~= (w2.removed_components@ + removal_log(comps@.take(li as int), e)).push((comps@[li as int], e)));
            }
            li = li + 1;
        }
        proof {
            assert(comps@.take(comps.len() as int) =~= comps@);
            self.lemma_log_irrelevant(&w2);
            self.lemma_despawn_keeps_values(&o, &w0, &w1, e);
            assert forall|x: Entity, s2: Slot| x != e && o.entities.is_live(x) implies #[trigger] self.has(x, s2) == o.has(x, s2) by {
                o.lemma_live_location(x);
                let ax = o.entities.location_of(x).archetype_id.0 as int;
                assert(x.id != e.id);
                assert(o.entities.meta[x.id as int].location is Some);
                assert(w0.entities.meta[x.id as int].location.unwrap().archetype_id.0 == ax);
                assert(w1.entities.meta[x.id as int] == w0.entities.meta[x.id as int]);
                assert(w0.archetypes.archetypes[ax].same_layout(&o.archetypes.archetypes[ax]));
                assert(w1.archetypes.archetypes[ax].same_layout(&w0.archetypes.archetypes[ax]));
                assert(self.entities == w1.entities);
            }
        }
        true
    }

    /// Registering kinds and bundles keeps the world well formed.
    #[verifier::spinoff_prover]
    proof fn lemma_registry_grows(&self, old: &World)
        requires
            old.wf(),
            self.components.wf(),
            self.components.extends(&old.components),
            self.bundles.extends(&old.bundles),
            self.bundles.wf(&self.components),
            self.entities == old.entities,
            self.archetypes == old.archetypes,
            self.tables == old.tables,
            self.sparse_sets == old.sparse_sets,
        ensures
            self.wf(),
    {
        reveal(World::wf_layout);
        reveal(World::wf_entities);
        reveal(World::wf_edges);
        assert forall|a: int, k: int| 0 <= a < self.num_archetypes() && 0 <= k < self.archetypes.archetypes[a].table_components.len() implies {
            &&& self.components.contains_id((#[trigger] self.archetypes.archetypes[a].table_components[k]).kind)
            &&& self.components.storage_type_of(self.archetypes.archetypes[a].table_components[k].kind) == StorageType::Table
        } by {
            let c = self.archetypes.archetypes[a].table_components[k].kind.0 as int;
            assert(old.components.contains_id(self.archetypes.archetypes[a].table_components[k].kind));
            assert(self.components.components[c].data.storage_type == old.components.components[c].data.storage_type);
        }
        assert forall|a: int, k: int| 0 <= a < self.num_archetypes() && 0 <= k < self.archetypes.archetypes[a].sparse_set_components.len() implies {
            &&& self.components.contains_id((#[trigger] self.archetypes.archetypes[a].sparse_set_components[k]).kind)
            &&& self.components.storage_type_of(self.archetypes.archetypes[a].sparse_set_components[k].kind) == StorageType::SparseSet
            &&& self.sparse_sets.has_set(self.archetypes.archetypes[a].sparse_set_components[k])
        } by {
            let c = self.archetypes.archetypes[a].sparse_set_components[k].kind.0 as int;
            assert(old.components.contains_id(self.archetypes.archetypes[a].sparse_set_components[k].kind));
            assert(self.components.components[c].data.storage_type == old.components.components[c].data.storage_type);
        }
        assert forall|b: BundleId| old.bundles.contains_id(b) implies
            #[trigger] self.bundle_slots(b) == old.bundle_slots(b)
            && self.of_storage(self.bundle_slots(b), StorageType::Table) == old.of_storage(old.bundle_slots(b), StorageType::Table)
            && self.of_storage(self.bundle_slots(b), StorageType::SparseSet) == old.of_storage(old.bundle_slots(b), StorageType::SparseSet) by {
            assert(self.bundles.bundle_infos[b.0 as int] == old.bundles.bundle_infos[b.0 as int]);
            let info = old.bundles.info(b);
            assert(info.wf(&old.components));
            assert forall|x: Slot| self.bundle_slots(b).contains(x) implies self.components.storage_type_of(x.kind) == old.components.storage_type_of(x.kind) by {
                let j = choose|j: int| 0 <= j < info.relation_ids.len() && info.relation_ids@[j] == x;
                assert(old.components.contains_id(info.relation_ids[j].kind));
            }
            assert(self.of_storage(self.bundle_slots(b), StorageType::Table) =~= old.of_storage(old.bundle_slots(b), StorageType::Table));
            assert(self.of_storage(self.bundle_slots(b), StorageType::SparseSet) =~= old.of_storage(old.bundle_slots(b), StorageType::SparseSet));
        }
        assert forall|a: int, b: BundleId| 0 <= a < self.num_archetypes()
            && (#[trigger] self.archetypes.archetypes[a].edges.add_edge(b)) is Some implies {
                let ab = self.archetypes.archetypes[a].edges.add_edge(b).unwrap();
                &&& self.bundles.contains_id(b)
                &&& ab.archetype_id.0 < self.num_archetypes()
                &&& ab.archetype_id.0 != 1
                &&& self.is_add_result(a, b, ab.archetype_id.0 as int)
                &&& self.status_ok(a, b, ab.bundle_status@)
            } by {
            assert(old.bundles.contains_id(b));
            assert(self.bundle_slots(b) == old.bundle_slots(b));
            assert(self.bundles.bundle_infos[b.0 as int] == old.bundles.bundle_infos[b.0 as int]);
            self.lemma_status_same(old, a, b, self.archetypes.archetypes[a].edges.add_edge(b).unwrap().bundle_status@);
        }
        assert forall|a: int, b: BundleId| 0 <= a < self.num_archetypes()
            && (#[trigger] self.archetypes.archetypes[a].edges.remove_edge(b)) is Some implies {
                let r = self.archetypes.archetypes[a].edges.remove_edge(b).unwrap();
                &&& self.bundles.contains_id(b)
                &&& (r is Some <==> self.bundle_slots(b).subset_of(self.slot_set(a)))
                &&& (r matches Some(d) ==> d.0 < self.num_archetypes() && d.0 != 1 && self.is_remove_result(a, b, d.0 as int))
            } by {
            assert(old.bundles.contains_id(b));
            assert(self.bundle_slots(b) == old.bundle_slots(b));
        }
        assert forall|a: int, b: BundleId| 0 <= a < self.num_archetypes()
            && (#[trigger] self.archetypes.archetypes[a].edges.remove_intersection_edge(b)) is Some implies {
                let r = self.archetypes.archetypes[a].edges.remove_intersection_edge(b).unwrap();
                &&& self.bundles.contains_id(b)
                &&& r matches Some(d) && d.0 < self.num_archetypes() && d.0 != 1 && self.is_remove_result(a, b, d.0 as int)
            } by {
            assert(old.bundles.contains_id(b));
            assert(self.bundle_slots(b) == old.bundle_slots(b));
        }
    }

    /// The slot kind of the plain component of token `type_id`, registered with `descriptor`
    /// the first time.
    #[verifier::spinoff_prover]
    pub fn register_component(&mut self, type_id: u64, descriptor: ComponentDescriptor) -> (r: ComponentId)
        requires
            old(self).wf(),
        ensures
            final(self).wf(),
            final(self).components.is_component_of(r, RelationshipKindId(0), type_id),
            final(self).entities == old(self).entities,
            final(self).archetypes == old(self).archetypes,
            final(self).tables == old(self).tables,
            final(self).sparse_sets == old(self).sparse_sets,
            final(self).removed_components == old(self).removed_components,
    {
        let ghost o = *old(self);
        proof { o.lemma_live_location_free(); }
        let r = self.components.get_component_info_or_insert(type_id, descriptor);
        proof {
            let w = *self;
            assert(o.bundles.wf(&o.components)) by { o.lemma_live_location_free(); }
            assert forall|i: int| 0 <= i < w.bundles.bundle_infos.len() implies (#[trigger] w.bundles.bundle_infos[i]).wf(&w.components)
                && w.bundles.bundle_infos[i].id == BundleId(i as usize) by {
                crate::bundle::lemma_info_wf_extends(w.bundles.bundle_infos[i], &o.components, &w.components);
            }
            self.lemma_registry_grows(&o);
        }
        r
    }

    /// The slot kind of the resource of token `type_id`, registered with `descriptor` the first
    /// time.
    #[verifier::spinoff_prover]
    pub fn register_resource(&mut self, type_id: u64, descriptor: ComponentDescriptor) -> (r: ComponentId)
        requires
            old(self).wf(),
        ensures
            final(self).wf(),
            final(self).components.is_component_of(r, RelationshipKindId(1), type_id),
            final(self).entities == old(self).entities,
            final(self).archetypes == old(self).archetypes,
            final(self).tables == old(self).tables,
            final(self).sparse_sets == old(self).sparse_sets,
            final(self).removed_components == old(self).removed_components,
    {
        let ghost o = *old(self);
        proof { o.lemma_live_location_free(); }
        let r = self.components.get_resource_info_or_insert(type_id, descriptor);
        proof {
            let w = *self;
            assert(o.bundles.wf(&o.components)) by { o.lemma_live_location_free(); }
            assert forall|i: int| 0 <= i < w.bundles.bundle_infos.len() implies (#[trigger] w.bundles.bundle_infos[i]).wf(&w.components)
                && w.bundles.bundle_infos[i].id == BundleId(i as usize) by {
                crate::bundle::lemma_info_wf_extends(w.bundles.bundle_infos[i], &o.components, &w.components);
            }
            self.lemma_registry_grows(&o);
        }
        r
    }

    /// A new relation role, such as "child of". A static-type token names at most one role.
    #[verifier::spinoff_prover]
    pub fn new_relationship_kind(&mut self, type_id: Option<u64>) -> (r: RelationshipKindId)
        requires
            old(self).wf(),
            type_id matches Some(t) ==> !old(self).components.has_kind_token(t),
        ensures
            final(self).wf(),
            r.0 == old(self).components.kinds.len(),
            final(self).entities == old(self).entities,
            final(self).archetypes == old(self).archetypes,
            final(self).tables == old(self).tables,
            final(self).sparse_sets == old(self).sparse_sets,
            final(self).removed_components == old(self).removed_components,
    {
        let ghost o = *old(self);
        proof { o.lemma_live_location_free(); }
        let r = self.components.new_relationship_kind(type_id);
        proof {
            let w = *self;
            assert(o.bundles.wf(&o.components)) by { o.lemma_live_location_free(); }
            assert forall|i: int| 0 <= i < w.bundles.bundle_infos.len() implies (#[trigger] w.bundles.bundle_infos[i]).wf(&w.components)
                && w.bundles.bundle_infos[i].id == BundleId(i as usize) by {
                crate::bundle::lemma_info_wf_extends(w.bundles.bundle_infos[i], &o.components, &w.components);
            }
            self.lemma_registry_grows(&o);
        }
        r
    }

    /// The slot kind under which relation role `kind` stores values of the data kind of token
    /// `type_id` (each slot carrying its target entity), registered the first time.
    #[verifier::spinoff_prover]
    pub fn register_relation(&mut self, kind: RelationshipKindId, type_id: u64, descriptor: ComponentDescriptor) -> (r: ComponentId)
        requires
            old(self).wf(),
        ensures
            final(self).wf(),
            final(self).components.is_component_of(r, kind, type_id),
            final(self).entities == old(self).entities,
            final(self).archetypes == old(self).archetypes,
            final(self).tables == old(self).tables,
            final(self).sparse_sets == old(self).sparse_sets,
            final(self).removed_components == old(self).removed_components,
    {
        let ghost o = *old(self);
        proof { o.lemma_live_location_free(); }
        let r = self.components.get_relation_info_or_insert(kind, type_id, descriptor);
        proof {
            let w = *self;
            assert(o.bundles.wf(&o.components)) by { o.lemma_live_location_free(); }
            assert forall|i: int| 0 <= i < w.bundles.bundle_infos.len() implies (#[trigger] w.bundles.bundle_infos[i]).wf(&w.components)
                && w.bundles.bundle_infos[i].id == BundleId(i as usize) by {
                crate::bundle::lemma_info_wf_extends(w.bundles.bundle_infos[i], &o.components, &w.components);
            }
            self.lemma_registry_grows(&o);
        }
        r
    }

    /// The bundle of static-type token `type_id` made of the components described by
    /// `type_info`, in order; each component is registered on first sight.
    #[verifier::spinoff_prover]
    pub fn init_bundle(&mut self, type_id: u64, type_info: &Vec<ComponentDescriptor>) -> (r: BundleId)
        requires
            old(self).wf(),
            tokens_distinct(type_info@),
        ensures
            final(self).wf(),
            final(self).bundles.contains_id(r),
            final(self).bundles.records_token(type_id, r),
            forall|id: BundleId| old(self).bundles.records_token(type_id, id) ==> r == id,
            final(self).entities == old(self).entities,
            final(self).archetypes == old(self).archetypes,
            final(self).tables == old(self).tables,
            final(self).sparse_sets == old(self).sparse_sets,
            final(self).removed_components == old(self).removed_components,
            final(self).bundles.bundle_infos.len() > old(self).bundles.bundle_infos.len() ==> {
                &&& final(self).bundles.info(r).relation_ids.len() == type_info.len()
                &&& forall|k: int| 0 <= k < type_info.len() ==> {
                    &&& (#[trigger] final(self).bundles.info(r).relation_ids[k]).target is None
                    &&& final(self).components.is_component_of(final(self).bundles.info(r).relation_ids[k].kind,
                        RelationshipKindId(0), type_info[k].type_id.unwrap())
                }
            },
    {
        let ghost o = *old(self);
        proof { o.lemma_live_location_free(); }
        let r = self.bundles.init_info(type_id, type_info, &mut self.components);
        proof {
            self.lemma_registry_grows(&o);
        }
        r
    }

    /// The single-slot bundle of relation slot `(kind, Some(target))`; `None` when `kind` is
    /// not a registered slot kind.
    #[verifier::spinoff_prover]
    pub fn init_relation_bundle(&mut self, kind: ComponentId, target: Entity) -> (r: Option<BundleId>)
        requires
            old(self).wf(),
        ensures
            final(self).wf(),
            final(self).entities == old(self).entities,
            final(self).archetypes == old(self).archetypes,
            final(self).tables == old(self).tables,
            final(self).sparse_sets == old(self).sparse_sets,
            final(self).removed_components == old(self).removed_components,
            final(self).components == old(self).components,
            final(self).change_tick == old(self).change_tick,
            r is Some <==> old(self).components.contains_id(kind),
            r matches Some(b) ==> final(self).bundles.contains_id(b)
                && final(self).bundles.info(b).relation_ids@ == seq![Slot { kind, target: Some(target) }]
                && final(self).bundles.records_slot(Slot { kind, target: Some(target) }, b)
                && forall|id: BundleId| old(self).bundles.records_slot(Slot { kind, target: Some(target) }, id) ==> b == id,
    {
        let ghost o = *old(self);
        if kind.0 >= self.components.components.len() {
            return None;
        }
        proof { o.lemma_live_location_free(); }
        let r = self.bundles.init_relation_info(kind, Some(target), &self.components);
        proof {
            self.lemma_registry_grows(&o);
        }
        Some(r)
    }

    #[verifier::spinoff_prover]
    proof fn lemma_live_location_free(&self)
        requires
            self.wf(),
        ensures
            self.entities.wf(),
            self.components.wf(),
            self.archetypes.wf(),
            self.tables.wf(),
            self.sparse_sets.wf(),
            self.bundles.wf(&self.components),
    {
        reveal(World::wf_layout);
    }

    /// The log entries added by removing, from `e`, the slots of bundle `b` that it has.
    pub open spec fn logs_present_slots(&self, old: &World, e: Entity, b: BundleId) -> bool {
        let added = self.removed_components@.subrange(old.removed_components@.len() as int, self.removed_components@.len() as int);
        &&& self.removed_components@.len() >= old.removed_components@.len()
        &&& self.removed_components@.subrange(0, old.removed_components@.len() as int) == old.removed_components@
        &&& forall|p: (Slot, Entity)| #[trigger] added.contains(p) <==> p.1 == e && old.bundle_slots(b).contains(p.0) && old.has(e, p.0)
    }

    /// `remove_bundle_intersection(e, b)` does its work: a live entity, a registered bundle, and
    /// room for the archetype ids.
    pub open spec fn can_remove_any(&self, e: Entity, b: BundleId) -> bool {
        &&& self.entities.is_live(e)
        &&& self.bundles.contains_id(b)
        &&& self.archetypes.has_room(self.add_room(self.entities.location_of(e).archetype_id.0 as int, b))
    }

    /// Removes from live entity `e` those slots of bundle `b` that it has, dropping their values
    /// and logging each as removed; slots it lacks are passed over. Returns false, changing no
    /// entity, when `e` is stale, `b` unknown or the archetype ids exhausted.
    #[verifier::spinoff_prover]
    pub fn remove_bundle_intersection(&mut self, e: Entity, b: BundleId) -> (r: bool)
        requires
            old(self).wf(),
        ensures
            final(self).wf(),
            r == old(self).can_remove_any(e, b),
            !r ==> final(self).entities == old(self).entities,
            !r ==> final(self).removed_components == old(self).removed_components,
            r ==> final(self).entities.is_live(e),
            r ==> forall|s: Slot| #[trigger] final(self).has(e, s) <==> old(self).has(e, s) && !old(self).bundle_slots(b).contains(s),
            r ==> final(self).keeps_values_of(old(self), e),
            r ==> final(self).logs_present_slots(old(self), e, b),
            r && (forall|s: Slot| old(self).bundle_slots(b).contains(s) ==> !#[trigger] old(self).has(e, s)) ==> *final(self) == *old(self),
            r ==> final(self).others_keep_slots(old(self), e),
            forall|x: Entity| #[trigger] final(self).entities.is_live(x) == old(self).entities.is_live(x),
    {
        let ghost o = *old(self);
        let loc = match self.entities.get(e) {
            None => { return false; },
            Some(l) => l,
        };
        proof { o.lemma_live_location(e); }
        let a = loc.archetype_id.0;
        if b.0 >= self.bundles.bundle_infos.len() {
            return false;
        }
        if !self.has_room_for(a, b) {
            return false;
        }
        let (probe, _) = self.bundle_contents(b);
        let mut any = false;
        let mut q: usize = 0;
        while q < probe.len()
            invariant
                q <= probe.len(),
                a < self.archetypes.archetypes.len(),
                *self == o,
                any == exists|j: int| 0 <= j < q && o.archetypes.archetypes[a as int].has_slot(#[trigger] probe@[j]),
            decreases probe.len() - q,
        {
            if self.archetypes.archetypes[a].contains(probe[q].kind, probe[q].target) {
                any = true;
            }
            q = q + 1;
        }
        if !any {
            proof {
                reveal(World::keeps_values_of);
                assert forall|s2: Slot| o.bundle_slots(b).contains(s2) implies !o.has(e, s2) by {
                    let j = choose|j: int| 0 <= j < probe.len() && probe@[j] == s2;
                    assert(o.archetypes.archetypes[a as int].has_slot(probe@[j]) == false);
                }
                let n0 = o.removed_components@.len() as int;
                assert(self.removed_components@.subrange(n0, n0) =~= Seq::<(Slot, Entity)>::empty());
                assert(self.removed_components@.subrange(0, n0) =~= o.removed_components@);
            }
            return true;
        }
        proof {
            let j = choose|j: int| 0 <= j < q && o.archetypes.archetypes[a as int].has_slot(#[trigger] probe@[j]);
            assert(o.bundles.info(b).relation_ids@[j] == probe@[j]);
            assert(o.bundle_slots(b).contains(probe@[j]));
            assert(o.has(e, probe@[j]));
        }
        let d = self.remove_bundle_from_archetype(a, b, true).unwrap();
        let ghost w1 = *self;
        let (slots, storage) = self.bundle_contents(b);
        proof {
            w1.lemma_live_location(e);
            w1.lemma_grow_values(&o, e);
            assert(w1.entities.location_of(e) == loc);
        }
        let mut present: Vec<bool> = Vec::new();
        let mut k: usize = 0;
        while k < slots.len()
            invariant
                k <= slots.len(),
                present.len() == k,
                a < self.archetypes.archetypes.len(),
                *self == w1,
                forall|j: int| 0 <= j < k ==> #[trigger] present@[j] == w1.archetypes.archetypes[a as int].has_slot(slots@[j]),
            decreases slots.len() - k,
        {
            present.push(self.archetypes.archetypes[a].contains(slots[k].kind, slots[k].target));
            k = k + 1;
        }
        if d != a {
            proof {
                w1.lemma_sparse_membership(e);
                assert forall|k2: int| 0 <= k2 < w1.archetypes.archetypes[d as int].sparse_set_components.len() implies
                    w1.sparse_sets.sets[w1.set_index(#[trigger] w1.archetypes.archetypes[d as int].sparse_set_components[k2])].contains(e) by {
                    let sl = w1.archetypes.archetypes[d as int].sparse_set_components[k2];
                    assert(w1.sparse_set_set(d as int).contains(sl));
                    assert(w1.archetypes.archetypes[a as int].sparse_set_components@.contains(sl));
                }
            }
            self.relocate(e, d);
        }
        let ghost w2 = *self;
        let mut i: usize = 0;
        while i < slots.len()
            invariant
                w1.wf(),
                w2.wf(),
                self.wf(),
                i <= slots.len(),
                present.len() == slots.len(),
                forall|j: int| 0 <= j < slots.len() ==> #[trigger] present@[j] == w1.archetypes.archetypes[a as int].has_slot(slots@[j]),
                slots@ == w1.bundles.info(b).relation_ids@,
                storage@ == w1.bundles.info(b).storage_types@,
                storage.len() == slots.len(),
                self.entities == w2.entities,
                self.archetypes == w2.archetypes,
                self.tables == w2.tables,
                self.components == w2.components,
                self.bundles == w2.bundles,
                self.removed_components == w2.removed_components,
                w2.entities.is_live(e),
                w2.entities.location_of(e).archetype_id.0 == d,
                w2.components == w1.components,
                w2.bundles == w1.bundles,
                w1.is_remove_result(a as int, b, d as int),
                0 <= a < w1.num_archetypes(),
                crate::table::slots_distinct(slots@),
                w1.entities.is_live(e),
                w1.entities.location_of(e).archetype_id.0 == a,
                w1.bundles.contains_id(b),
                w2.num_archetypes() == w1.num_archetypes(),
                forall|k2: int| 0 <= k2 < self.sparse_sets.sets.len() ==> (#[trigger] self.sparse_sets.sets[k2]).slot == w2.sparse_sets.sets[k2].slot,
                w2.sparse_sets.sets.len() == w1.sparse_sets.sets.len(),
                forall|k2: int| 0 <= k2 < w1.sparse_sets.sets.len() ==> (#[trigger] w2.sparse_sets.sets[k2]).slot == w1.sparse_sets.sets[k2].slot,
                w2.archetypes.archetypes[d as int].sparse_set_components@ == w1.archetypes.archetypes[d as int].sparse_set_components@,
                0 <= d < w1.num_archetypes(),
                self.sparse_sets.sets.len() == w2.sparse_sets.sets.len(),
                forall|t: Slot| w2.sparse_sets.has_set(t) ==> #[trigger] self.set_index(t) == w2.set_index(t),
                forall|t: Slot| w2.sparse_sets.has_set(t) && !slots@.take(i as int).contains(t) ==>
                    #[trigger] self.sparse_sets.sets[w2.set_index(t)] == w2.sparse_sets.sets[w2.set_index(t)],
            decreases slots.len() - i,
        {
            proof {
                assert forall|x: Slot| slots@.take(i as int).contains(x) implies slots@.take(i + 1).contains(x) by {
                    let j = choose|j: int| 0 <= j < i && slots@.take(i as int)[j] == x;
                    assert(slots@.take(i + 1)[j] == x);
                }
                assert(slots@.take(i + 1)[i as int] == slots@[i as int]);
            }
            if present[i] && storage[i] == StorageType::SparseSet {
                let sl = slots[i];
                let ghost before = *self;
                proof {
                    w1.lemma_slot_classes(a as int);
                    w1.lemma_live_location(e);
                    assert(w1.bundles.info(b).wf(&w1.components));
                    assert(w1.bundle_slots(b).contains(sl));
                    assert(!w1.sparse_set_set(d as int).contains(sl));
                    w2.lemma_slot_classes(d as int);
                    assert(w1.components.storage_type_of(sl.kind) == StorageType::SparseSet);
                    assert(w1.sparse_sets.has_set(sl)) by {
                        if w1.archetypes.archetypes[a as int].table_components@.contains(sl) {
                        }
                        assert(w1.archetypes.archetypes[a as int].sparse_set_components@.contains(sl));
                    }
                    assert(w2.sparse_sets.has_set(sl)) by {
                        let j = choose|j: int| 0 <= j < w1.sparse_sets.sets.len() && (#[trigger] w1.sparse_sets.sets[j]).slot == sl;
                        assert(w2.sparse_sets.sets[j].slot == sl);
                    }
                    assert(self.sparse_sets.has_set(sl)) by {
                        let j = choose|j: int| 0 <= j < w2.sparse_sets.sets.len() && (#[trigger] w2.sparse_sets.sets[j]).slot == sl;
                        assert(self.sparse_sets.sets[j].slot == sl);
                    }
                }
                self.forget_sparse(e, sl);
                proof {
                    assert forall|t: Slot| w2.sparse_sets.has_set(t) implies #[trigger] self.set_index(t) == w2.set_index(t) by {
                        self.lemma_live_location(e);
                        before.lemma_live_location(e);
                        assert(before.sparse_sets.has_set(t)) by {
                            let j = choose|j: int| 0 <= j < w2.sparse_sets.sets.len() && (#[trigger] w2.sparse_sets.sets[j]).slot == t;
                            assert(before.sparse_sets.sets[j].slot == t);
                        }
                        self.lemma_set_index_kept(&before, t);
                    }
                    assert forall|t: Slot| w2.sparse_sets.has_set(t) && !slots@.take(i + 1).contains(t) implies
                        #[trigger] self.sparse_sets.sets[w2.set_index(t)] == w2.sparse_sets.sets[w2.set_index(t)] by {
                        assert(!slots@.take(i as int).contains(t));
                        assert(t != sl);
                        assert(w2.set_index(t) != w2.set_index(sl)) by {
                            assert(w2.sparse_sets.sets[w2.set_index(t)].slot == t);
                            assert(w2.sparse_sets.sets[w2.set_index(sl)].slot == sl);
                        }
                        assert(before.set_index(sl) == w2.set_index(sl));
                    }
                }
            } else {
                proof {
                    assert forall|t: Slot| w2.sparse_sets.has_set(t) && !slots@.take(i + 1).contains(t) implies
                        #[trigger] self.sparse_sets.sets[w2.set_index(t)] == w2.sparse_sets.sets[w2.set_index(t)] by {
                        assert(!slots@.take(i as int).contains(t));
                    }
                }
            }
            i = i + 1;
        }
        let ghost w3 = *self;
        let mut li: usize = 0;
        while li < slots.len()
            invariant
                li <= slots.len(),
                present.len() == slots.len(),
                self.entities == w3.entities,
                self.archetypes == w3.archetypes,
                self.tables == w3.tables,
                self.sparse_sets == w3.sparse_sets,
                self.components == w3.components,
                self.bundles == w3.bundles,
                self.removed_components@.len() >= w3.removed_components@.len(),
                self.removed_components@.subrange(0, w3.removed_components@.len() as int) == w3.removed_components@,
                forall|p: (Slot, Entity)| #[trigger] self.removed_components@.subrange(w3.removed_components@.len() as int, self.removed_components@.len() as int).contains(p)
                    <==> exists|j: int| 0 <= j < li && present@[j] && p == (slots@[j], e),
            decreases slots.len() - li,
        {
            let ghost before = self.removed_components@;
            if present[li] {
                self.removed_components.push((slots[li], e));
            }
            proof {
                let n0 = w3.removed_components@.len() as int;
                assert(self.removed_components@.subrange(0, n0) =~= before.subrange(0, n0));
                assert forall|p: (Slot, Entity)| #[trigger] self.removed_components@.subrange(n0, self.removed_components@.len() as int).contains(p)
                    <==> exists|j: int| 0 <= j < li + 1 && present@[j] && p == (slots@[j], e) by {
                    let nw = self.removed_components@.subrange(n0, self.removed_components@.len() as int);
                    let ow = before.subrange(n0, before.len() as int);
                    if present@[li as int] {
                        assert(nw =~= ow.push((slots@[li as int], e)));
                    } else {
                        assert(nw =~= ow);
                    }
                    if nw.contains(p) {
                        let q = choose|q: int| 0 <= q < nw.len() && nw[q] == p;
                        if q < ow.len() {
                            assert(ow[q] == p);
                            assert(ow.contains(p));
                        }
                    }
                    if exists|j: int| 0 <= j < li + 1 && present@[j] && p == (slots@[j], e) {
                        let j = choose|j: int| 0 <= j < li + 1 && present@[j] && p == (slots@[j], e);
                        if j < li {
                            assert(ow.contains(p));
                            let q = choose|q: int| 0 <= q < ow.len() && ow[q] == p;
                            assert(nw[q] == p);
                        } else {
                            assert(nw[nw.len() - 1] == p);
                        }
                    }
                }
            }
            li = li + 1;
        }
        proof {
            self.lemma_log_irrelevant(&w3);
            assert(slots@.take(slots.len() as int) =~= slots@);
            self.lemma_remove_effects(&o, &w1, &w2, &w3, e, b, a as int, d as int, slots@, storage@);
            assert(o.bundle_slots(b) == w1.bundle_slots(b));
            assert forall|p: (Slot, Entity)| #[trigger] self.removed_components@.subrange(o.removed_components@.len() as int, self.removed_components@.len() as int).contains(p)
                <==> p.1 == e && o.bundle_slots(b).contains(p.0) && o.has(e, p.0) by {
                if p.1 == e && o.bundle_slots(b).contains(p.0) && o.has(e, p.0) {
                    let j = choose|j: int| 0 <= j < slots.len() && slots@[j] == p.0;
                    assert(present@[j]);
                    assert(p == (slots@[j], e));
                }
            }
        }
        true
    }

    /// The number of slots of archetype `a`.
    pub open spec fn slot_count(&self, a: int) -> int {
        self.archetypes.archetypes[a].table_components.len() + self.archetypes.archetypes[a].sparse_set_components.len()
    }

    /// Attaches relation slot `(kind, Some(target))` with `value` to live entity `e` (replacing
    /// the value if the slot is there). False, changing no entity, when `e` is stale, `kind`
    /// unregistered or the archetype ids exhausted.
    #[verifier::spinoff_prover]
    pub fn insert_relation(&mut self, e: Entity, kind: ComponentId, target: Entity, value: Vec<u8>) -> (ok: bool)
        requires
            old(self).wf(),
        ensures
            final(self).wf(),
            ok == (old(self).entities.is_live(e) && old(self).components.contains_id(kind)
                && old(self).archetypes.has_room(old(self).slot_count(old(self).entities.location_of(e).archetype_id.0 as int) + 1)),
            ok ==> final(self).entities.is_live(e),
            ok ==> final(self).value_of(e, Slot { kind, target: Some(target) }) == value,
            ok ==> final(self).ticks_of(e, Slot { kind, target: Some(target) }).changed == old(self).change_tick,
            ok && old(self).components.storage_type_of(kind) == StorageType::Table && !old(self).has(e, Slot { kind, target: Some(target) }) ==>
                final(self).ticks_of(e, Slot { kind, target: Some(target) }) == ComponentTicks::new_spec(old(self).change_tick),
            ok ==> forall|s: Slot| #[trigger] final(self).has(e, s) <==> old(self).has(e, s) || s == (Slot { kind, target: Some(target) }),
            ok ==> forall|s: Slot| old(self).has(e, s) && s != (Slot { kind, target: Some(target) }) ==>
                #[trigger] final(self).value_of(e, s) == old(self).value_of(e, s) && final(self).ticks_of(e, s) == old(self).ticks_of(e, s),
            ok ==> final(self).others_keep_slots(old(self), e),
            !ok ==> final(self).entities == old(self).entities && final(self).archetypes == old(self).archetypes
                && final(self).tables == old(self).tables && final(self).sparse_sets == old(self).sparse_sets
                && final(self).removed_components == old(self).removed_components,
            forall|x: Entity| #[trigger] final(self).entities.is_live(x) == old(self).entities.is_live(x),
    {
        let ghost o = *old(self);
        match self.init_relation_bundle(kind, target) {
            None => false,
            Some(b) => {
                let ghost w1 = *self;
                let ghost sl = Slot { kind, target: Some(target) };
                proof {
                    w1.lemma_live_location_free();
                    o.lemma_live_location_free();
                    assert(w1.bundles.info(b).relation_ids@[0] == sl);
                    assert(w1.bundle_slots(b) =~= set![sl]) by {
                        assert forall|x: Slot| w1.bundle_slots(b).contains(x) <==> x == sl by {
                            if x == sl { assert(w1.bundles.info(b).relation_ids@[0] == x); }
                        }
                    }
                    assert(w1.bundles.info(b).wf(&w1.components));
                    assert(w1.bundles.info(b).storage_types@[0] == w1.components.storage_type_of(kind));
                    assert(w1.components.storage_type_of(kind) == o.components.storage_type_of(kind));
                    w1.lemma_has_same_registry(&o, e);
                    assert forall|x: Entity, s2: Slot| true implies #[trigger] w1.has(x, s2) == o.has(x, s2) by {
                        w1.lemma_has_same_registry(&o, x);
                    }
                }
                let mut values: Vec<Vec<u8>> = Vec::new();
                values.push(value);
                let ok = self.insert_bundle(e, b, values);
                proof {
                    if ok {
                        assert(w1.bundles.info(b).relation_ids[0] == sl);
                        assert(self.ticks_of(e, w1.bundles.info(b).relation_ids[0]).changed == w1.change_tick);
                        assert forall|s2: Slot| o.has(e, s2) && s2 != sl implies
                            #[trigger] self.value_of(e, s2) == o.value_of(e, s2) && self.ticks_of(e, s2) == o.ticks_of(e, s2) by {
                            assert(w1.has(e, s2));
                            assert(!w1.bundle_slots(b).contains(s2));
                            assert(self.value_of(e, s2) == w1.value_of(e, s2));
                        }
                    }
                }
                ok
            },
        }
    }

    /// Takes relation slot `(kind, Some(target))` off live entity `e`, logs it as removed and
    /// returns its value; `None`, changing no entity and logging nothing, when `e` is stale,
    /// lacks the slot or the archetype ids are exhausted.
    #[verifier::spinoff_prover]
    pub fn remove_relation(&mut self, e: Entity, kind: ComponentId, target: Entity) -> (r: Option<Vec<u8>>)
        requires
            old(self).wf(),
        ensures
            final(self).wf(),
            r is Some <==> (old(self).has(e, Slot { kind, target: Some(target) })
                && old(self).archetypes.has_room(old(self).slot_count(old(self).entities.location_of(e).archetype_id.0 as int) + 1)),
            r matches Some(v) ==> v@ == old(self).value_of(e, Slot { kind, target: Some(target) })@,
            r is Some ==> final(self).entities.is_live(e),
            r is Some ==> forall|s: Slot| #[trigger] final(self).has(e, s) <==> old(self).has(e, s) && s != (Slot { kind, target: Some(target) }),
            r is Some ==> final(self).keeps_values_of(old(self), e),
            r is Some ==> final(self).others_keep_slots(old(self), e),
            r is Some ==> final(self).removed_components@ == old(self).removed_components@.push((Slot { kind, target: Some(target) }, e)),
            r is None ==> final(self).entities == old(self).entities && final(self).removed_components == old(self).removed_components,
            r is None ==> forall|x: Entity, s: Slot| old(self).entities.is_live(x) ==> #[trigger] final(self).has(x, s) == old(self).has(x, s),
            r is None ==> forall|s: Slot| old(self).has(e, s) ==> #[trigger] final(self).value_of(e, s) == old(self).value_of(e, s),
            forall|x: Entity| #[trigger] final(self).entities.is_live(x) == old(self).entities.is_live(x),
    {
        let ghost o = *old(self);
        let ghost sl = Slot { kind, target: Some(target) };
        proof {
            if o.has(e, sl) { o.lemma_has_registered(e, sl); }
        }
        match self.init_relation_bundle(kind, target) {
            None => None,
            Some(b) => {
                let ghost w1 = *self;
                proof {
                    assert(w1.bundles.info(b).relation_ids@[0] == sl);
                    assert(w1.bundle_slots(b) =~= set![sl]) by {
                        assert forall|x: Slot| w1.bundle_slots(b).contains(x) <==> x == sl by {
                            if x == sl { assert(w1.bundles.info(b).relation_ids@[0] == x); }
                        }
                    }
                    o.lemma_live_location_free();
                    w1.lemma_has_same_registry(&o, e);
                    assert forall|x: Entity, s2: Slot| true implies #[trigger] w1.has(x, s2) == o.has(x, s2) by {
                        w1.lemma_has_same_registry(&o, x);
                    }
                    if w1.entities.is_live(e) {
                        let ss = w1.slot_set(w1.entities.location_of(e).archetype_id.0 as int);
                        assert(w1.bundle_slots(b).subset_of(ss) == ss.contains(sl));
                    }
                }
                let r = self.remove_bundle(e, b);
                match r {
                    None => {
                        proof {
                            assert forall|x: Entity, s2: Slot| o.entities.is_live(x) implies #[trigger] self.has(x, s2) == o.has(x, s2) by {
                                assert(w1.has(x, s2) == o.has(x, s2));
                            }
                        }
                        None
                    },
                    Some(vs) => {
                        proof {
                            assert(w1.has(e, sl));
                            reveal(World::keeps_values_of);
                            assert(removal_log(w1.bundles.info(b).relation_ids@, e) =~= seq![(sl, e)]);
                            assert forall|s2: Slot| #![trigger self.value_of(e, s2)] self.has(e, s2) implies
                                self.value_of(e, s2) == o.value_of(e, s2) && self.ticks_of(e, s2) == o.ticks_of(e, s2) by {
                                assert(w1.has(e, s2));
                            }
                            assert(self.keeps_values_of(&o, e));
                            assert forall|x: Entity, s2: Slot| x != e && o.entities.is_live(x) implies #[trigger] self.has(x, s2) == o.has(x, s2) by {
                                assert(w1.has(x, s2) == o.has(x, s2));
                            }
                            assert(vs@[0]@ == w1.value_of(e, w1.bundles.info(b).relation_ids[0])@);
                        }
                        let v = copy_bytes(&vs[0]);
                        Some(v)
                    },
                }
            },
        }
    }

    /// A slot that a live entity has is of a registered kind.
    #[verifier::spinoff_prover]
    proof fn lemma_has_registered(&self, e: Entity, s: Slot)
        requires
            self.wf(),
            self.has(e, s),
        ensures
            self.components.contains_id(s.kind),
    {
        reveal(World::wf_layout);
        self.lemma_live_location(e);
        let arch = self.archetypes.archetypes[self.entities.location_of(e).archetype_id.0 as int];
        if arch.table_components@.contains(s) {
            let k = choose|k: int| 0 <= k < arch.table_components.len() && arch.table_components@[k] == s;
            assert(arch.table_components[k] == s);
        } else {
            let k = choose|k: int| 0 <= k < arch.sparse_set_components.len() && arch.sparse_set_components@[k] == s;
            assert(arch.sparse_set_components[k] == s);
        }
    }

    /// Registering kinds and bundles changes no entity's slots or values.
    #[verifier::spinoff_prover]
    proof fn lemma_has_same_registry(&self, old: &World, e: Entity)
        requires
            self.entities == old.entities,
            self.archetypes == old.archetypes,
            self.tables == old.tables,
            self.sparse_sets == old.sparse_sets,
        ensures
            forall|s: Slot| #[trigger] self.has(e, s) == old.has(e, s),
            forall|s: Slot| #[trigger] self.value_of(e, s) == old.value_of(e, s),
            forall|s: Slot| #[trigger] self.ticks_of(e, s) == old.ticks_of(e, s),
    {
        assert forall|s: Slot| #[trigger] self.value_of(e, s) == old.value_of(e, s) && self.ticks_of(e, s) == old.ticks_of(e, s) by {
            let a = self.entities.location_of(e).archetype_id.0 as int;
            let t = self.arch_table(a);
            assert(self.column_pos(t, s) == old.column_pos(t, s));
            assert(self.set_index(s) == old.set_index(s));
        }
    }

    /// A view of live entity `e`, or `None` for a stale handle.
    #[verifier::spinoff_prover]
    pub fn entity(&self, e: Entity) -> (r: Option<EntityRef<'_>>)
        requires
            self.wf(),
        ensures
            r is Some <==> self.entities.is_live(e),
            r matches Some(er) ==> er.world == self && er.entity == e && er.location == self.entities.location_of(e),
    {
        match self.entities.get(e) {
            Some(loc) => Some(EntityRef::new(self, e, loc)),
            None => None,
        }
    }

    #[verifier::spinoff_prover]
    pub proof fn lemma_registry_wf(&self)
        requires
            self.wf(),
        ensures
            self.components.wf(),
    {
        reveal(World::wf_layout);
    }

    /// Every live entity other than `e` keeps its liveness and its slots.
    pub open spec fn others_keep_slots(&self, old: &World, e: Entity) -> bool {
        forall|x: Entity, s: Slot| x != e && old.entities.is_live(x) ==> #[trigger] self.has(x, s) == old.has(x, s)
    }

    /// When `e` moved to an archetype with another table, its old table lost one row.
    pub open spec fn source_row_drained(&self, old: &World, e: Entity) -> bool {
        let t0 = old.arch_table(old.entities.location_of(e).archetype_id.0 as int);
        let t1 = self.arch_table(self.entities.location_of(e).archetype_id.0 as int);
        t0 != t1 ==> self.tables.tables[t0].entities.len() + 1 == old.tables.tables[t0].entities.len()
    }

    /// The row of `x` in its table holds, column by column, the values and ticks its row held in
    /// `old`.
    pub open spec fn row_kept(&self, old: &World, x: Entity) -> bool {
        let tx = old.arch_table(old.entities.location_of(x).archetype_id.0 as int);
        forall|c: int| #![trigger old.tables.tables[tx].columns[c]] 0 <= c < old.tables.tables[tx].columns.len() ==> {
            &&& self.tables.tables[tx].columns[c].data[self.row_of(x)] == old.tables.tables[tx].columns[c].data[old.row_of(x)]
            &&& self.tables.tables[tx].columns[c].ticks[self.row_of(x)] == old.tables.tables[tx].columns[c].ticks[old.row_of(x)]
        }
    }

    /// Every live entity other than `e` keeps the values and ticks of the slots it had.
    #[verifier::opaque]
    pub open spec fn others_keep_values(&self, old: &World, e: Entity) -> bool {
        forall|x: Entity, s: Slot| #![trigger self.value_of(x, s)] x != e && old.entities.is_live(x) && old.has(x, s) ==>
            self.value_of(x, s) == old.value_of(x, s) && self.ticks_of(x, s) == old.ticks_of(x, s)
    }

    /// Other entities' values survive a despawn, from the facts of its steps.
    #[verifier::spinoff_prover]
    #[verifier::rlimit(100)]
    proof fn lemma_despawn_keeps_values(&self, o: &World, w0: &World, w1: &World, e: Entity)
        requires
            o.wf(),
            self.wf(),
            forall|x: Entity| x != e && o.entities.is_live(x) ==> #[trigger] w0.row_of(x) == o.row_of(x)
                && w0.entities.location_of(x).archetype_id == o.entities.location_of(x).archetype_id,
            w0.same_storage(o),
            w0.archetypes.archetypes.len() == o.archetypes.archetypes.len(),
            forall|a: int| 0 <= a < w0.num_archetypes() ==> (#[trigger] w0.archetypes.archetypes[a]).same_layout(&o.archetypes.archetypes[a]),
            forall|x: Entity| #[trigger] w0.entities.is_live(x) == o.entities.is_live(x),
            w1.tables.tables.len() == w0.tables.tables.len(),
            forall|t2: int| 0 <= t2 < w1.tables.tables.len() ==> (#[trigger] w1.tables.tables[t2]).same_shape(&w0.tables.tables[t2]),
            forall|x: Entity| x != e && w0.entities.is_live(x) ==> w1.entities.location_of(x) == w0.entities.location_of(x)
                && 0 <= w1.row_of(x) < w1.tables.tables[w0.arch_table(w0.entities.location_of(x).archetype_id.0 as int)].entities.len()
                && w1.row_kept(w0, x),
            w1.sparse_sets == w0.sparse_sets,
            w1.archetypes.archetypes.len() == w0.archetypes.archetypes.len(),
            forall|a: int| 0 <= a < w1.num_archetypes() ==> (#[trigger] w1.archetypes.archetypes[a]).same_layout(&w0.archetypes.archetypes[a]),
            forall|x: Entity| x != e ==> #[trigger] w1.entities.is_live(x) == w0.entities.is_live(x),
            self.entities == w1.entities,
            self.archetypes == w1.archetypes,
            self.tables == w1.tables,
            self.sparse_sets.sets.len() == w1.sparse_sets.sets.len(),
            forall|k2: int| 0 <= k2 < self.sparse_sets.sets.len() ==> (#[trigger] self.sparse_sets.sets[k2]).slot == w1.sparse_sets.sets[k2].slot,
            forall|k2: int, x: Entity| 0 <= k2 < self.sparse_sets.sets.len() && x != e ==> {
                &&& (#[trigger] self.sparse_sets.sets[k2].contains(x)) == w1.sparse_sets.sets[k2].contains(x)
                &&& (w1.sparse_sets.sets[k2].contains(x) ==>
                    self.sparse_sets.sets[k2].value_of(x) == w1.sparse_sets.sets[k2].value_of(x)
                    && self.sparse_sets.sets[k2].ticks_of(x) == w1.sparse_sets.sets[k2].ticks_of(x))
            },
        ensures
            self.others_keep_values(o, e),
    {
        reveal(World::others_keep_values);
        assert forall|x: Entity, s: Slot| #![trigger self.value_of(x, s)] x != e && o.entities.is_live(x) && o.has(x, s) implies
            self.value_of(x, s) == o.value_of(x, s) && self.ticks_of(x, s) == o.ticks_of(x, s) by {
            o.lemma_live_location(x);
            o.lemma_sparse_membership(x);
            self.lemma_live_location_free();
            let ax = o.entities.location_of(x).archetype_id.0 as int;
            assert(w0.row_of(x) == o.row_of(x));
            assert(w0.entities.is_live(x));
            assert(w0.entities.location_of(x).archetype_id.0 == ax);
            assert(self.entities.location_of(x) == w0.entities.location_of(x));
            assert(self.archetypes.archetypes[ax].same_layout(&o.archetypes.archetypes[ax])) by {
                assert(w1.archetypes.archetypes[ax].same_layout(&w0.archetypes.archetypes[ax]));
                assert(w0.archetypes.archetypes[ax].same_layout(&o.archetypes.archetypes[ax]));
            }
            let tx = o.arch_table(ax);
            assert(self.arch_table(ax) == tx);
            assert(w0.arch_table(ax) == tx);
            if o.archetypes.archetypes[ax].table_components@.contains(s) {
                o.lemma_table_slot_column(ax, s);
                let c = o.column_pos(tx, s);
                assert(w0.tables == o.tables);
                assert(self.tables.tables[tx].same_shape(&o.tables.tables[tx]));
                assert(self.tables.tables[tx].columns[c].relationship == s);
                self.lemma_column_pos(tx, s, c);
                assert(w1.row_kept(w0, x));
                assert(w0.tables.tables[tx].columns[c] == o.tables.tables[tx].columns[c]);
            } else {
                assert(o.archetypes.archetypes[ax].sparse_set_components@.contains(s));
                let k = o.set_index(s);
                assert(o.sparse_sets.sets[k].contains(x));
                assert(w1.sparse_sets == o.sparse_sets);
                assert(self.sparse_sets.sets[k].contains(x));
                assert(self.sparse_sets.sets[k].slot == s) by {
                    assert(o.sparse_sets.sets[k].slot == s);
                }
                self.lemma_set_index_kept(o, s);
            }
        }
    }

    /// Every slot of `e` other than `sl` that `e` had in `old` keeps its value and ticks.
    #[verifier::opaque]
    pub open spec fn keeps_other_slots(&self, old: &World, e: Entity, sl: Slot) -> bool {
        forall|s: Slot| #![trigger self.value_of(e, s)] old.has(e, s) && s != sl ==>
            self.value_of(e, s) == old.value_of(e, s) && self.ticks_of(e, s) == old.ticks_of(e, s)
    }

    /// `self` is `old` after inserting bundle `b` into `e`: `e` is live, has its old slots and
    /// those of `b`, and keeps the values of its old slots outside `b`.
    pub open spec fn inserted(&self, old: &World, e: Entity, b: BundleId) -> bool {
        &&& self.entities.is_live(e)
        &&& self.bundles == old.bundles
        &&& forall|s: Slot| #[trigger] self.has(e, s) <==> old.has(e, s) || old.bundle_slots(b).contains(s)
        &&& forall|s: Slot| old.has(e, s) && !old.bundle_slots(b).contains(s) ==>
            #[trigger] self.value_of(e, s) == old.value_of(e, s) && self.ticks_of(e, s) == old.ticks_of(e, s)
    }

    /// `self` is `old` after removing the slots of bundle `b` from `e`: `e` is live, has its old
    /// slots but those of `b`, with their old values.
    pub open spec fn removed(&self, old: &World, e: Entity, b: BundleId) -> bool {
        &&& self.entities.is_live(e)
        &&& self.bundles == old.bundles
        &&& forall|s: Slot| #[trigger] self.has(e, s) <==> old.has(e, s) && !old.bundle_slots(b).contains(s)
        &&& self.keeps_values_of(old, e)
    }

    /// Where a live entity stands: the archetype its location names holds it at the location's
    /// index.
    #[verifier::spinoff_prover]
    pub proof fn lemma_location_round_trip(&self, e: Entity)
        requires
            self.wf(),
            self.entities.is_live(e),
        ensures
            ({
                let loc = self.entities.location_of(e);
                &&& loc.archetype_id.0 < self.archetypes.archetypes.len()
                &&& loc.index < self.archetypes.archetypes[loc.archetype_id.0 as int].entities.len()
                &&& self.archetypes.archetypes[loc.archetype_id.0 as int].entities[loc.index as int] == e
            }),
    {
        self.lemma_live_location(e);
    }

    /// Each entity of an archetype stands in the row of the archetype's table that the
    /// archetype records for it.
    #[verifier::spinoff_prover]
    pub proof fn lemma_table_rows_agree(&self, a: int, i: int)
        requires
            self.wf(),
            0 <= a < self.archetypes.archetypes.len(),
            0 <= i < self.archetypes.archetypes[a].entities.len(),
        ensures
            self.archetypes.archetypes[a].table_id.0 < self.tables.tables.len(),
            self.archetypes.archetypes[a].entity_rows[i] < self.tables.tables[self.arch_table(a)].entities.len(),
            self.tables.tables[self.arch_table(a)].entities[self.archetypes.archetypes[a].entity_rows[i] as int]
                == self.archetypes.archetypes[a].entities[i],
    {
        reveal(World::wf_layout);
        reveal(World::wf_entities);
        let y = self.archetypes.archetypes[a].entities[i];
        assert(self.entities.is_live(y));
        assert(self.archetypes.archetypes[a].table_id.0 < self.tables.tables.len());
    }

    /// Every column of a table has one value and one tick pair per row of the table.
    #[verifier::spinoff_prover]
    pub proof fn lemma_columns_match_rows(&self, t: int, c: int)
        requires
            self.wf(),
            0 <= t < self.tables.tables.len(),
            0 <= c < self.tables.tables[t].columns.len(),
        ensures
            self.tables.tables[t].columns[c].data.len() == self.tables.tables[t].entities.len(),
            self.tables.tables[t].columns[c].ticks.len() == self.tables.tables[t].entities.len(),
    {
        self.lemma_live_location_free();
        assert(self.tables.tables[t].wf());
        assert(self.tables.tables[t].columns[c].wf());
    }

    /// Every slot that a live entity has is backed by storage: a column row of its table or an
    /// entry of the slot's sparse set. (So a lookup of a present slot never comes back empty.)
    #[verifier::spinoff_prover]
    pub proof fn lemma_present_slots_stored(&self, e: Entity, s: Slot)
        requires
            self.wf(),
            self.has(e, s),
        ensures
            ({
                let a = self.entities.location_of(e).archetype_id.0 as int;
                let t = self.arch_table(a);
                if self.archetypes.archetypes[a].table_components@.contains(s) {
                    &&& self.tables.tables[t].has_slot(s)
                    &&& 0 <= self.row_of(e) < self.tables.tables[t].entities.len()
                    &&& self.tables.tables[t].entities[self.row_of(e)] == e
                } else {
                    &&& self.sparse_sets.has_set(s)
                    &&& self.sparse_sets.sets[self.set_index(s)].contains(e)
                }
            }),
    {
        self.lemma_live_location(e);
        self.lemma_sparse_membership(e);
        let a = self.entities.location_of(e).archetype_id.0 as int;
        if self.archetypes.archetypes[a].table_components@.contains(s) {
            self.lemma_table_slot_column(a, s);
            let loc = self.entities.location_of(e);
            self.lemma_table_rows_agree(a, loc.index as int);
        }
    }

    /// A stale handle names no live entity, so it has no slot and no value.
    #[verifier::spinoff_prover]
    pub proof fn lemma_stale_handle(&self, e: Entity)
        requires
            self.entities.is_stale(e),
        ensures
            !self.entities.is_live(e),
            forall|s: Slot| !#[trigger] self.has(e, s),
    {
    }

    /// Inserting a bundle whose slots an entity lacks and then removing that bundle leaves the
    /// entity with the slots, values and ticks it had before.
    #[verifier::spinoff_prover]
    pub proof fn lemma_insert_then_remove(w0: &World, w1: &World, w2: &World, e: Entity, b: BundleId)
        requires
            w1.inserted(w0, e, b),
            w2.removed(w1, e, b),
            forall|s: Slot| w0.bundle_slots(b).contains(s) ==> !#[trigger] w0.has(e, s),
        ensures
            forall|s: Slot| #[trigger] w2.has(e, s) == w0.has(e, s),
            forall|s: Slot| w0.has(e, s) ==> #[trigger] w2.value_of(e, s) == w0.value_of(e, s)
                && w2.ticks_of(e, s) == w0.ticks_of(e, s),
    {
        reveal(World::keeps_values_of);
        assert(w1.bundle_slots(b) == w0.bundle_slots(b));
        assert forall|s: Slot| #[trigger] w2.has(e, s) == w0.has(e, s) by {
            assert(w1.has(e, s) == (w0.has(e, s) || w0.bundle_slots(b).contains(s)));
        }
        assert forall|s: Slot| w0.has(e, s) implies #[trigger] w2.value_of(e, s) == w0.value_of(e, s)
            && w2.ticks_of(e, s) == w0.ticks_of(e, s) by {
            assert(w1.has(e, s));
            assert(w2.has(e, s));
            assert(w1.value_of(e, s) == w0.value_of(e, s));
        }
    }

    /// Removing the intersection with a bundle that shares no slot with the entity changes
    /// neither the entity's slots nor its values, and logs nothing.
    #[verifier::spinoff_prover]
    pub proof fn lemma_intersection_without_overlap(w0: &World, w1: &World, e: Entity, b: BundleId)
        requires
            w1.entities.is_live(e),
            forall|s: Slot| #[trigger] w1.has(e, s) <==> w0.has(e, s) && !w0.bundle_slots(b).contains(s),
            w1.keeps_values_of(w0, e),
            w1.logs_present_slots(w0, e, b),
            forall|s: Slot| w0.bundle_slots(b).contains(s) ==> !#[trigger] w0.has(e, s),
        ensures
            forall|s: Slot| #[trigger] w1.has(e, s) == w0.has(e, s),
            forall|s: Slot| w0.has(e, s) ==> #[trigger] w1.value_of(e, s) == w0.value_of(e, s),
            w1.removed_components@ == w0.removed_components@,
    {
        reveal(World::keeps_values_of);
        let n0 = w0.removed_components@.len() as int;
        let added = w1.removed_components@.subrange(n0, w1.removed_components@.len() as int);
        if added.len() > 0 {
            assert(added.contains(added[0]));
        }
        assert(w1.removed_components@ =~= w0.removed_components@ + added);
        assert forall|s: Slot| w0.has(e, s) implies #[trigger] w1.value_of(e, s) == w0.value_of(e, s) by {
            assert(w1.has(e, s));
        }
    }

    /// Clamps every stored tick, in tables and in sparse sets, so that none lies more than the
    /// maximal change age behind `change_tick`, keeping wrap-around comparisons valid. Values,
    /// rows and entries stay.
    pub fn check_change_ticks(&mut self, change_tick: u32)
        requires
            old(self).wf(),
        ensures
            final(self).wf(),
            final(self).entities == old(self).entities,
            final(self).archetypes == old(self).archetypes,
            final(self).tables.tables.len() == old(self).tables.tables.len(),
            forall|t: int| 0 <= t < final(self).tables.tables.len() ==> (#[trigger] final(self).tables.tables[t]).same_shape(&old(self).tables.tables[t])
                && final(self).tables.tables[t].entities@ == old(self).tables.tables[t].entities@,
            forall|t: int, c: int| 0 <= t < final(self).tables.tables.len() && 0 <= c < final(self).tables.tables[t].columns.len() ==>
                (#[trigger] final(self).tables.tables[t].columns[c]).data@ == old(self).tables.tables[t].columns[c].data@
                && final(self).tables.tables[t].columns[c].ticks@.len() == old(self).tables.tables[t].columns[c].ticks@.len(),
            forall|t: int, c: int, r: int| 0 <= t < final(self).tables.tables.len() && 0 <= c < final(self).tables.tables[t].columns.len()
                && 0 <= r < final(self).tables.tables[t].columns[c].ticks@.len() ==>
                #[trigger] final(self).tables.tables[t].columns[c].ticks@[r] == old(self).tables.tables[t].columns[c].ticks@[r].clamped(change_tick),
            final(self).sparse_sets.sets.len() == old(self).sparse_sets.sets.len(),
            forall|k: int| 0 <= k < final(self).sparse_sets.sets.len() ==> {
                &&& (#[trigger] final(self).sparse_sets.sets[k]).slot == old(self).sparse_sets.sets[k].slot
                &&& final(self).sparse_sets.sets[k].dense@ == old(self).sparse_sets.sets[k].dense@
                &&& final(self).sparse_sets.sets[k].entities@ == old(self).sparse_sets.sets[k].entities@
                &&& final(self).sparse_sets.sets[k].sparse@ == old(self).sparse_sets.sets[k].sparse@
                &&& final(self).sparse_sets.sets[k].ticks@.len() == old(self).sparse_sets.sets[k].ticks@.len()
            },
            forall|k: int, i: int| 0 <= k < final(self).sparse_sets.sets.len() && 0 <= i < final(self).sparse_sets.sets[k].ticks@.len() ==>
                #[trigger] final(self).sparse_sets.sets[k].ticks@[i] == old(self).sparse_sets.sets[k].ticks@[i].clamped(change_tick),
    {
        let ghost o = *old(self);
        proof { o.lemma_live_location_free(); }
        self.tables.check_change_ticks(change_tick);
        self.sparse_sets.check_change_ticks(change_tick);
        proof {
            reveal(World::wf_layout);
            reveal(World::wf_edges);
            assert forall|t: int| 0 <= t < o.tables.tables.len() implies (#[trigger] self.tables.tables[t]).entities@ == o.tables.tables[t].entities@
                && self.tables.tables[t].slots() == o.tables.tables[t].slots() by {
                assert(self.tables.tables[t].slots() =~= o.tables.tables[t].slots());
            }
            assert forall|k: int, x: Entity| 0 <= k < o.sparse_sets.sets.len() && o.entities.is_live(x)
                && (#[trigger] o.sparse_sets.sets[k]).contains(x) implies #[trigger] self.sparse_sets.sets[k].contains(x) by {
                assert(self.sparse_sets.sets[k].sparse@ == o.sparse_sets.sets[k].sparse@);
                assert(self.sparse_sets.sets[k].entities@ == o.sparse_sets.sets[k].entities@);
            }
            assert(self.keeps_entities(&o));
            self.lemma_grow_entities(&o);
            self.lemma_grow_layout(&o);
            self.lemma_edges_kept(&o);
            reveal(World::wf_entities);
        }
    }

    /// Advances the world's tick by one (wrapping) and returns the tick it had.
    #[verifier::spinoff_prover]
    pub fn increment_change_tick(&mut self) -> (r: u32)
        requires
            old(self).wf(),
        ensures
            final(self).wf(),
            r == old(self).change_tick,
            final(self).change_tick == (if old(self).change_tick == u32::MAX { 0 } else { (old(self).change_tick + 1) as u32 }),
            final(self).entities == old(self).entities,
            final(self).archetypes == old(self).archetypes,
            final(self).tables == old(self).tables,
            final(self).sparse_sets == old(self).sparse_sets,
    {
        let ghost o = *old(self);
        let r = self.change_tick;
        self.change_tick = self.change_tick.wrapping_add(1);
        proof { self.lemma_log_irrelevant(&o); }
        r
    }

    /// Overwrites the value that live entity `e` holds in slot `(kind, target)` and stamps it as
    /// changed at the world's tick, keeping its added tick. False, changing nothing, when `e` is
    /// stale or lacks the slot.
    #[verifier::spinoff_prover]
    #[verifier::rlimit(100)]
    pub fn replace_value(&mut self, e: Entity, kind: ComponentId, target: Option<Entity>, value: Vec<u8>) -> (ok: bool)
        requires
            old(self).wf(),
        ensures
            final(self).wf(),
            ok == old(self).has(e, Slot { kind, target }),
            !ok ==> *final(self) == *old(self),
            final(self).entities == old(self).entities,
            final(self).archetypes == old(self).archetypes,
            final(self).removed_components == old(self).removed_components,
            ok ==> final(self).value_of(e, Slot { kind, target }) == value,
            ok ==> final(self).ticks_of(e, Slot { kind, target }) == (ComponentTicks {
                added: old(self).ticks_of(e, Slot { kind, target }).added, changed: old(self).change_tick }),
            ok ==> final(self).keeps_other_slots(old(self), e, Slot { kind, target }),
    {
        let ghost o = *old(self);
        let sl = Slot { kind, target };
        let loc = match self.entities.get(e) {
            None => { return false; },
            Some(l) => l,
        };
        proof {
            o.lemma_live_location(e);
            o.lemma_sparse_membership(e);
        }
        let a = loc.archetype_id.0;
        let tick = self.change_tick;
        if slots_contain_exec(&self.archetypes.archetypes[a].table_components, &sl) {
            let t = self.archetypes.archetypes[a].table_id.0;
            let row = self.archetypes.archetypes[a].entity_rows[loc.index];
            proof {
                o.lemma_table_slot_column(a as int, sl);
                assert(o.row_of(e) == row);
            }
            self.write_column(t, sl, row, value, tick, false);
            proof {
                self.lemma_live_location_free();
                let cp = o.column_pos(t as int, sl);
                assert(self.tables.tables[t as int].columns[cp].relationship == sl);
                self.lemma_column_pos(t as int, sl, cp);
                reveal(World::keeps_other_slots);
                assert forall|s2: Slot| #![trigger self.value_of(e, s2)] o.has(e, s2) && s2 != sl implies
                    self.value_of(e, s2) == o.value_of(e, s2) && self.ticks_of(e, s2) == o.ticks_of(e, s2) by {
                    if o.archetypes.archetypes[a as int].table_components@.contains(s2) {
                        o.lemma_table_slot_column(a as int, s2);
                        let c2 = o.column_pos(t as int, s2);
                        assert(c2 != cp);
                        assert(self.tables.tables[t as int].columns[c2].relationship == s2);
                        self.lemma_column_pos(t as int, s2, c2);
                    } else {
                        assert(o.sparse_sets.has_set(s2));
                        self.lemma_set_index_kept(&o, s2);
                    }
                }
                assert(self.keeps_other_slots(&o, e, sl));
            }
            true
        } else if slots_contain_exec(&self.archetypes.archetypes[a].sparse_set_components, &sl) {
            proof {
                assert(o.sparse_sets.has_set(sl));
                assert(o.sparse_sets.sets[o.set_index(sl)].contains(e));
            }
            self.write_sparse(e, sl, value, tick);
            proof {
                reveal(World::keeps_other_slots);
                assert forall|s2: Slot| #![trigger self.value_of(e, s2)] o.has(e, s2) && s2 != sl implies
                    self.value_of(e, s2) == o.value_of(e, s2) && self.ticks_of(e, s2) == o.ticks_of(e, s2) by {
                    if !o.archetypes.archetypes[a as int].table_components@.contains(s2) {
                        assert(o.sparse_sets.has_set(s2));
                        assert(o.set_index(s2) != o.set_index(sl)) by {
                            assert(o.sparse_sets.sets[o.set_index(s2)].slot == s2);
                            assert(o.sparse_sets.sets[o.set_index(sl)].slot == sl);
                        }
                        self.lemma_live_location_free();
                        self.lemma_set_index_kept(&o, s2);
                    } else {
                        o.lemma_table_slot_column(a as int, s2);
                        let ta = o.arch_table(a as int);
                        let c2 = o.column_pos(ta, s2);
                        self.lemma_live_location_free();
                        self.lemma_column_pos(ta, s2, c2);
                    }
                }
                assert(self.keeps_other_slots(&o, e, sl));
            }
            true
        } else {
            false
        }
    }
}

} // verus!
