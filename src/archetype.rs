use vstd::prelude::*;

use crate::bundle::BundleId;
use crate::component::StorageType;
use crate::entity::{Entity, EntityLocation};
use crate::table::{slots_contain, slots_eq, Column, Slot, TableId};

verus! {

/// Index of an archetype in the world's archetype arena.
#[derive(Debug, Clone, Copy, PartialEq, Eq, Hash, Structural)]
pub struct ArchetypeId(pub usize);

impl ArchetypeId {
    pub fn new(index: usize) -> (r: ArchetypeId)
        ensures
            r.0 == index,
    {
        ArchetypeId(index)
    }

    /// The archetype without slots, which always exists.
    pub fn empty() -> (r: ArchetypeId)
        ensures
            r.0 == 0,
    {
        ArchetypeId(0)
    }

    /// The archetype that holds the world's resources, which always exists.
    pub fn resource() -> (r: ArchetypeId)
        ensures
            r.0 == 1,
    {
        ArchetypeId(1)
    }

    pub fn index(self) -> (r: usize)
        ensures
            r == self.0,
    {
        self.0
    }
}

/// Whether adding a bundle introduces a slot at the destination or finds it there already.
#[derive(Debug, Clone, Copy, PartialEq, Eq, Structural)]
pub enum ComponentStatus {
    Added,
    Mutated,
}

/// A cached add-bundle transition: where it leads, and the status of each bundle slot.
pub struct AddBundle {
    pub archetype_id: ArchetypeId,
    pub bundle_status: Vec<ComponentStatus>,
}

/// Cached transitions out of one archetype, keyed by bundle.
pub struct Edges {
    pub add_bundle: Vec<Option<AddBundle>>,
    pub remove_bundle: Vec<Option<Option<ArchetypeId>>>,
    pub remove_bundle_intersection: Vec<Option<Option<ArchetypeId>>>,
}

impl Edges {
    pub open spec fn add_edge(&self, b: BundleId) -> Option<AddBundle> {
        if b.0 < self.add_bundle.len() { self.add_bundle[b.0 as int] } else { None }
    }

    pub open spec fn remove_edge(&self, b: BundleId) -> Option<Option<ArchetypeId>> {
        if b.0 < self.remove_bundle.len() { self.remove_bundle[b.0 as int] } else { None }
    }

    pub open spec fn remove_intersection_edge(&self, b: BundleId) -> Option<Option<ArchetypeId>> {
        if b.0 < self.remove_bundle_intersection.len() { self.remove_bundle_intersection[b.0 as int] } else { None }
    }

    pub fn new() -> (r: Edges)
        ensures
            forall|b: BundleId| r.add_edge(b) is None && r.remove_edge(b) is None
                && r.remove_intersection_edge(b) is None,
    {
        Edges { add_bundle: Vec::new(), remove_bundle: Vec::new(), remove_bundle_intersection: Vec::new() }
    }

    pub fn get_add_bundle(&self, bundle_id: BundleId) -> (r: Option<&AddBundle>)
        ensures
            r is Some <==> self.add_edge(bundle_id) is Some,
            r matches Some(a) ==> *a == self.add_edge(bundle_id).unwrap(),
    {
        if bundle_id.0 < self.add_bundle.len() {
            match &self.add_bundle[bundle_id.0] {
                Some(a) => Some(a),
                None => None,
            }
        } else {
            None
        }
    }

    pub fn set_add_bundle(&mut self, bundle_id: BundleId, archetype_id: ArchetypeId, bundle_status: Vec<ComponentStatus>)
        ensures
            final(self).add_edge(bundle_id) == Some(AddBundle { archetype_id, bundle_status }),
            forall|b: BundleId| b != bundle_id ==> final(self).add_edge(b) == old(self).add_edge(b),
            forall|b: BundleId| final(self).remove_edge(b) == old(self).remove_edge(b)
                && final(self).remove_intersection_edge(b) == old(self).remove_intersection_edge(b),
    {
        while self.add_bundle.len() <= bundle_id.0
            invariant
                self.remove_bundle@ == old(self).remove_bundle@,
                self.remove_bundle_intersection@ == old(self).remove_bundle_intersection@,
                forall|b: BundleId| self.add_edge(b) == old(self).add_edge(b),
            decreases bundle_id.0 + 1 - self.add_bundle.len(),
        {
            self.add_bundle.push(None);
        }
        self.add_bundle.set(bundle_id.0, Some(AddBundle { archetype_id, bundle_status }));
    }

    pub fn get_remove_bundle(&self, bundle_id: BundleId) -> (r: Option<Option<ArchetypeId>>)
        ensures
            r == self.remove_edge(bundle_id),
    {
        if bundle_id.0 < self.remove_bundle.len() { self.remove_bundle[bundle_id.0] } else { None }
    }

    pub fn set_remove_bundle(&mut self, bundle_id: BundleId, archetype_id: Option<ArchetypeId>)
        ensures
            final(self).remove_edge(bundle_id) == Some(archetype_id),
            forall|b: BundleId| b != bundle_id ==> final(self).remove_edge(b) == old(self).remove_edge(b),
            forall|b: BundleId| final(self).add_edge(b) == old(self).add_edge(b)
                && final(self).remove_intersection_edge(b) == old(self).remove_intersection_edge(b),
    {
        while self.remove_bundle.len() <= bundle_id.0
            invariant
                self.add_bundle@ == old(self).add_bundle@,
                self.remove_bundle_intersection@ == old(self).remove_bundle_intersection@,
                forall|b: BundleId| self.remove_edge(b) == old(self).remove_edge(b),
            decreases bundle_id.0 + 1 - self.remove_bundle.len(),
        {
            self.remove_bundle.push(None);
        }
        self.remove_bundle.set(bundle_id.0, Some(archetype_id));
    }

    pub fn get_remove_bundle_intersection(&self, bundle_id: BundleId) -> (r: Option<Option<ArchetypeId>>)
        ensures
            r == self.remove_intersection_edge(bundle_id),
    {
        if bundle_id.0 < self.remove_bundle_intersection.len() {
            self.remove_bundle_intersection[bundle_id.0]
        } else {
            None
        }
    }

    pub fn set_remove_bundle_intersection(&mut self, bundle_id: BundleId, archetype_id: Option<ArchetypeId>)
        ensures
            final(self).remove_intersection_edge(bundle_id) == Some(archetype_id),
            forall|b: BundleId| b != bundle_id ==> final(self).remove_intersection_edge(b) == old(self).remove_intersection_edge(b),
            forall|b: BundleId| final(self).add_edge(b) == old(self).add_edge(b)
                && final(self).remove_edge(b) == old(self).remove_edge(b),
    {
        while self.remove_bundle_intersection.len() <= bundle_id.0
            invariant
                self.add_bundle@ == old(self).add_bundle@,
                self.remove_bundle@ == old(self).remove_bundle@,
                forall|b: BundleId| self.remove_intersection_edge(b) == old(self).remove_intersection_edge(b),
            decreases bundle_id.0 + 1 - self.remove_bundle_intersection.len(),
        {
            self.remove_bundle_intersection.push(None);
        }
        self.remove_bundle_intersection.set(bundle_id.0, Some(archetype_id));
    }
}

/// Globally unique id of one slot of one archetype: the unit of read/write access control.
#[derive(Debug, Clone, Copy, PartialEq, Eq, Hash, Structural)]
pub struct ArchetypeComponentId(pub usize);

impl ArchetypeComponentId {
    pub fn new(index: usize) -> (r: ArchetypeComponentId)
        ensures
            r.0 == index,
    {
        ArchetypeComponentId(index)
    }

    pub fn index(self) -> (r: usize)
        ensures
            r == self.0,
    {
        self.0
    }
}

/// Number of archetypes at some moment; it changes whenever an archetype is created.
#[derive(Debug, Clone, Copy, PartialEq, Eq, Structural)]
pub struct ArchetypeGeneration(pub usize);

impl ArchetypeGeneration {
    pub fn initial() -> (r: ArchetypeGeneration)
        ensures
            r.0 == 0,
    {
        ArchetypeGeneration(0)
    }

    pub fn value(self) -> (r: usize)
        ensures
            r == self.0,
    {
        self.0
    }
}

/// What identifies an archetype: its sorted table slots and its sorted sparse-set slots.
pub struct ArchetypeIdentity {
    pub table_components: Vec<Slot>,
    pub sparse_set_components: Vec<Slot>,
}

/// Result of removing an entity from an archetype: the table row it had, and the entity that
/// took its place in the archetype, if any.
pub struct ArchetypeSwapRemoveResult {
    pub swapped_entity: Option<Entity>,
    pub table_row: usize,
}

/// A group of entities that share the same slots.
pub struct Archetype {
    pub id: ArchetypeId,
    pub entities: Vec<Entity>,
    pub edges: Edges,
    pub table_id: TableId,
    pub entity_rows: Vec<usize>,
    pub table_components: Vec<Slot>,
    pub sparse_set_components: Vec<Slot>,
    pub table_archetype_components: Vec<ArchetypeComponentId>,
    pub sparse_set_archetype_components: Vec<ArchetypeComponentId>,
    pub unique_components: Vec<Column>,
}

impl Archetype {
    pub open spec fn wf(&self) -> bool {
        &&& self.entity_rows.len() == self.entities.len()
        &&& self.table_archetype_components.len() == self.table_components.len()
        &&& self.sparse_set_archetype_components.len() == self.sparse_set_components.len()
    }

    pub open spec fn has_slot(&self, s: Slot) -> bool {
        self.table_components@.contains(s) || self.sparse_set_components@.contains(s)
    }

    pub open spec fn storage_type_spec(&self, s: Slot) -> Option<StorageType> {
        if self.table_components@.contains(s) {
            Some(StorageType::Table)
        } else if self.sparse_set_components@.contains(s) {
            Some(StorageType::SparseSet)
        } else {
            None
        }
    }

    /// The archetype's own data (slots, table, id) is as in `old`; entities may differ.
    pub open spec fn same_layout(&self, old: &Archetype) -> bool {
        &&& self.id == old.id
        &&& self.table_id == old.table_id
        &&& self.table_components@ == old.table_components@
        &&& self.sparse_set_components@ == old.sparse_set_components@
        &&& self.table_archetype_components@ == old.table_archetype_components@
        &&& self.sparse_set_archetype_components@ == old.sparse_set_archetype_components@
    }

    pub fn new(
        id: ArchetypeId,
        table_id: TableId,
        table_components: Vec<Slot>,
        sparse_set_components: Vec<Slot>,
        table_archetype_components: Vec<ArchetypeComponentId>,
        sparse_set_archetype_components: Vec<ArchetypeComponentId>,
    ) -> (r: Archetype)
        requires
            table_archetype_components.len() == table_components.len(),
            sparse_set_archetype_components.len() == sparse_set_components.len(),
        ensures
            r.wf(),
            r.id == id,
            r.table_id == table_id,
            r.table_components@ == table_components@,
            r.sparse_set_components@ == sparse_set_components@,
            r.table_archetype_components@ == table_archetype_components@,
            r.sparse_set_archetype_components@ == sparse_set_archetype_components@,
            r.entities.len() == 0,
            r.unique_components.len() == 0,
            forall|b: BundleId| r.edges.add_edge(b) is None && r.edges.remove_edge(b) is None
                && r.edges.remove_intersection_edge(b) is None,
    {
        Archetype {
            id,
            entities: Vec::new(),
            edges: Edges::new(),
            table_id,
            entity_rows: Vec::new(),
            table_components,
            sparse_set_components,
            table_archetype_components,
            sparse_set_archetype_components,
            unique_components: Vec::new(),
        }
    }

    pub fn id(&self) -> (r: ArchetypeId)
        ensures
            r == self.id,
    {
        self.id
    }

    pub fn table_id(&self) -> (r: TableId)
        ensures
            r == self.table_id,
    {
        self.table_id
    }

    pub fn entities(&self) -> (r: &Vec<Entity>)
        ensures
            r == &self.entities,
    {
        &self.entities
    }

    pub fn entity_table_rows(&self) -> (r: &Vec<usize>)
        ensures
            r == &self.entity_rows,
    {
        &self.entity_rows
    }

    pub fn table_components(&self) -> (r: &Vec<Slot>)
        ensures
            r == &self.table_components,
    {
        &self.table_components
    }

    pub fn sparse_set_components(&self) -> (r: &Vec<Slot>)
        ensures
            r == &self.sparse_set_components,
    {
        &self.sparse_set_components
    }

    pub fn unique_components(&self) -> (r: &Vec<Column>)
        ensures
            r == &self.unique_components,
    {
        &self.unique_components
    }

    /// All slots: the table slots, then the sparse-set slots.
    pub fn components(&self) -> (r: Vec<Slot>)
        ensures
            r@ == self.table_components@ + self.sparse_set_components@,
    {
        let mut r = Vec::new();
        let mut i: usize = 0;
        while i < self.table_components.len()
            invariant
                i <= self.table_components.len(),
                r@ == self.table_components@.take(i as int),
            decreases self.table_components.len() - i,
        {
            r.push(self.table_components[i]);
            assert(self.table_components@.take(i + 1) =~= self.table_components@.take(i as int).push(self.table_components@[i as int]));
            i = i + 1;
        }
        let mut k: usize = 0;
        while k < self.sparse_set_components.len()
            invariant
                i == self.table_components.len(),
                k <= self.sparse_set_components.len(),
                r@ == self.table_components@ + self.sparse_set_components@.take(k as int),
            decreases self.sparse_set_components.len() - k,
        {
            r.push(self.sparse_set_components[k]);
            assert(self.sparse_set_components@.take(k + 1) =~= self.sparse_set_components@.take(k as int).push(self.sparse_set_components@[k as int]));
            assert(self.table_components@ + self.sparse_set_components@.take(k + 1) =~= (self.table_components@ + self.sparse_set_components@.take(k as int)).push(self.sparse_set_components@[k as int]));
            k = k + 1;
        }
        assert(self.table_components@ =~= self.table_components@.take(i as int));
        assert(self.sparse_set_components@.take(k as int) =~= self.sparse_set_components@);
        r
    }

    pub fn edges(&self) -> (r: &Edges)
        ensures
            r == &self.edges,
    {
        &self.edges
    }

    pub fn entity_table_row(&self, index: usize) -> (r: usize)
        requires
            self.wf(),
            index < self.entities.len(),
        ensures
            r == self.entity_rows[index as int],
    {
        self.entity_rows[index]
    }

    pub fn set_entity_table_row(&mut self, index: usize, table_row: usize)
        requires
            old(self).wf(),
            index < old(self).entities.len(),
        ensures
            final(self).wf(),
            final(self).same_layout(old(self)),
            final(self).entities@ == old(self).entities@,
            final(self).entity_rows@ == old(self).entity_rows@.update(index as int, table_row),
            final(self).edges == old(self).edges,
    {
        self.entity_rows.set(index, table_row);
    }

    /// Appends `entity`, stored at `table_row` of the archetype's table, and returns its location.
    pub fn allocate(&mut self, entity: Entity, table_row: usize) -> (r: EntityLocation)
        requires
            old(self).wf(),
        ensures
            final(self).wf(),
            final(self).same_layout(old(self)),
            final(self).entities@ == old(self).entities@.push(entity),
            final(self).entity_rows@ == old(self).entity_rows@.push(table_row),
            final(self).edges == old(self).edges,
            r == (EntityLocation { archetype_id: old(self).id, index: old(self).entities.len() as usize }),
    {
        self.entities.push(entity);
        self.entity_rows.push(table_row);
        EntityLocation { archetype_id: self.id, index: self.entities.len() - 1 }
    }

    pub fn reserve(&mut self, additional: usize)
        ensures
            final(self).same_layout(old(self)),
            final(self).entities@ == old(self).entities@,
            final(self).entity_rows@ == old(self).entity_rows@,
            final(self).edges == old(self).edges,
    {
        self.entities.reserve(additional);
        self.entity_rows.reserve(additional);
    }

    /// Removes the entity at `index` by moving the last one into its place.
    pub fn swap_remove(&mut self, index: usize) -> (r: ArchetypeSwapRemoveResult)
        requires
            old(self).wf(),
            index < old(self).entities.len(),
        ensures
            final(self).wf(),
            final(self).same_layout(old(self)),
            final(self).edges == old(self).edges,
            final(self).entities@ == old(self).entities@.update(index as int, old(self).entities@.last()).drop_last(),
            final(self).entity_rows@ == old(self).entity_rows@.update(index as int, old(self).entity_rows@.last()).drop_last(),
            r.table_row == old(self).entity_rows[index as int],
            r.swapped_entity == (if index == old(self).entities.len() - 1 { None } else { Some(old(self).entities@.last()) }),
    {
        let is_last = index == self.entities.len() - 1;
        self.entities.swap_remove(index);
        let table_row = self.entity_rows.swap_remove(index);
        ArchetypeSwapRemoveResult {
            swapped_entity: if is_last { None } else { Some(self.entities[index]) },
            table_row,
        }
    }

    pub fn len(&self) -> (r: usize)
        ensures
            r == self.entities.len(),
    {
        self.entities.len()
    }

    pub fn is_empty(&self) -> (r: bool)
        ensures
            r == (self.entities.len() == 0),
    {
        self.entities.len() == 0
    }

    pub fn contains(&self, kind: crate::component::ComponentId, target: Option<Entity>) -> (r: bool)
        ensures
            r == self.has_slot((Slot { kind, target })),
    {
        let s = Slot { kind, target };
        slots_contain(&self.table_components, &s) || slots_contain(&self.sparse_set_components, &s)
    }

    pub fn get_storage_type(&self, kind: crate::component::ComponentId, target: Option<Entity>) -> (r: Option<StorageType>)
        ensures
            r == self.storage_type_spec((Slot { kind, target })),
    {
        let s = Slot { kind, target };
        if slots_contain(&self.table_components, &s) {
            Some(StorageType::Table)
        } else if slots_contain(&self.sparse_set_components, &s) {
            Some(StorageType::SparseSet)
        } else {
            None
        }
    }

    pub fn get_archetype_component_id(&self, kind: crate::component::ComponentId, target: Option<Entity>) -> (r: Option<ArchetypeComponentId>)
        requires
            self.wf(),
        ensures
            r is Some <==> self.has_slot((Slot { kind, target })),
            r matches Some(id) ==> (exists|i: int| 0 <= i < self.table_components.len() && self.table_components[i] == (Slot { kind, target })
                && self.table_archetype_components[i] == id)
                || (exists|i: int| 0 <= i < self.sparse_set_components.len() && self.sparse_set_components[i] == (Slot { kind, target })
                && self.sparse_set_archetype_components[i] == id),
    {
        let s = Slot { kind, target };
        let mut i: usize = 0;
        while i < self.table_components.len()
            invariant
                i <= self.table_components.len(),
                self.wf(),
                s == (Slot { kind, target }),
                forall|j: int| 0 <= j < i ==> self.table_components[j] != s,
            decreases self.table_components.len() - i,
        {
            if crate::table::slot_eq(&self.table_components[i], &s) {
                assert(self.table_components@[i as int] == s);
                return Some(self.table_archetype_components[i]);
            }
            i = i + 1;
        }
        let mut k: usize = 0;
        while k < self.sparse_set_components.len()
            invariant
                k <= self.sparse_set_components.len(),
                self.wf(),
                s == (Slot { kind, target }),
                !self.table_components@.contains(s),
                forall|j: int| 0 <= j < k ==> self.sparse_set_components[j] != s,
            decreases self.sparse_set_components.len() - k,
        {
            if crate::table::slot_eq(&self.sparse_set_components[k], &s) {
                assert(self.sparse_set_components@[k as int] == s);
                return Some(self.sparse_set_archetype_components[k]);
            }
            k = k + 1;
        }
        None
    }
}


/// Arena of archetypes. Archetype 0 is the empty one, archetype 1 holds the resources; every
/// other one is found by its identity, which no two of them share.
pub struct Archetypes {
    pub archetypes: Vec<Archetype>,
    pub archetype_component_count: usize,
}

impl Archetypes {
    pub open spec fn wf(&self) -> bool {
        &&& self.archetypes.len() >= 2
        &&& forall|a: int| 0 <= a < self.archetypes.len() ==> (#[trigger] self.archetypes[a]).wf()
                && self.archetypes[a].id == ArchetypeId(a as usize)
        &&& self.archetypes[0].table_components.len() == 0
        &&& self.archetypes[0].sparse_set_components.len() == 0
        &&& self.archetypes[0].table_id == TableId(0)
        &&& self.archetypes[1].table_components.len() == 0
        &&& self.archetypes[1].sparse_set_components.len() == 0
        &&& self.archetypes[1].table_id == TableId(0)
        &&& forall|a: int, b: int| 0 <= a < self.archetypes.len() && 0 <= b < self.archetypes.len()
                && a != 1 && b != 1 && a != b
                ==> !Self::same_identity(#[trigger] self.archetypes[a], #[trigger] self.archetypes[b])
    }

    pub open spec fn same_identity(a: Archetype, b: Archetype) -> bool {
        a.table_components@ == b.table_components@ && a.sparse_set_components@ == b.sparse_set_components@
    }

    /// Archetype `a` is reachable by identity and its identity is `(table, sparse)`.
    pub open spec fn holds_identity(&self, a: int, table: Seq<Slot>, sparse: Seq<Slot>) -> bool {
        &&& 0 <= a < self.archetypes.len()
        &&& a != 1
        &&& self.archetypes[a].table_components@ == table
        &&& self.archetypes[a].sparse_set_components@ == sparse
    }

    pub open spec fn has_identity(&self, table: Seq<Slot>, sparse: Seq<Slot>) -> bool {
        exists|a: int| self.holds_identity(a, table, sparse)
    }

    /// Every archetype keeps its id, table and slots; entities and edges may change.
    pub open spec fn layouts_kept(&self, old: &Archetypes) -> bool {
        &&& self.archetypes.len() >= old.archetypes.len()
        &&& forall|a: int| 0 <= a < old.archetypes.len() ==> (#[trigger] self.archetypes[a]).same_layout(&old.archetypes[a])
    }

    /// Room is left for `n` more archetype-component ids.
    pub open spec fn has_room(&self, n: int) -> bool {
        self.archetype_component_count + n <= usize::MAX
    }

    /// The arena with its two reserved archetypes.
    pub fn new() -> (r: Archetypes)
        ensures
            r.wf(),
            r.archetypes.len() == 2,
            r.archetypes[0].entities.len() == 0,
            r.archetypes[1].entities.len() == 0,
            r.archetype_component_count == 0,
            forall|a: int, b: BundleId| 0 <= a < 2 ==> r.archetypes[a].edges.add_edge(b) is None
                && r.archetypes[a].edges.remove_edge(b) is None && r.archetypes[a].edges.remove_intersection_edge(b) is None,
    {
        let mut archetypes = Archetypes { archetypes: Vec::new(), archetype_component_count: 0 };
        archetypes.archetypes.push(
            Archetype::new(ArchetypeId(0), TableId(0), Vec::new(), Vec::new(), Vec::new(), Vec::new()),
        );
        archetypes.archetypes.push(
            Archetype::new(ArchetypeId(1), TableId(0), Vec::new(), Vec::new(), Vec::new(), Vec::new()),
        );
        archetypes
    }

    pub fn generation(&self) -> (r: ArchetypeGeneration)
        ensures
            r.0 == self.archetypes.len(),
    {
        ArchetypeGeneration(self.archetypes.len())
    }

    pub fn len(&self) -> (r: usize)
        ensures
            r == self.archetypes.len(),
    {
        self.archetypes.len()
    }

    pub fn is_empty(&self) -> (r: bool)
        ensures
            r == (self.archetypes.len() == 0),
    {
        self.archetypes.len() == 0
    }

    pub fn empty(&self) -> (r: &Archetype)
        requires
            self.wf(),
        ensures
            *r == self.archetypes[0],
    {
        &self.archetypes[0]
    }

    pub fn resource(&self) -> (r: &Archetype)
        requires
            self.wf(),
        ensures
            *r == self.archetypes[1],
    {
        &self.archetypes[1]
    }

    pub fn get(&self, id: ArchetypeId) -> (r: Option<&Archetype>)
        ensures
            r is Some <==> id.0 < self.archetypes.len(),
            r matches Some(a) ==> *a == self.archetypes[id.0 as int],
    {
        if id.0 < self.archetypes.len() {
            Some(&self.archetypes[id.0])
        } else {
            None
        }
    }

    pub fn archetype_components_len(&self) -> (r: usize)
        ensures
            r == self.archetype_component_count,
    {
        self.archetype_component_count
    }

    /// The archetype with the given sorted table and sparse-set slots, created (with fresh
    /// archetype-component ids and no entities) when there is none yet.
    pub fn get_id_or_insert(
        &mut self,
        table_id: TableId,
        table_components: Vec<Slot>,
        sparse_set_components: Vec<Slot>,
    ) -> (r: ArchetypeId)
        requires
            old(self).wf(),
            old(self).has_room(table_components.len() + sparse_set_components.len()),
        ensures
            final(self).wf(),
            final(self).holds_identity(r.0 as int, table_components@, sparse_set_components@),
            old(self).has_identity(table_components@, sparse_set_components@) ==> *final(self) == *old(self),
            !old(self).has_identity(table_components@, sparse_set_components@) ==> {
                &&& r.0 == old(self).archetypes.len()
                &&& final(self).archetypes@.drop_last() == old(self).archetypes@
                &&& final(self).archetypes[r.0 as int].table_id == table_id
                &&& final(self).archetypes[r.0 as int].entities.len() == 0
                &&& forall|b: BundleId| final(self).archetypes[r.0 as int].edges.add_edge(b) is None
                        && final(self).archetypes[r.0 as int].edges.remove_edge(b) is None
                        && final(self).archetypes[r.0 as int].edges.remove_intersection_edge(b) is None
                &&& final(self).archetype_component_count == old(self).archetype_component_count
                        + table_components.len() + sparse_set_components.len()
            },
    {
        let mut a: usize = 0;
        while a < self.archetypes.len()
            invariant
                a <= self.archetypes.len(),
                *self == *old(self),
                old(self).wf(),
                forall|b: int| 0 <= b < a ==> !self.holds_identity(b, table_components@, sparse_set_components@),
            decreases self.archetypes.len() - a,
        {
            if a != 1 && slots_eq(&self.archetypes[a].table_components, &table_components)
                && slots_eq(&self.archetypes[a].sparse_set_components, &sparse_set_components) {
                assert(self.holds_identity(a as int, table_components@, sparse_set_components@));
                return ArchetypeId(a);
            }
            a = a + 1;
        }
        let id = ArchetypeId(self.archetypes.len());
        let mut table_ids: Vec<ArchetypeComponentId> = Vec::new();
        let mut i: usize = 0;
        while i < table_components.len()
            invariant
                i <= table_components.len(),
                table_ids.len() == i,
                self.archetype_component_count == old(self).archetype_component_count + i,
                old(self).has_room(table_components.len() + sparse_set_components.len()),
                self.archetypes@ == old(self).archetypes@,
            decreases table_components.len() - i,
        {
            table_ids.push(ArchetypeComponentId(self.archetype_component_count));
            self.archetype_component_count = self.archetype_component_count + 1;
            i = i + 1;
        }
        let mut sparse_ids: Vec<ArchetypeComponentId> = Vec::new();
        let mut k: usize = 0;
        while k < sparse_set_components.len()
            invariant
                k <= sparse_set_components.len(),
                sparse_ids.len() == k,
                self.archetype_component_count == old(self).archetype_component_count + table_components.len() + k,
                old(self).has_room(table_components.len() + sparse_set_components.len()),
                self.archetypes@ == old(self).archetypes@,
            decreases sparse_set_components.len() - k,
        {
            sparse_ids.push(ArchetypeComponentId(self.archetype_component_count));
            self.archetype_component_count = self.archetype_component_count + 1;
            k = k + 1;
        }
        let arch = Archetype::new(id, table_id, table_components, sparse_set_components, table_ids, sparse_ids);
        self.archetypes.push(arch);
        proof {
            assert(self.archetypes@.drop_last() =~= old(self).archetypes@);
            assert forall|x: int, y: int| 0 <= x < self.archetypes.len() && 0 <= y < self.archetypes.len()
                && x != 1 && y != 1 && x != y
                implies !Self::same_identity(#[trigger] self.archetypes[x], #[trigger] self.archetypes[y]) by {
                if x == id.0 as int {
                    assert(!old(self).holds_identity(y, table_components@, sparse_set_components@));
                } else if y == id.0 as int {
                    assert(!old(self).holds_identity(x, table_components@, sparse_set_components@));
                }
            }
        }
        id
    }
}

/// Identity determines the archetype: two archetypes reachable by identity that have the same
/// sorted table and sparse-set slots are the same archetype, so looking an identity up always
/// yields one id.
pub proof fn lemma_identity_determines_id(archetypes: &Archetypes, a: int, b: int, table: Seq<Slot>, sparse: Seq<Slot>)
    requires
        archetypes.wf(),
        archetypes.holds_identity(a, table, sparse),
        archetypes.holds_identity(b, table, sparse),
    ensures
        a == b,
{
    if a != b {
        assert(!Archetypes::same_identity(archetypes.archetypes[a], archetypes.archetypes[b]));
    }
}

} // verus!
