use vstd::prelude::*;

use crate::entity::Entity;

verus! {

/// Where the values of a component kind are kept: in the rows of a table, or in a sparse set
/// keyed by entity.
#[derive(Debug, Clone, Copy, PartialEq, Eq, Structural)]
pub enum StorageType {
    Table,
    SparseSet,
}

impl Default for StorageType {
    fn default() -> (r: StorageType)
        ensures
            r == StorageType::Table,
    {
        StorageType::Table
    }
}

/// Size and alignment of one type-erased value.
#[derive(Debug, Clone, Copy, PartialEq, Eq, Structural)]
pub struct DataLayout {
    pub size: usize,
    pub align: usize,
}

/// Static description of a type-erased value: its name, its preferred storage class, an
/// optional static-type token and its layout.
#[derive(Debug, Clone)]
pub struct ComponentDescriptor {
    pub name: String,
    pub storage_type: StorageType,
    pub is_send_and_sync: bool,
    pub type_id: Option<u64>,
    pub layout: DataLayout,
}

impl ComponentDescriptor {
    pub fn new(
        name: String,
        storage_type: StorageType,
        type_id: Option<u64>,
        size: usize,
        align: usize,
    ) -> (r: ComponentDescriptor)
        ensures
            r.name@ == name@,
            r.storage_type == storage_type,
            r.is_send_and_sync,
            r.type_id == type_id,
            r.layout == (DataLayout { size, align }),
    {
        ComponentDescriptor {
            name,
            storage_type,
            is_send_and_sync: true,
            type_id,
            layout: DataLayout { size, align },
        }
    }

    pub fn name(&self) -> (r: &str)
        ensures
            r@ == self.name@,
    {
        self.name.as_str()
    }

    pub fn type_id(&self) -> (r: Option<u64>)
        ensures
            r == self.type_id,
    {
        self.type_id
    }

    pub fn layout(&self) -> (r: DataLayout)
        ensures
            r == self.layout,
    {
        self.layout
    }

    pub fn storage_type(&self) -> (r: StorageType)
        ensures
            r == self.storage_type,
    {
        self.storage_type
    }

    pub fn is_send_and_sync(&self) -> (r: bool)
        ensures
            r == self.is_send_and_sync,
    {
        self.is_send_and_sync
    }
}

/// Identifier of a slot kind: what archetypes and tables key their columns by.
#[derive(Debug, Clone, Copy, PartialEq, Eq, Hash, Structural)]
pub struct ComponentId(pub usize);

impl ComponentId {
    pub fn new(index: usize) -> (r: ComponentId)
        ensures
            r.0 == index,
    {
        ComponentId(index)
    }

    pub fn index(self) -> (r: usize)
        ensures
            r == self.0,
    {
        self.0
    }
}

/// Marker for the predefined role that attaches a plain component to an entity.
pub struct HasComponent;

/// Marker for the predefined role that attaches a singleton resource to the world.
pub struct HasResource;

/// Identifier of a relation role (the predefined ones and user relations such as "child of").
#[derive(Debug, Clone, Copy, PartialEq, Eq, Hash, Structural)]
pub struct RelationshipKindId(pub usize);

#[derive(Debug, Clone, Copy, PartialEq, Eq, Hash, Structural)]
pub struct RelationshipKindInfo {
    pub id: RelationshipKindId,
    pub type_id: Option<u64>,
}

/// Identifier of a data kind: the payload type of a component or resource.
#[derive(Debug, Clone, Copy, PartialEq, Eq, Hash, Structural)]
pub struct DummyId(pub usize);

#[derive(Debug, Clone, Copy, PartialEq, Eq, Hash, Structural)]
pub struct DummyIdInfo {
    pub static_type: Option<u64>,
    pub id: DummyId,
}

/// What a relation points at: a data kind or an entity.
#[derive(Debug, Clone, Copy, PartialEq, Eq, Hash, Structural)]
pub enum DummyIdOrEntity {
    Entity(Entity),
    DummyId(DummyId),
}

/// A relation role together with its target; each registered one gets a `ComponentId`.
#[derive(Debug, Clone, Copy, PartialEq, Eq, Hash, Structural)]
pub struct Relationship {
    pub kind: RelationshipKindId,
    pub target: DummyIdOrEntity,
}

impl Relationship {
    pub fn new(kind: RelationshipKindId, target: DummyIdOrEntity) -> (r: Relationship)
        ensures
            r.kind == kind,
            r.target == target,
    {
        Relationship { kind, target }
    }
}

#[derive(Debug)]
pub struct ComponentInfo {
    pub id: ComponentId,
    pub relationship: Relationship,
    pub data: ComponentDescriptor,
}

impl ComponentInfo {
    pub fn id(&self) -> (r: ComponentId)
        ensures
            r == self.id,
    {
        self.id
    }

    pub fn get_component_descriptor(&self) -> (r: &ComponentDescriptor)
        ensures
            r == &self.data,
    {
        &self.data
    }
}

/// Errors of the registry.
#[derive(Debug)]
pub enum ComponentsError {
    ComponentAlreadyExists(Relationship),
}

/// Change-detection ticks of one stored value.
#[derive(Debug, Clone, Copy, PartialEq, Eq, Structural)]
pub struct ComponentTicks {
    pub added: u32,
    pub changed: u32,
}

/// Largest distance, in ticks, that a stored tick is kept behind the current one; well inside
/// the signed 32-bit range, so that wrap-around comparisons of clamped ticks stay valid.
pub const MAX_CHANGE_AGE: u32 = 1_073_741_824;

/// `tick` lies after `last_change_tick` in wrap-around arithmetic: their wrapping difference,
/// read as a signed 32-bit number, is positive.
pub open spec fn tick_is_newer(tick: u32, last_change_tick: u32) -> bool {
    let d = (tick - last_change_tick) % 0x1_0000_0000;
    0 < d && d <= 0x7fff_ffff
}

/// The wrapping difference `tick - last`, read as a signed 32-bit number, is positive.
fn is_newer(tick: u32, last_change_tick: u32) -> (r: bool)
    ensures
        r == tick_is_newer(tick, last_change_tick),
{
    let d = tick.wrapping_sub(last_change_tick);
    d != 0 && d <= i32::MAX as u32
}

impl ComponentTicks {
    pub open spec fn new_spec(change_tick: u32) -> ComponentTicks {
        ComponentTicks { added: change_tick, changed: change_tick }
    }

    /// Ticks of a value written at `change_tick`.
    pub fn new(change_tick: u32) -> (r: ComponentTicks)
        ensures
            r == ComponentTicks::new_spec(change_tick),
    {
        ComponentTicks { added: change_tick, changed: change_tick }
    }

    /// The value was added after `last_change_tick`.
    pub fn is_added(&self, last_change_tick: u32) -> (r: bool)
        ensures
            r == tick_is_newer(self.added, last_change_tick),
    {
        is_newer(self.added, last_change_tick)
    }

    /// The value was changed after `last_change_tick`.
    pub fn is_changed(&self, last_change_tick: u32) -> (r: bool)
        ensures
            r == tick_is_newer(self.changed, last_change_tick),
    {
        is_newer(self.changed, last_change_tick)
    }

    /// Stamps a mutation at `change_tick`.
    pub fn set_changed(&mut self, change_tick: u32)
        ensures
            final(self).added == old(self).added,
            final(self).changed == change_tick,
    {
        self.changed = change_tick;
    }

    /// Both ticks, each clamped to at most `MAX_CHANGE_AGE` behind `change_tick`.
    pub open spec fn clamped(self, change_tick: u32) -> ComponentTicks {
        ComponentTicks { added: clamp_tick(self.added, change_tick), changed: clamp_tick(self.changed, change_tick) }
    }

    /// Clamps both ticks so that neither lies more than `MAX_CHANGE_AGE` behind `change_tick`.
    pub fn check_ticks(&mut self, change_tick: u32)
        ensures
            *final(self) == old(self).clamped(change_tick),
    {
        self.added = check_tick(self.added, change_tick);
        self.changed = check_tick(self.changed, change_tick);
    }
}

/// A stored tick, moved up to `MAX_CHANGE_AGE` behind `change_tick` when it is older than that.
pub open spec fn clamp_tick(tick: u32, change_tick: u32) -> u32 {
    if (change_tick - tick) % 0x1_0000_0000 > MAX_CHANGE_AGE {
        ((change_tick - MAX_CHANGE_AGE) % 0x1_0000_0000) as u32
    } else {
        tick
    }
}

fn check_tick(tick: u32, change_tick: u32) -> (r: u32)
    ensures
        r == clamp_tick(tick, change_tick),
{
    let age = change_tick.wrapping_sub(tick);
    if age > MAX_CHANGE_AGE {
        change_tick.wrapping_sub(MAX_CHANGE_AGE)
    } else {
        tick
    }
}


/// Registry of relation kinds, data kinds and the slot kinds (`ComponentId`) made of them.
pub struct Components {
    pub components: Vec<ComponentInfo>,
    pub kinds: Vec<RelationshipKindInfo>,
    pub dummy_infos: Vec<DummyIdInfo>,
}

impl Components {
    pub open spec fn wf(&self) -> bool {
        &&& self.kinds.len() >= 2
        &&& forall|i: int| 0 <= i < self.kinds.len() ==> (#[trigger] self.kinds[i]).id == RelationshipKindId(i as usize)
        &&& forall|i: int, j: int| 0 <= i < self.kinds.len() && 0 <= j < self.kinds.len() && i != j
                && (#[trigger] self.kinds[i]).type_id is Some ==> self.kinds[i].type_id != (#[trigger] self.kinds[j]).type_id
        &&& forall|i: int| 0 <= i < self.dummy_infos.len() ==> (#[trigger] self.dummy_infos[i]).id == DummyId(i as usize)
        &&& forall|i: int, j: int| 0 <= i < self.dummy_infos.len() && 0 <= j < self.dummy_infos.len() && i != j
                && (#[trigger] self.dummy_infos[i]).static_type is Some
                ==> self.dummy_infos[i].static_type != (#[trigger] self.dummy_infos[j]).static_type
        &&& forall|i: int| 0 <= i < self.components.len() ==> (#[trigger] self.components[i]).id == ComponentId(i as usize)
        &&& forall|i: int, j: int| 0 <= i < self.components.len() && 0 <= j < self.components.len() && i != j
                ==> (#[trigger] self.components[i]).relationship != (#[trigger] self.components[j]).relationship
    }

    /// `id` names a registered slot kind.
    pub open spec fn contains_id(&self, id: ComponentId) -> bool {
        id.0 < self.components.len()
    }

    pub open spec fn storage_type_of(&self, id: ComponentId) -> StorageType {
        self.components[id.0 as int].data.storage_type
    }

    pub open spec fn layout_of(&self, id: ComponentId) -> DataLayout {
        self.components[id.0 as int].data.layout
    }

    pub open spec fn is_registered(&self, r: Relationship) -> bool {
        exists|i: int| 0 <= i < self.components.len() && (#[trigger] self.components[i]).relationship == r
    }

    pub open spec fn has_kind_token(&self, t: u64) -> bool {
        exists|i: int| 0 <= i < self.kinds.len() && (#[trigger] self.kinds[i]).type_id == Some(t)
    }

    pub open spec fn has_data_token(&self, t: u64) -> bool {
        exists|i: int| 0 <= i < self.dummy_infos.len() && (#[trigger] self.dummy_infos[i]).static_type == Some(t)
    }

    /// What a registry keeps when it only grows: every registered slot kind, relation kind and
    /// data kind stays as it was.
    pub open spec fn extends(&self, old: &Components) -> bool {
        &&& self.components.len() >= old.components.len()
        &&& forall|i: int| 0 <= i < old.components.len() ==> (#[trigger] self.components[i]).relationship == old.components[i].relationship
                && self.components[i].data.storage_type == old.components[i].data.storage_type
                && self.components[i].data.layout == old.components[i].data.layout
        &&& self.kinds.len() >= old.kinds.len()
        &&& forall|i: int| 0 <= i < old.kinds.len() ==> #[trigger] self.kinds[i] == old.kinds[i]
        &&& self.dummy_infos.len() >= old.dummy_infos.len()
        &&& forall|i: int| 0 <= i < old.dummy_infos.len() ==> #[trigger] self.dummy_infos[i] == old.dummy_infos[i]
    }

    /// A registry with the two predefined relation kinds: plain components (kind 0) and resources
    /// (kind 1).
    pub fn new() -> (r: Components)
        ensures
            r.wf(),
            r.components.len() == 0,
            r.kinds.len() == 2,
            r.dummy_infos.len() == 0,
    {
        let mut kinds = Vec::new();
        kinds.push(RelationshipKindInfo { id: RelationshipKindId(0), type_id: None });
        kinds.push(RelationshipKindInfo { id: RelationshipKindId(1), type_id: None });
        Components { components: Vec::new(), kinds, dummy_infos: Vec::new() }
    }

    pub fn relkind_of_has_component(&self) -> (r: RelationshipKindId)
        ensures
            r == RelationshipKindId(0),
    {
        RelationshipKindId(0)
    }

    pub fn relkind_of_has_resource(&self) -> (r: RelationshipKindId)
        ensures
            r == RelationshipKindId(1),
    {
        RelationshipKindId(1)
    }

    /// Creates a relation kind. A static-type token may name at most one relation kind.
    pub fn new_relationship_kind(&mut self, type_id: Option<u64>) -> (r: RelationshipKindId)
        requires
            old(self).wf(),
            type_id matches Some(t) ==> !old(self).has_kind_token(t),
        ensures
            final(self).wf(),
            final(self).extends(old(self)),
            r == RelationshipKindId(old(self).kinds.len() as usize),
            final(self).kinds@ == old(self).kinds@.push(RelationshipKindInfo { id: r, type_id }),
            final(self).components@ == old(self).components@,
            final(self).dummy_infos@ == old(self).dummy_infos@,
    {
        let id = RelationshipKindId(self.kinds.len());
        self.kinds.push(RelationshipKindInfo { id, type_id });
        id
    }

    /// The relation kind created for a static-type token.
    pub fn get_relationship_kind(&self, type_id: u64) -> (r: Option<RelationshipKindId>)
        requires
            self.wf(),
        ensures
            r is Some <==> self.has_kind_token(type_id),
            r matches Some(k) ==> k.0 < self.kinds.len() && self.kinds[k.0 as int].type_id == Some(type_id),
    {
        let mut i: usize = 0;
        while i < self.kinds.len()
            invariant
                i <= self.kinds.len(),
                forall|j: int| 0 <= j < i ==> self.kinds[j].type_id != Some(type_id),
            decreases self.kinds.len() - i,
        {
            if self.kinds[i].type_id == Some(type_id) {
                return Some(RelationshipKindId(i));
            }
            i = i + 1;
        }
        None
    }

    /// Creates a data kind. A static-type token may name at most one data kind.
    pub fn new_component_id(&mut self, type_id: Option<u64>) -> (r: DummyId)
        requires
            old(self).wf(),
            type_id matches Some(t) ==> !old(self).has_data_token(t),
        ensures
            final(self).wf(),
            final(self).extends(old(self)),
            r == DummyId(old(self).dummy_infos.len() as usize),
            final(self).dummy_infos@ == old(self).dummy_infos@.push(DummyIdInfo { static_type: type_id, id: r }),
            final(self).components@ == old(self).components@,
            final(self).kinds@ == old(self).kinds@,
    {
        let id = DummyId(self.dummy_infos.len());
        self.dummy_infos.push(DummyIdInfo { static_type: type_id, id });
        id
    }

    /// The data kind created for a static-type token.
    pub fn type_id_to_component_id(&self, type_id: u64) -> (r: Option<DummyId>)
        requires
            self.wf(),
        ensures
            r is Some <==> self.has_data_token(type_id),
            r matches Some(d) ==> d.0 < self.dummy_infos.len() && self.dummy_infos[d.0 as int].static_type == Some(type_id),
    {
        let mut i: usize = 0;
        while i < self.dummy_infos.len()
            invariant
                i <= self.dummy_infos.len(),
                forall|j: int| 0 <= j < i ==> self.dummy_infos[j].static_type != Some(type_id),
            decreases self.dummy_infos.len() - i,
        {
            if self.dummy_infos[i].static_type == Some(type_id) {
                return Some(DummyId(i));
            }
            i = i + 1;
        }
        None
    }

    /// The slot kind registered for a relationship.
    pub fn get_relationship_id(&self, relationship: Relationship) -> (r: Option<ComponentId>)
        requires
            self.wf(),
        ensures
            r is Some <==> self.is_registered(relationship),
            r matches Some(id) ==> id.0 < self.components.len()
                && self.components[id.0 as int].relationship == relationship,
    {
        let mut i: usize = 0;
        while i < self.components.len()
            invariant
                i <= self.components.len(),
                forall|j: int| 0 <= j < i ==> self.components[j].relationship != relationship,
            decreases self.components.len() - i,
        {
            if self.components[i].relationship == relationship {
                return Some(ComponentId(i));
            }
            i = i + 1;
        }
        None
    }

    pub fn get_relationship_info(&self, id: ComponentId) -> (r: Option<&ComponentInfo>)
        ensures
            r is Some <==> self.contains_id(id),
            r matches Some(info) ==> info == &self.components[id.0 as int],
    {
        if id.0 < self.components.len() {
            Some(&self.components[id.0])
        } else {
            None
        }
    }

    /// Registers a relationship that has no slot kind yet.
    pub fn register_relationship(
        &mut self,
        relationship: Relationship,
        descriptor: ComponentDescriptor,
    ) -> (r: Result<ComponentId, ComponentsError>)
        requires
            old(self).wf(),
        ensures
            final(self).wf(),
            final(self).extends(old(self)),
            r is Err <==> old(self).is_registered(relationship),
            r is Err ==> *final(self) == *old(self),
            r matches Ok(id) ==> id.0 == old(self).components.len()
                && final(self).components.len() == old(self).components.len() + 1
                && final(self).components[id.0 as int].relationship == relationship
                && final(self).components[id.0 as int].data == descriptor,
            final(self).kinds@ == old(self).kinds@,
            final(self).dummy_infos@ == old(self).dummy_infos@,
    {
        match self.get_relationship_id(relationship) {
            Some(_) => Err(ComponentsError::ComponentAlreadyExists(relationship)),
            None => {
                let id = ComponentId(self.components.len());
                self.components.push(ComponentInfo { id, relationship, data: descriptor });
                Ok(id)
            },
        }
    }

    /// The slot kind of a relationship, registered with `descriptor` when it has none yet.
    pub fn get_relationship_info_or_insert_with(
        &mut self,
        relationship: Relationship,
        descriptor: ComponentDescriptor,
    ) -> (r: ComponentId)
        requires
            old(self).wf(),
        ensures
            final(self).wf(),
            final(self).extends(old(self)),
            r.0 < final(self).components.len(),
            final(self).components[r.0 as int].relationship == relationship,
            old(self).is_registered(relationship) ==> *final(self) == *old(self),
            !old(self).is_registered(relationship) ==> r.0 == old(self).components.len()
                && final(self).components.len() == old(self).components.len() + 1
                && final(self).components[r.0 as int].data == descriptor,
            final(self).kinds@ == old(self).kinds@,
            final(self).dummy_infos@ == old(self).dummy_infos@,
    {
        match self.get_relationship_id(relationship) {
            Some(id) => id,
            None => {
                let id = ComponentId(self.components.len());
                self.components.push(ComponentInfo { id, relationship, data: descriptor });
                id
            },
        }
    }

    /// The data kind of a static-type token, created when there is none yet.
    fn data_kind_or_insert(&mut self, type_id: u64) -> (r: DummyId)
        requires
            old(self).wf(),
        ensures
            final(self).wf(),
            final(self).extends(old(self)),
            r.0 < final(self).dummy_infos.len(),
            final(self).dummy_infos[r.0 as int].static_type == Some(type_id),
            final(self).components@ == old(self).components@,
            final(self).kinds@ == old(self).kinds@,
    {
        match self.type_id_to_component_id(type_id) {
            Some(id) => id,
            None => self.new_component_id(Some(type_id)),
        }
    }

    /// The slot kind of the plain component whose static-type token is `type_id`, registered
    /// with `descriptor` when it has none yet.
    pub fn get_component_info_or_insert(
        &mut self,
        type_id: u64,
        descriptor: ComponentDescriptor,
    ) -> (r: ComponentId)
        requires
            old(self).wf(),
        ensures
            final(self).wf(),
            final(self).extends(old(self)),
            final(self).is_component_of(r, RelationshipKindId(0), type_id),
            final(self).kinds@ == old(self).kinds@,
    {
        let d = self.data_kind_or_insert(type_id);
        let rel = Relationship { kind: RelationshipKindId(0), target: DummyIdOrEntity::DummyId(d) };
        self.get_relationship_info_or_insert_with(rel, descriptor)
    }

    /// The slot kind of the resource whose static-type token is `type_id`, registered with
    /// `descriptor` when it has none yet.
    pub fn get_resource_info_or_insert(
        &mut self,
        type_id: u64,
        descriptor: ComponentDescriptor,
    ) -> (r: ComponentId)
        requires
            old(self).wf(),
        ensures
            final(self).wf(),
            final(self).extends(old(self)),
            final(self).is_component_of(r, RelationshipKindId(1), type_id),
            final(self).kinds@ == old(self).kinds@,
    {
        let d = self.data_kind_or_insert(type_id);
        let rel = Relationship { kind: RelationshipKindId(1), target: DummyIdOrEntity::DummyId(d) };
        self.get_relationship_info_or_insert_with(rel, descriptor)
    }

    /// `id` is the slot kind of relation kind `kind` over the data kind of token `type_id`.
    pub open spec fn is_component_of(&self, id: ComponentId, kind: RelationshipKindId, type_id: u64) -> bool {
        &&& id.0 < self.components.len()
        &&& self.components[id.0 as int].relationship.kind == kind
        &&& self.components[id.0 as int].relationship.target matches DummyIdOrEntity::DummyId(d)
        &&& d.0 < self.dummy_infos.len()
        &&& self.dummy_infos[d.0 as int].static_type == Some(type_id)
    }

    /// The slot kind of a relation role over the data kind of `type_id`: the kind under which
    /// the role's values are stored, each slot with its own target entity.
    pub fn get_relation_info_or_insert(
        &mut self,
        kind: RelationshipKindId,
        type_id: u64,
        descriptor: ComponentDescriptor,
    ) -> (r: ComponentId)
        requires
            old(self).wf(),
        ensures
            final(self).wf(),
            final(self).extends(old(self)),
            final(self).is_component_of(r, kind, type_id),
            final(self).kinds@ == old(self).kinds@,
    {
        let d = self.data_kind_or_insert(type_id);
        let rel = Relationship { kind, target: DummyIdOrEntity::DummyId(d) };
        self.get_relationship_info_or_insert_with(rel, descriptor)
    }

    fn get_id_of(&self, kind: RelationshipKindId, type_id: u64) -> (r: Option<ComponentId>)
        requires
            self.wf(),
        ensures
            r matches Some(id) ==> self.is_component_of(id, kind, type_id),
            r is None ==> forall|id: ComponentId| !self.is_component_of(id, kind, type_id),
    {
        match self.type_id_to_component_id(type_id) {
            None => None,
            Some(d) => {
                let r = self.get_relationship_id(Relationship { kind, target: DummyIdOrEntity::DummyId(d) });
                proof {
                    if r is None {
                        assert forall|id: ComponentId| !self.is_component_of(id, kind, type_id) by {
                            if self.is_component_of(id, kind, type_id) {
                                let c = self.components[id.0 as int];
                                let d2 = c.relationship.target->DummyId_0;
                                assert(d2.0 == d.0);
                            }
                        }
                    }
                }
                r
            },
        }
    }

    /// The slot kind of the plain component of token `type_id`, if registered.
    pub fn get_component_id(&self, type_id: u64) -> (r: Option<ComponentId>)
        requires
            self.wf(),
        ensures
            r matches Some(id) ==> self.is_component_of(id, RelationshipKindId(0), type_id),
            r is None ==> forall|id: ComponentId| !self.is_component_of(id, RelationshipKindId(0), type_id),
    {
        self.get_id_of(RelationshipKindId(0), type_id)
    }

    /// The slot kind of the resource of token `type_id`, if registered.
    pub fn get_resource_id(&self, type_id: u64) -> (r: Option<ComponentId>)
        requires
            self.wf(),
        ensures
            r matches Some(id) ==> self.is_component_of(id, RelationshipKindId(1), type_id),
            r is None ==> forall|id: ComponentId| !self.is_component_of(id, RelationshipKindId(1), type_id),
    {
        self.get_id_of(RelationshipKindId(1), type_id)
    }

    /// One token and one relation kind name at most one slot kind.
    pub proof fn lemma_component_of_unique(&self, c1: ComponentId, c2: ComponentId, kind: RelationshipKindId, type_id: u64)
        requires
            self.wf(),
            self.is_component_of(c1, kind, type_id),
            self.is_component_of(c2, kind, type_id),
        ensures
            c1 == c2,
    {
        let d1 = self.components[c1.0 as int].relationship.target->DummyId_0;
        let d2 = self.components[c2.0 as int].relationship.target->DummyId_0;
        assert(d1 == d2);
    }

    pub fn len(&self) -> (r: usize)
        ensures
            r == self.components.len(),
    {
        self.components.len()
    }

    pub fn is_empty(&self) -> (r: bool)
        ensures
            r == (self.components.len() == 0),
    {
        self.components.len() == 0
    }
}

} // verus!
