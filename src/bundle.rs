use vstd::prelude::*;

use crate::component::{ComponentDescriptor, ComponentId, Components, DummyIdOrEntity, RelationshipKindId, StorageType};
use crate::entity::Entity;
use crate::table::{slot_eq, slots_distinct, Slot};

verus! {

/// Index of a bundle description in the bundle registry.
#[derive(Debug, Clone, Copy, PartialEq, Eq, Structural)]
pub struct BundleId(pub usize);

impl BundleId {
    pub fn index(self) -> (r: usize)
        ensures
            r == self.0,
    {
        self.0
    }
}

/// An ordered group of slots inserted or removed together, with the storage class of each.
/// Values are handed over in this same order.
pub struct BundleInfo {
    pub id: BundleId,
    pub relation_ids: Vec<Slot>,
    pub storage_types: Vec<StorageType>,
}

impl BundleInfo {
    /// Each slot is registered, its storage class is recorded, and no slot repeats.
    pub open spec fn wf(&self, components: &Components) -> bool {
        &&& self.storage_types.len() == self.relation_ids.len()
        &&& slots_distinct(self.relation_ids@)
        &&& forall|k: int| 0 <= k < self.relation_ids.len() ==> {
            &&& components.contains_id((#[trigger] self.relation_ids[k]).kind)
            &&& self.storage_types[k] == components.storage_type_of(self.relation_ids[k].kind)
        }
    }

    pub fn id(&self) -> (r: BundleId)
        ensures
            r == self.id,
    {
        self.id
    }

    pub fn components(&self) -> (r: &Vec<Slot>)
        ensures
            r == &self.relation_ids,
    {
        &self.relation_ids
    }

    pub fn storage_types(&self) -> (r: &Vec<StorageType>)
        ensures
            r == &self.storage_types,
    {
        &self.storage_types
    }
}

/// The static-type tokens of the descriptors are present and pairwise distinct.
pub open spec fn tokens_distinct(type_info: Seq<ComponentDescriptor>) -> bool {
    &&& forall|k: int| 0 <= k < type_info.len() ==> (#[trigger] type_info[k]).type_id is Some
    &&& forall|k: int, l: int| 0 <= k < type_info.len() && 0 <= l < type_info.len() && k != l
            ==> (#[trigger] type_info[k]).type_id != (#[trigger] type_info[l]).type_id
}

/// Registry of bundle descriptions: static bundles keyed by a type token, relation bundles keyed
/// by their one slot.
pub struct Bundles {
    pub bundle_infos: Vec<BundleInfo>,
    pub bundle_ids: Vec<(u64, BundleId)>,
    pub relation_bundle_ids: Vec<(Slot, BundleId)>,
}

impl Bundles {
    pub open spec fn wf(&self, components: &Components) -> bool {
        &&& forall|i: int| 0 <= i < self.bundle_infos.len() ==> (#[trigger] self.bundle_infos[i]).wf(components)
                && self.bundle_infos[i].id == BundleId(i as usize)
        &&& forall|k: int| 0 <= k < self.bundle_ids.len() ==> (#[trigger] self.bundle_ids[k]).1.0 < self.bundle_infos.len()
        &&& forall|k: int| 0 <= k < self.relation_bundle_ids.len() ==> {
            &&& (#[trigger] self.relation_bundle_ids[k]).1.0 < self.bundle_infos.len()
            &&& self.bundle_infos[self.relation_bundle_ids[k].1.0 as int].relation_ids@ == seq![self.relation_bundle_ids[k].0]
        }
        &&& forall|k: int, l: int| 0 <= k < self.bundle_ids.len() && 0 <= l < self.bundle_ids.len() && k != l
                ==> (#[trigger] self.bundle_ids[k]).0 != (#[trigger] self.bundle_ids[l]).0
        &&& forall|k: int, l: int| 0 <= k < self.relation_bundle_ids.len() && 0 <= l < self.relation_bundle_ids.len() && k != l
                ==> (#[trigger] self.relation_bundle_ids[k]).0 != (#[trigger] self.relation_bundle_ids[l]).0
    }

    /// The bundle recorded for static-type token `t`.
    pub open spec fn records_token(&self, t: u64, id: BundleId) -> bool {
        exists|k: int| 0 <= k < self.bundle_ids.len() && #[trigger] self.bundle_ids[k] == (t, id)
    }

    /// The bundle recorded for relation slot `s`.
    pub open spec fn records_slot(&self, s: Slot, id: BundleId) -> bool {
        exists|k: int| 0 <= k < self.relation_bundle_ids.len() && #[trigger] self.relation_bundle_ids[k] == (s, id)
    }

    pub open spec fn contains_id(&self, id: BundleId) -> bool {
        id.0 < self.bundle_infos.len()
    }

    pub open spec fn info(&self, id: BundleId) -> BundleInfo {
        self.bundle_infos[id.0 as int]
    }

    /// Every bundle registered in `old` is still there, unchanged.
    pub open spec fn extends(&self, old: &Bundles) -> bool {
        &&& self.bundle_infos.len() >= old.bundle_infos.len()
        &&& forall|i: int| 0 <= i < old.bundle_infos.len() ==> #[trigger] self.bundle_infos[i] == old.bundle_infos[i]
    }

    pub fn new() -> (r: Bundles)
        ensures
            forall|c: Components| r.wf(&c),
            r.bundle_infos.len() == 0,
            r.bundle_ids.len() == 0,
            r.relation_bundle_ids.len() == 0,
    {
        Bundles { bundle_infos: Vec::new(), bundle_ids: Vec::new(), relation_bundle_ids: Vec::new() }
    }

    pub fn get(&self, bundle_id: BundleId) -> (r: Option<&BundleInfo>)
        ensures
            r is Some <==> self.contains_id(bundle_id),
            r matches Some(info) ==> *info == self.info(bundle_id),
    {
        if bundle_id.0 < self.bundle_infos.len() {
            Some(&self.bundle_infos[bundle_id.0])
        } else {
            None
        }
    }

    /// The bundle registered for a static-type token.
    pub fn get_id(&self, type_id: u64) -> (r: Option<BundleId>)
        requires
            exists|c: Components| self.wf(&c),
        ensures
            r is Some <==> exists|k: int| 0 <= k < self.bundle_ids.len() && (#[trigger] self.bundle_ids[k]).0 == type_id,
            r matches Some(id) ==> self.contains_id(id) && self.records_token(type_id, id),
    {
        let mut i: usize = 0;
        while i < self.bundle_ids.len()
            invariant
                i <= self.bundle_ids.len(),
                exists|c: Components| self.wf(&c),
                forall|j: int| 0 <= j < i ==> self.bundle_ids[j].0 != type_id,
            decreases self.bundle_ids.len() - i,
        {
            if self.bundle_ids[i].0 == type_id {
                assert(self.bundle_ids[i as int].0 == type_id);
                assert(self.bundle_ids[i as int] == (type_id, self.bundle_ids[i as int].1));
                return Some(self.bundle_ids[i].1);
            }
            i = i + 1;
        }
        None
    }

    /// The single-slot bundle of a relation slot, if registered.
    pub fn get_relation_bundle_id(&self, kind: ComponentId, target: Option<Entity>) -> (r: Option<BundleId>)
        requires
            exists|c: Components| self.wf(&c),
        ensures
            r is Some <==> exists|k: int| 0 <= k < self.relation_bundle_ids.len() && (#[trigger] self.relation_bundle_ids[k]).0 == (Slot { kind, target }),
            r matches Some(id) ==> self.contains_id(id) && self.info(id).relation_ids@ == seq![Slot { kind, target }]
                && self.records_slot(Slot { kind, target }, id),
    {
        let s = Slot { kind, target };
        let mut i: usize = 0;
        while i < self.relation_bundle_ids.len()
            invariant
                i <= self.relation_bundle_ids.len(),
                s == (Slot { kind, target }),
                exists|c: Components| self.wf(&c),
                forall|j: int| 0 <= j < i ==> self.relation_bundle_ids[j].0 != s,
            decreases self.relation_bundle_ids.len() - i,
        {
            if slot_eq(&self.relation_bundle_ids[i].0, &s) {
                assert(self.relation_bundle_ids[i as int].0 == s);
                assert(self.relation_bundle_ids[i as int] == (s, self.relation_bundle_ids[i as int].1));
                return Some(self.relation_bundle_ids[i].1);
            }
            i = i + 1;
        }
        None
    }

    /// The single-slot bundle of a relation slot, created on first use.
    pub fn init_relation_info(&mut self, kind: ComponentId, target: Option<Entity>, components: &Components) -> (r: BundleId)
        requires
            old(self).wf(components),
            components.wf(),
            components.contains_id(kind),
        ensures
            final(self).wf(components),
            final(self).extends(old(self)),
            final(self).contains_id(r),
            final(self).info(r).relation_ids@ == seq![Slot { kind, target }],
            final(self).records_slot(Slot { kind, target }, r),
            forall|id: BundleId| old(self).records_slot(Slot { kind, target }, id) ==> r == id && *final(self) == *old(self),
    {
        match self.get_relation_bundle_id(kind, target) {
            Some(id) => id,
            None => {
                let id = BundleId(self.bundle_infos.len());
                let mut relation_ids = Vec::new();
                relation_ids.push(Slot { kind, target });
                let mut storage_types = Vec::new();
                storage_types.push(components.components[kind.0].data.storage_type);
                self.bundle_infos.push(BundleInfo { id, relation_ids, storage_types });
                self.relation_bundle_ids.push((Slot { kind, target }, id));
                proof {
                    assert(self.relation_bundle_ids[self.relation_bundle_ids.len() - 1] == (Slot { kind, target }, id));
                    assert forall|k: int, l: int| 0 <= k < self.relation_bundle_ids.len() && 0 <= l < self.relation_bundle_ids.len() && k != l
                        implies (#[trigger] self.relation_bundle_ids[k]).0 != (#[trigger] self.relation_bundle_ids[l]).0 by {
                        let n = old(self).relation_bundle_ids.len() as int;
                        if k < n && l < n {
                            assert(old(self).relation_bundle_ids[k].0 != old(self).relation_bundle_ids[l].0);
                        } else if k < n {
                            assert(self.relation_bundle_ids[k] == old(self).relation_bundle_ids[k]);
                        } else {
                            assert(self.relation_bundle_ids[l] == old(self).relation_bundle_ids[l]);
                        }
                    }
                    assert(self.bundle_infos[id.0 as int].relation_ids@ =~= seq![Slot { kind, target }]);
                    assert forall|i: int| 0 <= i < self.bundle_infos.len() implies (#[trigger] self.bundle_infos[i]).wf(components)
                        && self.bundle_infos[i].id == BundleId(i as usize) by {
                        if i < old(self).bundle_infos.len() {
                            assert(self.bundle_infos[i] == old(self).bundle_infos[i]);
                        }
                    }
                    assert forall|k: int| 0 <= k < self.relation_bundle_ids.len() implies {
                        &&& (#[trigger] self.relation_bundle_ids[k]).1.0 < self.bundle_infos.len()
                        &&& self.bundle_infos[self.relation_bundle_ids[k].1.0 as int].relation_ids@ == seq![self.relation_bundle_ids[k].0]
                    } by {
                        if k < old(self).relation_bundle_ids.len() {
                            assert(self.relation_bundle_ids[k] == old(self).relation_bundle_ids[k]);
                        }
                    }
                }
                id
            },
        }
    }

    /// The bundle of a static-type token, created on first sight from the ordered descriptors of
    /// its components (each registered as a plain component kind).
    pub fn init_info(&mut self, type_id: u64, type_info: &Vec<ComponentDescriptor>, components: &mut Components) -> (r: BundleId)
        requires
            old(self).wf(old(components)),
            old(components).wf(),
            tokens_distinct(type_info@),
        ensures
            final(components).wf(),
            final(components).extends(old(components)),
            final(self).wf(final(components)),
            final(self).extends(old(self)),
            final(self).contains_id(r),
            final(self).records_token(type_id, r),
            forall|id: BundleId| old(self).records_token(type_id, id) ==> r == id && *final(self) == *old(self)
                && *final(components) == *old(components),
            final(self).bundle_infos.len() > old(self).bundle_infos.len() ==> {
                &&& final(self).info(r).relation_ids.len() == type_info.len()
                &&& forall|k: int| 0 <= k < type_info.len() ==> {
                    &&& (#[trigger] final(self).info(r).relation_ids[k]).target is None
                    &&& final(components).is_component_of(final(self).info(r).relation_ids[k].kind,
                        RelationshipKindId(0), type_info[k].type_id.unwrap())
                }
            },
    {
        match self.get_id(type_id) {
            Some(id) => {
                id
            },
            None => {
                let id = BundleId(self.bundle_infos.len());
                let info = initialize_bundle(type_info, id, components);
                self.bundle_infos.push(info);
                self.bundle_ids.push((type_id, id));
                proof {
                    assert forall|i: int| 0 <= i < self.bundle_infos.len() implies (#[trigger] self.bundle_infos[i]).wf(components)
                        && self.bundle_infos[i].id == BundleId(i as usize) by {
                        if i < old(self).bundle_infos.len() {
                            assert(self.bundle_infos[i] == old(self).bundle_infos[i]);
                            lemma_info_wf_extends(old(self).bundle_infos[i], old(components), components);
                        }
                    }
                    assert(self.bundle_ids[self.bundle_ids.len() - 1] == (type_id, id));
                    assert forall|k: int, l: int| 0 <= k < self.bundle_ids.len() && 0 <= l < self.bundle_ids.len() && k != l
                        implies (#[trigger] self.bundle_ids[k]).0 != (#[trigger] self.bundle_ids[l]).0 by {
                        let n = old(self).bundle_ids.len() as int;
                        if k < n && l < n {
                            assert(old(self).bundle_ids[k].0 != old(self).bundle_ids[l].0);
                        } else if k < n {
                            assert(self.bundle_ids[k] == old(self).bundle_ids[k]);
                        } else {
                            assert(self.bundle_ids[l] == old(self).bundle_ids[l]);
                        }
                    }
                    assert forall|k: int| 0 <= k < self.bundle_ids.len() implies (#[trigger] self.bundle_ids[k]).1.0 < self.bundle_infos.len() by {
                        if k < old(self).bundle_ids.len() {
                            assert(self.bundle_ids[k] == old(self).bundle_ids[k]);
                        }
                    }
                    assert forall|k: int| 0 <= k < self.relation_bundle_ids.len() implies {
                        &&& (#[trigger] self.relation_bundle_ids[k]).1.0 < self.bundle_infos.len()
                        &&& self.bundle_infos[self.relation_bundle_ids[k].1.0 as int].relation_ids@ == seq![self.relation_bundle_ids[k].0]
                    } by {
                        assert(self.relation_bundle_ids[k] == old(self).relation_bundle_ids[k]);
                    }
                }
                id
            },
        }
    }
}

pub proof fn lemma_info_wf_extends(info: BundleInfo, old: &Components, new: &Components)
    requires
        info.wf(old),
        new.extends(old),
    ensures
        info.wf(new),
{
    assert forall|k: int| 0 <= k < info.relation_ids.len() implies {
        &&& new.contains_id((#[trigger] info.relation_ids[k]).kind)
        &&& info.storage_types[k] == new.storage_type_of(info.relation_ids[k].kind)
    } by {
        assert(old.contains_id(info.relation_ids[k].kind));
        let c = info.relation_ids[k].kind.0 as int;
        assert(new.components[c].data.storage_type == old.components[c].data.storage_type);
    }
}

/// Registers each component of a static bundle, in order, and describes the bundle.
fn initialize_bundle(type_info: &Vec<ComponentDescriptor>, id: BundleId, components: &mut Components) -> (r: BundleInfo)
    requires
        old(components).wf(),
        tokens_distinct(type_info@),
    ensures
        final(components).wf(),
        final(components).extends(old(components)),
        r.wf(final(components)),
        r.id == id,
        r.relation_ids.len() == type_info.len(),
        forall|k: int| 0 <= k < type_info.len() ==> {
            &&& (#[trigger] r.relation_ids[k]).target is None
            &&& final(components).is_component_of(r.relation_ids[k].kind, RelationshipKindId(0), type_info[k].type_id.unwrap())
        },
{
    let mut component_ids: Vec<Slot> = Vec::new();
    let mut storage_types: Vec<StorageType> = Vec::new();
    let mut i: usize = 0;
    while i < type_info.len()
        invariant
            i <= type_info.len(),
            components.wf(),
            components.extends(old(components)),
            tokens_distinct(type_info@),
            component_ids.len() == i,
            storage_types.len() == i,
            forall|k: int| 0 <= k < i ==> {
                &&& (#[trigger] component_ids[k]).target is None
                &&& components.is_component_of(component_ids[k].kind, RelationshipKindId(0), type_info[k].type_id.unwrap())
                &&& storage_types[k] == components.storage_type_of(component_ids[k].kind)
            },
        decreases type_info.len() - i,
    {
        let d = &type_info[i];
        let token = match d.type_id {
            Some(t) => t,
            None => 0,
        };
        let ghost before = *components;
        let kind = components.get_component_info_or_insert(token, d.clone());
        let st = components.components[kind.0].data.storage_type;
        proof {
            assert forall|k: int| 0 <= k < i implies {
                &&& (#[trigger] component_ids[k]).target is None
                &&& components.is_component_of(component_ids[k].kind, RelationshipKindId(0), type_info[k].type_id.unwrap())
                &&& storage_types[k] == components.storage_type_of(component_ids[k].kind)
            } by {
                let c = component_ids[k].kind.0 as int;
                assert(before.is_component_of(component_ids[k].kind, RelationshipKindId(0), type_info[k].type_id.unwrap()));
                assert(components.components[c].relationship == before.components[c].relationship);
                let d2 = before.components[c].relationship.target->DummyId_0;
                assert(components.dummy_infos[d2.0 as int] == before.dummy_infos[d2.0 as int]);
            }
        }
        component_ids.push(Slot { kind, target: None });
        storage_types.push(st);
        i = i + 1;
    }
    proof {
        assert forall|k: int, l: int| 0 <= k < component_ids.len() && 0 <= l < component_ids.len() && k != l
            implies component_ids@[k] != component_ids@[l] by {
            if component_ids@[k] == component_ids@[l] {
                let c = component_ids[k].kind.0 as int;
                let dk = components.components[c].relationship.target->DummyId_0;
                assert(type_info[k].type_id != type_info[l].type_id);
            }
        }
    }
    BundleInfo { id, relation_ids: component_ids, storage_types }
}

} // verus!
