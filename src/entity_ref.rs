use vstd::prelude::*;

use crate::bundle::BundleId;
use crate::component::ComponentId;
use crate::entity::{Entity, EntityLocation};
use crate::table::Slot;
use crate::world::World;

verus! {

/// Read access to one entity of a world.
pub struct EntityRef<'w> {
    pub world: &'w World,
    pub entity: Entity,
    pub location: EntityLocation,
}

impl<'w> EntityRef<'w> {
    pub fn new(world: &'w World, entity: Entity, location: EntityLocation) -> (r: EntityRef<'w>)
        ensures
            r.world == world,
            r.entity == entity,
            r.location == location,
    {
        EntityRef { world, entity, location }
    }

    pub fn id(&self) -> (r: Entity)
        ensures
            r == self.entity,
    {
        self.entity
    }

    pub fn location(&self) -> (r: EntityLocation)
        ensures
            r == self.location,
    {
        self.location
    }

    pub fn world(&self) -> (r: &World)
        ensures
            r == self.world,
    {
        self.world
    }

    /// Whether the entity has slot `(kind, target)`.
    pub fn contains_id(&self, kind: ComponentId, target: Option<Entity>) -> (r: bool)
        requires
            self.world.wf(),
        ensures
            r == self.world.has(self.entity, Slot { kind, target }),
    {
        self.world.contains(self.entity, kind, target)
    }

    /// Whether the entity has the plain component of static-type token `type_id`.
    pub fn contains_type_id(&self, type_id: u64) -> (r: bool)
        requires
            self.world.wf(),
        ensures
            r == exists|c: ComponentId| self.world.components.is_component_of(c, crate::component::RelationshipKindId(0), type_id)
                && self.world.has(self.entity, Slot { kind: c, target: None }),
    {
        contains_component_with_type(self.world, self.entity, type_id)
    }

    /// Whether the entity has relation slot `(kind, Some(target))`.
    pub fn contains_relation(&self, kind: ComponentId, target: Entity) -> (r: bool)
        requires
            self.world.wf(),
        ensures
            r == self.world.has(self.entity, Slot { kind, target: Some(target) }),
    {
        self.world.contains(self.entity, kind, Some(target))
    }

    /// The value of slot `(kind, target)`, if the entity has it.
    pub fn get(&self, kind: ComponentId, target: Option<Entity>) -> (r: Option<&'w Vec<u8>>)
        requires
            self.world.wf(),
        ensures
            r is Some <==> self.world.has(self.entity, Slot { kind, target }),
            r matches Some(v) ==> *v == self.world.value_of(self.entity, Slot { kind, target }),
    {
        self.world.get(self.entity, kind, target)
    }

    /// Whether the entity has the plain component of static-type token `type_id`.
    pub fn contains(&self, type_id: u64) -> (r: bool)
        requires
            self.world.wf(),
        ensures
            r == exists|c: ComponentId| self.world.components.is_component_of(c, crate::component::RelationshipKindId(0), type_id)
                && self.world.has(self.entity, Slot { kind: c, target: None }),
    {
        contains_component_with_type(self.world, self.entity, type_id)
    }

    /// The value of relation slot `(kind, Some(target))`, if the entity has it.
    pub fn get_relation(&self, kind: ComponentId, target: Entity) -> (r: Option<&'w Vec<u8>>)
        requires
            self.world.wf(),
        ensures
            r is Some <==> self.world.has(self.entity, Slot { kind, target: Some(target) }),
            r matches Some(v) ==> *v == self.world.value_of(self.entity, Slot { kind, target: Some(target) }),
    {
        self.world.get(self.entity, kind, Some(target))
    }

    /// The archetype the entity stands in.
    pub fn archetype(&self) -> (r: &'w crate::archetype::Archetype)
        requires
            self.world.wf(),
            self.world.entities.is_live(self.entity),
            self.location == self.world.entities.location_of(self.entity),
        ensures
            *r == self.world.archetypes.archetypes[self.location.archetype_id.0 as int],
    {
        proof { self.world.lemma_location_round_trip(self.entity); }
        &self.world.archetypes.archetypes[self.location.archetype_id.0]
    }
}

/// Whether live entity `e` has the plain component of static-type token `type_id`.
pub fn contains_component_with_type(world: &World, e: Entity, type_id: u64) -> (r: bool)
    requires
        world.wf(),
    ensures
        r == exists|c: ComponentId| world.components.is_component_of(c, crate::component::RelationshipKindId(0), type_id)
            && world.has(e, Slot { kind: c, target: None }),
{
    proof { world.lemma_registry_wf(); }
    match world.components.get_component_id(type_id) {
        Some(c) => {
            let r = world.contains(e, c, None);
            proof {
                if !r {
                    assert forall|c2: ComponentId| !(world.components.is_component_of(c2, crate::component::RelationshipKindId(0), type_id)
                        && world.has(e, Slot { kind: c2, target: None })) by {
                        if world.components.is_component_of(c2, crate::component::RelationshipKindId(0), type_id) {
                            world.components.lemma_component_of_unique(c, c2, crate::component::RelationshipKindId(0), type_id);
                        }
                    }
                }
            }
            r
        },
        None => false,
    }
}

/// Whether live entity `e` has slot `(kind, target)`.
pub fn contains_entity_data_with_id(world: &World, e: Entity, kind: ComponentId, target: Option<Entity>) -> (r: bool)
    requires
        world.wf(),
    ensures
        r == world.has(e, Slot { kind, target }),
{
    world.contains(e, kind, target)
}

/// Write access to one entity; the world is handed to each call.
pub struct EntityMut {
    pub entity: Entity,
    pub location: EntityLocation,
}

impl EntityMut {
    pub fn id(&self) -> (r: Entity)
        ensures
            r == self.entity,
    {
        self.entity
    }

    pub fn location(&self) -> (r: EntityLocation)
        ensures
            r == self.location,
    {
        self.location
    }

    pub fn contains_id(&self, world: &World, kind: ComponentId, target: Option<Entity>) -> (r: bool)
        requires
            world.wf(),
        ensures
            r == world.has(self.entity, Slot { kind, target }),
    {
        world.contains(self.entity, kind, target)
    }

    /// Adds the values of bundle `b` (see `World::insert_bundle`) and follows the entity.
    pub fn insert(&mut self, world: &mut World, b: BundleId, values: Vec<Vec<u8>>) -> (ok: bool)
        requires
            old(world).wf(),
        ensures
            final(world).wf(),
            ok == old(world).can_insert(old(self).entity, b, values.len() as nat),
            final(self).entity == old(self).entity,
            ok ==> final(self).location == final(world).entities.location_of(old(self).entity),
            ok ==> final(world).inserted(old(world), old(self).entity, b),
            ok ==> final(world).others_keep_slots(old(world), old(self).entity),
            ok ==> final(world).source_row_drained(old(world), old(self).entity),
            ok ==> forall|k: int| 0 <= k < values.len() ==>
                final(world).value_of(old(self).entity, #[trigger] old(world).bundles.info(b).relation_ids[k]) == values@[k],
            ok ==> forall|k: int| 0 <= k < values.len() ==>
                final(world).ticks_of(old(self).entity, #[trigger] old(world).bundles.info(b).relation_ids[k]).changed == old(world).change_tick,
            !ok ==> *final(world) == *old(world),
    {
        let ok = world.insert_bundle(self.entity, b, values);
        if ok {
            self.update_location(world);
        }
        ok
    }

    /// Takes the values of bundle `b` off the entity (see `World::remove_bundle`).
    pub fn remove(&mut self, world: &mut World, b: BundleId) -> (r: Option<Vec<Vec<u8>>>)
        requires
            old(world).wf(),
        ensures
            final(world).wf(),
            r is Some <==> old(world).can_remove(old(self).entity, b),
            final(self).entity == old(self).entity,
            r is Some ==> final(self).location == final(world).entities.location_of(old(self).entity),
            r is None ==> final(world).grows_from(old(world)),
            r matches Some(vs) ==> {
                &&& final(world).removed(old(world), old(self).entity, b)
                &&& final(world).others_keep_slots(old(world), old(self).entity)
                &&& vs.len() == old(world).bundles.info(b).relation_ids.len()
                &&& forall|k: int| 0 <= k < vs.len() ==> (#[trigger] vs@[k])@
                    == old(world).value_of(old(self).entity, old(world).bundles.info(b).relation_ids[k])@
                &&& final(world).removed_components@ == old(world).removed_components@
                    + crate::world::removal_log(old(world).bundles.info(b).relation_ids@, old(self).entity)
            },
    {
        let r = world.remove_bundle(self.entity, b);
        if r.is_some() {
            self.update_location(world);
        }
        r
    }

    /// Whether the entity has relation slot `(kind, Some(target))`.
    pub fn contains_relation(&self, world: &World, kind: ComponentId, target: Entity) -> (r: bool)
        requires
            world.wf(),
        ensures
            r == world.has(self.entity, Slot { kind, target: Some(target) }),
    {
        world.contains(self.entity, kind, Some(target))
    }

    /// Whether the entity has the plain component of static-type token `type_id`.
    pub fn contains_type_id(&self, world: &World, type_id: u64) -> (r: bool)
        requires
            world.wf(),
        ensures
            r == exists|c: ComponentId| world.components.is_component_of(c, crate::component::RelationshipKindId(0), type_id)
                && world.has(self.entity, Slot { kind: c, target: None }),
    {
        contains_component_with_type(world, self.entity, type_id)
    }

    /// The value of slot `(kind, target)`, if the entity has it.
    pub fn get<'a>(&self, world: &'a World, kind: ComponentId, target: Option<Entity>) -> (r: Option<&'a Vec<u8>>)
        requires
            world.wf(),
        ensures
            r is Some <==> world.has(self.entity, Slot { kind, target }),
            r matches Some(v) ==> *v == world.value_of(self.entity, Slot { kind, target }),
    {
        world.get(self.entity, kind, target)
    }

    /// Whether the entity has the plain component of static-type token `type_id`.
    pub fn contains(&self, world: &World, type_id: u64) -> (r: bool)
        requires
            world.wf(),
        ensures
            r == exists|c: ComponentId| world.components.is_component_of(c, crate::component::RelationshipKindId(0), type_id)
                && world.has(self.entity, Slot { kind: c, target: None }),
    {
        contains_component_with_type(world, self.entity, type_id)
    }

    /// The value of relation slot `(kind, Some(target))`, if the entity has it.
    pub fn get_relation<'a>(&self, world: &'a World, kind: ComponentId, target: Entity) -> (r: Option<&'a Vec<u8>>)
        requires
            world.wf(),
        ensures
            r is Some <==> world.has(self.entity, Slot { kind, target: Some(target) }),
            r matches Some(v) ==> *v == world.value_of(self.entity, Slot { kind, target: Some(target) }),
    {
        world.get(self.entity, kind, Some(target))
    }

    /// The archetype the entity stands in.
    pub fn archetype<'a>(&self, world: &'a World) -> (r: &'a crate::archetype::Archetype)
        requires
            world.wf(),
            world.entities.is_live(self.entity),
            self.location == world.entities.location_of(self.entity),
        ensures
            *r == world.archetypes.archetypes[self.location.archetype_id.0 as int],
    {
        proof { world.lemma_location_round_trip(self.entity); }
        &world.archetypes.archetypes[self.location.archetype_id.0]
    }

    /// Overwrites one value of the entity and stamps it as changed (see `World::replace_value`).
    pub fn replace_value(&self, world: &mut World, kind: ComponentId, target: Option<Entity>, value: Vec<u8>) -> (ok: bool)
        requires
            old(world).wf(),
        ensures
            final(world).wf(),
            ok == old(world).has(self.entity, Slot { kind, target }),
            ok ==> final(world).value_of(self.entity, Slot { kind, target }) == value,
            ok ==> final(world).ticks_of(self.entity, Slot { kind, target }) == (crate::component::ComponentTicks {
                added: old(world).ticks_of(self.entity, Slot { kind, target }).added, changed: old(world).change_tick }),
            ok ==> final(world).keeps_other_slots(old(world), self.entity, Slot { kind, target }),
            !ok ==> *final(world) == *old(world),
    {
        world.replace_value(self.entity, kind, target, value)
    }

    /// Destroys the entity (see `World::despawn`).
    pub fn despawn(self, world: &mut World) -> (r: bool)
        requires
            old(world).wf(),
        ensures
            final(world).wf(),
            r == old(world).entities.is_live(self.entity),
            !final(world).entities.is_live(self.entity),
            !r ==> *final(world) == *old(world),
            r ==> forall|s: Slot| !#[trigger] final(world).has(self.entity, s),
            r ==> final(world).others_keep_slots(old(world), self.entity),
            r ==> final(world).others_keep_values(old(world), self.entity),
            r ==> final(world).removed_components@ == old(world).removed_components@ + crate::world::removal_log(
                old(world).archetypes.archetypes[old(world).entities.location_of(self.entity).archetype_id.0 as int].table_components@
                    + old(world).archetypes.archetypes[old(world).entities.location_of(self.entity).archetype_id.0 as int].sparse_set_components@,
                self.entity,
            ),
            r && self.entity.generation < u32::MAX ==> final(world).entities.is_stale(self.entity),
    {
        world.despawn(self.entity)
    }

    /// Reads the entity's location from the world again.
    pub fn update_location(&mut self, world: &World)
        requires
            world.entities.is_live(old(self).entity),
        ensures
            final(self).entity == old(self).entity,
            final(self).location == world.entities.location_of(old(self).entity),
    {
        match world.entities.get(self.entity) {
            Some(l) => { self.location = l; },
            None => {},
        }
    }
}

} // verus!
