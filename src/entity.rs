use vstd::prelude::*;

use crate::archetype::ArchetypeId;

verus! {

/// A handle to a logical object: an index into the allocator plus the generation of that index
/// at the time the handle was issued.
#[derive(Debug, Clone, Copy, PartialEq, Eq, Hash, Structural)]
pub struct Entity {
    pub id: u32,
    pub generation: u32,
}

impl Entity {
    /// A handle for `id` at generation zero.
    pub fn new(id: u32) -> (r: Entity)
        ensures
            r.id == id,
            r.generation == 0,
    {
        Entity { id, generation: 0 }
    }

    pub fn id(&self) -> (r: u32)
        ensures
            r == self.id,
    {
        self.id
    }

    pub fn generation(&self) -> (r: u32)
        ensures
            r == self.generation,
    {
        self.generation
    }
}

/// Where an entity lives: its archetype and its position in that archetype's entity list.
#[derive(Debug, Clone, Copy, PartialEq, Eq, Structural)]
pub struct EntityLocation {
    pub archetype_id: ArchetypeId,
    pub index: usize,
}

/// Allocator state of one id: the generation currently issued for it, and where the entity
/// stands while it is alive (`None` once freed).
#[derive(Debug, Clone, Copy)]
pub struct EntityMeta {
    pub generation: u32,
    pub location: Option<EntityLocation>,
}

/// Generational entity allocator with free-list reuse and a location index.
pub struct Entities {
    pub meta: Vec<EntityMeta>,
    pub free_list: Vec<u32>,
}

impl Entities {
    pub open spec fn wf(&self) -> bool {
        &&& self.meta.len() <= u32::MAX
        &&& forall|k: int|
            0 <= k < self.free_list.len() ==> {
                &&& (#[trigger] self.free_list[k]) < self.meta.len()
                &&& self.meta[self.free_list[k] as int].location is None
            }
        &&& forall|k: int, l: int|
            0 <= k < self.free_list.len() && 0 <= l < self.free_list.len() && k != l
                ==> self.free_list[k] != self.free_list[l]
    }

    /// `e` is the handle currently issued for its id, and that id is in use.
    pub open spec fn is_live(&self, e: Entity) -> bool {
        &&& e.id < self.meta.len()
        &&& self.meta[e.id as int].generation == e.generation
        &&& self.meta[e.id as int].location is Some
    }

    /// `e` was issued for its id once, and that id has since been freed: no operation will ever
    /// accept it again.
    pub open spec fn is_stale(&self, e: Entity) -> bool {
        e.id < self.meta.len() && e.generation < self.meta[e.id as int].generation
    }

    pub open spec fn location_of(&self, e: Entity) -> EntityLocation {
        self.meta[e.id as int].location.unwrap()
    }

    /// An id can still be handed out: one is waiting on the free list or the id space is not
    /// exhausted.
    pub open spec fn can_allocate(&self) -> bool {
        self.free_list.len() > 0 || self.meta.len() < u32::MAX
    }

    pub fn new() -> (r: Entities)
        ensures
            r.wf(),
            r.meta@.len() == 0,
            r.free_list@.len() == 0,
    {
        Entities { meta: Vec::new(), free_list: Vec::new() }
    }

    /// Issues a handle whose entity stands at `location`. Reuses the most recently freed id when
    /// there is one; the reused id carries the generation that its freeing set.
    pub fn allocate(&mut self, location: EntityLocation) -> (r: Option<Entity>)
        requires
            old(self).wf(),
        ensures
            final(self).wf(),
            r is Some <==> old(self).can_allocate(),
            r is None ==> *final(self) == *old(self),
            r matches Some(e) ==> {
                &&& (old(self).free_list.len() > 0 ==> e.id == old(self).free_list@.last()
                    && final(self).free_list@ == old(self).free_list@.drop_last())
                &&& (old(self).free_list.len() == 0 ==> e.id == old(self).meta.len() && e.generation == 0
                    && final(self).free_list@ == old(self).free_list@)
                &&& forall|x: Entity| #[trigger] final(self).is_live(x) <==> old(self).is_live(x) || x == e
                &&& forall|x: Entity| old(self).is_stale(x) ==> #[trigger] final(self).is_stale(x)
                &&& !old(self).is_live(e)
                &&& !old(self).is_stale(e)
                &&& final(self).is_live(e)
                &&& final(self).location_of(e) == location
                &&& (final(self).meta@.len() == old(self).meta@.len() || (final(self).meta@.len()
                    == old(self).meta@.len() + 1 && e.id == old(self).meta@.len()))
                &&& (e.id < old(self).meta@.len() ==> old(self).meta[e.id as int].location is None)
                &&& forall|i: int|
                    0 <= i < old(self).meta@.len() && i != e.id ==> final(self).meta[i]
                        == old(self).meta[i]
                &&& final(self).meta[e.id as int].generation == e.generation
                &&& (e.id < old(self).meta@.len() ==> old(self).meta[e.id as int].generation
                    == e.generation)
            },
    {
        if self.free_list.len() > 0 {
            let ghost fl = self.free_list@;
            let id = self.free_list.pop().unwrap();
            let generation = self.meta[id as usize].generation;
            self.meta.set(id as usize, EntityMeta { generation, location: Some(location) });
            assert(forall|k: int|
                0 <= k < self.free_list.len() ==> self.free_list[k] == old(self).free_list[k]);
            assert forall|k: int| 0 <= k < self.free_list.len() implies self.free_list[k] != id by {
                assert(old(self).free_list[old(self).free_list.len() - 1] == id);
            }
            Some(Entity { id, generation })
        } else if self.meta.len() < u32::MAX as usize {
            let id = self.meta.len() as u32;
            self.meta.push(EntityMeta { generation: 0, location: Some(location) });
            Some(Entity { id, generation: 0 })
        } else {
            None
        }
    }

    /// Frees a live handle and returns where its entity stood. The id's generation moves on, so
    /// the handle becomes stale; an id whose generation cannot move on any more is retired
    /// instead of being reused.
    pub fn free(&mut self, e: Entity) -> (r: Option<EntityLocation>)
        requires
            old(self).wf(),
        ensures
            final(self).wf(),
            r is Some <==> old(self).is_live(e),
            r is None ==> *final(self) == *old(self),
            r matches Some(loc) ==> {
                &&& loc == old(self).location_of(e)
                &&& !final(self).is_live(e)
                &&& final(self).meta@.len() == old(self).meta@.len()
                &&& final(self).meta[e.id as int].location is None
                &&& final(self).meta[e.id as int].generation >= e.generation
                &&& (e.generation < u32::MAX ==> final(self).is_stale(e))
                &&& (e.generation < u32::MAX ==> final(self).free_list@ == old(self).free_list@.push(e.id)
                    && final(self).meta[e.id as int].generation == e.generation + 1)
                &&& (e.generation == u32::MAX ==> final(self).free_list@ == old(self).free_list@)
                &&& forall|x: Entity| #[trigger] final(self).is_live(x) <==> old(self).is_live(x) && x != e
                &&& forall|x: Entity| old(self).is_stale(x) ==> #[trigger] final(self).is_stale(x)
                &&& forall|i: int|
                    0 <= i < old(self).meta@.len() && i != e.id ==> final(self).meta[i]
                        == old(self).meta[i]
            },
    {
        if (e.id as usize) < self.meta.len() {
            let m = self.meta[e.id as usize];
            if m.generation == e.generation {
                if let Some(loc) = m.location {
                    proof {
                        assert forall|k: int| 0 <= k < self.free_list.len() implies self.free_list[k]
                            != e.id by {}
                    }
                    if e.generation < u32::MAX {
                        self.meta.set(
                            e.id as usize,
                            EntityMeta { generation: e.generation + 1, location: None },
                        );
                        self.free_list.push(e.id);
                    } else {
                        self.meta.set(
                            e.id as usize,
                            EntityMeta { generation: e.generation, location: None },
                        );
                    }
                    return Some(loc);
                }
            }
        }
        None
    }

    /// The location of a live handle; `None` for a stale or unknown one.
    pub fn get(&self, e: Entity) -> (r: Option<EntityLocation>)
        ensures
            r is Some <==> self.is_live(e),
            r matches Some(loc) ==> loc == self.location_of(e),
    {
        if (e.id as usize) < self.meta.len() {
            let m = self.meta[e.id as usize];
            if m.generation == e.generation {
                return m.location;
            }
        }
        None
    }

    /// Records a new location for a live handle.
    pub fn set_location(&mut self, e: Entity, location: EntityLocation)
        requires
            old(self).wf(),
            old(self).is_live(e),
        ensures
            final(self).wf(),
            final(self).meta@ == old(self).meta@.update(
                e.id as int,
                EntityMeta { generation: e.generation, location: Some(location) },
            ),
            final(self).free_list@ == old(self).free_list@,
    {
        self.meta.set(e.id as usize, EntityMeta { generation: e.generation, location: Some(location) });
        assert forall|k: int| 0 <= k < self.free_list.len() implies self.free_list[k] != e.id by {}
    }
}

} // verus!
