use vstd::prelude::*;

use crate::component::{ComponentId, ComponentTicks, DataLayout};
use crate::entity::Entity;
use crate::table::{slot_eq, Slot};

verus! {

/// The values of one slot for the entities that have it, kept densely, with a lookup from
/// entity id to dense position.
pub struct ComponentSparseSet {
    pub slot: Slot,
    pub layout: DataLayout,
    pub dense: Vec<Vec<u8>>,
    pub ticks: Vec<ComponentTicks>,
    pub entities: Vec<Entity>,
    pub sparse: Vec<Option<usize>>,
}

impl ComponentSparseSet {
    pub open spec fn wf(&self) -> bool {
        &&& self.dense.len() == self.entities.len()
        &&& self.ticks.len() == self.entities.len()
        &&& forall|i: int| 0 <= i < self.entities.len() ==> {
            &&& (#[trigger] self.entities[i]).id < self.sparse.len()
            &&& self.sparse[self.entities[i].id as int] == Some(i as usize)
        }
        &&& forall|id: int| 0 <= id < self.sparse.len() && (#[trigger] self.sparse[id]) is Some ==> {
            &&& self.sparse[id].unwrap() < self.entities.len()
            &&& self.entities[self.sparse[id].unwrap() as int].id == id
        }
    }

    pub open spec fn contains(&self, e: Entity) -> bool {
        &&& e.id < self.sparse.len()
        &&& self.sparse[e.id as int] is Some
        &&& self.entities[self.sparse[e.id as int].unwrap() as int] == e
    }

    pub open spec fn dense_index(&self, e: Entity) -> int {
        self.sparse[e.id as int].unwrap() as int
    }

    pub open spec fn value_of(&self, e: Entity) -> Vec<u8> {
        self.dense[self.dense_index(e)]
    }

    pub open spec fn ticks_of(&self, e: Entity) -> ComponentTicks {
        self.ticks[self.dense_index(e)]
    }

    /// Entries of entities with another id than `id` are as in `old`.
    pub open spec fn others_kept(&self, old: &ComponentSparseSet, id: u32) -> bool {
        forall|e: Entity| e.id != id ==> {
            &&& (#[trigger] self.contains(e)) == old.contains(e)
            &&& (old.contains(e) ==> self.value_of(e) == old.value_of(e) && self.ticks_of(e) == old.ticks_of(e))
        }
    }

    pub fn new(slot: Slot, layout: DataLayout) -> (r: ComponentSparseSet)
        ensures
            r.wf(),
            r.slot == slot,
            r.layout == layout,
            forall|e: Entity| !r.contains(e),
    {
        ComponentSparseSet {
            slot,
            layout,
            dense: Vec::new(),
            ticks: Vec::new(),
            entities: Vec::new(),
            sparse: Vec::new(),
        }
    }

    pub fn len(&self) -> (r: usize)
        ensures
            r == self.entities.len(),
    {
        self.entities.len()
    }

    pub fn is_empty(&self) -> (r: bool)
        ensures
            r == (self.entities.len() == 0),
    {
        self.entities.len() == 0
    }

    fn find(&self, e: Entity) -> (r: Option<usize>)
        requires
            self.wf(),
        ensures
            r is Some <==> self.contains(e),
            r matches Some(i) ==> i == self.dense_index(e) && i < self.entities.len(),
    {
        if (e.id as usize) < self.sparse.len() {
            match self.sparse[e.id as usize] {
                Some(i) => {
                    if self.entities[i] == e {
                        Some(i)
                    } else {
                        None
                    }
                },
                None => None,
            }
        } else {
            None
        }
    }

    pub fn contains_entity(&self, e: Entity) -> (r: bool)
        requires
            self.wf(),
        ensures
            r == self.contains(e),
    {
        self.find(e).is_some()
    }

    pub fn get(&self, e: Entity) -> (r: Option<&Vec<u8>>)
        requires
            self.wf(),
        ensures
            r is Some <==> self.contains(e),
            r matches Some(v) ==> *v == self.value_of(e),
    {
        match self.find(e) {
            Some(i) => Some(&self.dense[i]),
            None => None,
        }
    }

    pub fn get_with_ticks(&self, e: Entity) -> (r: Option<(&Vec<u8>, ComponentTicks)>)
        requires
            self.wf(),
        ensures
            r is Some <==> self.contains(e),
            r matches Some((v, t)) ==> *v == self.value_of(e) && t == self.ticks_of(e),
    {
        match self.find(e) {
            Some(i) => Some((&self.dense[i], self.ticks[i])),
            None => None,
        }
    }

    /// Stores `value` for `e`. An entry already there is overwritten and stamped as changed at
    /// `change_tick`; a new one is stamped as added and changed at `change_tick`. An entry of an
    /// older handle with the same id is replaced.
    pub fn insert(&mut self, e: Entity, value: Vec<u8>, change_tick: u32)
        requires
            old(self).wf(),
        ensures
            final(self).wf(),
            final(self).slot == old(self).slot,
            final(self).layout == old(self).layout,
            final(self).contains(e),
            final(self).value_of(e) == value,
            final(self).ticks_of(e) == (if old(self).contains(e) {
                ComponentTicks { added: old(self).ticks_of(e).added, changed: change_tick }
            } else {
                ComponentTicks::new_spec(change_tick)
            }),
            final(self).others_kept(old(self), e.id),
    {
        let id = e.id as usize;
        if id < self.sparse.len() {
            if let Some(i) = self.sparse[id] {
                if self.entities[i] == e {
                    self.dense.set(i, value);
                    let mut t = self.ticks[i];
                    t.set_changed(change_tick);
                    self.ticks.set(i, t);
                } else {
                    self.dense.set(i, value);
                    self.ticks.set(i, ComponentTicks::new(change_tick));
                    self.entities.set(i, e);
                }
                return;
            }
        }
        let ghost s0 = *self;
        while self.sparse.len() <= id
            invariant
                s0.wf(),
                self.dense@ == s0.dense@,
                self.ticks@ == s0.ticks@,
                self.entities@ == s0.entities@,
                self.slot == s0.slot,
                self.layout == s0.layout,
                self.sparse.len() >= s0.sparse.len(),
                forall|k: int| 0 <= k < s0.sparse.len() ==> self.sparse[k] == s0.sparse[k],
                forall|k: int| s0.sparse.len() <= k < self.sparse.len() ==> self.sparse[k] is None,
                id < s0.sparse.len() ==> s0.sparse[id as int] is None,
            decreases id + 1 - self.sparse.len(),
        {
            self.sparse.push(None);
        }
        let index = self.entities.len();
        self.dense.push(value);
        self.ticks.push(ComponentTicks::new(change_tick));
        self.entities.push(e);
        self.sparse.set(id, Some(index));
        proof {
            assert forall|i: int| 0 <= i < self.entities.len() implies {
                &&& (#[trigger] self.entities[i]).id < self.sparse.len()
                &&& self.sparse[self.entities[i].id as int] == Some(i as usize)
            } by {
                if i < index {
                    assert(self.entities[i] == s0.entities[i]);
                    assert(s0.sparse[s0.entities[i].id as int] == Some(i as usize));
                }
            }
            assert forall|id2: int| 0 <= id2 < self.sparse.len() && (#[trigger] self.sparse[id2]) is Some implies {
                &&& self.sparse[id2].unwrap() < self.entities.len()
                &&& self.entities[self.sparse[id2].unwrap() as int].id == id2
            } by {
                if id2 != id {
                    assert(id2 < s0.sparse.len());
                    assert(s0.sparse[id2] is Some);
                }
            }
            assert forall|e2: Entity| e2.id != e.id implies {
                &&& (#[trigger] self.contains(e2)) == old(self).contains(e2)
                &&& (old(self).contains(e2) ==> self.value_of(e2) == old(self).value_of(e2) && self.ticks_of(e2) == old(self).ticks_of(e2))
            } by {
                if e2.id < s0.sparse.len() && s0.sparse[e2.id as int] is Some {
                    assert(s0.sparse[e2.id as int].unwrap() < s0.entities.len());
                }
            }
        }
    }

    /// Takes the entry of `e` out and hands over its value.
    pub fn remove_and_forget(&mut self, e: Entity) -> (r: Option<Vec<u8>>)
        requires
            old(self).wf(),
        ensures
            final(self).wf(),
            final(self).slot == old(self).slot,
            final(self).layout == old(self).layout,
            r is Some <==> old(self).contains(e),
            r matches Some(v) ==> v == old(self).value_of(e),
            !final(self).contains(e),
            final(self).others_kept(old(self), e.id),
            forall|e2: Entity| e2.id == e.id && e2 != e ==> (#[trigger] final(self).contains(e2)) == old(self).contains(e2)
                && (old(self).contains(e2) ==> final(self).value_of(e2) == old(self).value_of(e2)
                    && final(self).ticks_of(e2) == old(self).ticks_of(e2)),
    {
        match self.find(e) {
            None => None,
            Some(i) => {
                let last = self.entities.len() - 1;
                let moved = self.entities[last];
                let v = self.dense.swap_remove(i);
                self.ticks.swap_remove(i);
                self.entities.swap_remove(i);
                self.sparse.set(e.id as usize, None);
                if i < last {
                    self.sparse.set(moved.id as usize, Some(i));
                }
                proof {
                    let o = old(self);
                    assert forall|k: int| 0 <= k < self.entities.len() implies {
                        &&& (#[trigger] self.entities[k]).id < self.sparse.len()
                        &&& self.sparse[self.entities[k].id as int] == Some(k as usize)
                    } by {
                        if k == i {
                            assert(self.entities[k] == moved);
                        } else {
                            assert(self.entities[k] == o.entities[k]);
                            assert(o.sparse[o.entities[k].id as int] == Some(k as usize));
                            if o.entities[k].id == moved.id {
                                assert(o.sparse[moved.id as int] == Some(last as usize));
                            }
                            if o.entities[k].id == e.id {
                                assert(o.sparse[e.id as int] == Some(i as usize));
                            }
                        }
                    }
                    assert forall|id: int| 0 <= id < self.sparse.len() && (#[trigger] self.sparse[id]) is Some implies {
                        &&& self.sparse[id].unwrap() < self.entities.len()
                        &&& self.entities[self.sparse[id].unwrap() as int].id == id
                    } by {
                        if id != e.id && id != moved.id {
                            let k = o.sparse[id].unwrap() as int;
                            assert(o.entities[k].id == id);
                            if k == last {
                                assert(o.entities[last as int] == moved);
                            }
                            if k == i {
                                assert(o.entities[i as int] == e);
                            }
                        }
                    }
                    assert forall|e2: Entity| e2.id != e.id implies {
                        &&& (#[trigger] self.contains(e2)) == o.contains(e2)
                        &&& (o.contains(e2) ==> self.value_of(e2) == o.value_of(e2) && self.ticks_of(e2) == o.ticks_of(e2))
                    } by {
                        if e2.id < o.sparse.len() && o.sparse[e2.id as int] is Some {
                            let k = o.sparse[e2.id as int].unwrap() as int;
                            assert(o.entities[k].id == e2.id);
                            if k == last {
                                assert(o.entities[last as int] == moved);
                            }
                        }
                    }
                }
                Some(v)
            },
        }
    }

    /// Drops the entry of `e`; tells whether there was one.
    pub fn remove(&mut self, e: Entity) -> (r: bool)
        requires
            old(self).wf(),
        ensures
            final(self).wf(),
            final(self).slot == old(self).slot,
            final(self).layout == old(self).layout,
            r == old(self).contains(e),
            !final(self).contains(e),
            final(self).others_kept(old(self), e.id),
            forall|e2: Entity| e2.id == e.id && e2 != e ==> (#[trigger] final(self).contains(e2)) == old(self).contains(e2)
                && (old(self).contains(e2) ==> final(self).value_of(e2) == old(self).value_of(e2)
                    && final(self).ticks_of(e2) == old(self).ticks_of(e2)),
    {
        self.remove_and_forget(e).is_some()
    }

    /// Clamps the ticks of every entry (see `ComponentTicks::check_ticks`); entries and values
    /// stay.
    pub fn check_change_ticks(&mut self, change_tick: u32)
        requires
            old(self).wf(),
        ensures
            final(self).wf(),
            final(self).slot == old(self).slot,
            final(self).layout == old(self).layout,
            final(self).dense@ == old(self).dense@,
            final(self).entities@ == old(self).entities@,
            final(self).sparse@ == old(self).sparse@,
            final(self).ticks@.len() == old(self).ticks@.len(),
            forall|i: int| 0 <= i < final(self).ticks@.len() ==>
                #[trigger] final(self).ticks@[i] == old(self).ticks@[i].clamped(change_tick),
    {
        let mut i: usize = 0;
        while i < self.ticks.len()
            invariant
                i <= self.ticks.len(),
                old(self).wf(),
                self.slot == old(self).slot,
                self.layout == old(self).layout,
                self.dense@ == old(self).dense@,
                self.entities@ == old(self).entities@,
                self.sparse@ == old(self).sparse@,
                self.ticks@.len() == old(self).ticks@.len(),
                forall|j: int| 0 <= j < i ==> #[trigger] self.ticks@[j] == old(self).ticks@[j].clamped(change_tick),
                forall|j: int| i <= j < self.ticks@.len() ==> #[trigger] self.ticks@[j] == old(self).ticks@[j],
            decreases self.ticks.len() - i,
        {
            let mut t = self.ticks[i];
            t.check_ticks(change_tick);
            self.ticks.set(i, t);
            i = i + 1;
        }
    }
}

/// The sparse sets of the world, one per sparse-set slot.
pub struct SparseSets {
    pub sets: Vec<ComponentSparseSet>,
}

impl SparseSets {
    pub open spec fn wf(&self) -> bool {
        &&& forall|k: int| 0 <= k < self.sets.len() ==> (#[trigger] self.sets[k]).wf()
        &&& forall|k: int, l: int| 0 <= k < self.sets.len() && 0 <= l < self.sets.len() && k != l
                ==> (#[trigger] self.sets[k]).slot != (#[trigger] self.sets[l]).slot
    }

    pub open spec fn has_set(&self, s: Slot) -> bool {
        exists|k: int| 0 <= k < self.sets.len() && (#[trigger] self.sets[k]).slot == s
    }

    pub fn new() -> (r: SparseSets)
        ensures
            r.wf(),
            r.sets.len() == 0,
    {
        SparseSets { sets: Vec::new() }
    }

    pub fn index_of(&self, kind: ComponentId, target: Option<Entity>) -> (r: Option<usize>)
        ensures
            r is Some <==> self.has_set(Slot { kind, target }),
            r matches Some(k) ==> k < self.sets.len() && self.sets[k as int].slot == (Slot { kind, target }),
    {
        let s = Slot { kind, target };
        let mut i: usize = 0;
        while i < self.sets.len()
            invariant
                i <= self.sets.len(),
                s == (Slot { kind, target }),
                forall|j: int| 0 <= j < i ==> self.sets[j].slot != s,
            decreases self.sets.len() - i,
        {
            if slot_eq(&self.sets[i].slot, &s) {
                assert(self.sets[i as int].slot == s);
                return Some(i);
            }
            i = i + 1;
        }
        None
    }

    pub fn get(&self, kind: ComponentId, target: Option<Entity>) -> (r: Option<&ComponentSparseSet>)
        ensures
            r is Some <==> self.has_set(Slot { kind, target }),
            r matches Some(set) ==> exists|k: int| 0 <= k < self.sets.len() && self.sets[k] == *set && set.slot == (Slot { kind, target }),
    {
        match self.index_of(kind, target) {
            Some(k) => Some(&self.sets[k]),
            None => None,
        }
    }

    /// The position of the set of a slot, created empty when there is none yet.
    pub fn get_or_insert(&mut self, kind: ComponentId, target: Option<Entity>, layout: DataLayout) -> (r: usize)
        requires
            old(self).wf(),
        ensures
            final(self).wf(),
            r < final(self).sets.len(),
            final(self).sets[r as int].slot == (Slot { kind, target }),
            old(self).has_set(Slot { kind, target }) ==> *final(self) == *old(self),
            !old(self).has_set(Slot { kind, target }) ==> final(self).sets@ == old(self).sets@.push(final(self).sets[r as int])
                && forall|e: Entity| !final(self).sets[r as int].contains(e),
    {
        match self.index_of(kind, target) {
            Some(k) => k,
            None => {
                self.sets.push(ComponentSparseSet::new(Slot { kind, target }, layout));
                self.sets.len() - 1
            },
        }
    }
    /// Clamps the ticks of every entry of every set; entries and values stay.
    pub fn check_change_ticks(&mut self, change_tick: u32)
        requires
            old(self).wf(),
        ensures
            final(self).wf(),
            final(self).sets.len() == old(self).sets.len(),
            forall|k: int| 0 <= k < final(self).sets.len() ==> {
                &&& (#[trigger] final(self).sets[k]).slot == old(self).sets[k].slot
                &&& final(self).sets[k].layout == old(self).sets[k].layout
                &&& final(self).sets[k].dense@ == old(self).sets[k].dense@
                &&& final(self).sets[k].entities@ == old(self).sets[k].entities@
                &&& final(self).sets[k].sparse@ == old(self).sets[k].sparse@
                &&& final(self).sets[k].ticks@.len() == old(self).sets[k].ticks@.len()
            },
            forall|k: int, i: int| 0 <= k < final(self).sets.len() && 0 <= i < final(self).sets[k].ticks@.len() ==>
                #[trigger] final(self).sets[k].ticks@[i] == old(self).sets[k].ticks@[i].clamped(change_tick),
    {
        let mut k: usize = 0;
        while k < self.sets.len()
            invariant
                k <= self.sets.len(),
                old(self).wf(),
                self.sets.len() == old(self).sets.len(),
                forall|j: int| 0 <= j < self.sets.len() ==> (#[trigger] self.sets[j]).wf(),
                forall|j: int| 0 <= j < self.sets.len() ==> {
                    &&& (#[trigger] self.sets[j]).slot == old(self).sets[j].slot
                    &&& self.sets[j].layout == old(self).sets[j].layout
                    &&& self.sets[j].dense@ == old(self).sets[j].dense@
                    &&& self.sets[j].entities@ == old(self).sets[j].entities@
                    &&& self.sets[j].sparse@ == old(self).sets[j].sparse@
                    &&& self.sets[j].ticks@.len() == old(self).sets[j].ticks@.len()
                },
                forall|j: int| k <= j < self.sets.len() ==> #[trigger] self.sets[j] == old(self).sets[j],
                forall|j: int, i: int| 0 <= j < k && 0 <= i < self.sets[j].ticks@.len() ==>
                    #[trigger] self.sets[j].ticks@[i] == old(self).sets[j].ticks@[i].clamped(change_tick),
            decreases self.sets.len() - k,
        {
            let ghost before = self.sets@;
            self.sets[k].check_change_ticks(change_tick);
            proof {
                assert forall|j: int, i: int| 0 <= j < k + 1 && 0 <= i < self.sets[j].ticks@.len() implies
                    #[trigger] self.sets[j].ticks@[i] == old(self).sets[j].ticks@[i].clamped(change_tick) by {
                    if j < k { assert(self.sets[j] == before[j]); }
                }
            }
            k = k + 1;
        }
        proof {
            assert forall|a: int, b: int| 0 <= a < self.sets.len() && 0 <= b < self.sets.len() && a != b
                implies (#[trigger] self.sets[a]).slot != (#[trigger] self.sets[b]).slot by {
                assert(old(self).sets[a].slot != old(self).sets[b].slot);
            }
        }
    }
}

} // verus!
