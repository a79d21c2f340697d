use vstd::prelude::*;

use crate::archetype::ArchetypeId;
use crate::component::{ComponentId, ComponentTicks, Components, DataLayout};
use crate::entity::Entity;

verus! {

/// A column position: a slot kind and, for a relation, its target entity.
#[derive(Debug, Clone, Copy, PartialEq, Eq, Hash, Structural)]
pub struct Slot {
    pub kind: ComponentId,
    pub target: Option<Entity>,
}

impl Slot {
    pub fn new(kind: ComponentId, target: Option<Entity>) -> (r: Slot)
        ensures
            r == (Slot { kind, target }),
    {
        Slot { kind, target }
    }
}

/// Executable equality of two slots.
pub fn slot_eq(a: &Slot, b: &Slot) -> (r: bool)
    ensures
        r == (*a == *b),
{
    if a.kind.0 != b.kind.0 {
        return false;
    }
    match (a.target, b.target) {
        (None, None) => true,
        (Some(x), Some(y)) => x.id == y.id && x.generation == y.generation,
        _ => false,
    }
}

/// Executable equality of two slot lists.
pub fn slots_eq(a: &Vec<Slot>, b: &Vec<Slot>) -> (r: bool)
    ensures
        r == (a@ == b@),
{
    if a.len() != b.len() {
        return false;
    }
    let mut i: usize = 0;
    while i < a.len()
        invariant
            i <= a.len(),
            a.len() == b.len(),
            forall|j: int| 0 <= j < i ==> a@[j] == b@[j],
        decreases a.len() - i,
    {
        if !slot_eq(&a[i], &b[i]) {
            return false;
        }
        i = i + 1;
    }
    assert(a@ =~= b@);
    true
}

/// A copy of a slot list.
pub fn copy_slots(v: &Vec<Slot>) -> (r: Vec<Slot>)
    ensures
        r@ == v@,
{
    let mut r: Vec<Slot> = Vec::new();
    let mut i: usize = 0;
    while i < v.len()
        invariant
            i <= v.len(),
            r@ == v@.take(i as int),
        decreases v.len() - i,
    {
        r.push(v[i]);
        assert(v@.take(i + 1) =~= v@.take(i as int).push(v@[i as int]));
        i = i + 1;
    }
    assert(v@.take(i as int) =~= v@);
    r
}

/// Executable membership of a slot in a list.
pub fn slots_contain(v: &Vec<Slot>, s: &Slot) -> (r: bool)
    ensures
        r == v@.contains(*s),
{
    let mut i: usize = 0;
    while i < v.len()
        invariant
            i <= v.len(),
            forall|j: int| 0 <= j < i ==> v@[j] != *s,
        decreases v.len() - i,
    {
        if slot_eq(&v[i], s) {
            assert(v@[i as int] == *s);
            return true;
        }
        i = i + 1;
    }
    false
}

/// Index of a table in the world's table arena.
#[derive(Debug, Clone, Copy, PartialEq, Eq, Structural)]
pub struct TableId(pub usize);

impl TableId {
    pub fn new(index: usize) -> (r: TableId)
        ensures
            r.0 == index,
    {
        TableId(index)
    }

    pub fn index(self) -> (r: usize)
        ensures
            r == self.0,
    {
        self.0
    }

    /// The table without columns, which always exists.
    pub fn empty() -> (r: TableId)
        ensures
            r.0 == 0,
    {
        TableId(0)
    }
}

/// The values of one slot, one per table row, each with its change ticks.
pub struct Column {
    pub relationship: Slot,
    pub layout: DataLayout,
    pub data: Vec<Vec<u8>>,
    pub ticks: Vec<ComponentTicks>,
}

/// A freshly allocated value: `size` zero bytes, waiting to be written.
fn blank_value(size: usize) -> (r: Vec<u8>)
    ensures
        r@.len() == size,
{
    let mut v: Vec<u8> = Vec::new();
    let mut i: usize = 0;
    while i < size
        invariant
            i <= size,
            v@.len() == i,
        decreases size - i,
    {
        v.push(0);
        i = i + 1;
    }
    v
}

impl Column {
    pub open spec fn wf(&self) -> bool {
        self.data.len() == self.ticks.len()
    }

    pub fn with_capacity(
        relationship: ComponentId,
        target: Option<Entity>,
        layout: DataLayout,
        capacity: usize,
    ) -> (r: Column)
        ensures
            r.wf(),
            r.relationship == (Slot { kind: relationship, target }),
            r.layout == layout,
            r.data@.len() == 0,
    {
        Column {
            relationship: Slot { kind: relationship, target },
            layout,
            data: Vec::with_capacity(capacity),
            ticks: Vec::with_capacity(capacity),
        }
    }

    pub fn len(&self) -> (r: usize)
        ensures
            r == self.data.len(),
    {
        self.data.len()
    }

    pub fn is_empty(&self) -> (r: bool)
        ensures
            r == (self.data.len() == 0),
    {
        self.data.len() == 0
    }

    pub fn get(&self, row: usize) -> (r: Option<(&Vec<u8>, ComponentTicks)>)
        requires
            self.wf(),
        ensures
            r is Some <==> row < self.data.len(),
            r matches Some((v, t)) ==> *v == self.data[row as int] && t == self.ticks[row as int],
    {
        if row < self.data.len() {
            Some((&self.data[row], self.ticks[row]))
        } else {
            None
        }
    }

    /// Appends a blank value with zero ticks; the caller writes the row next.
    fn push_uninit(&mut self)
        requires
            old(self).wf(),
        ensures
            final(self).wf(),
            final(self).relationship == old(self).relationship,
            final(self).layout == old(self).layout,
            final(self).data@.drop_last() == old(self).data@,
            final(self).ticks@ == old(self).ticks@.push(ComponentTicks { added: 0, changed: 0 }),
            final(self).data@.len() == old(self).data@.len() + 1,
    {
        let v = blank_value(self.layout.size);
        self.data.push(v);
        self.ticks.push(ComponentTicks { added: 0, changed: 0 });
    }

    /// Writes a value with its ticks into an allocated row.
    pub fn initialize(&mut self, row: usize, value: Vec<u8>, ticks: ComponentTicks)
        requires
            old(self).wf(),
            row < old(self).data.len(),
        ensures
            final(self).wf(),
            final(self).relationship == old(self).relationship,
            final(self).layout == old(self).layout,
            final(self).data@ == old(self).data@.update(row as int, value),
            final(self).ticks@ == old(self).ticks@.update(row as int, ticks),
    {
        self.data.set(row, value);
        self.ticks.set(row, ticks);
    }

    /// Overwrites the value of a row and stamps it as changed at `change_tick`.
    pub fn replace(&mut self, row: usize, value: Vec<u8>, change_tick: u32)
        requires
            old(self).wf(),
            row < old(self).data.len(),
        ensures
            final(self).wf(),
            final(self).relationship == old(self).relationship,
            final(self).layout == old(self).layout,
            final(self).data@ == old(self).data@.update(row as int, value),
            final(self).ticks@ == old(self).ticks@.update(
                row as int,
                ComponentTicks { added: old(self).ticks[row as int].added, changed: change_tick },
            ),
    {
        self.data.set(row, value);
        let mut t = self.ticks[row];
        t.set_changed(change_tick);
        self.ticks.set(row, t);
    }

    /// Removes a row by moving the last row into its place; hands out its value and ticks.
    fn swap_remove(&mut self, row: usize) -> (r: (Vec<u8>, ComponentTicks))
        requires
            old(self).wf(),
            row < old(self).data.len(),
        ensures
            final(self).wf(),
            final(self).relationship == old(self).relationship,
            final(self).layout == old(self).layout,
            r.0 == old(self).data[row as int],
            r.1 == old(self).ticks[row as int],
            final(self).data@ == old(self).data@.update(row as int, old(self).data@.last()).drop_last(),
            final(self).ticks@ == old(self).ticks@.update(row as int, old(self).ticks@.last()).drop_last(),
    {
        let v = self.data.swap_remove(row);
        let t = self.ticks.swap_remove(row);
        (v, t)
    }

    /// Clamps the ticks of every row (see `ComponentTicks::check_ticks`); values stay.
    pub fn check_change_ticks(&mut self, change_tick: u32)
        requires
            old(self).wf(),
        ensures
            final(self).wf(),
            final(self).relationship == old(self).relationship,
            final(self).layout == old(self).layout,
            final(self).data@ == old(self).data@,
            final(self).ticks@.len() == old(self).ticks@.len(),
            forall|i: int| 0 <= i < final(self).ticks@.len() ==>
                #[trigger] final(self).ticks@[i] == old(self).ticks@[i].clamped(change_tick),
    {
        let mut i: usize = 0;
        while i < self.ticks.len()
            invariant
                i <= self.ticks.len(),
                self.wf(),
                self.relationship == old(self).relationship,
                self.layout == old(self).layout,
                self.data@ == old(self).data@,
                self.ticks@.len() == old(self).ticks@.len(),
                forall|j: int| 0 <= j < i ==> #[trigger] self.ticks@[j] == old(self).ticks@[j].clamped(change_tick),
                forall|j: int| i <= j < self.ticks@.len() ==> #[trigger] self.ticks@[j] == old(self).ticks@[j],
            decreases self.ticks.len() - i,
        {
            let mut t = self.ticks[i];
            t.check_ticks(change_tick);
            self.ticks.set(i, t);
            i = i + 1;
        }
    }
}


/// Where a moved row went, and which entity took its old place in the source table.
pub struct TableMoveResult {
    pub swapped_entity: Option<Entity>,
    pub new_row: usize,
}

/// Capacity after making room for `amount` more rows: unchanged when there is room, else the
/// next multiple of `grow_amount` that holds them (the largest `usize` if none fits).
pub open spec fn grown_capacity(capacity: nat, len: nat, amount: nat, grow_amount: nat) -> nat {
    if capacity >= len + amount {
        capacity
    } else if len + amount + grow_amount - 1 > usize::MAX {
        usize::MAX as nat
    } else {
        (((len + amount + grow_amount - 1) as nat / grow_amount) * grow_amount) as nat
    }
}

/// Rows of entities that share one set of table slots: one column per slot, all of equal length.
pub struct Table {
    pub columns: Vec<Column>,
    pub entities: Vec<Entity>,
    pub archetypes: Vec<ArchetypeId>,
    pub grow_amount: usize,
    pub capacity: usize,
}

impl Table {
    pub open spec fn wf(&self) -> bool {
        &&& self.grow_amount > 0
        &&& forall|c: int| 0 <= c < self.columns.len() ==> (#[trigger] self.columns[c]).wf()
                && self.columns[c].data.len() == self.entities.len()
        &&& forall|c: int, d: int| 0 <= c < self.columns.len() && 0 <= d < self.columns.len() && c != d
                ==> (#[trigger] self.columns[c]).relationship != (#[trigger] self.columns[d]).relationship
    }

    /// The slots of the columns, in column order.
    pub open spec fn slots(&self) -> Seq<Slot> {
        self.columns@.map_values(|c: Column| c.relationship)
    }

    pub open spec fn has_slot(&self, s: Slot) -> bool {
        exists|c: int| 0 <= c < self.columns.len() && (#[trigger] self.columns[c]).relationship == s
    }

    pub open spec fn len_spec(&self) -> nat {
        self.entities@.len()
    }

    /// The columns keep their slots and layouts.
    pub open spec fn same_shape(&self, old: &Table) -> bool {
        &&& self.columns.len() == old.columns.len()
        &&& forall|c: int| 0 <= c < self.columns.len() ==> (#[trigger] self.columns[c]).relationship == old.columns[c].relationship
                && self.columns[c].layout == old.columns[c].layout
        &&& self.grow_amount == old.grow_amount
        &&& self.archetypes@ == old.archetypes@
    }

    pub fn new(grow_amount: usize) -> (r: Table)
        requires
            grow_amount > 0,
        ensures
            r.wf(),
            r.columns.len() == 0,
            r.entities.len() == 0,
            r.capacity == 0,
            r.grow_amount == grow_amount,
    {
        Table { columns: Vec::new(), entities: Vec::new(), archetypes: Vec::new(), grow_amount, capacity: 0 }
    }

    pub fn with_capacity(capacity: usize, column_capacity: usize, grow_amount: usize) -> (r: Table)
        requires
            grow_amount > 0,
        ensures
            r.wf(),
            r.columns.len() == 0,
            r.entities.len() == 0,
            r.capacity == capacity,
            r.grow_amount == grow_amount,
    {
        Table {
            columns: Vec::with_capacity(column_capacity),
            entities: Vec::with_capacity(capacity),
            archetypes: Vec::new(),
            grow_amount,
            capacity,
        }
    }

    /// Position of the column of a slot.
    pub fn column_index(&self, kind: ComponentId, target: Option<Entity>) -> (r: Option<usize>)
        ensures
            r is Some <==> self.has_slot(Slot { kind, target }),
            r matches Some(c) ==> c < self.columns.len() && self.columns[c as int].relationship == (Slot { kind, target }),
    {
        let s = Slot { kind, target };
        let mut i: usize = 0;
        while i < self.columns.len()
            invariant
                i <= self.columns.len(),
                s == (Slot { kind, target }),
                forall|j: int| 0 <= j < i ==> self.columns[j].relationship != s,
            decreases self.columns.len() - i,
        {
            if slot_eq(&self.columns[i].relationship, &s) {
                assert(self.columns[i as int].relationship == s);
                return Some(i);
            }
            i = i + 1;
        }
        None
    }

    /// Adds an empty column for a slot to a table that has no rows yet.
    pub fn add_column(&mut self, kind: ComponentId, target: Option<Entity>, layout: DataLayout)
        requires
            old(self).wf(),
            old(self).entities.len() == 0,
            !old(self).has_slot(Slot { kind, target }),
        ensures
            final(self).wf(),
            final(self).slots() == old(self).slots().push(Slot { kind, target }),
            final(self).columns[old(self).columns.len() as int].layout == layout,
            forall|c: int| 0 <= c < old(self).columns.len() ==> final(self).columns[c] == old(self).columns[c],
            final(self).entities@ == old(self).entities@,
            final(self).capacity == old(self).capacity,
            final(self).grow_amount == old(self).grow_amount,
    {
        let col = Column::with_capacity(kind, target, layout, self.capacity);
        self.columns.push(col);
        assert(self.slots() =~= old(self).slots().push(Slot { kind, target }));
    }

    pub fn get_column(&self, kind: ComponentId, target: Option<Entity>) -> (r: Option<&Column>)
        ensures
            r is Some <==> self.has_slot(Slot { kind, target }),
            r matches Some(col) ==> col.relationship == (Slot { kind, target })
                && exists|c: int| 0 <= c < self.columns.len() && self.columns[c] == *col,
    {
        match self.column_index(kind, target) {
            Some(c) => Some(&self.columns[c]),
            None => None,
        }
    }

    pub fn has_column(&self, kind: ComponentId, target: Option<Entity>) -> (r: bool)
        ensures
            r == self.has_slot(Slot { kind, target }),
    {
        self.column_index(kind, target).is_some()
    }

    /// The targets of all columns of one slot kind.
    pub fn columns_of_kind(&self, kind: ComponentId) -> (r: Vec<Option<Entity>>)
        ensures
            forall|t: Option<Entity>| r@.contains(t) <==> self.has_slot(Slot { kind, target: t }),
    {
        let mut r: Vec<Option<Entity>> = Vec::new();
        let mut i: usize = 0;
        while i < self.columns.len()
            invariant
                i <= self.columns.len(),
                forall|t: Option<Entity>| r@.contains(t) <==> exists|c: int| 0 <= c < i && (#[trigger] self.columns[c]).relationship == (Slot { kind, target: t }),
            decreases self.columns.len() - i,
        {
            let ghost r0 = r@;
            if self.columns[i].relationship.kind.0 == kind.0 {
                r.push(self.columns[i].relationship.target);
            }
            proof {
                assert forall|t: Option<Entity>| r@.contains(t) <==> exists|c: int| 0 <= c < i + 1 && (#[trigger] self.columns[c]).relationship == (Slot { kind, target: t }) by {
                    if r@.contains(t) {
                        if !r0.contains(t) {
                            assert(r@.last() == t) by {
                                let k = choose|k: int| 0 <= k < r@.len() && r@[k] == t;
                                if k < r0.len() { assert(r0[k] == t); }
                            }
                            assert(self.columns[i as int].relationship == (Slot { kind, target: t }));
                        }
                    }
                    if exists|c: int| 0 <= c < i + 1 && (#[trigger] self.columns[c]).relationship == (Slot { kind, target: t }) {
                        let c = choose|c: int| 0 <= c < i + 1 && (#[trigger] self.columns[c]).relationship == (Slot { kind, target: t });
                        if c == i {
                            assert(r@.last() == t);
                            assert(r@[r@.len() - 1] == t);
                        } else {
                            assert(r0.contains(t));
                            let k = choose|k: int| 0 <= k < r0.len() && r0[k] == t;
                            assert(r@[k] == t);
                        }
                    }
                }
            }
            i = i + 1;
        }
        r
    }

    pub fn entities(&self) -> (r: &Vec<Entity>)
        ensures
            r == &self.entities,
    {
        &self.entities
    }

    pub fn columns(&self) -> (r: &Vec<Column>)
        ensures
            r == &self.columns,
    {
        &self.columns
    }

    pub fn add_archetype(&mut self, archetype_id: ArchetypeId)
        ensures
            final(self).archetypes@ == old(self).archetypes@.push(archetype_id),
            final(self).columns@ == old(self).columns@,
            final(self).entities@ == old(self).entities@,
            final(self).capacity == old(self).capacity,
            final(self).grow_amount == old(self).grow_amount,
    {
        self.archetypes.push(archetype_id);
    }

    /// Makes room for `amount` more rows, growing to a multiple of the grow amount.
    pub fn reserve(&mut self, amount: usize)
        requires
            old(self).wf(),
        ensures
            final(self).wf(),
            final(self).capacity == grown_capacity(
                old(self).capacity as nat,
                old(self).entities.len() as nat,
                amount as nat,
                old(self).grow_amount as nat,
            ),
            final(self).columns@ == old(self).columns@,
            final(self).entities@ == old(self).entities@,
            final(self).archetypes@ == old(self).archetypes@,
            final(self).grow_amount == old(self).grow_amount,
    {
        let len = self.entities.len();
        if self.capacity < len || self.capacity - len < amount {
            let g = self.grow_amount;
            if amount > usize::MAX - len || g - 1 > usize::MAX - len - amount {
                self.capacity = usize::MAX;
            } else {
                let min_capacity = len + amount;
                let top = min_capacity + (g - 1);
                proof {
                    vstd::arithmetic::div_mod::lemma_fundamental_div_mod(top as int, g as int);
                    vstd::arithmetic::div_mod::lemma_mod_bound(top as int, g as int);
                    assert((top / g) * g <= top) by (nonlinear_arith)
                        requires top == g * (top / g) + top % g, 0 <= top % g;
                }
                let new_capacity = (top / g) * g;
                self.capacity = new_capacity;
            }
            self.entities.reserve(amount);
        }
    }

    /// Appends a row for `entity`; every column gets a blank value with zero ticks, which the
    /// caller writes next.
    pub fn allocate(&mut self, entity: Entity) -> (r: usize)
        requires
            old(self).wf(),
        ensures
            final(self).wf(),
            r == old(self).entities.len(),
            final(self).entities@ == old(self).entities@.push(entity),
            final(self).same_shape(old(self)),
            final(self).capacity == grown_capacity(
                old(self).capacity as nat,
                old(self).entities.len() as nat,
                1,
                old(self).grow_amount as nat,
            ),
            forall|c: int| 0 <= c < final(self).columns.len() ==> {
                &&& (#[trigger] final(self).columns[c]).data@.drop_last() == old(self).columns[c].data@
                &&& final(self).columns[c].ticks@ == old(self).columns[c].ticks@.push(ComponentTicks { added: 0, changed: 0 })
            },
    {
        self.reserve(1);
        let index = self.entities.len();
        let ghost mid = *self;
        let mut i: usize = 0;
        while i < self.columns.len()
            invariant
                mid.wf(),
                i <= self.columns.len(),
                self.columns.len() == mid.columns.len(),
                self.entities@ == mid.entities@,
                self.capacity == mid.capacity,
                self.grow_amount == mid.grow_amount,
                self.archetypes@ == mid.archetypes@,
                forall|c: int| 0 <= c < self.columns.len() ==> (#[trigger] self.columns[c]).relationship == mid.columns[c].relationship
                    && self.columns[c].layout == mid.columns[c].layout && self.columns[c].wf(),
                forall|c: int| i <= c < self.columns.len() ==> #[trigger] self.columns[c] == mid.columns[c],
                forall|c: int| 0 <= c < i ==> {
                    &&& (#[trigger] self.columns[c]).data@.drop_last() == mid.columns[c].data@
                    &&& self.columns[c].data@.len() == mid.columns[c].data@.len() + 1
                    &&& self.columns[c].ticks@ == mid.columns[c].ticks@.push(ComponentTicks { added: 0, changed: 0 })
                },
            decreases self.columns.len() - i,
        {
            self.columns[i].push_uninit();
            i = i + 1;
        }
        self.entities.push(entity);
        proof {
            assert forall|c: int| 0 <= c < self.columns.len() implies #[trigger] self.columns[c].data.len() == self.entities.len() by {
                assert(self.columns[c].data@.len() == mid.columns[c].data@.len() + 1);
            }
        }
        index
    }

    /// `self` is `old` with row `row` removed by moving the last row into its place, in the
    /// entity list and in every column.
    pub open spec fn is_swap_removed(&self, old: &Table, row: int) -> bool {
        &&& self.same_shape(old)
        &&& self.capacity == old.capacity
        &&& self.entities@ == old.entities@.update(row, old.entities@.last()).drop_last()
        &&& forall|c: int| 0 <= c < self.columns.len() ==> {
            &&& (#[trigger] self.columns[c]).data@ == old.columns[c].data@.update(row, old.columns[c].data@.last()).drop_last()
            &&& self.columns[c].ticks@ == old.columns[c].ticks@.update(row, old.columns[c].ticks@.last()).drop_last()
        }
    }

    /// `self` is `old` with one more row whose values came from row `row` of `src` where `src`
    /// has the slot, and are blank with zero ticks where it has not.
    pub open spec fn is_row_received(&self, old: &Table, src: &Table, row: int) -> bool {
        &&& self.same_shape(old)
        &&& self.entities@ == old.entities@.push(src.entities[row])
        &&& self.capacity == grown_capacity(old.capacity as nat, old.entities.len() as nat, 1, old.grow_amount as nat)
        &&& forall|j: int, c: int| 0 <= j < self.columns.len() && 0 <= c < src.columns.len()
                && (#[trigger] src.columns[c]).relationship == (#[trigger] self.columns[j]).relationship ==> {
            &&& self.columns[j].data@ == old.columns[j].data@.push(src.columns[c].data[row])
            &&& self.columns[j].ticks@ == old.columns[j].ticks@.push(src.columns[c].ticks[row])
        }
        &&& forall|j: int| 0 <= j < self.columns.len() && !src.has_slot(#[trigger] self.columns[j].relationship) ==> {
            &&& self.columns[j].data@.drop_last() == old.columns[j].data@
            &&& self.columns[j].data@.len() == old.columns[j].data@.len() + 1
            &&& self.columns[j].ticks@ == old.columns[j].ticks@.push(ComponentTicks { added: 0, changed: 0 })
        }
    }

    /// Removes a row, dropping its values, by moving the last row into its place. Returns the
    /// entity that moved, if one did.
    pub fn swap_remove_unchecked(&mut self, row: usize) -> (r: Option<Entity>)
        requires
            old(self).wf(),
            row < old(self).entities.len(),
        ensures
            final(self).wf(),
            final(self).is_swap_removed(old(self), row as int),
            r == (if row == old(self).entities.len() - 1 { None } else { Some(old(self).entities@.last()) }),
    {
        let mut i: usize = 0;
        while i < self.columns.len()
            invariant
                old(self).wf(),
                row < old(self).entities.len(),
                i <= self.columns.len(),
                self.columns.len() == old(self).columns.len(),
                self.entities@ == old(self).entities@,
                self.capacity == old(self).capacity,
                self.grow_amount == old(self).grow_amount,
                self.archetypes@ == old(self).archetypes@,
                forall|c: int| 0 <= c < self.columns.len() ==> (#[trigger] self.columns[c]).relationship == old(self).columns[c].relationship
                    && self.columns[c].layout == old(self).columns[c].layout && self.columns[c].wf(),
                forall|c: int| i <= c < self.columns.len() ==> #[trigger] self.columns[c] == old(self).columns[c],
                forall|c: int| 0 <= c < i ==> {
                    &&& (#[trigger] self.columns[c]).data@ == old(self).columns[c].data@.update(row as int, old(self).columns[c].data@.last()).drop_last()
                    &&& self.columns[c].ticks@ == old(self).columns[c].ticks@.update(row as int, old(self).columns[c].ticks@.last()).drop_last()
                },
            decreases self.columns.len() - i,
        {
            let _ = self.columns[i].swap_remove(row);
            i = i + 1;
        }
        let is_last = row == self.entities.len() - 1;
        self.entities.swap_remove(row);
        if is_last {
            None
        } else {
            Some(self.entities[row])
        }
    }

    /// Moves row `row` into a new row of `new_table`: each value whose slot `new_table` has goes
    /// there with its ticks, the others are dropped.
    fn move_row(&mut self, row: usize, new_table: &mut Table) -> (r: TableMoveResult)
        requires
            old(self).wf(),
            old(new_table).wf(),
            row < old(self).entities.len(),
        ensures
            final(self).wf(),
            final(new_table).wf(),
            final(self).is_swap_removed(old(self), row as int),
            final(new_table).is_row_received(old(new_table), old(self), row as int),
            r.new_row == old(new_table).entities.len(),
            r.swapped_entity == (if row == old(self).entities.len() - 1 { None } else { Some(old(self).entities@.last()) }),
    {
        let e = self.entities[row];
        let new_row = new_table.allocate(e);
        let ghost mid = *new_table;
        let mut i: usize = 0;
        while i < self.columns.len()
            invariant
                old(self).wf(),
                mid.wf(),
                row < old(self).entities.len(),
                new_row == old(new_table).entities.len(),
                mid.entities.len() == new_row + 1,
                i <= self.columns.len(),
                self.columns.len() == old(self).columns.len(),
                self.entities@ == old(self).entities@,
                self.capacity == old(self).capacity,
                self.grow_amount == old(self).grow_amount,
                self.archetypes@ == old(self).archetypes@,
                forall|c: int| 0 <= c < self.columns.len() ==> (#[trigger] self.columns[c]).relationship == old(self).columns[c].relationship
                    && self.columns[c].layout == old(self).columns[c].layout && self.columns[c].wf(),
                forall|c: int| i <= c < self.columns.len() ==> #[trigger] self.columns[c] == old(self).columns[c],
                forall|c: int| 0 <= c < i ==> {
                    &&& (#[trigger] self.columns[c]).data@ == old(self).columns[c].data@.update(row as int, old(self).columns[c].data@.last()).drop_last()
                    &&& self.columns[c].ticks@ == old(self).columns[c].ticks@.update(row as int, old(self).columns[c].ticks@.last()).drop_last()
                },
                new_table.same_shape(&mid),
                new_table.entities@ == mid.entities@,
                new_table.capacity == mid.capacity,
                forall|j: int| 0 <= j < new_table.columns.len() ==> (#[trigger] new_table.columns[j]).wf()
                    && new_table.columns[j].data.len() == mid.entities.len(),
                forall|j: int| 0 <= j < new_table.columns.len()
                    && (forall|c: int| 0 <= c < i ==> (#[trigger] old(self).columns[c]).relationship != mid.columns[j].relationship)
                    ==> #[trigger] new_table.columns[j] == mid.columns[j],
                forall|j: int, c: int| 0 <= j < new_table.columns.len() && 0 <= c < i
                    && (#[trigger] old(self).columns[c]).relationship == (#[trigger] mid.columns[j]).relationship ==> {
                    &&& new_table.columns[j].data@ == mid.columns[j].data@.update(new_row as int, old(self).columns[c].data[row as int])
                    &&& new_table.columns[j].ticks@ == mid.columns[j].ticks@.update(new_row as int, old(self).columns[c].ticks[row as int])
                },
            decreases self.columns.len() - i,
        {
            let (v, t) = self.columns[i].swap_remove(row);
            let kind = self.columns[i].relationship.kind;
            let target = self.columns[i].relationship.target;
            match new_table.column_index(kind, target) {
                Some(j) => {
                    new_table.columns[j].initialize(new_row, v, t);
                    proof {
                        assert forall|j2: int, c: int| 0 <= j2 < new_table.columns.len() && 0 <= c < i + 1
                            && (#[trigger] old(self).columns[c]).relationship == (#[trigger] mid.columns[j2]).relationship implies {
                            &&& new_table.columns[j2].data@ == mid.columns[j2].data@.update(new_row as int, old(self).columns[c].data[row as int])
                            &&& new_table.columns[j2].ticks@ == mid.columns[j2].ticks@.update(new_row as int, old(self).columns[c].ticks[row as int])
                        } by {
                            if c == i {
                                assert(j2 == j);
                            } else if j2 == j {
                                assert(old(self).columns[i as int].relationship == old(self).columns[c].relationship);
                            }
                        }
                    }
                },
                None => {},
            }
            i = i + 1;
        }
        let is_last = row == self.entities.len() - 1;
        self.entities.swap_remove(row);
        proof {
            assert forall|j: int, c: int| 0 <= j < new_table.columns.len() && 0 <= c < old(self).columns.len()
                && (#[trigger] old(self).columns[c]).relationship == (#[trigger] new_table.columns[j]).relationship implies {
                &&& new_table.columns[j].data@ == old(new_table).columns[j].data@.push(old(self).columns[c].data[row as int])
                &&& new_table.columns[j].ticks@ == old(new_table).columns[j].ticks@.push(old(self).columns[c].ticks[row as int])
            } by {
                assert(mid.columns[j].relationship == new_table.columns[j].relationship);
                assert(new_table.columns[j].data@ =~= old(new_table).columns[j].data@.push(old(self).columns[c].data[row as int]));
                assert(new_table.columns[j].ticks@ =~= old(new_table).columns[j].ticks@.push(old(self).columns[c].ticks[row as int]));
            }
            assert forall|j: int| 0 <= j < new_table.columns.len() && !old(self).has_slot(#[trigger] new_table.columns[j].relationship) implies {
                &&& new_table.columns[j].data@.drop_last() == old(new_table).columns[j].data@
                &&& new_table.columns[j].data@.len() == old(new_table).columns[j].data@.len() + 1
                &&& new_table.columns[j].ticks@ == old(new_table).columns[j].ticks@.push(ComponentTicks { added: 0, changed: 0 })
            } by {
                assert(mid.columns[j].relationship == new_table.columns[j].relationship);
                assert forall|c: int| 0 <= c < old(self).columns.len() implies (#[trigger] old(self).columns[c]).relationship != mid.columns[j].relationship by {
                    if old(self).columns[c].relationship == mid.columns[j].relationship {
                        assert(old(self).has_slot(new_table.columns[j].relationship));
                    }
                }
            }
        }
        TableMoveResult {
            new_row,
            swapped_entity: if is_last { None } else { Some(self.entities[row]) },
        }
    }

    /// Moves row `row` into `new_table`. Values whose slot `new_table` lacks are let go: the
    /// caller has taken them out beforehand.
    pub fn move_to_and_forget_missing_unchecked(&mut self, row: usize, new_table: &mut Table) -> (r: TableMoveResult)
        requires
            old(self).wf(),
            old(new_table).wf(),
            row < old(self).entities.len(),
        ensures
            final(self).wf(),
            final(new_table).wf(),
            final(self).is_swap_removed(old(self), row as int),
            final(new_table).is_row_received(old(new_table), old(self), row as int),
            r.new_row == old(new_table).entities.len(),
            r.swapped_entity == (if row == old(self).entities.len() - 1 { None } else { Some(old(self).entities@.last()) }),
    {
        self.move_row(row, new_table)
    }

    /// Moves row `row` into `new_table`, dropping the values whose slot `new_table` lacks.
    pub fn move_to_and_drop_missing_unchecked(&mut self, row: usize, new_table: &mut Table) -> (r: TableMoveResult)
        requires
            old(self).wf(),
            old(new_table).wf(),
            row < old(self).entities.len(),
        ensures
            final(self).wf(),
            final(new_table).wf(),
            final(self).is_swap_removed(old(self), row as int),
            final(new_table).is_row_received(old(new_table), old(self), row as int),
            r.new_row == old(new_table).entities.len(),
            r.swapped_entity == (if row == old(self).entities.len() - 1 { None } else { Some(old(self).entities@.last()) }),
    {
        self.move_row(row, new_table)
    }

    /// Moves row `row` into `new_table`, which has every slot of this table.
    pub fn move_to_superset_unchecked(&mut self, row: usize, new_table: &mut Table) -> (r: TableMoveResult)
        requires
            old(self).wf(),
            old(new_table).wf(),
            row < old(self).entities.len(),
            forall|c: int| 0 <= c < old(self).columns.len() ==> old(new_table).has_slot(#[trigger] old(self).columns[c].relationship),
        ensures
            final(self).wf(),
            final(new_table).wf(),
            final(self).is_swap_removed(old(self), row as int),
            final(new_table).is_row_received(old(new_table), old(self), row as int),
            r.new_row == old(new_table).entities.len(),
            r.swapped_entity == (if row == old(self).entities.len() - 1 { None } else { Some(old(self).entities@.last()) }),
    {
        self.move_row(row, new_table)
    }

    /// Clamps the ticks of every row of every column; values and rows stay.
    pub fn check_change_ticks(&mut self, change_tick: u32)
        requires
            old(self).wf(),
        ensures
            final(self).wf(),
            final(self).same_shape(old(self)),
            final(self).entities@ == old(self).entities@,
            final(self).capacity == old(self).capacity,
            forall|c: int| 0 <= c < final(self).columns.len() ==> (#[trigger] final(self).columns[c]).data@ == old(self).columns[c].data@
                && final(self).columns[c].ticks@.len() == old(self).columns[c].ticks@.len(),
            forall|c: int, r: int| 0 <= c < final(self).columns.len() && 0 <= r < final(self).columns[c].ticks@.len() ==>
                #[trigger] final(self).columns[c].ticks@[r] == old(self).columns[c].ticks@[r].clamped(change_tick),
    {
        let mut i: usize = 0;
        while i < self.columns.len()
            invariant
                old(self).wf(),
                i <= self.columns.len(),
                self.columns.len() == old(self).columns.len(),
                self.entities@ == old(self).entities@,
                self.capacity == old(self).capacity,
                self.grow_amount == old(self).grow_amount,
                self.archetypes@ == old(self).archetypes@,
                forall|c: int| 0 <= c < self.columns.len() ==> (#[trigger] self.columns[c]).relationship == old(self).columns[c].relationship
                    && self.columns[c].layout == old(self).columns[c].layout && self.columns[c].wf()
                    && self.columns[c].data@ == old(self).columns[c].data@
                    && self.columns[c].ticks@.len() == old(self).columns[c].ticks@.len(),
                forall|c: int, r: int| 0 <= c < i && 0 <= r < self.columns[c].ticks@.len() ==>
                    #[trigger] self.columns[c].ticks@[r] == old(self).columns[c].ticks@[r].clamped(change_tick),
                forall|c: int| i <= c < self.columns.len() ==> #[trigger] self.columns[c] == old(self).columns[c],
            decreases self.columns.len() - i,
        {
            let ghost before = self.columns@;
            self.columns[i].check_change_ticks(change_tick);
            proof {
                assert forall|c: int, r: int| 0 <= c < i + 1 && 0 <= r < self.columns[c].ticks@.len() implies
                    #[trigger] self.columns[c].ticks@[r] == old(self).columns[c].ticks@[r].clamped(change_tick) by {
                    if c < i { assert(self.columns[c] == before[c]); }
                }
            }
            i = i + 1;
        }
    }

    /// Writes `value` with `ticks` into row `row` of the column of slot `(kind, target)`.
    /// False, changing nothing, when there is no such column or row.
    pub fn set_value(&mut self, kind: ComponentId, target: Option<Entity>, row: usize, value: Vec<u8>, ticks: ComponentTicks) -> (ok: bool)
        requires
            old(self).wf(),
        ensures
            final(self).wf(),
            ok == (old(self).has_slot(Slot { kind, target }) && row < old(self).entities.len()),
            !ok ==> *final(self) == *old(self),
            final(self).same_shape(old(self)),
            final(self).entities@ == old(self).entities@,
            final(self).capacity == old(self).capacity,
            ok ==> exists|c: int| 0 <= c < final(self).columns.len() && final(self).columns[c].relationship == (Slot { kind, target })
                && final(self).columns[c].data@ == old(self).columns[c].data@.update(row as int, value)
                && final(self).columns[c].ticks@ == old(self).columns[c].ticks@.update(row as int, ticks),
    {
        if row >= self.entities.len() {
            return false;
        }
        match self.column_index(kind, target) {
            None => false,
            Some(c) => {
                let ghost o = *self;
                proof { assert(self.columns[c as int].wf()); }
                self.columns[c].initialize(row, value, ticks);
                proof {
                    assert forall|c2: int| 0 <= c2 < self.columns.len() implies (#[trigger] self.columns[c2]).wf()
                        && self.columns[c2].data.len() == self.entities.len() by {
                        if c2 != c { assert(self.columns[c2] == o.columns[c2]); }
                    }
                    assert forall|c2: int, c3: int| 0 <= c2 < self.columns.len() && 0 <= c3 < self.columns.len() && c2 != c3
                        implies (#[trigger] self.columns[c2]).relationship != (#[trigger] self.columns[c3]).relationship by {
                        assert(o.columns[c2].relationship != o.columns[c3].relationship);
                    }
                    assert(self.columns[c as int].relationship == (Slot { kind, target }));
                }
                true
            },
        }
    }

    pub fn capacity(&self) -> (r: usize)
        ensures
            r == self.capacity,
    {
        self.capacity
    }

    pub fn len(&self) -> (r: usize)
        ensures
            r == self.entities.len(),
    {
        self.entities.len()
    }

    pub fn is_empty(&self) -> (r: bool)
        ensures
            r == (self.entities.len() == 0),
    {
        self.entities.len() == 0
    }
}


/// The slot lists are sorted and free of repeats.
pub open spec fn slot_lt(a: Slot, b: Slot) -> bool {
    a.kind.0 < b.kind.0 || (a.kind.0 == b.kind.0 && match (a.target, b.target) {
        (None, Some(_)) => true,
        (Some(x), Some(y)) => x.id < y.id || (x.id == y.id && x.generation < y.generation),
        _ => false,
    })
}

pub open spec fn slots_distinct(s: Seq<Slot>) -> bool {
    forall|i: int, j: int| 0 <= i < s.len() && 0 <= j < s.len() && i != j ==> s[i] != s[j]
}

/// Every slot of `s` has a registered slot kind.
pub open spec fn slots_registered(s: Seq<Slot>, components: &Components) -> bool {
    forall|i: int| 0 <= i < s.len() ==> components.contains_id(#[trigger] s[i].kind)
}

/// Grow amount of the tables that the arena creates.
pub const DEFAULT_GROW_AMOUNT: usize = 64;

/// Arena of tables, one per distinct slot list; table 0 has no columns.
pub struct Tables {
    pub tables: Vec<Table>,
}

fn has_slots(table: &Table, slots: &Vec<Slot>) -> (r: bool)
    ensures
        r == (table.slots() == slots@),
{
    if table.columns.len() != slots.len() {
        assert(table.slots().len() != slots@.len());
        return false;
    }
    let mut i: usize = 0;
    while i < slots.len()
        invariant
            i <= slots.len(),
            table.columns.len() == slots.len(),
            forall|j: int| 0 <= j < i ==> table.columns[j].relationship == slots@[j],
        decreases slots.len() - i,
    {
        if !slot_eq(&table.columns[i].relationship, &slots[i]) {
            assert(table.slots()[i as int] != slots@[i as int]);
            return false;
        }
        i = i + 1;
    }
    assert(table.slots() =~= slots@);
    true
}

impl Tables {
    pub open spec fn wf(&self) -> bool {
        &&& self.tables.len() >= 1
        &&& self.tables[0].columns.len() == 0
        &&& forall|t: int| 0 <= t < self.tables.len() ==> (#[trigger] self.tables[t]).wf()
    }

    /// The position of the first table whose slots are `slots`.
    pub open spec fn holds_slots(&self, t: int, slots: Seq<Slot>) -> bool {
        &&& 0 <= t < self.tables.len()
        &&& self.tables[t].slots() == slots
        &&& forall|u: int| 0 <= u < t ==> (#[trigger] self.tables[u]).slots() != slots
    }

    pub fn new() -> (r: Tables)
        ensures
            r.wf(),
            r.tables.len() == 1,
            r.tables[0].entities.len() == 0,
    {
        let mut tables = Vec::new();
        tables.push(Table::with_capacity(0, 0, DEFAULT_GROW_AMOUNT));
        Tables { tables }
    }

    pub fn len(&self) -> (r: usize)
        ensures
            r == self.tables.len(),
    {
        self.tables.len()
    }

    pub fn is_empty(&self) -> (r: bool)
        ensures
            r == (self.tables.len() == 0),
    {
        self.tables.len() == 0
    }

    pub fn get(&self, id: TableId) -> (r: Option<&Table>)
        ensures
            r is Some <==> id.0 < self.tables.len(),
            r matches Some(t) ==> *t == self.tables[id.0 as int],
    {
        if id.0 < self.tables.len() {
            Some(&self.tables[id.0])
        } else {
            None
        }
    }

    /// The table whose slots are exactly `slots`, created with one empty column per slot when
    /// there is none yet. The same slot list always yields the same table.
    pub fn get_id_or_insert(&mut self, slots: &Vec<Slot>, components: &Components) -> (r: TableId)
        requires
            old(self).wf(),
            components.wf(),
            slots_distinct(slots@),
            slots_registered(slots@, components),
        ensures
            final(self).wf(),
            final(self).holds_slots(r.0 as int, slots@),
            final(self).tables.len() >= old(self).tables.len(),
            forall|t: int| 0 <= t < old(self).tables.len() ==> #[trigger] final(self).tables[t] == old(self).tables[t],
            (exists|t: int| 0 <= t < old(self).tables.len() && (#[trigger] old(self).tables[t]).slots() == slots@)
                ==> *final(self) == *old(self),
            !(exists|t: int| 0 <= t < old(self).tables.len() && (#[trigger] old(self).tables[t]).slots() == slots@)
                ==> r.0 == old(self).tables.len() && final(self).tables.len() == old(self).tables.len() + 1
                    && final(self).tables[r.0 as int].entities.len() == 0,
    {
        let mut i: usize = 0;
        while i < self.tables.len()
            invariant
                i <= self.tables.len(),
                *self == *old(self),
                old(self).wf(),
                forall|u: int| 0 <= u < i ==> (#[trigger] self.tables[u]).slots() != slots@,
            decreases self.tables.len() - i,
        {
            if has_slots(&self.tables[i], slots) {
                return TableId(i);
            }
            i = i + 1;
        }
        let mut table = Table::with_capacity(0, slots.len(), DEFAULT_GROW_AMOUNT);
        let mut k: usize = 0;
        while k < slots.len()
            invariant
                k <= slots.len(),
                table.wf(),
                table.entities.len() == 0,
                table.slots() == slots@.take(k as int),
                slots_distinct(slots@),
                slots_registered(slots@, components),
            decreases slots.len() - k,
        {
            let (Slot { kind, target }) = slots[k];
            let layout = components.components[kind.0].data.layout;
            proof {
                if table.has_slot(Slot { kind, target }) {
                    let c = choose|c: int| 0 <= c < table.columns.len() && (#[trigger] table.columns[c]).relationship == (Slot { kind, target });
                    assert(table.slots().len() == table.columns.len());
                    assert(table.slots()[c] == table.columns[c].relationship);
                    assert(slots@.take(k as int)[c] == slots@[c]);
                }
            }
            table.add_column(kind, target, layout);
            assert(slots@.take(k + 1) =~= slots@.take(k as int).push(slots@[k as int]));
            k = k + 1;
        }
        assert(slots@.take(slots.len() as int) =~= slots@);
        self.tables.push(table);
        TableId(self.tables.len() - 1)
    }

    /// Moves row `row` of table `src` into a new row of table `dst` (see `Table::move_row`).
    pub fn move_row_between(&mut self, src: TableId, dst: TableId, row: usize) -> (r: TableMoveResult)
        requires
            old(self).wf(),
            src != dst,
            src.0 < old(self).tables.len(),
            dst.0 < old(self).tables.len(),
            row < old(self).tables[src.0 as int].entities.len(),
        ensures
            final(self).wf(),
            final(self).tables.len() == old(self).tables.len(),
            final(self).tables[src.0 as int].is_swap_removed(&old(self).tables[src.0 as int], row as int),
            final(self).tables[dst.0 as int].is_row_received(&old(self).tables[dst.0 as int], &old(self).tables[src.0 as int], row as int),
            forall|t: int| 0 <= t < final(self).tables.len() && t != src.0 && t != dst.0 ==> #[trigger] final(self).tables[t] == old(self).tables[t],
            r.new_row == old(self).tables[dst.0 as int].entities.len(),
            r.swapped_entity == (if row == old(self).tables[src.0 as int].entities.len() - 1 { None } else { Some(old(self).tables[src.0 as int].entities@.last()) }),
    {
        let mut taken = Table::new(1);
        self.tables.set_and_swap(dst.0, &mut taken);
        let mut source = Table::new(1);
        self.tables.set_and_swap(src.0, &mut source);
        let r = source.move_row(row, &mut taken);
        self.tables.set(src.0, source);
        self.tables.set(dst.0, taken);
        r
    }

    /// Clamps the ticks of every stored value of every table; values and rows stay.
    pub fn check_change_ticks(&mut self, change_tick: u32)
        requires
            old(self).wf(),
        ensures
            final(self).wf(),
            final(self).tables.len() == old(self).tables.len(),
            forall|t: int| 0 <= t < final(self).tables.len() ==> (#[trigger] final(self).tables[t]).same_shape(&old(self).tables[t])
                && final(self).tables[t].entities@ == old(self).tables[t].entities@,
            forall|t: int, c: int| 0 <= t < final(self).tables.len() && 0 <= c < final(self).tables[t].columns.len() ==>
                (#[trigger] final(self).tables[t].columns[c]).data@ == old(self).tables[t].columns[c].data@
                && final(self).tables[t].columns[c].ticks@.len() == old(self).tables[t].columns[c].ticks@.len(),
            forall|t: int, c: int, r: int| 0 <= t < final(self).tables.len() && 0 <= c < final(self).tables[t].columns.len()
                && 0 <= r < final(self).tables[t].columns[c].ticks@.len() ==>
                #[trigger] final(self).tables[t].columns[c].ticks@[r] == old(self).tables[t].columns[c].ticks@[r].clamped(change_tick),
    {
        let mut i: usize = 0;
        while i < self.tables.len()
            invariant
                i <= self.tables.len(),
                self.wf(),
                self.tables.len() == old(self).tables.len(),
                forall|t: int| 0 <= t < self.tables.len() ==> (#[trigger] self.tables[t]).same_shape(&old(self).tables[t])
                    && self.tables[t].entities@ == old(self).tables[t].entities@,
                forall|t: int| i <= t < self.tables.len() ==> #[trigger] self.tables[t] == old(self).tables[t],
                forall|t: int, c: int| 0 <= t < i && 0 <= c < self.tables[t].columns.len() ==>
                    (#[trigger] self.tables[t].columns[c]).data@ == old(self).tables[t].columns[c].data@
                    && self.tables[t].columns[c].ticks@.len() == old(self).tables[t].columns[c].ticks@.len(),
                forall|t: int, c: int, r: int| 0 <= t < i && 0 <= c < self.tables[t].columns.len()
                    && 0 <= r < self.tables[t].columns[c].ticks@.len() ==>
                    #[trigger] self.tables[t].columns[c].ticks@[r] == old(self).tables[t].columns[c].ticks@[r].clamped(change_tick),
            decreases self.tables.len() - i,
        {
            let mut t = Table::new(1);
            self.tables.set_and_swap(i, &mut t);
            t.check_change_ticks(change_tick);
            self.tables.set(i, t);
            i = i + 1;
        }
    }
}

} // verus!
