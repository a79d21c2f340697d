use vstd::prelude::*;

use crate::table::{slot_lt, Slot};

verus! {

/// A type with a strict total order that executable code can test.
pub trait SortKey: Copy + Sized {
    spec fn key_lt(self, other: Self) -> bool;

    fn precedes(&self, other: &Self) -> (r: bool)
        ensures
            r == self.key_lt(*other);

    fn same(&self, other: &Self) -> (r: bool)
        ensures
            r == (*self == *other);

    proof fn lemma_order(a: Self, b: Self, c: Self)
        ensures
            !a.key_lt(a),
            a.key_lt(b) && b.key_lt(c) ==> a.key_lt(c),
            a != b ==> a.key_lt(b) || b.key_lt(a);
}

impl SortKey for i32 {
    open spec fn key_lt(self, other: Self) -> bool {
        self < other
    }

    fn precedes(&self, other: &Self) -> (r: bool) {
        *self < *other
    }

    fn same(&self, other: &Self) -> (r: bool) {
        *self == *other
    }

    proof fn lemma_order(a: Self, b: Self, c: Self) {
    }
}

impl SortKey for Slot {
    open spec fn key_lt(self, other: Self) -> bool {
        slot_lt(self, other)
    }

    fn precedes(&self, other: &Self) -> (r: bool) {
        if self.kind.0 != other.kind.0 {
            return self.kind.0 < other.kind.0;
        }
        match (self.target, other.target) {
            (None, Some(_)) => true,
            (Some(x), Some(y)) => x.id < y.id || (x.id == y.id && x.generation < y.generation),
            _ => false,
        }
    }

    fn same(&self, other: &Self) -> (r: bool) {
        crate::table::slot_eq(self, other)
    }

    proof fn lemma_order(a: Self, b: Self, c: Self) {
    }
}

/// Every element precedes every later one.
pub open spec fn is_sorted<T: SortKey>(s: Seq<T>) -> bool {
    forall|i: int, j: int| 0 <= i < j < s.len() ==> (#[trigger] s[i]).key_lt(#[trigger] s[j])
}

pub proof fn lemma_sorted_distinct<T: SortKey>(s: Seq<T>)
    requires
        is_sorted(s),
    ensures
        forall|i: int, j: int| 0 <= i < s.len() && 0 <= j < s.len() && i != j ==> s[i] != s[j],
{
    assert forall|i: int, j: int| 0 <= i < s.len() && 0 <= j < s.len() && i != j implies s[i] != s[j] by {
        T::lemma_order(s[i], s[j], s[j]);
        if i < j {
            assert(s[i].key_lt(s[j]));
        } else {
            assert(s[j].key_lt(s[i]));
        }
    }
}

/// Inserts `x` at its place in a sorted list that lacks it.
pub fn insert_sorted<T: SortKey>(v: &mut Vec<T>, x: T)
    requires
        is_sorted(old(v)@),
        !old(v)@.contains(x),
    ensures
        is_sorted(final(v)@),
        final(v)@.to_set() == old(v)@.to_set().insert(x),
        final(v)@.len() == old(v)@.len() + 1,
{
    let mut p: usize = 0;
    while p < v.len() && v[p].precedes(&x)
        invariant
            p <= v.len(),
            forall|k: int| 0 <= k < p ==> (#[trigger] v@[k]).key_lt(x),
        decreases v.len() - p,
    {
        p = p + 1;
    }
    proof {
        if p < v.len() {
            assert(v@[p as int] != x);
            T::lemma_order(v@[p as int], x, x);
        }
    }
    let ghost v0 = v@;
    v.insert(p, x);
    proof {
        assert forall|i: int, j: int| 0 <= i < j < v@.len() implies (#[trigger] v@[i]).key_lt(#[trigger] v@[j]) by {
            if j < p {
            } else if j == p {
            } else if i < p {
                T::lemma_order(v0[i], x, v0[p as int]);
                if j - 1 > p {
                    T::lemma_order(v0[i], v0[p as int], v0[j - 1]);
                }
            } else if i == p {
                if j - 1 > p {
                    T::lemma_order(x, v0[p as int], v0[j - 1]);
                }
            } else {
            }
        }
        assert(v@.to_set() =~= v0.to_set().insert(x)) by {
            assert forall|y: T| v@.contains(y) <==> v0.contains(y) || y == x by {
                if v@.contains(y) {
                    let k = choose|k: int| 0 <= k < v@.len() && v@[k] == y;
                    if k < p { assert(v0[k] == y); } else if k > p { assert(v0[k - 1] == y); }
                }
                if v0.contains(y) {
                    let k = choose|k: int| 0 <= k < v0.len() && v0[k] == y;
                    if k < p { assert(v@[k] == y); } else { assert(v@[k + 1] == y); }
                }
                if y == x { assert(v@[p as int] == x); }
            }
        }
    }
}

/// Removes from a sorted list every element of a sorted `remove` list, walking both once.
pub fn sorted_remove<T: SortKey>(source: &mut Vec<T>, remove: &[T])
    requires
        is_sorted(old(source)@),
        is_sorted(remove@),
    ensures
        is_sorted(final(source)@),
        forall|x: T| #[trigger] final(source)@.contains(x) <==> old(source)@.contains(x) && !remove@.contains(x),
        final(source)@.len() <= old(source)@.len(),
{
    let ghost src = source@;
    let mut out: Vec<T> = Vec::new();
    let mut remove_index: usize = 0;
    let mut i: usize = 0;
    while i < source.len()
        invariant
            source@ == src,
            is_sorted(src),
            is_sorted(remove@),
            i <= src.len(),
            remove_index <= remove@.len(),
            is_sorted(out@),
            out@.len() <= i,
            forall|k: int, j: int| 0 <= k < remove_index && i <= j < src.len() ==> (#[trigger] remove@[k]).key_lt(#[trigger] src[j]),
            forall|k: int| 0 <= k < out@.len() ==> exists|j: int| 0 <= j < i && src[j] == #[trigger] out@[k],
            forall|x: T| #[trigger] out@.contains(x) <==> (exists|j: int| 0 <= j < i && src[j] == x) && !remove@.contains(x),
        decreases src.len() - i,
    {
        let value = source[i];
        while remove_index < remove.len() && remove[remove_index].precedes(&value)
            invariant
                source@ == src,
                is_sorted(src),
                is_sorted(remove@),
                i < src.len(),
                value == src[i as int],
                remove_index <= remove@.len(),
                forall|k: int, j: int| 0 <= k < remove_index && i <= j < src.len() ==> (#[trigger] remove@[k]).key_lt(#[trigger] src[j]),
            decreases remove@.len() - remove_index,
        {
            proof {
                assert forall|k: int, j: int| 0 <= k < remove_index + 1 && i <= j < src.len() implies (#[trigger] remove@[k]).key_lt(#[trigger] src[j]) by {
                    if k == remove_index && j > i {
                        T::lemma_order(remove@[k], src[i as int], src[j]);
                    }
                }
            }
            remove_index = remove_index + 1;
        }
        let keep = if remove_index < remove.len() { !remove[remove_index].same(&value) } else { true };
        proof {
            if keep {
                assert forall|k: int| 0 <= k < remove@.len() implies remove@[k] != value by {
                    T::lemma_order(remove@[k], value, value);
                    if k >= remove_index {
                        T::lemma_order(value, remove@[remove_index as int], remove@[k]);
                        T::lemma_order(remove@[remove_index as int], value, value);
                    }
                }
            } else {
                assert(remove@[remove_index as int] == value);
            }
        }
        let ghost out0 = out@;
        if keep {
            proof {
                assert forall|k: int| 0 <= k < out0.len() implies (#[trigger] out0[k]).key_lt(value) by {
                    let j = choose|j: int| 0 <= j < i && src[j] == out0[k];
                }
            }
            out.push(value);
        }
        proof {
            assert forall|k: int, j: int| 0 <= k < remove_index && i + 1 <= j < src.len() implies (#[trigger] remove@[k]).key_lt(#[trigger] src[j]) by {}
            assert forall|k: int| 0 <= k < out@.len() implies exists|j: int| 0 <= j < i + 1 && src[j] == #[trigger] out@[k] by {
                if k < out0.len() {
                    assert(out@[k] == out0[k]);
                } else {
                    assert(src[i as int] == out@[k]);
                }
            }
            assert forall|x: T| #[trigger] out@.contains(x) <==> (exists|j: int| 0 <= j < i + 1 && src[j] == x) && !remove@.contains(x) by {
                if out@.contains(x) {
                    let k = choose|k: int| 0 <= k < out@.len() && out@[k] == x;
                    if k < out0.len() { assert(out0[k] == x); assert(out0.contains(x)); }
                }
                if (exists|j: int| 0 <= j < i + 1 && src[j] == x) && !remove@.contains(x) {
                    let j = choose|j: int| 0 <= j < i + 1 && src[j] == x;
                    if j < i {
                        assert(out0.contains(x));
                        let k = choose|k: int| 0 <= k < out0.len() && out0[k] == x;
                        assert(out@[k] == x);
                    } else {
                        if !keep {
                            assert(remove@[remove_index as int] == x);
                        }
                        assert(out@[out@.len() - 1] == x);
                    }
                }
            }
        }
        i = i + 1;
    }
    proof {
        assert forall|x: T| #[trigger] out@.contains(x) <==> src.contains(x) && !remove@.contains(x) by {
            if src.contains(x) {
                let j = choose|j: int| 0 <= j < src.len() && src[j] == x;
                assert(exists|j2: int| 0 <= j2 < i && src[j2] == x);
            }
        }
    }
    *source = out;
}

} // verus!
