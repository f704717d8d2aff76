//! Stable ordering by numeric keys.

use vstd::prelude::*;

verus! {

/// A sort key: compared by its first part, then its second, then its third.
pub type Key = (u64, u64, u64);

/// One key is smaller than another.
pub open spec fn key_less(a: Key, b: Key) -> bool {
    a.0 < b.0 || (a.0 == b.0 && (a.1 < b.1 || (a.1 == b.1 && a.2 < b.2)))
}

/// The item at `i` comes before the item at `j`: its key is smaller, or the keys
/// are equal and it was there first.
pub open spec fn precedes(keys: Seq<Key>, i: int, j: int) -> bool {
    key_less(keys[i], keys[j]) || (keys[i] == keys[j] && i < j)
}

/// The places listed in `r` are in the order of their keys.
pub open spec fn in_key_order(r: Seq<usize>, keys: Seq<Key>) -> bool {
    forall|a: int, b: int|
        #![trigger r[a], r[b]]
        0 <= a < b < r.len() ==> precedes(keys, r[a] as int, r[b] as int)
}

/// `r` lists every place of `keys` once, in the stable order of the keys.
pub open spec fn is_order(r: Seq<usize>, keys: Seq<Key>) -> bool {
    &&& r.len() == keys.len()
    &&& forall|a: int| 0 <= a < r.len() ==> (#[trigger] r[a]) < keys.len()
    &&& in_key_order(r, keys)
}

fn key_before(a: Key, b: Key) -> (r: bool)
    ensures
        r == key_less(a, b),
{
    a.0 < b.0 || (a.0 == b.0 && (a.1 < b.1 || (a.1 == b.1 && a.2 < b.2)))
}

/// The places of `keys` in the stable order of the keys.
pub fn order_of(keys: &Vec<Key>) -> (r: Vec<usize>)
    ensures
        is_order(r@, keys@),
{
    order_between(keys, 0, keys.len())
}

fn order_between(keys: &Vec<Key>, lo: usize, hi: usize) -> (r: Vec<usize>)
    requires
        lo <= hi <= keys@.len(),
    ensures
        r@.len() == hi - lo,
        forall|a: int| 0 <= a < r@.len() ==> lo <= (#[trigger] r@[a]) < hi,
        in_key_order(r@, keys@),
    decreases hi - lo,
{
    let mut out: Vec<usize> = Vec::new();
    if hi - lo == 0 {
        return out;
    }
    if hi - lo == 1 {
        out.push(lo);
        return out;
    }
    let mid: usize = lo + (hi - lo) / 2;
    let left: Vec<usize> = order_between(keys, lo, mid);
    let right: Vec<usize> = order_between(keys, mid, hi);
    let mut i: usize = 0;
    let mut j: usize = 0;
    while i < left.len() || j < right.len()
        invariant
            lo <= mid <= hi <= keys@.len(),
            i <= left@.len(),
            j <= right@.len(),
            left@.len() == mid - lo,
            right@.len() == hi - mid,
            forall|a: int| 0 <= a < left@.len() ==> lo <= (#[trigger] left@[a]) < mid,
            forall|a: int| 0 <= a < right@.len() ==> mid <= (#[trigger] right@[a]) < hi,
            in_key_order(left@, keys@),
            in_key_order(right@, keys@),
            out@.len() == i + j,
            forall|a: int| 0 <= a < out@.len() ==> lo <= (#[trigger] out@[a]) < hi,
            in_key_order(out@, keys@),
            forall|a: int, b: int|
                #![trigger out@[a], left@[b]]
                0 <= a < out@.len() && i <= b < left@.len() ==> precedes(
                    keys@,
                    out@[a] as int,
                    left@[b] as int,
                ),
            forall|a: int, b: int|
                #![trigger out@[a], right@[b]]
                0 <= a < out@.len() && j <= b < right@.len() ==> precedes(
                    keys@,
                    out@[a] as int,
                    right@[b] as int,
                ),
        decreases left@.len() - i + right@.len() - j,
    {
        let take_left: bool = j >= right.len() || (i < left.len() && !key_before(
            keys[right[j]],
            keys[left[i]],
        ));
        if take_left {
            out.push(left[i]);
            i += 1;
        } else {
            out.push(right[j]);
            j += 1;
        }
    }
    out
}

/// Nothing is left out of an order: every place is listed.
pub proof fn order_lists_every_place(r: Seq<usize>, keys: Seq<Key>, i: int)
    requires
        is_order(r, keys),
        0 <= i < keys.len(),
    ensures
        exists|a: int| 0 <= a < r.len() && (#[trigger] r[a]) == i,
{
    let ints = Seq::new(r.len(), |a: int| r[a] as int);
    assert forall|a: int, b: int| 0 <= a < b < ints.len() implies ints[a] != ints[b] by {
        assert(precedes(keys, r[a] as int, r[b] as int));
    }
    assert(ints.no_duplicates());
    ints.unique_seq_to_set();
    let n = keys.len() as int;
    let all = vstd::set_lib::set_int_range(0, n);
    vstd::set_lib::lemma_int_range(0, n);
    assert(ints.to_set().subset_of(all)) by {
        assert forall|x: int| ints.to_set().contains(x) implies all.contains(x) by {
            let a = choose|a: int| 0 <= a < ints.len() && ints[a] == x;
            assert(r[a] < keys.len());
        }
    }
    vstd::set_lib::lemma_subset_equality(ints.to_set(), all);
    assert(all.contains(i));
    assert(ints.to_set().contains(i));
    let a = choose|a: int| 0 <= a < ints.len() && ints[a] == i;
    assert(r[a] == i);
}

} // verus!
