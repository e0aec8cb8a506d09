//! Sorting of keyed entries.
use vstd::prelude::*;

verus! {

/// The keys of `v` are in non-decreasing order.
pub open spec fn sorted_by_key<T>(v: Seq<(u64, T)>) -> bool {
    forall|i: int, j: int| 0 <= i <= j < v.len() ==> (#[trigger] v[i]).0 <= (#[trigger] v[j]).0
}

/// Merges two key-sorted runs.
pub fn merge_runs<T: Copy>(a: &Vec<(u64, T)>, b: &Vec<(u64, T)>) -> (r: Vec<(u64, T)>)
    requires
        sorted_by_key(a@),
        sorted_by_key(b@),
    ensures
        sorted_by_key(r@),
        r@.len() == a@.len() + b@.len(),
        forall|k: int| 0 <= k < r@.len() ==> a@.contains(#[trigger] r@[k]) || b@.contains(r@[k]),
{
    let mut r: Vec<(u64, T)> = Vec::new();
    let mut i: usize = 0;
    let mut j: usize = 0;
    while i < a.len() || j < b.len()
        invariant
            sorted_by_key(a@),
            sorted_by_key(b@),
            i <= a@.len(),
            j <= b@.len(),
            r@.len() == i + j,
            sorted_by_key(r@),
            r@.len() > 0 && i < a@.len() ==> r@.last().0 <= a@[i as int].0,
            r@.len() > 0 && j < b@.len() ==> r@.last().0 <= b@[j as int].0,
            forall|k: int| 0 <= k < r@.len() ==> a@.contains(#[trigger] r@[k]) || b@.contains(r@[k]),
        decreases a@.len() - i + b@.len() - j,
    {
        let take_a = if i < a.len() && j < b.len() {
            a[i].0 <= b[j].0
        } else {
            i < a.len()
        };
        let ghost r0 = r@;
        if take_a {
            r.push(a[i]);
            proof {
                assert(a@.contains(a@[i as int]));
                assert forall|x: int, y: int| 0 <= x <= y < r@.len() implies (#[trigger] r@[x]).0 <= (#[trigger] r@[y]).0 by {
                    if y == r@.len() - 1 && x < y {
                        assert(r0[x].0 <= r0.last().0);
                    }
                }
            }
            i = i + 1;
        } else {
            r.push(b[j]);
            proof {
                assert(b@.contains(b@[j as int]));
                assert forall|x: int, y: int| 0 <= x <= y < r@.len() implies (#[trigger] r@[x]).0 <= (#[trigger] r@[y]).0 by {
                    if y == r@.len() - 1 && x < y {
                        assert(r0[x].0 <= r0.last().0);
                    }
                }
            }
            j = j + 1;
        }
    }
    r
}

/// Sorts entries by key (merge sort).
pub fn sort_by_key<T: Copy>(v: Vec<(u64, T)>) -> (r: Vec<(u64, T)>)
    ensures
        sorted_by_key(r@),
        r@.len() == v@.len(),
        forall|k: int| 0 <= k < r@.len() ==> v@.contains(#[trigger] r@[k]),
    decreases v@.len(),
{
    if v.len() <= 1 {
        proof {
            assert forall|k: int| 0 <= k < v@.len() implies v@.contains(#[trigger] v@[k]) by {}
        }
        return v;
    }
    let mid = v.len() / 2;
    let mut left: Vec<(u64, T)> = Vec::new();
    let mut right: Vec<(u64, T)> = Vec::new();
    let mut i: usize = 0;
    while i < v.len()
        invariant
            i <= v@.len(),
            mid == v@.len() / 2,
            left@.len() == if i < mid { i as int } else { mid as int },
            right@.len() == if i < mid { 0 } else { i - mid },
            forall|k: int| 0 <= k < left@.len() ==> v@.contains(#[trigger] left@[k]),
            forall|k: int| 0 <= k < right@.len() ==> v@.contains(#[trigger] right@[k]),
        decreases v@.len() - i,
    {
        proof {
            assert(v@.contains(v@[i as int]));
        }
        if i < mid {
            left.push(v[i]);
        } else {
            right.push(v[i]);
        }
        i = i + 1;
    }
    let ls = sort_by_key(left);
    let rs = sort_by_key(right);
    let m = merge_runs(&ls, &rs);
    proof {
        assert forall|k: int| 0 <= k < m@.len() implies v@.contains(#[trigger] m@[k]) by {
            if ls@.contains(m@[k]) {
                let x = choose|x: int| 0 <= x < ls@.len() && ls@[x] == m@[k];
                assert(left@.contains(ls@[x]));
                let y = choose|y: int| 0 <= y < left@.len() && left@[y] == ls@[x];
                assert(v@.contains(left@[y]));
            } else {
                let x = choose|x: int| 0 <= x < rs@.len() && rs@[x] == m@[k];
                assert(right@.contains(rs@[x]));
                let y = choose|y: int| 0 <= y < right@.len() && right@[y] == rs@[x];
                assert(v@.contains(right@[y]));
            }
        }
    }
    m
}

} // verus!
