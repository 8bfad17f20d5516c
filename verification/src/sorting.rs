//! Sorting of identifiers by a key: a merge sort on pairs of key and
//! identifier that keeps pairs with the same key in the order in which they
//! came.

use vstd::prelude::*;
use vstd::seq_lib::*;

verus! {

broadcast use {vstd::multiset::group_multiset_axioms, vstd::seq_lib::group_to_multiset_ensures};

/// The keys of `s` never go down.
pub open spec fn ascending(s: Seq<(u64, u32)>) -> bool {
    forall|i: int, j: int| 0 <= i <= j < s.len() ==> s[i].0 <= s[j].0
}

/// The two ascending vectors in one: where the next keys are equal the pair
/// of `a` comes first.
fn merge(a: &Vec<(u64, u32)>, b: &Vec<(u64, u32)>) -> (r: Vec<(u64, u32)>)
    requires
        ascending(a@),
        ascending(b@),
    ensures
        ascending(r@),
        r@.to_multiset() == a@.to_multiset().add(b@.to_multiset()),
{
    let mut r: Vec<(u64, u32)> = Vec::new();
    let mut i: usize = 0;
    let mut j: usize = 0;
    assert(a@.take(0) =~= Seq::<(u64, u32)>::empty());
    assert(b@.take(0) =~= Seq::<(u64, u32)>::empty());
    assert(r@.to_multiset() =~= a@.take(0).to_multiset().add(b@.take(0).to_multiset()));
    while i < a.len() || j < b.len()
        invariant
            i <= a@.len(),
            j <= b@.len(),
            ascending(a@),
            ascending(b@),
            ascending(r@),
            r@.to_multiset() == a@.take(i as int).to_multiset().add(
                b@.take(j as int).to_multiset(),
            ),
            forall|x: int| 0 <= x < r@.len() && i < a@.len() ==> r@[x].0 <= a@[i as int].0,
            forall|x: int| 0 <= x < r@.len() && j < b@.len() ==> r@[x].0 <= b@[j as int].0,
        decreases a@.len() - i + b@.len() - j,
    {
        let from_a: bool = j >= b.len() || (i < a.len() && a[i].0 <= b[j].0);
        if from_a {
            proof {
                assert(a@.take(i + 1) == a@.take(i as int).push(a@[i as int]));
                to_multiset_build(a@.take(i as int), a@[i as int]);
                to_multiset_build(r@, a@[i as int]);
                assert(r@.push(a@[i as int]).to_multiset() =~= a@.take(i + 1).to_multiset().add(
                    b@.take(j as int).to_multiset(),
                ));
            }
            r.push(a[i]);
            i = i + 1;
        } else {
            proof {
                assert(b@.take(j + 1) == b@.take(j as int).push(b@[j as int]));
                to_multiset_build(b@.take(j as int), b@[j as int]);
                to_multiset_build(r@, b@[j as int]);
                assert(r@.push(b@[j as int]).to_multiset() =~= a@.take(i as int).to_multiset().add(
                    b@.take(j + 1).to_multiset(),
                ));
            }
            r.push(b[j]);
            j = j + 1;
        }
    }
    proof {
        assert(a@.take(i as int) == a@);
        assert(b@.take(j as int) == b@);
    }
    r
}

/// The pairs of `v` in ascending order of their keys.
pub fn sort_pairs(v: Vec<(u64, u32)>) -> (r: Vec<(u64, u32)>)
    ensures
        ascending(r@),
        r@.to_multiset() == v@.to_multiset(),
    decreases v@.len(),
{
    let n: usize = v.len();
    if n <= 1 {
        return v;
    }
    let mid: usize = n / 2;
    let mut left: Vec<(u64, u32)> = Vec::new();
    let mut right: Vec<(u64, u32)> = Vec::new();
    let mut k: usize = 0;
    while k < n
        invariant
            k <= n,
            n == v@.len(),
            0 < mid < n,
            left@ == v@.take(if k < mid {
                k as int
            } else {
                mid as int
            }),
            right@ == v@.subrange(
                mid as int,
                if k < mid {
                    mid as int
                } else {
                    k as int
                },
            ),
        decreases n - k,
    {
        if k < mid {
            left.push(v[k]);
            assert(left@ == v@.take(k + 1));
        } else {
            right.push(v[k]);
            assert(right@ == v@.subrange(mid as int, k + 1));
        }
        k = k + 1;
    }
    proof {
        assert(v@ == left@ + right@);
        lemma_multiset_commutative(left@, right@);
    }
    let l: Vec<(u64, u32)> = sort_pairs(left);
    let r: Vec<(u64, u32)> = sort_pairs(right);
    merge(&l, &r)
}

} // verus!
