//! In-place quicksort over index ranges of a vector: the Lomuto
//! partitioner, the recursive sort driver, and a sortedness checker.

use vstd::prelude::*;
use vstd::multiset::group_multiset_axioms;
use vstd::multiset::group_multiset_properties;
use vstd::seq_lib::group_to_multiset_ensures;
use vstd::seq_lib::lemma_multiset_commutative;
use vstd::seq_lib::lemma_sorted_unique;
use vstd::relations::sorted_by;
use vstd::relations::total_ordering;

verus! {

/// `s` is non-decreasing on the index range `[lo, hi)`.
pub open spec fn sorted_between(s: Seq<i32>, lo: int, hi: int) -> bool {
    forall|a: int, b: int| lo <= a <= b < hi ==> s[a] <= s[b]
}

/// `s` is non-decreasing everywhere.
pub open spec fn sorted(s: Seq<i32>) -> bool {
    sorted_between(s, 0, s.len() as int)
}

/// Exchange the elements at positions `a` and `b`.
fn swap_elems(vec: &mut Vec<i32>, a: usize, b: usize)
    requires
        a < old(vec).len(),
        b < old(vec).len(),
    ensures
        final(vec)@ == old(vec)@.update(a as int, old(vec)@[b as int]).update(
            b as int,
            old(vec)@[a as int],
        ),
{
    let x: i32 = vec[a];
    let y: i32 = vec[b];
    vec.set(a, y);
    vec.set(b, x);
}

/// Exchanging two positions of a sequence leaves its multiset unchanged.
proof fn lemma_swap_multiset(u: Seq<i32>, x: int, y: int)
    requires
        0 <= x < u.len(),
        0 <= y < u.len(),
    ensures
        u.update(x, u[y]).update(y, u[x]).to_multiset() == u.to_multiset(),
{
    broadcast use group_multiset_axioms;
    broadcast use group_multiset_properties;
    broadcast use group_to_multiset_ensures;

    if x == y {
        assert(u.update(x, u[y]).update(y, u[x]) =~= u);
    } else {
        let u1 = u.update(x, u[y]);
        assert(u.contains(u[x]));
        assert(u.to_multiset().count(u[x]) > 0);
        assert(u.contains(u[y]));
        assert(u.to_multiset().count(u[y]) > 0);
        assert(u1[y] == u[y]);
        assert(u1.to_multiset() == u.to_multiset().insert(u[y]).remove(u[x]));
        assert(u1.update(y, u[x]).to_multiset() == u1.to_multiset().insert(u[x]).remove(u1[y]));
        assert(u.to_multiset().insert(u[y]).remove(u[x]).insert(u[x]).remove(u[y])
            =~= u.to_multiset());
    }
}

/// Exchanging two positions inside `[lo, hi)` leaves the multiset of
/// that range unchanged.
proof fn lemma_swap_multiset_in_range(s: Seq<i32>, lo: int, hi: int, a: int, b: int)
    requires
        0 <= lo <= a < hi <= s.len(),
        lo <= b < hi,
    ensures
        s.update(a, s[b]).update(b, s[a]).subrange(lo, hi).to_multiset() == s.subrange(
            lo,
            hi,
        ).to_multiset(),
{
    let u = s.subrange(lo, hi);
    assert(s.update(a, s[b]).update(b, s[a]).subrange(lo, hi) =~= u.update(a - lo, u[b - lo]).update(
        b - lo,
        u[a - lo],
    ));
    lemma_swap_multiset(u, a - lo, b - lo);
}

/// If `t` agrees with `s` on `[lo, mlo)` and `[mhi, hi)` and keeps the
/// multiset of `[mlo, mhi)`, then it keeps the multiset of `[lo, hi)`.
proof fn lemma_multiset_frame(s: Seq<i32>, t: Seq<i32>, lo: int, mlo: int, mhi: int, hi: int)
    requires
        0 <= lo <= mlo <= mhi <= hi <= s.len(),
        t.len() == s.len(),
        forall|k: int| lo <= k < mlo ==> t[k] == s[k],
        forall|k: int| mhi <= k < hi ==> t[k] == s[k],
        t.subrange(mlo, mhi).to_multiset() == s.subrange(mlo, mhi).to_multiset(),
    ensures
        t.subrange(lo, hi).to_multiset() == s.subrange(lo, hi).to_multiset(),
{
    assert(t.subrange(lo, mlo) =~= s.subrange(lo, mlo));
    assert(t.subrange(mhi, hi) =~= s.subrange(mhi, hi));
    assert(t.subrange(lo, hi) =~= t.subrange(lo, mlo) + t.subrange(mlo, mhi) + t.subrange(mhi, hi));
    assert(s.subrange(lo, hi) =~= s.subrange(lo, mlo) + s.subrange(mlo, mhi) + s.subrange(mhi, hi));
    lemma_multiset_commutative(t.subrange(lo, mlo) + t.subrange(mlo, mhi), t.subrange(mhi, hi));
    lemma_multiset_commutative(t.subrange(lo, mlo), t.subrange(mlo, mhi));
    lemma_multiset_commutative(s.subrange(lo, mlo) + s.subrange(mlo, mhi), s.subrange(mhi, hi));
    lemma_multiset_commutative(s.subrange(lo, mlo), s.subrange(mlo, mhi));
}

/// An upper bound on every element of `s` bounds every element of any
/// `t` with the same multiset.
proof fn lemma_multiset_le_bound(s: Seq<i32>, t: Seq<i32>, v: i32)
    requires
        s.to_multiset() == t.to_multiset(),
        forall|k: int| 0 <= k < s.len() ==> #[trigger] s[k] <= v,
    ensures
        forall|k: int| 0 <= k < t.len() ==> #[trigger] t[k] <= v,
{
    broadcast use group_to_multiset_ensures;

    assert forall|k: int| 0 <= k < t.len() implies #[trigger] t[k] <= v by {
        assert(t.contains(t[k]));
        assert(s.to_multiset().count(t[k]) > 0);
        assert(s.contains(t[k]));
        let j = choose|j: int| 0 <= j < s.len() && s[j] == t[k];
        assert(s[j] <= v);
    }
}

/// A strict lower bound on every element of `s` bounds every element of
/// any `t` with the same multiset.
proof fn lemma_multiset_gt_bound(s: Seq<i32>, t: Seq<i32>, v: i32)
    requires
        s.to_multiset() == t.to_multiset(),
        forall|k: int| 0 <= k < s.len() ==> #[trigger] s[k] > v,
    ensures
        forall|k: int| 0 <= k < t.len() ==> #[trigger] t[k] > v,
{
    broadcast use group_to_multiset_ensures;

    assert forall|k: int| 0 <= k < t.len() implies #[trigger] t[k] > v by {
        assert(t.contains(t[k]));
        assert(s.to_multiset().count(t[k]) > 0);
        assert(s.contains(t[k]));
        let j = choose|j: int| 0 <= j < s.len() && s[j] == t[k];
        assert(s[j] > v);
    }
}

/// Lomuto partition of the range `[lo, hi)` around the value at
/// `hi - 1`. Returns the pivot's final position `p`: afterwards every
/// element of the range left of `p` is `<=` the pivot value, the pivot
/// value sits at `p`, and every element right of `p` up to `hi` is
/// strictly greater. The range keeps its multiset of values and nothing
/// outside it moves.
pub fn partition(vec: &mut Vec<i32>, lo: usize, hi: usize) -> (p: usize)
    requires
        lo + 2 <= hi,
        hi <= old(vec).len(),
    ensures
        final(vec).len() == old(vec).len(),
        lo <= p < hi,
        final(vec)@[p as int] == old(vec)@[hi - 1],
        forall|k: int| lo <= k < p ==> final(vec)@[k] <= final(vec)@[p as int],
        forall|k: int| p < k < hi ==> final(vec)@[k] > final(vec)@[p as int],
        final(vec)@.subrange(lo as int, hi as int).to_multiset() == old(vec)@.subrange(
            lo as int,
            hi as int,
        ).to_multiset(),
        forall|k: int|
            0 <= k < old(vec).len() && !(lo <= k < hi) ==> final(vec)@[k] == old(vec)@[k],
{
    let r: usize = hi - 1;
    let mut i: usize = lo;
    let mut j: usize = lo;
    while j < r
        invariant
            lo <= i <= j <= r,
            r == hi - 1,
            lo + 2 <= hi,
            hi <= vec.len(),
            vec.len() == old(vec).len(),
            vec@[r as int] == old(vec)@[r as int],
            forall|k: int| lo <= k < i ==> vec@[k] <= vec@[r as int],
            forall|k: int| i <= k < j ==> vec@[k] > vec@[r as int],
            vec@.subrange(lo as int, hi as int).to_multiset() == old(vec)@.subrange(
                lo as int,
                hi as int,
            ).to_multiset(),
            forall|k: int| 0 <= k < vec.len() && !(lo <= k < hi) ==> vec@[k] == old(vec)@[k],
        decreases r - j,
    {
        if vec[j] <= vec[r] {
            let ghost pre = vec@;
            swap_elems(vec, i, j);
            proof {
                lemma_swap_multiset_in_range(pre, lo as int, hi as int, i as int, j as int);
            }
            i += 1;
        }
        j += 1;
    }
    let ghost pre = vec@;
    swap_elems(vec, i, r);
    proof {
        lemma_swap_multiset_in_range(pre, lo as int, hi as int, i as int, r as int);
    }
    i
}

/// Sort the range `[lo, hi)` of `vec` in place by recursive Lomuto
/// quicksort: ranges shorter than two elements are left alone, longer
/// ones are partitioned and the two sides sorted, the pivot staying
/// put. The range becomes non-decreasing, keeps its multiset of values,
/// and nothing outside it moves.
pub fn quicksort(vec: &mut Vec<i32>, lo: usize, hi: usize)
    requires
        lo <= hi,
        hi <= old(vec).len(),
    ensures
        final(vec).len() == old(vec).len(),
        sorted_between(final(vec)@, lo as int, hi as int),
        final(vec)@.subrange(lo as int, hi as int).to_multiset() == old(vec)@.subrange(
            lo as int,
            hi as int,
        ).to_multiset(),
        forall|k: int|
            0 <= k < old(vec).len() && !(lo <= k < hi) ==> final(vec)@[k] == old(vec)@[k],
    decreases hi - lo,
{
    if hi - lo < 2 {
        return ;
    }
    let p: usize = partition(vec, lo, hi);
    let ghost v1 = vec@;
    let ghost pivot = v1[p as int];
    quicksort(vec, lo, p);
    let ghost v2 = vec@;
    quicksort(vec, p + 1, hi);
    let ghost v3 = vec@;
    proof {
        // The left range still holds only values <= the pivot.
        assert forall|k: int| 0 <= k < v1.subrange(lo as int, p as int).len() implies #[trigger] (
        v1.subrange(lo as int, p as int)[k]) <= pivot by {
            assert(v1[lo + k] <= pivot);
        }
        lemma_multiset_le_bound(
            v1.subrange(lo as int, p as int),
            v2.subrange(lo as int, p as int),
            pivot,
        );
        // The right range still holds only values > the pivot.
        assert(v2.subrange(p + 1, hi as int) =~= v1.subrange(p + 1, hi as int));
        assert forall|k: int| 0 <= k < v2.subrange(p + 1, hi as int).len() implies #[trigger] (
        v2.subrange(p + 1, hi as int)[k]) > pivot by {
            assert(v1[p + 1 + k] > pivot);
        }
        lemma_multiset_gt_bound(
            v2.subrange(p + 1, hi as int),
            v3.subrange(p + 1, hi as int),
            pivot,
        );
        // The whole range keeps its multiset through both recursive calls.
        lemma_multiset_frame(v1, v2, lo as int, lo as int, p as int, hi as int);
        lemma_multiset_frame(v2, v3, lo as int, p + 1, hi as int, hi as int);
        // The pivot never moved, and the sorted left side did not either.
        assert(v3[p as int] == pivot);
        assert forall|a: int, b: int| lo <= a <= b < hi implies v3[a] <= v3[b] by {
            if a < p {
                assert(v2.subrange(lo as int, p as int)[a - lo] <= pivot);
                assert(v3[a] == v2[a]);
            }
            if b > p {
                assert(v3.subrange(p + 1, hi as int)[b - (p + 1)] > pivot);
            }
            if b < p {
                assert(v3[a] == v2[a] && v3[b] == v2[b]);
            } else if a > p {
                // both lie in the right range, sorted by the second call
            } else if a < p && b == p {
                assert(v3[a] <= pivot);
            } else if a < p && b > p {
                assert(v3[a] <= pivot && v3[b] > pivot);
            } else if a == p && b > p {
                assert(v3[b] > pivot);
            }
        }
    }
}

/// True exactly when the whole vector is non-decreasing: adjacent pairs
/// are scanned from the left and the first strict decrease answers
/// false; empty and single-element vectors are trivially sorted.
pub fn is_sorted(vec: &Vec<i32>) -> (r: bool)
    ensures
        r == sorted(vec@),
{
    if vec.len() == 0 {
        return true;
    }
    let mut i: usize = 1;
    while i < vec.len()
        invariant
            1 <= i <= vec.len(),
            sorted_between(vec@, 0, i as int),
        decreases vec.len() - i,
    {
        if vec[i] < vec[i - 1] {
            assert(vec@[i - 1] > vec@[i as int]);
            return false;
        }
        i += 1;
    }
    true
}

/// Sorting leaves an already-sorted sequence exactly as it was: a
/// sorted rearrangement of a sorted sequence is that sequence itself.
pub proof fn lemma_sort_idempotent(pre: Seq<i32>, post: Seq<i32>)
    requires
        sorted(pre),
        sorted(post),
        post.to_multiset() == pre.to_multiset(),
    ensures
        post == pre,
{
    let leq = (|x: i32, y: i32| x <= y);
    assert(total_ordering(leq)) by {
        assert forall|x: i32| #[trigger] leq(x, x) by {}
        assert forall|x: i32, y: i32| #[trigger] leq(x, y) && #[trigger] leq(y, x) implies x
            == y by {}
        assert forall|x: i32, y: i32, z: i32|
            #[trigger] leq(x, y) && #[trigger] leq(y, z) implies leq(x, z) by {}
        assert forall|x: i32, y: i32| #[trigger] leq(x, y) || #[trigger] leq(y, x) by {}
    }
    assert forall|a: int, b: int| 0 <= a < b < pre.len() implies #[trigger] leq(
        pre[a],
        pre[b],
    ) by {}
    assert forall|a: int, b: int| 0 <= a < b < post.len() implies #[trigger] leq(
        post[a],
        post[b],
    ) by {}
    lemma_sorted_unique(post, pre, leq);
    assert(post =~= pre);
}

/// Sorting a sequence of length zero or one is a no-op: any sequence
/// with the same multiset of values is that sequence itself.
pub proof fn lemma_sort_base_case(pre: Seq<i32>, post: Seq<i32>)
    requires
        pre.len() <= 1,
        post.to_multiset() == pre.to_multiset(),
    ensures
        post == pre,
{
    broadcast use group_to_multiset_ensures;

    assert(post.len() == post.to_multiset().len());
    assert(pre.len() == pre.to_multiset().len());
    lemma_sort_idempotent(pre, post);
}

} // verus!
