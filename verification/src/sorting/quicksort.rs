//! An in-place partition-exchange sort over `i32` values: the result is
//! non-decreasing and a rearrangement of the input, stated as equality of the
//! multisets of elements.

use vstd::prelude::*;
use vstd::seq_lib::group_to_multiset_ensures;
use vstd::seq_lib::lemma_multiset_commutative;
use vstd::multiset::group_multiset_axioms;
use vstd::multiset::group_multiset_properties;

verus! {

/// Whether `s` is non-decreasing between positions `lo` (inclusive) and `hi`
/// (exclusive).
pub open spec fn sorted_between(s: Seq<i32>, lo: int, hi: int) -> bool {
    forall|x: int, y: int| lo <= x <= y < hi ==> #[trigger] s[x] <= #[trigger] s[y]
}

/// Whether `s` is non-decreasing throughout.
pub open spec fn sorted(s: Seq<i32>) -> bool {
    sorted_between(s, 0, s.len() as int)
}

/// Exchanges the elements at positions `i` and `j`.
fn swap_values(arr: &mut Vec<i32>, i: usize, j: usize)
    requires
        i < old(arr)@.len(),
        j < old(arr)@.len(),
    ensures
        final(arr)@ == old(arr)@.update(i as int, old(arr)@[j as int]).update(
            j as int,
            old(arr)@[i as int],
        ),
{
    let a = arr[i];
    let b = arr[j];
    arr[i] = b;
    arr[j] = a;
}

/// Exchanging two elements of a sequence leaves its multiset of elements
/// unchanged.
proof fn lemma_swap_multiset(s: Seq<i32>, i: int, j: int)
    requires
        0 <= i < s.len(),
        0 <= j < s.len(),
    ensures
        s.update(i, s[j]).update(j, s[i]).to_multiset() == s.to_multiset(),
{
    broadcast use group_to_multiset_ensures, group_multiset_axioms, group_multiset_properties;

    if i == j {
        assert(s.update(i, s[j]).update(j, s[i]) =~= s);
    } else {
        let s1 = s.update(i, s[j]);
        assert(s.contains(s[i]));
        assert(s.contains(s[j]));
        assert(s1.to_multiset() == s.to_multiset().insert(s[j]).remove(s[i]));
        assert(s1.update(j, s[i]).to_multiset() == s1.to_multiset().insert(s[i]).remove(s1[j]));
        assert(s1.update(j, s[i]).to_multiset() =~= s.to_multiset());
    }
}

/// A change confined to positions `a..b` that permutes those elements also
/// permutes the elements of any enclosing range `lo..hi`.
proof fn lemma_frame_multiset(s: Seq<i32>, t: Seq<i32>, lo: int, a: int, b: int, hi: int)
    requires
        s.len() == t.len(),
        0 <= lo <= a <= b <= hi <= s.len(),
        t.subrange(a, b).to_multiset() == s.subrange(a, b).to_multiset(),
        forall|k: int| lo <= k < a ==> t[k] == s[k],
        forall|k: int| b <= k < hi ==> t[k] == s[k],
    ensures
        t.subrange(lo, hi).to_multiset() == s.subrange(lo, hi).to_multiset(),
{
    broadcast use lemma_multiset_commutative;

    assert(s.subrange(lo, hi) =~= s.subrange(lo, a) + s.subrange(a, b) + s.subrange(b, hi));
    assert(t.subrange(lo, hi) =~= t.subrange(lo, a) + t.subrange(a, b) + t.subrange(b, hi));
    assert(t.subrange(lo, a) =~= s.subrange(lo, a));
    assert(t.subrange(b, hi) =~= s.subrange(b, hi));
}

/// An exchange of positions `i` and `j`, both inside `lo..hi`, permutes the
/// elements of `lo..hi`.
proof fn lemma_swap_frame(s: Seq<i32>, t: Seq<i32>, lo: int, hi: int, i: int, j: int)
    requires
        0 <= lo <= i < hi <= s.len(),
        lo <= j < hi,
        t == s.update(i, s[j]).update(j, s[i]),
    ensures
        t.subrange(lo, hi).to_multiset() == s.subrange(lo, hi).to_multiset(),
{
    let a = s.subrange(lo, hi);
    let b = t.subrange(lo, hi);
    assert(b =~= a.update(i - lo, a[j - lo]).update(j - lo, a[i - lo]));
    lemma_swap_multiset(a, i - lo, j - lo);
}

/// When two sequences hold the same multiset of elements and every element of
/// the first is at most `bound`, every element of the second is too.
proof fn lemma_multiset_le(s: Seq<i32>, t: Seq<i32>, bound: i32)
    requires
        s.to_multiset() == t.to_multiset(),
        forall|k: int| 0 <= k < s.len() ==> #[trigger] s[k] <= bound,
    ensures
        forall|k: int| 0 <= k < t.len() ==> #[trigger] t[k] <= bound,
{
    broadcast use group_to_multiset_ensures;

    assert forall|k: int| 0 <= k < t.len() implies #[trigger] t[k] <= bound by {
        assert(t.contains(t[k]));
        assert(s.to_multiset().count(t[k]) > 0);
        assert(s.contains(t[k]));
        let m = choose|m: int| 0 <= m < s.len() && s[m] == t[k];
        assert(s[m] <= bound);
    };
}

/// When two sequences hold the same multiset of elements and every element of
/// the first is at least `bound`, every element of the second is too.
proof fn lemma_multiset_ge(s: Seq<i32>, t: Seq<i32>, bound: i32)
    requires
        s.to_multiset() == t.to_multiset(),
        forall|k: int| 0 <= k < s.len() ==> #[trigger] s[k] >= bound,
    ensures
        forall|k: int| 0 <= k < t.len() ==> #[trigger] t[k] >= bound,
{
    broadcast use group_to_multiset_ensures;

    assert forall|k: int| 0 <= k < t.len() implies #[trigger] t[k] >= bound by {
        assert(t.contains(t[k]));
        assert(s.to_multiset().count(t[k]) > 0);
        assert(s.contains(t[k]));
        let m = choose|m: int| 0 <= m < s.len() && s[m] == t[k];
        assert(s[m] >= bound);
    };
}

/// Rearranges `lo..hi` around the pivot originally at `hi - 1`: returns its
/// final position `p`, with everything before `p` at most the pivot and
/// everything after at least it.
fn partition(arr: &mut Vec<i32>, lo: usize, hi: usize) -> (p: usize)
    requires
        lo < hi <= old(arr)@.len(),
    ensures
        final(arr)@.len() == old(arr)@.len(),
        lo <= p < hi,
        final(arr)@.subrange(lo as int, hi as int).to_multiset() == old(arr)@.subrange(
            lo as int,
            hi as int,
        ).to_multiset(),
        forall|k: int| lo <= k < p ==> #[trigger] final(arr)@[k] <= final(arr)@[p as int],
        forall|k: int| p < k < hi ==> #[trigger] final(arr)@[k] >= final(arr)@[p as int],
        forall|k: int| 0 <= k < lo ==> #[trigger] final(arr)@[k] == old(arr)@[k],
        forall|k: int| hi <= k < old(arr)@.len() ==> #[trigger] final(arr)@[k] == old(arr)@[k],
{
    let ghost orig = arr@;
    let pivot = arr[hi - 1];
    let mut i = lo;
    let mut j = lo;
    while j < hi - 1
        invariant
            lo <= i <= j <= hi - 1,
            lo < hi <= arr@.len(),
            arr@.len() == orig.len(),
            arr@[hi as int - 1] == pivot,
            forall|k: int| lo <= k < i ==> #[trigger] arr@[k] < pivot,
            forall|k: int| i <= k < j ==> #[trigger] arr@[k] >= pivot,
            arr@.subrange(lo as int, hi as int).to_multiset() == orig.subrange(
                lo as int,
                hi as int,
            ).to_multiset(),
            forall|k: int| 0 <= k < lo ==> #[trigger] arr@[k] == orig[k],
            forall|k: int| hi <= k < orig.len() ==> #[trigger] arr@[k] == orig[k],
        decreases hi - 1 - j,
    {
        if arr[j] < pivot {
            let ghost before = arr@;
            swap_values(arr, i, j);
            proof {
                lemma_swap_frame(before, arr@, lo as int, hi as int, i as int, j as int);
            }
            i = i + 1;
        }
        j = j + 1;
    }
    let ghost before = arr@;
    swap_values(arr, i, hi - 1);
    proof {
        lemma_swap_frame(before, arr@, lo as int, hi as int, i as int, hi as int - 1);
    }
    i
}

/// Sorts the elements of `lo..hi` in place, leaving the rest untouched.
fn quicksort_range(arr: &mut Vec<i32>, lo: usize, hi: usize)
    requires
        lo <= hi <= old(arr)@.len(),
    ensures
        final(arr)@.len() == old(arr)@.len(),
        sorted_between(final(arr)@, lo as int, hi as int),
        final(arr)@.subrange(lo as int, hi as int).to_multiset() == old(arr)@.subrange(
            lo as int,
            hi as int,
        ).to_multiset(),
        forall|k: int| 0 <= k < lo ==> #[trigger] final(arr)@[k] == old(arr)@[k],
        forall|k: int| hi <= k < old(arr)@.len() ==> #[trigger] final(arr)@[k] == old(arr)@[k],
    decreases hi - lo,
{
    if hi - lo <= 1 {
        return;
    }
    let p = partition(arr, lo, hi);
    let ghost after_part = arr@;
    quicksort_range(arr, lo, p);
    let ghost after_left = arr@;
    quicksort_range(arr, p + 1, hi);
    proof {
        let fin = arr@;
        let pv = after_part[p as int];
        let loi = lo as int;
        let hii = hi as int;
        let pi = p as int;

        // The pivot has not moved: the left sort stays below it, the right
        // sort above it.
        assert(after_left[pi] == pv);
        assert(fin[pi] == pv);

        // Everything before the pivot is still at most the pivot.
        assert forall|q: int| 0 <= q < pi - loi implies #[trigger] after_part.subrange(
            loi,
            pi,
        )[q] <= pv by {
            assert(after_part.subrange(loi, pi)[q] == after_part[loi + q]);
        };
        lemma_multiset_le(after_part.subrange(loi, pi), after_left.subrange(loi, pi), pv);
        assert forall|k: int| loi <= k < pi implies #[trigger] fin[k] <= pv by {
            assert(fin[k] == after_left[k]);
            assert(after_left[k] == after_left.subrange(loi, pi)[k - loi]);
        };

        // Everything after the pivot is still at least the pivot.
        assert(after_left.subrange(pi + 1, hii) =~= after_part.subrange(pi + 1, hii));
        assert forall|q: int| 0 <= q < hii - (pi + 1) implies #[trigger] after_left.subrange(
            pi + 1,
            hii,
        )[q] >= pv by {
            assert(after_left.subrange(pi + 1, hii)[q] == after_part[pi + 1 + q]);
        };
        lemma_multiset_ge(after_left.subrange(pi + 1, hii), fin.subrange(pi + 1, hii), pv);
        assert forall|k: int| pi < k < hii implies #[trigger] fin[k] >= pv by {
            assert(fin[k] == fin.subrange(pi + 1, hii)[k - (pi + 1)]);
        };

        // The whole range is sorted.
        assert(sorted_between(fin, loi, pi));
        assert(sorted_between(fin, pi + 1, hii));
        assert forall|x: int, y: int| loi <= x <= y < hii implies #[trigger] fin[x]
            <= #[trigger] fin[y] by {
            if y < pi {
            } else if x > pi {
            } else if x == pi && y == pi {
            } else if x == pi {
                assert(fin[y] >= pv);
            } else if y == pi {
                assert(fin[x] <= pv);
            } else {
                assert(fin[x] <= pv);
                assert(fin[y] >= pv);
            }
        };

        // The whole range is a rearrangement of what it held before.
        lemma_frame_multiset(after_part, after_left, loi, loi, pi, hii);
        lemma_frame_multiset(after_left, fin, loi, pi + 1, hii, hii);
    }
}

/// Sorts the array in place: afterwards it is non-decreasing and holds the
/// same multiset of elements as before.
pub fn quicksort(arr: &mut Vec<i32>)
    ensures
        final(arr)@.len() == old(arr)@.len(),
        sorted(final(arr)@),
        final(arr)@.to_multiset() == old(arr)@.to_multiset(),
{
    let n = arr.len();
    quicksort_range(arr, 0, n);
    proof {
        assert(arr@.subrange(0, arr@.len() as int) =~= arr@);
        assert(old(arr)@.subrange(0, old(arr)@.len() as int) =~= old(arr)@);
    }
}

} // verus!
