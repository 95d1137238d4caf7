use vstd::prelude::*;

use crate::heap::{exchange, lemma_exchange_multiset};

verus! {

broadcast use vstd::seq_lib::group_to_multiset_ensures;

/// The sequence is in ascending order.
pub open spec fn sorted(s: Seq<i32>) -> bool {
    forall|i: int, j: int| 0 <= i <= j < s.len() ==> s[i] <= s[j]
}

/// Exchanging two positions inside `[lo, hi)` leaves the segment's multiset
/// of elements, and everything outside the segment, unchanged.
proof fn lemma_exchange_in_range(s: Seq<i32>, t: Seq<i32>, lo: int, hi: int, a: int, b: int)
    requires
        0 <= lo <= a < hi,
        lo <= b < hi,
        hi <= s.len(),
        t == s.update(a, s[b]).update(b, s[a]),
    ensures
        t.len() == s.len(),
        t.subrange(lo, hi).to_multiset() == s.subrange(lo, hi).to_multiset(),
        t.subrange(0, lo) == s.subrange(0, lo),
        t.subrange(hi, s.len() as int) == s.subrange(hi, s.len() as int),
{
    let ss = s.subrange(lo, hi);
    assert(t.subrange(lo, hi) =~= ss.update(a - lo, ss[b - lo]).update(b - lo, ss[a - lo]));
    lemma_exchange_multiset(ss, a - lo, b - lo);
    assert(t.subrange(0, lo) =~= s.subrange(0, lo));
    assert(t.subrange(hi, s.len() as int) =~= s.subrange(hi, s.len() as int));
}

/// Two sequences with the same multiset of elements satisfy the same
/// element-wise predicates.
proof fn lemma_multiset_all(s1: Seq<i32>, s2: Seq<i32>, pred: spec_fn(i32) -> bool)
    requires
        s1.to_multiset() == s2.to_multiset(),
        forall|k: int| 0 <= k < s1.len() ==> pred(#[trigger] s1[k]),
    ensures
        forall|k: int| 0 <= k < s2.len() ==> pred(#[trigger] s2[k]),
{
    assert forall|k: int| 0 <= k < s2.len() implies pred(#[trigger] s2[k]) by {
        assert(s2.contains(s2[k]));
        assert(s1.to_multiset().count(s2[k]) > 0);
        assert(s1.contains(s2[k]));
        let m = choose|m: int| 0 <= m < s1.len() && s1[m] == s2[k];
        assert(pred(s1[m]));
    }
}

/// Sorts the whole vector in place, ascending, by recursive partitioning
/// around a pivot. The result is ordered and holds exactly the elements it
/// started with.
pub fn sort(array: &mut Vec<i32>)
    ensures
        sorted(final(array)@),
        final(array)@.to_multiset() == old(array)@.to_multiset(),
{
    let n = array.len();
    sort_range(array, 0, n);
    proof {
        assert(array@.subrange(0, array@.len() as int) =~= array@);
        assert(old(array)@.subrange(0, old(array)@.len() as int) =~= old(array)@);
    }
}

/// Sorts `a[lo..hi]` in place: partitions the segment around its first
/// element, then sorts the two sides recursively. Nothing outside the
/// segment moves.
fn sort_range(a: &mut Vec<i32>, lo: usize, hi: usize)
    requires
        lo <= hi,
        hi as int <= old(a)@.len(),
    ensures
        final(a)@.len() == old(a)@.len(),
        final(a)@.subrange(0, lo as int) == old(a)@.subrange(0, lo as int),
        final(a)@.subrange(hi as int, old(a)@.len() as int) == old(a)@.subrange(
            hi as int,
            old(a)@.len() as int,
        ),
        final(a)@.subrange(lo as int, hi as int).to_multiset() == old(a)@.subrange(
            lo as int,
            hi as int,
        ).to_multiset(),
        sorted(final(a)@.subrange(lo as int, hi as int)),
    decreases hi - lo,
{
    if hi - lo <= 1 {
        return ;
    }
    let ghost orig = a@;
    let ghost loi = lo as int;
    let ghost hii = hi as int;
    let ghost pv = a@[lo as int];
    // partitioning
    let mut l: usize = lo + 1;
    let mut r: usize = hi - 1;
    loop
        invariant
            loi == lo as int,
            hii == hi as int,
            lo + 1 <= l <= hi,
            lo <= r < hi,
            l <= r + 1,
            hii <= a@.len(),
            a@.len() == orig.len(),
            a@[loi] == pv,
            a@.subrange(0, loi) == orig.subrange(0, loi),
            a@.subrange(hii, orig.len() as int) == orig.subrange(hii, orig.len() as int),
            a@.subrange(loi, hii).to_multiset() == orig.subrange(loi, hii).to_multiset(),
            forall|k: int| loi < k < l ==> #[trigger] a@[k] <= pv,
            forall|k: int| r < k < hii ==> #[trigger] a@[k] > pv,
        ensures
            lo <= r < hi,
            l == r + 1,
            hii <= a@.len(),
            a@.len() == orig.len(),
            a@[loi] == pv,
            a@.subrange(0, loi) == orig.subrange(0, loi),
            a@.subrange(hii, orig.len() as int) == orig.subrange(hii, orig.len() as int),
            a@.subrange(loi, hii).to_multiset() == orig.subrange(loi, hii).to_multiset(),
            forall|k: int| loi < k < l ==> #[trigger] a@[k] <= pv,
            forall|k: int| r < k < hii ==> #[trigger] a@[k] > pv,
        decreases r + 1 - l,
    {
        while l <= r && a[l] <= a[lo]
            invariant
                loi == lo as int,
                hii == hi as int,
                lo + 1 <= l <= hi,
                lo <= r < hi,
                l <= r + 1,
                hii <= a@.len(),
                a@[loi] == pv,
                forall|k: int| loi < k < l ==> #[trigger] a@[k] <= pv,
            decreases r + 1 - l,
        {
            l += 1;
        }
        while l <= r && a[r] > a[lo]
            invariant
                loi == lo as int,
                hii == hi as int,
                lo + 1 <= l <= hi,
                lo <= r < hi,
                l <= r + 1,
                hii <= a@.len(),
                a@[loi] == pv,
                forall|k: int| r < k < hii ==> #[trigger] a@[k] > pv,
            decreases r,
        {
            r -= 1;
        }
        if l > r {
            break ;
        }
        let ghost s = a@;
        exchange(a, l, r);
        proof {
            lemma_exchange_in_range(s, a@, loi, hii, l as int, r as int);
            assert(a@[l as int] == s[r as int] && a@[l as int] <= pv);
            assert(a@[r as int] == s[l as int] && a@[r as int] > pv);
            assert forall|k: int| loi < k < l + 1 implies #[trigger] a@[k] <= pv by {
                if k < l {
                    assert(a@[k] == s[k]);
                }
            }
            assert forall|k: int| r - 1 < k < hii implies #[trigger] a@[k] > pv by {
                if k > r {
                    assert(a@[k] == s[k]);
                }
            }
        }
        l += 1;
        r -= 1;
    }
    // move the pivot value to the partition edge
    let ghost s = a@;
    exchange(a, lo, r);
    proof {
        lemma_exchange_in_range(s, a@, loi, hii, loi, r as int);
        assert(a@[r as int] == pv);
        assert forall|k: int| loi <= k < r implies #[trigger] a@[k] <= pv by {
            if k == loi {
                assert(a@[k] == s[r as int]);
            } else {
                assert(a@[k] == s[k]);
            }
        }
        assert forall|k: int| r < k < hii implies #[trigger] a@[k] > pv by {
            assert(a@[k] == s[k]);
        }
    }
    let ghost mid = a@;
    // sort the two sides recursively
    sort_range(a, lo, r);
    proof {
        let t = a@;
        assert(t.subrange(r as int, orig.len() as int) == mid.subrange(r as int, orig.len() as int));
        assert(t[r as int] == mid[r as int]) by {
            assert(t.subrange(r as int, orig.len() as int)[0] == t[r as int]);
        }
        assert forall|k: int| r < k < hii implies #[trigger] t[k] > pv by {
            assert(t.subrange(r as int, orig.len() as int)[k - r] == t[k]);
            assert(mid.subrange(r as int, orig.len() as int)[k - r] == mid[k]);
        }
        lemma_multiset_all(
            mid.subrange(loi, r as int),
            t.subrange(loi, r as int),
            (|x: i32| x <= pv),
        );
        assert forall|k: int| loi <= k < r implies #[trigger] t[k] <= pv by {
            assert(t.subrange(loi, r as int)[k - loi] == t[k]);
        }
        // the two outer frames compose
        assert(t.subrange(0, loi) =~= mid.subrange(0, loi));
        assert forall|k: int| hii <= k < orig.len() implies t[k] == mid[k] by {
            assert(t.subrange(r as int, orig.len() as int)[k - r] == t[k]);
            assert(mid.subrange(r as int, orig.len() as int)[k - r] == mid[k]);
        }
        assert(t.subrange(hii, orig.len() as int) =~= mid.subrange(hii, orig.len() as int));
        assert(t.subrange(loi, hii).to_multiset() == mid.subrange(loi, hii).to_multiset()) by {
            assert(mid.subrange(loi, hii) =~= mid.subrange(loi, r as int) + mid.subrange(
                r as int,
                hii,
            ));
            assert(t.subrange(loi, hii) =~= t.subrange(loi, r as int) + t.subrange(r as int, hii));
            assert(t.subrange(r as int, hii) =~= mid.subrange(r as int, hii));
            vstd::seq_lib::lemma_multiset_commutative(t.subrange(loi, r as int), t.subrange(r as int, hii));
            vstd::seq_lib::lemma_multiset_commutative(mid.subrange(loi, r as int), mid.subrange(r as int, hii));
        }
    }
    let ghost left = a@;
    let r1 = r + 1;
    sort_range(a, r1, hi);
    proof {
        let t = a@;
        let ri = r as int;
        assert(t.subrange(0, ri + 1) == left.subrange(0, ri + 1));
        assert forall|k: int| 0 <= k <= ri implies #[trigger] t[k] == left[k] by {
            assert(t.subrange(0, ri + 1)[k] == t[k]);
            assert(left.subrange(0, ri + 1)[k] == left[k]);
        }
        assert(sorted(t.subrange(loi, ri))) by {
            assert(t.subrange(loi, ri) =~= left.subrange(loi, ri));
        }
        lemma_multiset_all(
            left.subrange(ri + 1, hii),
            t.subrange(ri + 1, hii),
            (|x: i32| x > pv),
        );
        assert forall|k: int| ri < k < hii implies #[trigger] t[k] > pv by {
            assert(t.subrange(ri + 1, hii)[k - ri - 1] == t[k]);
        }
        assert forall|k: int| loi <= k < ri implies #[trigger] t[k] <= pv by {
            assert(left.subrange(loi, ri)[k - loi] == left[k]);
            assert(t.subrange(loi, ri) =~= left.subrange(loi, ri));
            assert(t.subrange(loi, ri)[k - loi] == t[k]);
        }
        // the sorted segment as a whole
        assert forall|x: int, y: int|
            0 <= x <= y < hii - loi implies t.subrange(loi, hii)[x] <= t.subrange(loi, hii)[y] by {
            let u = t.subrange(loi, hii);
            assert(u[x] == t[loi + x]);
            assert(u[y] == t[loi + y]);
            let px = ri - loi;
            if y < px {
                assert(t.subrange(loi, ri)[x] == t[loi + x]);
                assert(t.subrange(loi, ri)[y] == t[loi + y]);
                assert(sorted(t.subrange(loi, ri)));
            } else if x > px {
                assert(t.subrange(ri + 1, hii)[loi + x - ri - 1] == t[loi + x]);
                assert(t.subrange(ri + 1, hii)[loi + y - ri - 1] == t[loi + y]);
                assert(sorted(t.subrange(ri + 1, hii)));
            } else if x < px && y == px {
                assert(t[loi + x] <= pv);
                assert(t[ri] == pv);
            } else if x == px && y == px {
            } else {
                // x at or left of the pivot, y strictly right of it
                assert(t[loi + y] > pv);
                if x == px {
                    assert(t[ri] == pv);
                } else {
                    assert(t[loi + x] <= pv);
                }
            }
        }
        // the segment's multiset composes across the pivot
        assert(t.subrange(loi, hii).to_multiset() == left.subrange(loi, hii).to_multiset()) by {
            assert(left.subrange(loi, hii) =~= left.subrange(loi, ri + 1) + left.subrange(
                ri + 1,
                hii,
            ));
            assert(t.subrange(loi, hii) =~= t.subrange(loi, ri + 1) + t.subrange(ri + 1, hii));
            assert(t.subrange(loi, ri + 1) =~= left.subrange(loi, ri + 1));
            vstd::seq_lib::lemma_multiset_commutative(
                t.subrange(loi, ri + 1),
                t.subrange(ri + 1, hii),
            );
            vstd::seq_lib::lemma_multiset_commutative(
                left.subrange(loi, ri + 1),
                left.subrange(ri + 1, hii),
            );
        }
        assert forall|k: int| 0 <= k < loi implies t[k] == orig[k] by {
            assert(t.subrange(0, ri + 1)[k] == t[k]);
            assert(left.subrange(0, ri + 1)[k] == left[k]);
            assert(left.subrange(0, loi)[k] == left[k]);
            assert(orig.subrange(0, loi)[k] == orig[k]);
            assert(left.subrange(0, loi) == orig.subrange(0, loi));
        }
        assert(t.subrange(0, loi) =~= orig.subrange(0, loi));
        assert forall|k: int| hii <= k < orig.len() implies t[k] == orig[k] by {
            assert(t.subrange(hii, orig.len() as int)[k - hii] == t[k]);
            assert(left.subrange(hii, orig.len() as int)[k - hii] == left[k]);
            assert(orig.subrange(hii, orig.len() as int)[k - hii] == orig[k]);
            assert(left.subrange(hii, orig.len() as int) == orig.subrange(hii, orig.len() as int));
        }
        assert(t.subrange(hii, orig.len() as int) =~= orig.subrange(hii, orig.len() as int));
    }
}

} // verus!
