//! The row axis of the union strategy: the distinct instants of several grids, in
//! ascending order.

use vstd::prelude::*;
use crate::nearest::{occurs, occurs_within};

verus! {

/// Each instant of `axis` is later than the one before it.
pub open spec fn strictly_ascending(axis: Seq<i64>) -> bool {
    forall|i: int, j: int| 0 <= i < j < axis.len() ==> axis[i] < axis[j]
}

/// An axis is settled by the instants on it: two strictly ascending lists that hold
/// the same instants are the same list.
pub proof fn lemma_axis_unique(a: Seq<i64>, b: Seq<i64>)
    requires
        strictly_ascending(a),
        strictly_ascending(b),
        forall|t: int| occurs(a, a.len() as int, t) <==> occurs(b, b.len() as int, t),
    ensures
        a == b,
    decreases a.len(),
{
    if a.len() == 0 {
        if b.len() > 0 {
            assert(occurs(b, b.len() as int, b[0] as int));
        }
        assert(a =~= b);
    } else if b.len() == 0 {
        assert(occurs(a, a.len() as int, a[0] as int));
    } else {
        let la = a.len() - 1;
        let lb = b.len() - 1;
        // The last instants are the greatest of each list, so they are equal.
        assert(occurs(a, a.len() as int, a[la] as int));
        assert(occurs(b, b.len() as int, b[lb] as int));
        let ja = choose|j: int| 0 <= j < b.len() && b[j] == a[la];
        let jb = choose|j: int| 0 <= j < a.len() && a[j] == b[lb];
        assert(a[la] == b[lb]);
        let a0 = a.drop_last();
        let b0 = b.drop_last();
        assert forall|t: int| occurs(a0, a0.len() as int, t) <==> occurs(b0, b0.len() as int, t) by {
            if occurs(a0, a0.len() as int, t) {
                let j = choose|j: int| 0 <= j < a0.len() && a0[j] == t;
                assert(a[j] == t);
                assert(occurs(a, a.len() as int, t));
                let k = choose|k: int| 0 <= k < b.len() && b[k] == t;
                assert(k != lb);
                assert(b0[k] == t);
            }
            if occurs(b0, b0.len() as int, t) {
                let j = choose|j: int| 0 <= j < b0.len() && b0[j] == t;
                assert(b[j] == t);
                assert(occurs(b, b.len() as int, t));
                let k = choose|k: int| 0 <= k < a.len() && a[k] == t;
                assert(k != la);
                assert(a0[k] == t);
            }
        }
        lemma_axis_unique(a0, b0);
        assert(a =~= a0.push(a[la]));
        assert(b =~= b0.push(b[lb]));
    }
}

/// Merges two axes into the axis of the instants of both.
pub(crate) fn merge_axes(a: &Vec<i64>, b: &Vec<i64>) -> (r: Vec<i64>)
    requires
        strictly_ascending(a@),
        strictly_ascending(b@),
    ensures
        strictly_ascending(r@),
        forall|t: int|
            occurs(r@, r.len() as int, t) <==> occurs(a@, a.len() as int, t) || occurs(
                b@,
                b.len() as int,
                t,
            ),
{
    let mut r: Vec<i64> = Vec::new();
    let mut i: usize = 0;
    let mut j: usize = 0;
    while i < a.len() || j < b.len()
        invariant
            i <= a.len(),
            j <= b.len(),
            strictly_ascending(a@),
            strictly_ascending(b@),
            strictly_ascending(r@),
            forall|x: int| 0 <= x < r.len() && i < a.len() ==> #[trigger] r[x] < a[i as int],
            forall|x: int| 0 <= x < r.len() && j < b.len() ==> #[trigger] r[x] < b[j as int],
            forall|t: int|
                occurs(r@, r.len() as int, t) <==> occurs(a@, i as int, t) || occurs(
                    b@,
                    j as int,
                    t,
                ),
        decreases a.len() - i + b.len() - j,
    {
        let ghost r0 = r@;
        let ghost i0 = i as int;
        let ghost j0 = j as int;
        let next: i64;
        if j >= b.len() || (i < a.len() && a[i] < b[j]) {
            next = a[i];
            i += 1;
        } else if i >= a.len() || b[j] < a[i] {
            next = b[j];
            j += 1;
        } else {
            next = a[i];
            i += 1;
            j += 1;
        }
        r.push(next);
        proof {
            assert forall|t: int|
                occurs(r@, r.len() as int, t) <==> occurs(a@, i as int, t) || occurs(
                    b@,
                    j as int,
                    t,
                ) by {
                if occurs(r@, r.len() as int, t) {
                    let x = choose|x: int| 0 <= x < r.len() && r[x] == t;
                    if x < r0.len() {
                        assert(r0[x] == t);
                        assert(occurs(r0, r0.len() as int, t));
                        if occurs(a@, i0, t) {
                            let y = choose|y: int| 0 <= y < i0 && a[y] == t;
                            assert(0 <= y < i && a[y] == t);
                        } else {
                            let y = choose|y: int| 0 <= y < j0 && b[y] == t;
                            assert(0 <= y < j && b[y] == t);
                        }
                    } else {
                        assert(t == next);
                        if i > i0 {
                            assert(a[i0] == t);
                        } else {
                            assert(b[j0] == t);
                        }
                    }
                }
                if occurs(a@, i as int, t) {
                    let y = choose|y: int| 0 <= y < i && a[y] == t;
                    if y < i0 {
                        assert(occurs(a@, i0, t));
                        let x = choose|x: int| 0 <= x < r0.len() && r0[x] == t;
                        assert(r[x] == t);
                    } else {
                        assert(r[r0.len() as int] == t);
                    }
                }
                if occurs(b@, j as int, t) {
                    let y = choose|y: int| 0 <= y < j && b[y] == t;
                    if y < j0 {
                        assert(occurs(b@, j0, t));
                        let x = choose|x: int| 0 <= x < r0.len() && r0[x] == t;
                        assert(r[x] == t);
                    } else {
                        assert(r[r0.len() as int] == t);
                    }
                }
            }
        }
    }
    r
}

/// The axis of the instants `times[lo..hi)`.
pub(crate) fn axis_of(times: &Vec<i64>, lo: usize, hi: usize) -> (r: Vec<i64>)
    requires
        lo <= hi <= times.len(),
    ensures
        strictly_ascending(r@),
        forall|t: int| occurs(r@, r.len() as int, t) <==> occurs_within(times@, lo as int, hi as int, t),
    decreases hi - lo,
{
    if hi - lo == 0 {
        Vec::new()
    } else if hi - lo == 1 {
        let mut r: Vec<i64> = Vec::new();
        r.push(times[lo]);
        assert forall|t: int| occurs(r@, r.len() as int, t) <==> occurs_within(
            times@,
            lo as int,
            hi as int,
            t,
        ) by {
            if occurs(r@, r.len() as int, t) {
                assert(times[lo as int] == t);
            }
            if occurs_within(times@, lo as int, hi as int, t) {
                assert(r[0] == t);
            }
        }
        r
    } else {
        let mid: usize = lo + (hi - lo) / 2;
        let left: Vec<i64> = axis_of(times, lo, mid);
        let right: Vec<i64> = axis_of(times, mid, hi);
        let r: Vec<i64> = merge_axes(&left, &right);
        assert forall|t: int| occurs(r@, r.len() as int, t) <==> occurs_within(
            times@,
            lo as int,
            hi as int,
            t,
        ) by {
            if occurs_within(times@, lo as int, hi as int, t) {
                let k = choose|k: int| lo <= k < hi && times[k] == t;
                if k < mid {
                    assert(occurs_within(times@, lo as int, mid as int, t));
                } else {
                    assert(occurs_within(times@, mid as int, hi as int, t));
                }
            }
            if occurs_within(times@, lo as int, mid as int, t) {
                let k = choose|k: int| lo <= k < mid && times[k] == t;
                assert(lo <= k < hi && times[k] == t);
            }
            if occurs_within(times@, mid as int, hi as int, t) {
                let k = choose|k: int| mid <= k < hi && times[k] == t;
                assert(lo <= k < hi && times[k] == t);
            }
        }
        r
    }
}

} // verus!
