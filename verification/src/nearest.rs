//! Searching one channel's time grid for the sample that belongs to an instant.

use vstd::prelude::*;

verus! {

/// Channels with more samples than this are searched by bisection when their grid is
/// in ascending order; shorter ones are scanned.
pub const BISECTION_THRESHOLD: usize = 256;

/// The distance between two instants.
pub open spec fn distance(a: int, b: int) -> int {
    if a <= b {
        b - a
    } else {
        a - b
    }
}

/// The first `count` instants of `times` never step backwards.
pub open spec fn ascending(times: Seq<i64>, count: int) -> bool {
    forall|i: int, j: int| 0 <= i <= j < count ==> times[i] <= times[j]
}

/// Sample `k` is the one of `times[0..count)` that lies nearest to `t`; where several
/// lie equally near, it is the first of them in the order of the grid.
pub open spec fn is_nearest(times: Seq<i64>, count: int, t: int, k: int) -> bool {
    &&& 0 <= k < count
    &&& forall|j: int|
        0 <= j < count ==> distance(times[k] as int, t) <= distance(#[trigger] times[j] as int, t)
    &&& forall|j: int|
        0 <= j < k ==> distance(times[k] as int, t) < distance(#[trigger] times[j] as int, t)
}

/// Sample `k` is the first of `times[0..count)` taken exactly at `t`.
pub open spec fn is_first_at(times: Seq<i64>, count: int, t: int, k: int) -> bool {
    &&& 0 <= k < count
    &&& times[k] == t
    &&& forall|j: int| 0 <= j < k ==> #[trigger] times[j] != t
}

/// Some sample of `times[lo..hi)` was taken exactly at `t`.
pub open spec fn occurs_within(times: Seq<i64>, lo: int, hi: int, t: int) -> bool {
    exists|j: int| lo <= j < hi && #[trigger] times[j] == t
}

/// Some sample of `times[0..count)` was taken exactly at `t`.
pub open spec fn occurs(times: Seq<i64>, count: int, t: int) -> bool {
    occurs_within(times, 0, count, t)
}

/// The nearest sample is unique: the tie rule leaves no choice.
pub proof fn lemma_nearest_unique(times: Seq<i64>, count: int, t: int, k1: int, k2: int)
    requires
        is_nearest(times, count, t, k1),
        is_nearest(times, count, t, k2),
    ensures
        k1 == k2,
{
    if k1 < k2 {
        assert(distance(times[k2] as int, t) < distance(times[k1] as int, t));
    } else if k2 < k1 {
        assert(distance(times[k1] as int, t) < distance(times[k2] as int, t));
    }
}

/// The distance between two instants as a machine integer.
pub fn span(a: i64, b: i64) -> (d: u64)
    ensures
        d == distance(a as int, b as int),
{
    if a <= b {
        (b as i128 - a as i128) as u64
    } else {
        (a as i128 - b as i128) as u64
    }
}

/// Whether the first `count` instants are in ascending order.
pub(crate) fn is_ascending(times: &Vec<i64>, count: usize) -> (r: bool)
    requires
        count <= times.len(),
    ensures
        r == ascending(times@, count as int),
{
    if count < 2 {
        return true;
    }
    let mut i: usize = 1;
    while i < count
        invariant
            1 <= i <= count <= times.len(),
            forall|a: int, b: int| 0 <= a <= b < i ==> times[a] <= times[b],
        decreases count - i,
    {
        if times[i - 1] > times[i] {
            return false;
        }
        i += 1;
    }
    true
}

/// The nearest sample to `t`, found by scanning the grid from its start.
pub(crate) fn nearest_by_scan(times: &Vec<i64>, count: usize, t: i64) -> (r: Option<usize>)
    requires
        count <= times.len(),
    ensures
        r is None <==> count == 0,
        r matches Some(k) ==> is_nearest(times@, count as int, t as int, k as int),
{
    if count == 0 {
        return None;
    }
    let mut best: usize = 0;
    let mut best_span: u64 = span(times[0], t);
    let mut i: usize = 1;
    while i < count
        invariant
            1 <= i <= count <= times.len(),
            best_span == distance(times[best as int] as int, t as int),
            is_nearest(times@, i as int, t as int, best as int),
        decreases count - i,
    {
        let d: u64 = span(times[i], t);
        if d < best_span {
            best = i;
            best_span = d;
        }
        i += 1;
    }
    Some(best)
}

/// The number of samples of an ascending grid that lie before `t`: the place of the
/// first sample at or after `t`, or `count` where there is none.
pub(crate) fn lower_bound(times: &Vec<i64>, count: usize, t: i64) -> (p: usize)
    requires
        count <= times.len(),
        ascending(times@, count as int),
    ensures
        p <= count,
        forall|j: int| 0 <= j < p ==> #[trigger] times[j] < t,
        forall|j: int| p <= j < count ==> #[trigger] times[j] >= t,
{
    let mut lo: usize = 0;
    let mut hi: usize = count;
    while lo < hi
        invariant
            lo <= hi <= count <= times.len(),
            ascending(times@, count as int),
            forall|j: int| 0 <= j < lo ==> #[trigger] times[j] < t,
            forall|j: int| hi <= j < count ==> #[trigger] times[j] >= t,
        decreases hi - lo,
    {
        let mid: usize = lo + (hi - lo) / 2;
        if times[mid] < t {
            lo = mid + 1;
        } else {
            hi = mid;
        }
    }
    lo
}

/// The nearest sample to `t` in an ascending grid, found by bisection.
pub(crate) fn nearest_by_bisection(times: &Vec<i64>, count: usize, t: i64) -> (r: Option<usize>)
    requires
        count <= times.len(),
        ascending(times@, count as int),
    ensures
        r is None <==> count == 0,
        r matches Some(k) ==> is_nearest(times@, count as int, t as int, k as int),
{
    if count == 0 {
        return None;
    }
    let p: usize = lower_bound(times, count, t);
    if p == 0 {
        return Some(0);
    }
    let below: i64 = times[p - 1];
    if p < count && span(times[p], t) < span(below, t) {
        return Some(p);
    }
    // The sample before `p` is the nearest; equal instants before it come first.
    let first: usize = lower_bound(times, count, below);
    assert(times[first as int] == below);
    Some(first)
}

/// The nearest sample to `t`: by bisection where the grid is known to be ascending
/// and long, by a scan otherwise. Both give the same sample.
pub(crate) fn nearest(times: &Vec<i64>, count: usize, sorted: bool, t: i64) -> (r: Option<usize>)
    requires
        count <= times.len(),
        sorted ==> ascending(times@, count as int),
    ensures
        r is None <==> count == 0,
        r matches Some(k) ==> is_nearest(times@, count as int, t as int, k as int),
{
    if sorted && count > BISECTION_THRESHOLD {
        nearest_by_bisection(times, count, t)
    } else {
        nearest_by_scan(times, count, t)
    }
}

/// The first sample taken exactly at `t`, found by scanning the grid from its start.
pub(crate) fn first_at_by_scan(times: &Vec<i64>, count: usize, t: i64) -> (r: Option<usize>)
    requires
        count <= times.len(),
    ensures
        r is None <==> !occurs(times@, count as int, t as int),
        r matches Some(k) ==> is_first_at(times@, count as int, t as int, k as int),
{
    let mut i: usize = 0;
    while i < count
        invariant
            i <= count <= times.len(),
            forall|j: int| 0 <= j < i ==> #[trigger] times[j] != t,
        decreases count - i,
    {
        if times[i] == t {
            return Some(i);
        }
        i += 1;
    }
    None
}

/// The first sample taken exactly at `t`: by bisection where the grid is known to be
/// ascending and long, by a scan otherwise.
pub(crate) fn first_at(times: &Vec<i64>, count: usize, sorted: bool, t: i64) -> (r: Option<usize>)
    requires
        count <= times.len(),
        sorted ==> ascending(times@, count as int),
    ensures
        r is None <==> !occurs(times@, count as int, t as int),
        r matches Some(k) ==> is_first_at(times@, count as int, t as int, k as int),
{
    if sorted && count > BISECTION_THRESHOLD {
        let p: usize = lower_bound(times, count, t);
        if p < count && times[p] == t {
            Some(p)
        } else {
            None
        }
    } else {
        first_at_by_scan(times, count, t)
    }
}

/// The sample of the whole grid that lies nearest to `t`, the first of several
/// equally near; nothing where the grid is empty.
pub fn nearest_sample(times: &Vec<i64>, t: i64) -> (r: Option<usize>)
    ensures
        r is None <==> times.len() == 0,
        r matches Some(k) ==> is_nearest(times@, times.len() as int, t as int, k as int),
{
    let sorted: bool = is_ascending(times, times.len());
    nearest(times, times.len(), sorted, t)
}

/// The first sample of the whole grid taken exactly at `t`; nothing where there is
/// none.
pub fn sample_at(times: &Vec<i64>, t: i64) -> (r: Option<usize>)
    ensures
        r is None <==> !occurs(times@, times.len() as int, t as int),
        r matches Some(k) ==> is_first_at(times@, times.len() as int, t as int, k as int),
{
    let sorted: bool = is_ascending(times, times.len());
    first_at(times, times.len(), sorted, t)
}

} // verus!
