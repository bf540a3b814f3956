//! How the inner points of a series are divided into buckets.
//!
//! A series of `n` points that is cut down to `threshold` points has
//! `threshold - 2` buckets between its first and its last point. The buckets
//! are given by the indices at which they begin: `starts[k]` is where bucket
//! `k` begins, and it ends where bucket `k + 1` begins. The list holds
//! `threshold` entries. The last two of them begin no bucket of their own: they
//! end the last bucket and the range that is averaged for it.
//!
//! Where the starts come from is the caller's matter. The usual choice is the
//! ideal bucket size `(n - 2) / (threshold - 2)`, multiplied by the bucket
//! number, cut off to a whole number, plus one. This module says which lists
//! can be worked with, and what follows for the buckets of such a list.

use vstd::prelude::*;

verus! {

/// Whether `starts` divides a series of `n` points into `threshold - 2`
/// buckets: there is an entry for every bucket and two more, the buckets are
/// not empty, they lie between the first and the last point, and the range
/// after the last bucket does not end before it begins.
pub open spec fn starts_fit(starts: Seq<usize>, n: int, threshold: int) -> bool {
    &&& 3 <= threshold
    &&& starts.len() == threshold
    &&& 1 <= starts[0]
    &&& forall|j: int, k: int| 0 <= j < k <= threshold - 2 ==> starts[j] < starts[k]
    &&& starts[threshold - 2] <= n - 1
    &&& starts[threshold - 2] <= starts[threshold - 1]
}

/// The half-open index range of bucket `k`, from which output point `k + 1` is
/// selected.
pub open spec fn selection_range(starts: Seq<usize>, k: int) -> (int, int) {
    (starts[k] as int, starts[k + 1] as int)
}

/// The half-open index range whose mean stands in for the bucket after bucket
/// `k`. It is the range of that bucket, cut off at the end of the series.
pub open spec fn averaging_range(starts: Seq<usize>, n: int, k: int) -> (int, int) {
    let end = starts[k + 2] as int;
    (starts[k + 1] as int, if end < n { end } else { n })
}

/// The buckets of a list that fits are not empty and hold inner points only,
/// and each of them lies before the next.
pub proof fn lemma_selection_range_bounds(starts: Seq<usize>, n: int, threshold: int, k: int)
    requires
        starts_fit(starts, n, threshold),
        0 <= k < threshold - 2,
    ensures
        1 <= selection_range(starts, k).0 < selection_range(starts, k).1 <= n - 1,
        k + 1 < threshold - 2 ==> selection_range(starts, k).1 == selection_range(
            starts,
            k + 1,
        ).0,
{
    if 0 < k {
        assert(starts[0] < starts[k]);
    }
    if k + 1 < threshold - 2 {
        assert(starts[k + 1] < starts[threshold - 2]);
    }
}

/// The range that is averaged for bucket `k` begins where the bucket ends and
/// stays inside the series. Only the range after the last bucket can be empty.
pub proof fn lemma_averaging_range_bounds(starts: Seq<usize>, n: int, threshold: int, k: int)
    requires
        starts_fit(starts, n, threshold),
        0 <= k < threshold - 2,
    ensures
        averaging_range(starts, n, k).0 == selection_range(starts, k).1,
        1 < averaging_range(starts, n, k).0 <= averaging_range(starts, n, k).1 <= n,
        k + 1 < threshold - 2 ==> averaging_range(starts, n, k) == selection_range(starts, k + 1),
{
    lemma_selection_range_bounds(starts, n, threshold, k);
    if k + 1 < threshold - 2 {
        lemma_selection_range_bounds(starts, n, threshold, k + 1);
    }
}

/// Tests whether `starts` divides a series of `n` points into `threshold - 2`
/// buckets.
pub fn fit(starts: &Vec<usize>, n: usize, threshold: usize) -> (b: bool)
    ensures
        b == starts_fit(starts@, n as int, threshold as int),
{
    if threshold < 3 || starts.len() != threshold || starts[0] < 1 {
        return false;
    }
    let mut k: usize = 0;
    while k < threshold - 2
        invariant
            3 <= threshold == starts.len(),
            k <= threshold - 2,
            forall|i: int, j: int| 0 <= i < j <= k ==> starts@[i] < starts@[j],
        decreases threshold - 2 - k,
    {
        if starts[k] >= starts[k + 1] {
            return false;
        }
        k = k + 1;
    }
    n >= 1 && starts[threshold - 2] <= n - 1 && starts[threshold - 2] <= starts[threshold - 1]
}

} // verus!
