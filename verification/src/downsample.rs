//! Selection of the points that are kept.

use crate::area::{
    collinear, cross, lemma_area_sums_crosses, scaled_area, sum_cross, sum_x, sum_y, Baseline,
};
use crate::bucket::{
    averaging_range, lemma_averaging_range_bounds, lemma_selection_range_bounds, selection_range,
    starts_fit,
};
use crate::point::DataPoint;
use crate::sampler::Sampler;
use crate::wide::Wide;
use vstd::prelude::*;

verus! {

/// The scaled area of the triangle spanned by the kept point `pts[a]`, the
/// candidate `pts[j]` and the mean of `pts[avg.0 .. avg.1]`.
pub open spec fn candidate_area(pts: Seq<DataPoint>, a: int, avg: (int, int), j: int) -> int {
    scaled_area(
        pts[a],
        pts[j],
        sum_x(pts, avg.0, avg.1),
        sum_y(pts, avg.0, avg.1),
        avg.1 - avg.0,
    )
}

/// The index in `lo .. hi` of the candidate with the largest area. Among
/// candidates of equal area the one met first wins: a later candidate replaces
/// the best so far only with a strictly greater area.
pub open spec fn first_largest(pts: Seq<DataPoint>, a: int, avg: (int, int), lo: int, hi: int) -> int
    decreases hi - lo,
{
    if hi <= lo + 1 {
        lo
    } else {
        let best = first_largest(pts, a, avg, lo, hi - 1);
        if candidate_area(pts, a, avg, hi - 1) > candidate_area(pts, a, avg, best) {
            hi - 1
        } else {
            best
        }
    }
}

/// The index in `pts` of output point `k` when `pts` is cut down to
/// `threshold` points, with buckets that begin at `starts`: the first point,
/// then one point from each bucket, each judged from the point chosen before
/// it, then the last point.
pub open spec fn chosen(pts: Seq<DataPoint>, threshold: int, starts: Seq<usize>, k: int) -> int
    decreases k,
{
    let n = pts.len() as int;
    if k <= 0 {
        0
    } else if k >= threshold - 1 {
        n - 1
    } else {
        let bucket = selection_range(starts, k - 1);
        first_largest(
            pts,
            chosen(pts, threshold, starts, k - 1),
            averaging_range(starts, n, k - 1),
            bucket.0,
            bucket.1,
        )
    }
}

/// The series `pts` cut down to `threshold` points, with buckets that begin at
/// `starts`. A threshold below two, or one that the series does not exceed,
/// leaves the series as it is.
pub open spec fn downsampled(pts: Seq<DataPoint>, threshold: int, starts: Seq<usize>) -> Seq<
    DataPoint,
> {
    if threshold < 2 || threshold >= pts.len() {
        pts
    } else {
        Seq::new(threshold as nat, |k: int| pts[chosen(pts, threshold, starts, k)])
    }
}

/// `first_largest` names a candidate of the bucket whose area no other
/// candidate exceeds and no earlier candidate reaches.
pub proof fn lemma_first_largest(pts: Seq<DataPoint>, a: int, avg: (int, int), lo: int, hi: int)
    requires
        lo < hi,
    ensures
        lo <= first_largest(pts, a, avg, lo, hi) < hi,
        forall|j: int|
            lo <= j < hi ==> #[trigger] candidate_area(pts, a, avg, j) <= candidate_area(
                pts,
                a,
                avg,
                first_largest(pts, a, avg, lo, hi),
            ),
        forall|j: int|
            lo <= j < first_largest(pts, a, avg, lo, hi) ==> #[trigger] candidate_area(
                pts,
                a,
                avg,
                j,
            ) < candidate_area(pts, a, avg, first_largest(pts, a, avg, lo, hi)),
    decreases hi - lo,
{
    if hi > lo + 1 {
        lemma_first_largest(pts, a, avg, lo, hi - 1);
    }
}

/// `first_largest` is the only such candidate: an index of the bucket whose
/// area no other candidate exceeds and no earlier candidate reaches is the one
/// that is selected.
pub proof fn lemma_first_largest_is_unique(
    pts: Seq<DataPoint>,
    a: int,
    avg: (int, int),
    lo: int,
    hi: int,
    best: int,
)
    requires
        lo <= best < hi,
        forall|j: int|
            lo <= j < hi ==> #[trigger] candidate_area(pts, a, avg, j) <= candidate_area(
                pts,
                a,
                avg,
                best,
            ),
        forall|j: int|
            lo <= j < best ==> #[trigger] candidate_area(pts, a, avg, j) < candidate_area(
                pts,
                a,
                avg,
                best,
            ),
    ensures
        first_largest(pts, a, avg, lo, hi) == best,
{
    lemma_first_largest(pts, a, avg, lo, hi);
}

/// Where all candidates of a bucket have the same area, the first of them is
/// selected.
pub proof fn lemma_ties_keep_first(pts: Seq<DataPoint>, a: int, avg: (int, int), lo: int, hi: int)
    requires
        lo < hi,
        forall|j: int|
            lo <= j < hi ==> #[trigger] candidate_area(pts, a, avg, j) == candidate_area(
                pts,
                a,
                avg,
                lo,
            ),
    ensures
        first_largest(pts, a, avg, lo, hi) == lo,
{
    lemma_first_largest(pts, a, avg, lo, hi);
}

/// On a series whose points all lie on one line every triangle is flat: all
/// areas are zero.
pub proof fn lemma_collinear_area_is_zero(pts: Seq<DataPoint>, a: int, avg: (int, int), j: int)
    requires
        collinear(pts),
        0 <= a < pts.len(),
        0 <= j < pts.len(),
        0 <= avg.0 <= avg.1 <= pts.len(),
    ensures
        candidate_area(pts, a, avg, j) == 0,
{
    lemma_area_sums_crosses(pts, pts[a], pts[j], avg.0, avg.1);
    lemma_flat_crosses_sum_to_zero(pts, a, j, avg.0, avg.1);
}

proof fn lemma_flat_crosses_sum_to_zero(pts: Seq<DataPoint>, a: int, j: int, lo: int, hi: int)
    requires
        collinear(pts),
        0 <= a < pts.len(),
        0 <= j < pts.len(),
        0 <= lo <= hi <= pts.len(),
    ensures
        sum_cross(pts, pts[a], pts[j], lo, hi) == 0,
    decreases hi - lo,
{
    if lo < hi {
        lemma_flat_crosses_sum_to_zero(pts, a, j, lo, hi - 1);
        assert(cross(pts[a], pts[j], pts[hi - 1]) == 0);
    }
}

/// On a series whose points all lie on one line, the point kept from each
/// bucket is the first point of the bucket.
pub proof fn lemma_collinear_keeps_bucket_starts(
    pts: Seq<DataPoint>,
    threshold: int,
    starts: Seq<usize>,
    k: int,
)
    requires
        collinear(pts),
        2 < threshold < pts.len(),
        starts_fit(starts, pts.len() as int, threshold),
        1 <= k <= threshold - 2,
    ensures
        chosen(pts, threshold, starts, k) == starts[k - 1],
{
    let n = pts.len() as int;
    let a = chosen(pts, threshold, starts, k - 1);
    let avg = averaging_range(starts, n, k - 1);
    let bucket = selection_range(starts, k - 1);
    lemma_chosen_in_series(pts, threshold, starts, k - 1);
    lemma_selection_range_bounds(starts, n, threshold, k - 1);
    lemma_averaging_range_bounds(starts, n, threshold, k - 1);
    assert forall|j: int| bucket.0 <= j < bucket.1 implies #[trigger] candidate_area(
        pts,
        a,
        avg,
        j,
    ) == candidate_area(pts, a, avg, bucket.0) by {
        lemma_collinear_area_is_zero(pts, a, avg, j);
        lemma_collinear_area_is_zero(pts, a, avg, bucket.0);
    }
    lemma_ties_keep_first(pts, a, avg, bucket.0, bucket.1);
}

/// Every inner output point comes from its own bucket.
pub proof fn lemma_chosen_in_bucket(pts: Seq<DataPoint>, threshold: int, starts: Seq<usize>, k: int)
    requires
        2 < threshold < pts.len(),
        starts_fit(starts, pts.len() as int, threshold),
        1 <= k <= threshold - 2,
    ensures
        selection_range(starts, k - 1).0 <= chosen(pts, threshold, starts, k) < selection_range(
            starts,
            k - 1,
        ).1,
{
    let n = pts.len() as int;
    let bucket = selection_range(starts, k - 1);
    lemma_selection_range_bounds(starts, n, threshold, k - 1);
    lemma_first_largest(
        pts,
        chosen(pts, threshold, starts, k - 1),
        averaging_range(starts, n, k - 1),
        bucket.0,
        bucket.1,
    );
}

/// What is kept from a bucket: the candidate that spans the largest triangle
/// with the point kept before it and the mean of the range that follows, and
/// of several such candidates the first.
pub proof fn lemma_chosen_is_largest(
    pts: Seq<DataPoint>,
    threshold: int,
    starts: Seq<usize>,
    k: int,
)
    requires
        2 < threshold < pts.len(),
        starts_fit(starts, pts.len() as int, threshold),
        1 <= k <= threshold - 2,
    ensures
        starts[k - 1] <= chosen(pts, threshold, starts, k) < starts[k],
        forall|i: int|
            starts[k - 1] <= i < starts[k] ==> #[trigger] candidate_area(
                pts,
                chosen(pts, threshold, starts, k - 1),
                averaging_range(starts, pts.len() as int, k - 1),
                i,
            ) <= candidate_area(
                pts,
                chosen(pts, threshold, starts, k - 1),
                averaging_range(starts, pts.len() as int, k - 1),
                chosen(pts, threshold, starts, k),
            ),
        forall|i: int|
            starts[k - 1] <= i < chosen(pts, threshold, starts, k) ==> #[trigger] candidate_area(
                pts,
                chosen(pts, threshold, starts, k - 1),
                averaging_range(starts, pts.len() as int, k - 1),
                i,
            ) < candidate_area(
                pts,
                chosen(pts, threshold, starts, k - 1),
                averaging_range(starts, pts.len() as int, k - 1),
                chosen(pts, threshold, starts, k),
            ),
{
    let n = pts.len() as int;
    lemma_selection_range_bounds(starts, n, threshold, k - 1);
    lemma_first_largest(
        pts,
        chosen(pts, threshold, starts, k - 1),
        averaging_range(starts, n, k - 1),
        starts[k - 1] as int,
        starts[k] as int,
    );
}

/// Every output point is a point of the series.
pub proof fn lemma_chosen_in_series(pts: Seq<DataPoint>, threshold: int, starts: Seq<usize>, k: int)
    requires
        2 <= threshold < pts.len(),
        threshold > 2 ==> starts_fit(starts, pts.len() as int, threshold),
        0 <= k < threshold,
    ensures
        0 <= chosen(pts, threshold, starts, k) < pts.len(),
        k == 0 <==> chosen(pts, threshold, starts, k) == 0,
        k == threshold - 1 <==> chosen(pts, threshold, starts, k) == pts.len() - 1,
{
    if 1 <= k <= threshold - 2 {
        lemma_chosen_in_bucket(pts, threshold, starts, k);
        lemma_selection_range_bounds(starts, pts.len() as int, threshold, k - 1);
    }
}

/// The output keeps the order of the series: a later output point lies
/// strictly further on in the series than an earlier one.
pub proof fn lemma_chosen_increasing(
    pts: Seq<DataPoint>,
    threshold: int,
    starts: Seq<usize>,
    j: int,
    k: int,
)
    requires
        2 <= threshold < pts.len(),
        threshold > 2 ==> starts_fit(starts, pts.len() as int, threshold),
        0 <= j < k < threshold,
    ensures
        chosen(pts, threshold, starts, j) < chosen(pts, threshold, starts, k),
    decreases k - j,
{
    let n = pts.len() as int;
    lemma_chosen_in_series(pts, threshold, starts, j);
    lemma_chosen_in_series(pts, threshold, starts, k);
    if j + 1 < k {
        lemma_chosen_increasing(pts, threshold, starts, j, k - 1);
        lemma_chosen_increasing(pts, threshold, starts, k - 1, k);
    } else if 1 <= j && k <= threshold - 2 {
        lemma_chosen_in_bucket(pts, threshold, starts, j);
        lemma_chosen_in_bucket(pts, threshold, starts, k);
    }
}

/// Where a series is cut down, the result has exactly `threshold` points, and
/// it begins and ends as the series does.
pub proof fn lemma_downsampled_shape(pts: Seq<DataPoint>, threshold: int, starts: Seq<usize>)
    requires
        2 <= threshold < pts.len(),
    ensures
        downsampled(pts, threshold, starts).len() == threshold,
        downsampled(pts, threshold, starts).first() == pts.first(),
        downsampled(pts, threshold, starts).last() == pts.last(),
{
}

/// A threshold of two leaves no bucket between the first and the last point:
/// these two are the result, whatever `starts` holds.
pub proof fn lemma_downsampled_to_two(pts: Seq<DataPoint>, starts: Seq<usize>)
    requires
        2 < pts.len(),
    ensures
        downsampled(pts, 2, starts) == seq![pts.first(), pts.last()],
{
    assert(downsampled(pts, 2, starts) =~= seq![pts.first(), pts.last()]);
}

/// Sampling a sampled series once more. With the same threshold nothing is
/// left to select, and the series comes back as it is. With another threshold
/// the selection may differ from one made on the full series, but the series
/// still begins and ends as the full series does, and a threshold of two or
/// more that it exceeds is met exactly.
pub proof fn lemma_resampled(
    pts: Seq<DataPoint>,
    threshold: int,
    starts: Seq<usize>,
    again: int,
    starts_again: Seq<usize>,
)
    ensures
        downsampled(downsampled(pts, threshold, starts), threshold, starts_again) == downsampled(
            pts,
            threshold,
            starts,
        ),
        pts.len() > 0 ==> downsampled(
            downsampled(pts, threshold, starts),
            again,
            starts_again,
        ).first() == pts.first(),
        pts.len() > 0 ==> downsampled(
            downsampled(pts, threshold, starts),
            again,
            starts_again,
        ).last() == pts.last(),
        2 <= again < downsampled(pts, threshold, starts).len() ==> downsampled(
            downsampled(pts, threshold, starts),
            again,
            starts_again,
        ).len() == again,
{
    let once = downsampled(pts, threshold, starts);
    if 2 <= threshold < pts.len() {
        lemma_downsampled_shape(pts, threshold, starts);
    }
    if 2 <= again < once.len() {
        lemma_downsampled_shape(once, again, starts_again);
    }
}

/// Where a series is cut down, the result is a subsequence of it: the output
/// points are points of the series, taken at strictly increasing indices.
pub proof fn lemma_downsampled_is_subsequence(
    pts: Seq<DataPoint>,
    threshold: int,
    starts: Seq<usize>,
)
    requires
        2 <= threshold < pts.len(),
        threshold > 2 ==> starts_fit(starts, pts.len() as int, threshold),
    ensures
        forall|k: int|
            0 <= k < threshold ==> 0 <= #[trigger] chosen(pts, threshold, starts, k) < pts.len()
                && downsampled(pts, threshold, starts)[k] == pts[chosen(pts, threshold, starts, k)],
        forall|j: int, k: int|
            0 <= j < k < threshold ==> #[trigger] chosen(pts, threshold, starts, j)
                < #[trigger] chosen(pts, threshold, starts, k),
{
    assert forall|k: int| 0 <= k < threshold implies 0 <= #[trigger] chosen(
        pts,
        threshold,
        starts,
        k,
    ) < pts.len() by {
        lemma_chosen_in_series(pts, threshold, starts, k);
    }
    assert forall|j: int, k: int| 0 <= j < k < threshold implies #[trigger] chosen(
        pts,
        threshold,
        starts,
        j,
    ) < #[trigger] chosen(pts, threshold, starts, k) by {
        lemma_chosen_increasing(pts, threshold, starts, j, k);
    }
}

/// Selects from `data[bucket.0 .. bucket.1]` the point that spans the largest
/// triangle with `data[a]` and the mean of `data[avg.0 .. avg.1]`, and returns
/// its index. Of several points with the largest area the first is returned.
///
/// An empty averaging range has no mean: every area then counts as zero.
pub fn largest_triangle(
    data: &Vec<DataPoint>,
    a: usize,
    avg: (usize, usize),
    bucket: (usize, usize),
) -> (best: usize)
    requires
        a < data.len(),
        avg.0 <= avg.1 <= data.len(),
        bucket.0 < bucket.1 <= data.len(),
    ensures
        best == first_largest(
            data@,
            a as int,
            (avg.0 as int, avg.1 as int),
            bucket.0 as int,
            bucket.1 as int,
        ),
        bucket.0 <= best < bucket.1,
{
    let ghost mean = (avg.0 as int, avg.1 as int);
    let base: Baseline = Baseline::new(data, a, avg.0, avg.1);
    let mut best: usize = bucket.0;
    let mut best_area: Wide = base.area(data[best]);
    let mut j: usize = bucket.0 + 1;
    while j < bucket.1
        invariant
            a < data.len(),
            bucket.0 < j <= bucket.1 <= data.len(),
            mean == (avg.0 as int, avg.1 as int),
            base.joins(data@, a as int, avg.0 as int, avg.1 as int),
            bucket.0 <= best < j,
            best == first_largest(data@, a as int, mean, bucket.0 as int, j as int),
            best_area@ == candidate_area(data@, a as int, mean, best as int),
        decreases bucket.1 - j,
    {
        let area: Wide = base.area(data[j]);
        if area.exceeds(best_area) {
            best = j;
            best_area = area;
        }
        j = j + 1;
    }
    best
}

/// Why no series was returned.
#[derive(Debug, Clone, Copy, PartialEq, Eq, Structural)]
pub enum SampleError {
    /// The bucket boundaries that were handed in do not divide the series:
    /// they are too few or too many, not in increasing order, or not inside
    /// the series.
    Boundaries,
}

/// Cuts `data` down to `threshold` points that keep its visual shape, with
/// buckets that begin at `starts`.
///
/// The first and the last point are always kept. Each of the `threshold - 2`
/// buckets between them gives the point that spans the largest triangle with
/// the point kept before it and the mean of the bucket after it.
///
/// * A `threshold` of 0 or 1, or one that is not below the length of the
///   series, leaves nothing to select: `data` is returned as it is.
/// * A `threshold` of 2 keeps the first and the last point only.
/// * With a greater `threshold` there are buckets, and `starts` says where they
///   begin. Where it does not fit the series nothing is selected, and the
///   failure is reported.
///
/// In the first two cases `starts` is not looked at.
pub fn lttb(data: Vec<DataPoint>, threshold: usize, starts: Vec<usize>) -> (result: Result<
    Vec<DataPoint>,
    SampleError,
>)
    ensures
        result is Err <==> 2 < threshold < data.len() && !starts_fit(
            starts@,
            data.len() as int,
            threshold as int,
        ),
        result matches Ok(sampled) ==> {
            &&& sampled@ == downsampled(data@, threshold as int, starts@)
            &&& threshold < 2 || threshold >= data.len() ==> sampled@ == data@
            &&& 2 <= threshold < data.len() ==> sampled.len() == threshold
            &&& 2 == threshold < data.len() ==> sampled@ == seq![data@.first(), data@.last()]
            &&& data.len() > 0 ==> sampled@.first() == data@.first() && sampled@.last()
                == data@.last()
            &&& 2 <= threshold < data.len() ==> forall|k: int|
                0 <= k < threshold ==> 0 <= #[trigger] chosen(
                    data@,
                    threshold as int,
                    starts@,
                    k,
                ) < data.len() && sampled@[k] == data@[chosen(
                    data@,
                    threshold as int,
                    starts@,
                    k,
                )]
            &&& 2 <= threshold < data.len() ==> forall|j: int, k: int|
                0 <= j < k < threshold ==> #[trigger] chosen(data@, threshold as int, starts@, j)
                    < #[trigger] chosen(data@, threshold as int, starts@, k)
        },
{
    let n: usize = data.len();
    if threshold < 2 || threshold >= n {
        return Ok(data);
    }
    let ghost t = threshold as int;
    let ghost begins = starts@;
    let mut sampler: Sampler = match Sampler::new(n, threshold, starts) {
        Some(sampler) => sampler,
        None => {
            return Err(SampleError::Boundaries);
        },
    };
    let mut sampled: Vec<DataPoint> = Vec::with_capacity(threshold);
    sampled.push(data[0]);
    while !sampler.is_complete()
        invariant
            n == data.len(),
            t == threshold,
            sampler.wf(),
            sampler.series_len() == n,
            sampler.target() == t,
            sampler.starts() == begins,
            sampled@.len() == sampler.kept().len(),
            forall|k: int|
                0 <= k < sampled@.len() ==> sampler.kept()[k] == chosen(data@, t, begins, k)
                    && sampled@[k] == data@[chosen(data@, t, begins, k)],
        decreases t - sampler.kept().len(),
    {
        let best: usize = largest_triangle(
            &data,
            sampler.anchor(),
            sampler.lookahead(),
            sampler.bucket(),
        );
        sampler.keep(best);
        sampled.push(data[best]);
    }
    sampled.push(data[n - 1]);
    proof {
        assert(sampled@ =~= downsampled(data@, t, begins));
        lemma_downsampled_shape(data@, t, begins);
        lemma_downsampled_is_subsequence(data@, t, begins);
        if threshold == 2 {
            lemma_downsampled_to_two(data@, begins);
        }
    }
    Ok(sampled)
}

} // verus!
