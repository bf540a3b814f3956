//! The walk through the buckets of a series.
//!
//! A [`Sampler`] knows which bucket is next, which point was kept last and
//! which range is to be averaged, and it records the point that is kept from
//! each bucket. How the area of a triangle is measured is left to its user:
//! [`crate::lttb`] measures integer points exactly, and a user with coordinates
//! of another kind hands in one number per candidate, by which the candidates
//! are ordered.

use crate::bucket::{
    averaging_range, fit, lemma_averaging_range_bounds, lemma_selection_range_bounds,
    selection_range, starts_fit,
};
use vstd::prelude::*;

verus! {

/// The index of the first largest of `keys[0 .. len]`: a later key replaces the
/// best so far only where it is strictly greater.
pub open spec fn first_largest_key(keys: Seq<u64>, len: int) -> int
    decreases len,
{
    if len <= 1 {
        0
    } else {
        let best = first_largest_key(keys, len - 1);
        if keys[len - 1] > keys[best] {
            len - 1
        } else {
            best
        }
    }
}

/// `first_largest_key` names a key that no other key exceeds and no earlier
/// key reaches.
pub proof fn lemma_first_largest_key(keys: Seq<u64>, len: int)
    requires
        0 < len <= keys.len(),
    ensures
        0 <= first_largest_key(keys, len) < len,
        forall|j: int| 0 <= j < len ==> #[trigger] keys[j] <= keys[first_largest_key(keys, len)],
        forall|j: int|
            0 <= j < first_largest_key(keys, len) ==> #[trigger] keys[j] < keys[first_largest_key(
                keys,
                len,
            )],
    decreases len,
{
    if len > 1 {
        lemma_first_largest_key(keys, len - 1);
    }
}

/// Finds the first largest key.
pub fn largest_key(keys: &Vec<u64>) -> (best: usize)
    requires
        keys.len() > 0,
    ensures
        best == first_largest_key(keys@, keys.len() as int),
        best < keys.len(),
{
    let mut best: usize = 0;
    let mut j: usize = 1;
    while j < keys.len()
        invariant
            0 <= best < j <= keys.len(),
            best == first_largest_key(keys@, j as int),
        decreases keys.len() - j,
    {
        if keys[j] > keys[best] {
            best = j;
        }
        j = j + 1;
    }
    best
}

/// The state of a selection: the series length, the number of points asked
/// for, where the buckets begin, and the indices of the points kept so far.
#[derive(Debug)]
pub struct Sampler {
    n: usize,
    threshold: usize,
    starts: Vec<usize>,
    kept: Vec<usize>,
}

impl Sampler {
    /// The length of the series that is sampled.
    pub closed spec fn series_len(&self) -> int {
        self.n as int
    }

    /// The number of points that the selection ends with.
    pub closed spec fn target(&self) -> int {
        self.threshold as int
    }

    /// The indices at which the buckets begin, as they were handed in.
    pub closed spec fn starts(&self) -> Seq<usize> {
        self.starts@
    }

    /// The indices of the points kept so far, in the order in which they were
    /// kept. The first point of the series is kept from the start.
    pub closed spec fn kept(&self) -> Seq<int> {
        Seq::new(self.kept@.len(), |k: int| self.kept@[k] as int)
    }

    /// What holds of every sampler: there is something to select, the starts
    /// fit the series wherever a bucket is to be walked, the first point is
    /// kept, and each point kept after it lies in the bucket of its turn.
    pub open spec fn wf(&self) -> bool {
        &&& 2 <= self.target() < self.series_len()
        &&& self.target() > 2 ==> starts_fit(self.starts(), self.series_len(), self.target())
        &&& 1 <= self.kept().len() <= self.target() - 1
        &&& self.kept()[0] == 0
        &&& forall|k: int|
            1 <= k < self.kept().len() ==> selection_range(self.starts(), k - 1).0
                <= #[trigger] self.kept()[k] < selection_range(self.starts(), k - 1).1
    }

    /// Whether a point was kept from every bucket, so that only the last point
    /// of the series is left to add.
    pub open spec fn complete(&self) -> bool {
        self.kept().len() == self.target() - 1
    }

    /// The bucket from which the next point is kept.
    pub open spec fn next_bucket(&self) -> (int, int) {
        selection_range(self.starts(), self.kept().len() - 1)
    }

    /// The range whose mean the candidates of the next bucket are judged
    /// against.
    pub open spec fn next_lookahead(&self) -> (int, int) {
        averaging_range(self.starts(), self.series_len(), self.kept().len() - 1)
    }

    /// The points are kept in the order of the series: a point kept later lies
    /// strictly further on, and all lie before the last point.
    pub proof fn lemma_kept_increasing(&self, j: int, k: int)
        requires
            self.wf(),
            0 <= j < k < self.kept().len(),
        ensures
            0 <= self.kept()[j] < self.kept()[k] < self.series_len() - 1,
    {
        let n = self.series_len();
        let t = self.target();
        lemma_selection_range_bounds(self.starts(), n, t, k - 1);
        if j > 0 {
            lemma_selection_range_bounds(self.starts(), n, t, j - 1);
            if j < k - 1 {
                assert(self.starts()[j] < self.starts()[k - 1]);
            }
        }
    }

    /// Begins a selection of `threshold` points from a series of `n` points,
    /// whose buckets begin at `starts`.
    ///
    /// There is none where `threshold` is below two or `n` does not exceed it,
    /// and none where there are buckets and `starts` does not fit them. With a
    /// `threshold` of two there is no bucket, and `starts` is not looked at.
    pub fn new(n: usize, threshold: usize, starts: Vec<usize>) -> (made: Option<Sampler>)
        ensures
            made is None <==> threshold < 2 || threshold >= n || (threshold > 2 && !starts_fit(
                starts@,
                n as int,
                threshold as int,
            )),
            made matches Some(s) ==> s.wf() && s.series_len() == n && s.target() == threshold
                && s.starts() == starts@ && s.kept() == seq![0int],
    {
        if threshold < 2 || threshold >= n {
            return None;
        }
        if threshold > 2 && !fit(&starts, n, threshold) {
            return None;
        }
        let mut kept: Vec<usize> = Vec::new();
        kept.push(0);
        let s = Sampler { n, threshold, starts, kept };
        assert(s.kept() =~= seq![0int]);
        Some(s)
    }

    /// The length of the series that is sampled.
    pub fn len(&self) -> (n: usize)
        ensures
            n == self.series_len(),
    {
        self.n
    }

    /// The number of points that the selection ends with.
    pub fn threshold(&self) -> (threshold: usize)
        ensures
            threshold == self.target(),
    {
        self.threshold
    }

    /// Whether a point was kept from every bucket.
    pub fn is_complete(&self) -> (b: bool)
        requires
            self.wf(),
        ensures
            b == self.complete(),
    {
        self.kept.len() == self.threshold - 1
    }

    /// The index of the point that was kept last.
    pub fn anchor(&self) -> (a: usize)
        requires
            self.wf(),
        ensures
            a == self.kept().last(),
            a < self.series_len() - 1,
    {
        proof {
            if self.kept().len() > 1 {
                self.lemma_kept_increasing(0, self.kept().len() - 1);
            }
        }
        self.kept[self.kept.len() - 1]
    }

    /// The range of indices from which the next point is kept.
    pub fn bucket(&self) -> (range: (usize, usize))
        requires
            self.wf(),
            !self.complete(),
        ensures
            (range.0 as int, range.1 as int) == self.next_bucket(),
            1 <= range.0 < range.1 <= self.series_len() - 1,
    {
        let k: usize = self.kept.len() - 1;
        proof {
            lemma_selection_range_bounds(self.starts(), self.series_len(), self.target(), k as int);
        }
        (self.starts[k], self.starts[k + 1])
    }

    /// The range of indices whose mean the candidates of the next bucket are
    /// judged against. After the last bucket it can be empty.
    pub fn lookahead(&self) -> (range: (usize, usize))
        requires
            self.wf(),
            !self.complete(),
        ensures
            (range.0 as int, range.1 as int) == self.next_lookahead(),
            1 < range.0 <= range.1 <= self.series_len(),
    {
        let k: usize = self.kept.len() - 1;
        proof {
            lemma_averaging_range_bounds(self.starts(), self.series_len(), self.target(), k as int);
        }
        let end: usize = self.starts[k + 2];
        (self.starts[k + 1], if end < self.n { end } else { self.n })
    }

    /// Keeps the point at `index`, which lies in the next bucket, and moves on
    /// to the bucket after it.
    pub fn keep(&mut self, index: usize)
        requires
            old(self).wf(),
            !old(self).complete(),
            old(self).next_bucket().0 <= index < old(self).next_bucket().1,
        ensures
            final(self).wf(),
            final(self).series_len() == old(self).series_len(),
            final(self).target() == old(self).target(),
            final(self).starts() == old(self).starts(),
            final(self).kept() == old(self).kept().push(index as int),
    {
        let ghost before = self.kept();
        self.kept.push(index);
        assert(self.kept() =~= before.push(index as int));
    }

    /// Keeps the candidate of the next bucket with the largest area, the first
    /// of them where several have it. `areas` holds one number for each
    /// candidate of the bucket, in the order of the series; a greater number
    /// stands for a larger triangle.
    pub fn keep_largest(&mut self, areas: &Vec<u64>)
        requires
            old(self).wf(),
            !old(self).complete(),
            areas.len() == old(self).next_bucket().1 - old(self).next_bucket().0,
        ensures
            final(self).wf(),
            final(self).series_len() == old(self).series_len(),
            final(self).target() == old(self).target(),
            final(self).starts() == old(self).starts(),
            final(self).kept() == old(self).kept().push(
                old(self).next_bucket().0 + first_largest_key(areas@, areas.len() as int),
            ),
    {
        let range: (usize, usize) = self.bucket();
        let best: usize = largest_key(areas);
        self.keep(range.0 + best);
    }

    /// Ends the selection with the last point of the series, and returns the
    /// indices of all points kept.
    pub fn finish(self) -> (picked: Vec<usize>)
        requires
            self.wf(),
            self.complete(),
        ensures
            picked@.len() == self.target(),
            forall|k: int| 0 <= k < self.target() - 1 ==> picked@[k] == self.kept()[k],
            picked@[self.target() - 1] == self.series_len() - 1,
    {
        let mut picked: Vec<usize> = self.kept;
        picked.push(self.n - 1);
        picked
    }
}

} // verus!
