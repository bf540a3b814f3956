//! Triangle areas, compared exactly.
//!
//! A candidate `p` is judged by the area of the triangle it spans with the
//! point `a` that was kept last and the mean `c` of the bucket that follows.
//! With `c = (sx / count, sy / count)` that area is
//!
//! ```text
//! |(a.x - c.x) * (p.y - a.y) - (a.x - p.x) * (c.y - a.y)| / 2
//! ```
//!
//! All candidates of one bucket share `a` and `c`, so multiplying through by
//! `2 * count` keeps their order and leaves whole numbers only.

use crate::point::DataPoint;
use crate::wide::Wide;
use vstd::prelude::*;

verus! {

/// The sum of the `x` coordinates of `pts[lo .. hi]`.
pub open spec fn sum_x(pts: Seq<DataPoint>, lo: int, hi: int) -> int
    decreases hi - lo,
{
    if hi <= lo {
        0
    } else {
        sum_x(pts, lo, hi - 1) + pts[hi - 1].x
    }
}

/// The sum of the `y` coordinates of `pts[lo .. hi]`.
pub open spec fn sum_y(pts: Seq<DataPoint>, lo: int, hi: int) -> int
    decreases hi - lo,
{
    if hi <= lo {
        0
    } else {
        sum_y(pts, lo, hi - 1) + pts[hi - 1].y
    }
}

/// The absolute value of `v`.
pub open spec fn magnitude(v: int) -> int {
    if v >= 0 {
        v
    } else {
        -v
    }
}

/// The signed area of the triangle `a`, `p`, `c`, multiplied by `2 * count`,
/// where `c` is the mean of `count` points whose coordinates add up to
/// `(sx, sy)`.
pub open spec fn signed_area(a: DataPoint, p: DataPoint, sx: int, sy: int, count: int) -> int {
    (count * a.x - sx) * (p.y - a.y) - (a.x - p.x) * (sy - count * a.y)
}

/// The area of the triangle `a`, `p`, `c`, multiplied by `2 * count`, where `c`
/// is the mean of `count` points whose coordinates add up to `(sx, sy)`.
pub open spec fn scaled_area(a: DataPoint, p: DataPoint, sx: int, sy: int, count: int) -> int {
    magnitude(signed_area(a, p, sx, sy, count))
}

/// Twice the signed area of the triangle `a`, `b`, `c`. It is zero exactly
/// when the three points lie on one line.
pub open spec fn cross(a: DataPoint, b: DataPoint, c: DataPoint) -> int {
    (b.x - a.x) * (c.y - a.y) - (c.x - a.x) * (b.y - a.y)
}

/// The sum of `cross(a, p, c)` over the points `c` of `pts[lo .. hi]`.
pub open spec fn sum_cross(pts: Seq<DataPoint>, a: DataPoint, p: DataPoint, lo: int, hi: int) -> int
    decreases hi - lo,
{
    if hi <= lo {
        0
    } else {
        sum_cross(pts, a, p, lo, hi - 1) + cross(a, p, pts[hi - 1])
    }
}

/// Whether all points of the series lie on one line.
pub open spec fn collinear(pts: Seq<DataPoint>) -> bool {
    forall|i: int, j: int, k: int|
        0 <= i < pts.len() && 0 <= j < pts.len() && 0 <= k < pts.len() ==> cross(
            pts[i],
            pts[j],
            pts[k],
        ) == 0
}

/// The triangle against the mean of a bucket is the sum of the triangles
/// against each of its points.
pub proof fn lemma_area_sums_crosses(
    pts: Seq<DataPoint>,
    a: DataPoint,
    p: DataPoint,
    lo: int,
    hi: int,
)
    requires
        lo <= hi,
    ensures
        signed_area(a, p, sum_x(pts, lo, hi), sum_y(pts, lo, hi), hi - lo) == sum_cross(
            pts,
            a,
            p,
            lo,
            hi,
        ),
    decreases hi - lo,
{
    let (ax, ay, px, py) = (a.x as int, a.y as int, p.x as int, p.y as int);
    if lo < hi {
        lemma_area_sums_crosses(pts, a, p, lo, hi - 1);
        let m = hi - 1 - lo;
        let sx = sum_x(pts, lo, hi - 1);
        let sy = sum_y(pts, lo, hi - 1);
        let (qx, qy) = (pts[hi - 1].x as int, pts[hi - 1].y as int);
        assert(((m + 1) * ax - (sx + qx)) * (py - ay) - (ax - px) * ((sy + qy) - (m + 1) * ay) == (
        (m * ax - sx) * (py - ay) - (ax - px) * (sy - m * ay)) + ((px - ax) * (qy - ay) - (qx - ax)
            * (py - ay))) by (nonlinear_arith);
    } else {
        assert((0 * ax - 0) * (py - ay) - (ax - px) * (0 - 0 * ay) == 0) by (nonlinear_arith);
    }
}

/// `v` with its sign flipped when `negative` is set.
pub open spec fn signed(negative: bool, v: int) -> int {
    if negative {
        -v
    } else {
        v
    }
}

/// The sign of a product is the product of the signs.
proof fn lemma_signed_product(a_neg: bool, a: int, b_neg: bool, b: int)
    ensures
        signed(a_neg, a) * signed(b_neg, b) == signed(a_neg != b_neg, a * b),
{
    assert((-a) * b == -(a * b)) by (nonlinear_arith);
    assert(a * (-b) == -(a * b)) by (nonlinear_arith);
    assert((-a) * (-b) == a * b) by (nonlinear_arith);
}

/// A coordinate shifted by `2^63`, which makes it unsigned.
fn shifted(v: i64) -> (r: u64)
    ensures
        r == v + 0x8000_0000_0000_0000,
{
    (v as i128 + 0x8000_0000_0000_0000i128) as u64
}

/// A signed difference of two coordinates, as sign and size.
fn split(from: i64, to: i64) -> (r: (bool, u64))
    ensures
        signed(r.0, r.1 as int) == to - from,
{
    let d: i128 = to as i128 - from as i128;
    if d < 0 {
        (true, (-d) as u64)
    } else {
        (false, d as u64)
    }
}

/// The side that every candidate of a bucket is measured against: it runs from
/// the point kept last to the mean of the bucket that follows.
#[derive(Debug, Clone, Copy)]
pub struct Baseline {
    pub anchor: DataPoint,
    pub dx_negative: bool,
    pub dx_size: u128,
    pub dy_negative: bool,
    pub dy_size: u128,
}

impl Baseline {
    /// `count * anchor.x - sx` for the bucket that was summed.
    pub open spec fn dx(self) -> int {
        signed(self.dx_negative, self.dx_size as int)
    }

    /// `sy - count * anchor.y` for the bucket that was summed.
    pub open spec fn dy(self) -> int {
        signed(self.dy_negative, self.dy_size as int)
    }

    /// Whether this is the baseline from `pts[a]` to the mean of
    /// `pts[lo .. hi]`.
    pub open spec fn joins(self, pts: Seq<DataPoint>, a: int, lo: int, hi: int) -> bool {
        &&& self.anchor == pts[a]
        &&& self.dx() == (hi - lo) * pts[a].x - sum_x(pts, lo, hi)
        &&& self.dy() == sum_y(pts, lo, hi) - (hi - lo) * pts[a].y
    }

    /// Sums the bucket `data[lo .. hi]` and sets it against `data[a]`.
    pub fn new(data: &Vec<DataPoint>, a: usize, lo: usize, hi: usize) -> (b: Baseline)
        requires
            a < data.len(),
            lo <= hi <= data.len(),
        ensures
            b.joins(data@, a as int, lo as int, hi as int),
    {
        let mut sx: u128 = 0;
        let mut sy: u128 = 0;
        let mut j: usize = lo;
        while j < hi
            invariant
                lo <= j <= hi <= data.len(),
                sx == sum_x(data@, lo as int, j as int) + (j - lo) * 0x8000_0000_0000_0000,
                sy == sum_y(data@, lo as int, j as int) + (j - lo) * 0x8000_0000_0000_0000,
                sx <= (j - lo) * 0xFFFF_FFFF_FFFF_FFFF,
                sy <= (j - lo) * 0xFFFF_FFFF_FFFF_FFFF,
            decreases hi - j,
        {
            let p: DataPoint = data[j];
            sx = sx + shifted(p.x) as u128;
            sy = sy + shifted(p.y) as u128;
            j = j + 1;
        }
        let anchor: DataPoint = data[a];
        let count: u128 = (hi - lo) as u128;
        let ax: u128 = shifted(anchor.x) as u128;
        let ay: u128 = shifted(anchor.y) as u128;
        proof {
            assert(0 <= count * ax <= 0xFFFF_FFFF_FFFF_FFFF * 0xFFFF_FFFF_FFFF_FFFF)
                by (nonlinear_arith)
                requires
                    0 <= count <= 0xFFFF_FFFF_FFFF_FFFF,
                    0 <= ax <= 0xFFFF_FFFF_FFFF_FFFF,
            ;
            assert(0 <= count * ay <= 0xFFFF_FFFF_FFFF_FFFF * 0xFFFF_FFFF_FFFF_FFFF)
                by (nonlinear_arith)
                requires
                    0 <= count <= 0xFFFF_FFFF_FFFF_FFFF,
                    0 <= ay <= 0xFFFF_FFFF_FFFF_FFFF,
            ;
            assert(count * ax == count * anchor.x + count * 0x8000_0000_0000_0000)
                by (nonlinear_arith)
                requires
                    ax == anchor.x + 0x8000_0000_0000_0000,
            ;
            assert(count * ay == count * anchor.y + count * 0x8000_0000_0000_0000)
                by (nonlinear_arith)
                requires
                    ay == anchor.y + 0x8000_0000_0000_0000,
            ;
        }
        let tx: u128 = count * ax;
        let ty: u128 = count * ay;
        let (dx_negative, dx_size): (bool, u128) = if tx >= sx {
            (false, tx - sx)
        } else {
            (true, sx - tx)
        };
        let (dy_negative, dy_size): (bool, u128) = if sy >= ty {
            (false, sy - ty)
        } else {
            (true, ty - sy)
        };
        Baseline { anchor, dx_negative, dx_size, dy_negative, dy_size }
    }

    /// The scaled area of the triangle that `p` spans with this baseline.
    pub fn area(&self, p: DataPoint) -> (w: Wide)
        ensures
            w@ == magnitude(
                self.dx() * (p.y - self.anchor.y) - (self.anchor.x - p.x) * self.dy(),
            ),
    {
        let (u_negative, u_size): (bool, u64) = split(self.anchor.y, p.y);
        let (v_negative, v_size): (bool, u64) = split(p.x, self.anchor.x);
        let first: Wide = Wide::product(self.dx_size, u_size);
        let second: Wide = Wide::product(self.dy_size, v_size);
        proof {
            lemma_signed_product(self.dx_negative, self.dx_size as int, u_negative, u_size as int);
            lemma_signed_product(v_negative, v_size as int, self.dy_negative, self.dy_size as int);
            assert(v_size * self.dy_size == self.dy_size * v_size) by (nonlinear_arith);
            assert(0 <= self.dx_size * u_size) by (nonlinear_arith);
            assert(0 <= self.dy_size * v_size) by (nonlinear_arith);
        }
        if (self.dx_negative != u_negative) == (v_negative != self.dy_negative) {
            first.distance(second)
        } else {
            first.sum(second)
        }
    }
}

} // verus!
