//! Where an angle meets a circle.
//!
//! An [`Edge`] is one end of an arc: the direction at which the arc starts
//! or ends, the octant that direction falls in, and the column of that
//! octant in which the direction crosses the circle.

use vstd::prelude::*;
use crate::angle::{angle_to_end_octant, angle_to_octant, Dir};
use crate::ring::on_ring;
use crate::translate::is_octant;

verus! {

/// Whether column `x` reaches up to where the octant-local direction
/// `(m, big)` crosses the circle of radius `r`, or beyond: the crossing lies
/// at `r * m / sqrt(m*m + big*big)`, and that is less than `x + 1/2`.
pub open spec fn not_before(m: int, big: int, r: int, x: int) -> bool {
    4 * (r * r) * (m * m) < (2 * x + 1) * (2 * x + 1) * (m * m + big * big)
}

/// Whether column `x` reaches down to where the octant-local direction
/// `(m, big)` crosses the circle of radius `r`, or is the first column: the
/// crossing lies at `x - 1/2` or beyond.
pub open spec fn not_after(m: int, big: int, r: int, x: int) -> bool {
    x <= 0 || (2 * x - 1) * (2 * x - 1) * (m * m + big * big) <= 4 * (r * r) * (m * m)
}

/// Whether `x` is the column in which the octant-local direction
/// `(m, big)` crosses the circle of radius `r`: the crossing lies at
/// `r * m / sqrt(m*m + big*big)`, and `x` is the nearest integer to it, the
/// larger one of two that are equally near.
pub open spec fn is_rim(m: int, big: int, r: int, x: int) -> bool {
    &&& 0 <= x
    &&& not_after(m, big, r, x)
    &&& not_before(m, big, r, x)
}

/// The columns from the one in which a direction crosses a circle on reach
/// beyond the crossing, and those up to it reach down to it: no column on
/// one side of the edge of an arc is further than half a column from where
/// the arc was asked to begin or end.
pub proof fn lemma_rim_sides(m: int, big: int, r: int, x: int, q: int)
    requires
        is_rim(m, big, r, x),
        0 <= q,
    ensures
        x <= q ==> not_before(m, big, r, q),
        q <= x ==> not_after(m, big, r, q),
{
    let s = m * m + big * big;
    assert(0 <= m * m && 0 <= big * big) by (nonlinear_arith);
    if x <= q {
        assert((2 * x + 1) * (2 * x + 1) * s <= (2 * q + 1) * (2 * q + 1) * s) by (nonlinear_arith)
            requires
                0 <= x <= q,
                0 <= s,
        ;
    }
    if 0 < q <= x {
        assert((2 * q - 1) * (2 * q - 1) * s <= (2 * x - 1) * (2 * x - 1) * s) by (nonlinear_arith)
            requires
                0 < q <= x,
                0 <= s,
        ;
    }
}

/// A direction along the axis of an octant crosses every circle in column 0.
pub proof fn lemma_rim_axis(big: int, r: int, x: int)
    requires
        0 < big,
        is_rim(0, big, r, x),
    ensures
        x == 0,
{
    if x != 0 {
        assert((2 * x - 1) * (2 * x - 1) * (0 * 0 + big * big) > 0) by (nonlinear_arith)
            requires
                1 <= x,
                0 < big,
        ;
        assert(4 * (r * r) * (0 * 0) == 0) by (nonlinear_arith);
    }
}

/// Beyond the column in which the diagonal of an octant crosses a circle,
/// the octant holds no pixel of the circle.
pub proof fn lemma_rim_diagonal(m: int, r: int, x: int, q: (int, int))
    requires
        0 < m,
        is_rim(m, m, r, x),
        0 <= q.0 <= q.1,
        on_ring(r, q.0, q.1),
    ensures
        q.0 <= x,
{
    if q.0 > x {
        let a = q.0;
        let b = q.1;
        let w = 2 * x + 1;
        assert(2 * (r * r) < w * w) by (nonlinear_arith)
            requires
                0 < m,
                4 * (r * r) * (m * m) < w * w * (m * m + m * m),
        ;
        assert(w * w <= (2 * a - 1) * (2 * a - 1)) by (nonlinear_arith)
            requires
                0 <= x,
                x + 1 <= a,
                w == 2 * x + 1,
        ;
        assert((2 * a - 1) * (2 * a - 1) == 4 * (a * a) - 4 * a + 1) by (nonlinear_arith);
        assert(a * (a - 1) <= b * (b - 1)) by (nonlinear_arith)
            requires
                1 <= a <= b,
        ;
        assert(a * (a - 1) == a * a - a) by (nonlinear_arith);
    }
}

/// A direction crosses a circle in one column only.
pub proof fn lemma_rim_unique(m: int, big: int, r: int, x1: int, x2: int)
    requires
        is_rim(m, big, r, x1),
        is_rim(m, big, r, x2),
    ensures
        x1 == x2,
{
    let s = m * m + big * big;
    assert(0 <= m * m && 0 <= big * big) by (nonlinear_arith);
    if x1 < x2 {
        assert((2 * x1 + 1) * (2 * x1 + 1) * s <= (2 * x2 - 1) * (2 * x2 - 1) * s)
            by (nonlinear_arith)
            requires
                0 <= x1,
                x1 + 1 <= x2,
                0 <= s,
        ;
    }
    if x2 < x1 {
        assert((2 * x2 + 1) * (2 * x2 + 1) * s <= (2 * x1 - 1) * (2 * x1 - 1) * s)
            by (nonlinear_arith)
            requires
                0 <= x2,
                x2 + 1 <= x1,
                0 <= s,
        ;
    }
}

/// The column in which the octant-local direction `(m, big)` crosses the
/// circle of radius `r`.
pub fn rim_abscissa(m: u32, big: u32, r: i32) -> (x: i32)
    requires
        m <= big,
        0 < big <= 0x8000_0000,
        1 <= r,
    ensures
        is_rim(m as int, big as int, r as int, x as int),
        x <= r,
{
    let mm: u128 = m as u128;
    let bb: u128 = big as u128;
    let rr: u128 = r as u128;
    assert(mm * mm <= 0x8000_0000 * 0x8000_0000) by (nonlinear_arith)
        requires
            0 <= mm <= 0x8000_0000,
    ;
    assert(mm * mm <= bb * bb <= 0x8000_0000 * 0x8000_0000 && 0 < bb * bb) by (nonlinear_arith)
        requires
            0 <= mm <= bb,
            0 < bb <= 0x8000_0000,
    ;
    assert(rr * rr <= 0x8000_0000 * 0x8000_0000) by (nonlinear_arith)
        requires
            0 <= rr <= 0x8000_0000,
    ;
    let m2: u128 = mm * mm;
    let s: u128 = m2 + bb * bb;
    let r2: u128 = rr * rr;
    assert(4 * r2 * m2 <= 4 * 0x4000_0000_0000_0000 * 0x4000_0000_0000_0000) by (nonlinear_arith)
        requires
            0 <= r2 <= 0x4000_0000_0000_0000,
            0 <= m2 <= 0x4000_0000_0000_0000,
    ;
    let t: u128 = 4 * r2 * m2;
    // The column is the largest `x` that is zero or has
    // `(2x - 1)^2 * s <= t`; it lies in `lo..hi`.
    let mut lo: u128 = 0;
    let mut hi: u128 = rr + 1;
    assert((2 * hi - 1) * (2 * hi - 1) * s > 4 * r2 * m2) by (nonlinear_arith)
        requires
            hi == rr + 1,
            r2 == rr * rr,
            s > m2,
            rr >= 1,
            m2 >= 0,
    ;
    while hi - lo > 1
        invariant
            0 <= lo < hi <= rr + 1,
            rr <= 0x7fff_ffff,
            s <= 0x8000_0000_0000_0000,
            lo == 0 || (2 * lo - 1) * (2 * lo - 1) * s <= t,
            (2 * hi - 1) * (2 * hi - 1) * s > t,
        decreases hi - lo,
    {
        let mid: u128 = lo + (hi - lo) / 2;
        let w: u128 = 2 * mid - 1;
        assert(w * w <= 0x1_0000_0000 * 0x1_0000_0000) by (nonlinear_arith)
            requires
                0 <= w <= 0x1_0000_0000,
        ;
        assert(w * w * s <= 0x1_0000_0000_0000_0000 * 0x8000_0000_0000_0000) by (nonlinear_arith)
            requires
                0 <= w * w <= 0x1_0000_0000_0000_0000,
                0 <= s <= 0x8000_0000_0000_0000,
        ;
        if w * w * s <= t {
            lo = mid;
        } else {
            hi = mid;
        }
    }
    assert(2 * hi - 1 == 2 * lo + 1);
    assert(4 * r2 * m2 == 4 * (rr * rr) * (mm * mm)) by (nonlinear_arith)
        requires
            r2 == rr * rr,
            m2 == mm * mm,
    ;
    lo as i32
}

/// One end of an arc on a circle.
#[derive(Clone, Copy, Debug, PartialEq, Eq, Structural)]
pub struct Edge {
    /// The direction of this end of the arc.
    pub dir: Dir,
    /// The octant the direction falls in.
    pub oct: u8,
    /// The column of that octant in which the direction crosses the circle.
    pub x: i32,
}

impl Edge {
    /// Whether this edge is where an arc of radius `r` that starts at `dir`
    /// starts.
    pub open spec fn is_start(self, dir: Dir, r: int) -> bool {
        &&& self.dir == dir
        &&& is_octant(self.oct as int)
        &&& dir.starts_in(self.oct as int)
        &&& is_rim(dir.local(self.oct as int).0, dir.local(self.oct as int).1, r, self.x as int)
    }

    /// Whether this edge is where an arc of radius `r` that ends at `dir`
    /// ends.
    pub open spec fn is_end(self, dir: Dir, r: int) -> bool {
        &&& self.dir == dir
        &&& is_octant(self.oct as int)
        &&& dir.ends_in(self.oct as int)
        &&& is_rim(dir.local(self.oct as int).0, dir.local(self.oct as int).1, r, self.x as int)
    }

    /// An edge of an arc of radius `r`, at either end.
    pub open spec fn wf(self, r: int) -> bool {
        &&& is_octant(self.oct as int)
        &&& 0 <= self.x <= r
    }

    /// The edge at which an arc of radius `r` that starts at `dir` starts.
    pub fn start(dir: Dir, r: i32) -> (e: Edge)
        requires
            dir.wf(),
            1 <= r,
        ensures
            e == start_edge(dir, r as int),
            e.is_start(dir, r as int),
            e.wf(r as int),
    {
        let oct = angle_to_octant(dir);
        let (m, big) = dir.split(oct);
        let e = Edge { dir, oct, x: rim_abscissa(m, big, r) };
        proof {
            lemma_edge_unique(e, start_edge(dir, r as int), dir, r as int);
        }
        e
    }

    /// The edge at which an arc of radius `r` that ends at `dir` ends.
    pub fn end(dir: Dir, r: i32) -> (e: Edge)
        requires
            dir.wf(),
            1 <= r,
        ensures
            e == end_edge(dir, r as int),
            e.is_end(dir, r as int),
            e.wf(r as int),
    {
        let oct = angle_to_end_octant(dir);
        let (m, big) = dir.split(oct);
        let e = Edge { dir, oct, x: rim_abscissa(m, big, r) };
        proof {
            lemma_edge_unique(e, end_edge(dir, r as int), dir, r as int);
        }
        e
    }
}

/// The edge at which an arc of radius `r` that starts at `dir` starts.
pub open spec fn start_edge(dir: Dir, r: int) -> Edge {
    choose|e: Edge| e.is_start(dir, r)
}

/// The edge at which an arc of radius `r` that ends at `dir` ends.
pub open spec fn end_edge(dir: Dir, r: int) -> Edge {
    choose|e: Edge| e.is_end(dir, r)
}

/// No two edges mark the start of one arc, and no two its end.
pub proof fn lemma_edge_unique(a: Edge, b: Edge, dir: Dir, r: int)
    ensures
        a.is_start(dir, r) && b.is_start(dir, r) ==> a == b,
        a.is_end(dir, r) && b.is_end(dir, r) ==> a == b,
{
    if a.is_start(dir, r) && b.is_start(dir, r) {
        crate::angle::lemma_octant_unique(dir, a.oct as int, b.oct as int);
        let q = dir.local(a.oct as int);
        lemma_rim_unique(q.0, q.1, r, a.x as int, b.x as int);
    }
    if a.is_end(dir, r) && b.is_end(dir, r) {
        crate::angle::lemma_octant_unique(dir, a.oct as int, b.oct as int);
        let q = dir.local(a.oct as int);
        lemma_rim_unique(q.0, q.1, r, a.x as int, b.x as int);
    }
}

} // verus!
