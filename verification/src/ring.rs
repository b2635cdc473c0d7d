//! The lattice points of a circle, column by column, and the midpoint walk
//! that visits them.
//!
//! In octant-local coordinates the circle of radius `r` crosses column `x`
//! at height `sqrt(r*r - x*x)`. The pixel of that column is the one at the
//! height `y` for which `y*(y-1) <= r*r - x*x < y*(y+1)`: the crossing lies
//! between `y - 1/2` and `y + 1/2`, up to the quarter that integer arithmetic
//! drops.

use vstd::prelude::*;

verus! {

/// Whether `(x, y)` is the pixel of column `x` on the circle of radius `r`.
pub open spec fn on_ring(r: int, x: int, y: int) -> bool {
    &&& 1 <= y
    &&& y * (y - 1) <= r * r - x * x
    &&& r * r - x * x < y * (y + 1)
}

/// The height of the pixel of column `x` on the circle of radius `r`.
pub open spec fn ring_y(r: int, x: int) -> int {
    choose|y: int| on_ring(r, x, y)
}

/// The decision value of the midpoint walk at `(x, y)`: the circle equation
/// at the midpoint `(x + 1, y - 1/2)`, rounded down.
pub open spec fn midpoint_error(r: int, x: int, y: int) -> int {
    (x + 1) * (x + 1) + y * y - y - r * r
}

/// A column has at most one pixel.
pub proof fn lemma_ring_unique(r: int, x: int, y1: int, y2: int)
    requires
        on_ring(r, x, y1),
        on_ring(r, x, y2),
    ensures
        y1 == y2,
{
    if y1 < y2 {
        assert(y1 * (y1 + 1) <= y2 * (y2 - 1)) by (nonlinear_arith)
            requires
                1 <= y1,
                y1 + 1 <= y2,
        ;
    }
    if y2 < y1 {
        assert(y2 * (y2 + 1) <= y1 * (y1 - 1)) by (nonlinear_arith)
            requires
                1 <= y2,
                y2 + 1 <= y1,
        ;
    }
}

/// No pixel of a circle lies further from the axis than the radius.
pub proof fn lemma_ring_inside(r: int, x: int, y: int)
    requires
        0 <= r,
        0 <= x,
        on_ring(r, x, y),
    ensures
        x <= r,
{
    if x > r {
        assert(x * x >= (r + 1) * (r + 1) > r * r) by (nonlinear_arith)
            requires
                0 <= r,
                r + 1 <= x,
        ;
        assert(y * (y - 1) >= 0) by (nonlinear_arith)
            requires
                1 <= y,
        ;
    }
}

/// The walk of an octant starts on the circle.
pub proof fn lemma_ring_top(r: int)
    requires
        1 <= r,
    ensures
        on_ring(r, 0, r),
        midpoint_error(r, 0, r) == 1 - r,
{
    assert(r * (r - 1) <= r * r - 0 * 0 < r * (r + 1)) by (nonlinear_arith)
        requires
            1 <= r,
    ;
}

/// Further from the axis the circle is no higher.
pub proof fn lemma_ring_falls(r: int, x1: int, y1: int, x2: int, y2: int)
    requires
        0 <= x1 <= x2,
        on_ring(r, x1, y1),
        on_ring(r, x2, y2),
    ensures
        y2 <= y1,
{
    if y1 < y2 {
        assert(y1 * (y1 + 1) <= y2 * (y2 - 1)) by (nonlinear_arith)
            requires
                1 <= y1,
                y1 + 1 <= y2,
        ;
        assert(x1 * x1 <= x2 * x2) by (nonlinear_arith)
            requires
                0 <= x1 <= x2,
        ;
    }
}

/// One step of the midpoint walk: from the pixel of column `x` the decision
/// value tells the pixel of column `x + 1`, as long as that column still
/// belongs to the octant.
pub proof fn lemma_ring_step(r: int, x: int, y: int)
    requires
        0 <= x,
        on_ring(r, x, y),
    ensures
        midpoint_error(r, x, y) <= 0 ==> on_ring(r, x + 1, y),
        midpoint_error(r, x, y) > 0 ==> r * r - (x + 1) * (x + 1) < (y - 1) * y,
        midpoint_error(r, x, y) > 0 && x + 1 <= y - 1 ==> on_ring(r, x + 1, y - 1),
        midpoint_error(r, x + 1, y) == midpoint_error(r, x, y) + 2 * (x + 1) + 1,
        midpoint_error(r, x + 1, y - 1) == midpoint_error(r, x, y) + 2 * ((x + 1) - (y - 1)) + 1,
        -2 * y + 2 * x + 1 < midpoint_error(r, x, y) <= 2 * x + 1,
{
    assert((x + 1) * (x + 1) == x * x + 2 * x + 1) by (nonlinear_arith);
    assert((x + 2) * (x + 2) == x * x + 4 * x + 4) by (nonlinear_arith);
    assert(y * (y - 1) == y * y - y) by (nonlinear_arith);
    assert(y * (y + 1) == y * y + y) by (nonlinear_arith);
    assert((y - 1) * (y - 1) == y * y - 2 * y + 1) by (nonlinear_arith);
    assert((y - 1) * (y - 1 - 1) == y * y - 3 * y + 2) by (nonlinear_arith);
    assert((y - 1) * (y - 1 + 1) == y * y - y) by (nonlinear_arith);
}

/// Once the walk has passed the diagonal, no column further out has a pixel
/// in the octant.
pub proof fn lemma_ring_ends(r: int, x: int, y: int, x2: int, y2: int)
    requires
        0 <= y < x,
        r * r - x * x < y * (y + 1),
        x <= x2 <= y2,
    ensures
        !on_ring(r, x2, y2),
{
    if on_ring(r, x2, y2) {
        assert(y * (y + 1) <= y2 * (y2 - 1)) by (nonlinear_arith)
            requires
                0 <= y,
                y + 1 <= y2,
        ;
        assert(x * x <= x2 * x2) by (nonlinear_arith)
            requires
                0 <= x <= x2,
        ;
    }
}

/// The decision value of the midpoint walk at the pixel `(x, y)` of the
/// circle of radius `r`.
pub fn calc_error(x: i32, y: i32, r: i32) -> (d: i64)
    requires
        0 <= x <= r,
        0 <= y <= r,
    ensures
        d == midpoint_error(r as int, x as int, y as int),
{
    let x1: i64 = x as i64 + 1;
    let y: i64 = y as i64;
    let r: i64 = r as i64;
    assert(0 <= x1 * x1 <= 0x8000_0000 * 0x8000_0000) by (nonlinear_arith)
        requires
            0 <= x1 <= 0x8000_0000,
    ;
    assert(0 <= y * y <= 0x8000_0000 * 0x8000_0000) by (nonlinear_arith)
        requires
            0 <= y <= 0x8000_0000,
    ;
    assert(0 <= r * r <= 0x8000_0000 * 0x8000_0000) by (nonlinear_arith)
        requires
            0 <= r <= 0x8000_0000,
    ;
    assert(y * y <= r * r) by (nonlinear_arith)
        requires
            0 <= y <= r,
    ;
    x1 * x1 - r * r + y * y - y
}

/// The height of the pixel of column `x` on the circle of radius `r`.
pub fn ring_height(r: i32, x: i32) -> (y: i32)
    requires
        0 <= x <= r,
        1 <= r,
    ensures
        on_ring(r as int, x as int, y as int),
        y == ring_y(r as int, x as int),
        y <= r,
{
    let rr: i64 = r as i64;
    let xx: i64 = x as i64;
    assert(0 <= rr * rr <= 0x8000_0000 * 0x8000_0000) by (nonlinear_arith)
        requires
            0 <= rr <= 0x8000_0000,
    ;
    assert(0 <= xx * xx <= rr * rr) by (nonlinear_arith)
        requires
            0 <= xx <= rr,
    ;
    let n: i64 = rr * rr - xx * xx;
    // The height is the largest `y` with `y * (y - 1) <= n`; it lies in
    // `lo..hi`.
    let mut lo: i64 = 1;
    let mut hi: i64 = rr + 1;
    assert(hi * (hi - 1) > n) by (nonlinear_arith)
        requires
            hi == rr + 1,
            n <= rr * rr,
            1 <= rr,
    ;
    while hi - lo > 1
        invariant
            1 <= lo < hi <= rr + 1,
            rr <= 0x7fff_ffff,
            lo * (lo - 1) <= n,
            hi * (hi - 1) > n,
            n == r * r - x * x,
        decreases hi - lo,
    {
        let mid: i64 = lo + (hi - lo) / 2;
        assert(0 <= mid * (mid - 1) <= 0x8000_0000 * 0x8000_0000) by (nonlinear_arith)
            requires
                1 <= mid <= 0x8000_0000,
        ;
        if mid * (mid - 1) <= n {
            lo = mid;
        } else {
            hi = mid;
        }
    }
    assert(hi == lo + 1);
    assert(lo * (lo + 1) == hi * (hi - 1)) by (nonlinear_arith)
        requires
            hi == lo + 1,
    ;
    proof {
        assert(on_ring(r as int, x as int, lo as int));
        lemma_ring_unique(r as int, x as int, lo as int, ring_y(r as int, x as int));
    }
    lo as i32
}

} // verus!
