//! The eight octants of a circle and the maps between octant-local and
//! image coordinates.
//!
//! Octants are numbered `1..=8` counter-clockwise as seen on screen, octant 1
//! starting at the positive x axis. Image rows grow downwards. Inside an
//! octant a point is given by its distance `x` from the axis that bounds the
//! octant (the fast coordinate of a walk) and its distance `y` along that
//! axis (the slow coordinate), so that `0 <= x <= y` all over the octant.

use vstd::prelude::*;
use crate::pt::Pt;

verus! {

/// Whether `oct` numbers an octant.
pub open spec fn is_octant(oct: int) -> bool {
    1 <= oct <= 8
}

/// The image coordinate of the octant-local point `q` in octant `oct` of a
/// circle around `c`.
pub open spec fn to_real(q: (int, int), oct: int, c: (int, int)) -> (int, int) {
    if oct == 1 {
        (c.0 + q.1, c.1 - q.0)
    } else if oct == 2 {
        (c.0 + q.0, c.1 - q.1)
    } else if oct == 3 {
        (c.0 - q.0, c.1 - q.1)
    } else if oct == 4 {
        (c.0 - q.1, c.1 - q.0)
    } else if oct == 5 {
        (c.0 - q.1, c.1 + q.0)
    } else if oct == 6 {
        (c.0 - q.0, c.1 + q.1)
    } else if oct == 7 {
        (c.0 + q.0, c.1 + q.1)
    } else {
        (c.0 + q.1, c.1 + q.0)
    }
}

/// The octant-local coordinate, in octant `oct` of a circle around `c`, of
/// the image point `p`.
pub open spec fn to_iter(p: (int, int), oct: int, c: (int, int)) -> (int, int) {
    if oct == 1 {
        (c.1 - p.1, p.0 - c.0)
    } else if oct == 2 {
        (p.0 - c.0, c.1 - p.1)
    } else if oct == 3 {
        (c.0 - p.0, c.1 - p.1)
    } else if oct == 4 {
        (c.1 - p.1, c.0 - p.0)
    } else if oct == 5 {
        (p.1 - c.1, c.0 - p.0)
    } else if oct == 6 {
        (c.0 - p.0, p.1 - c.1)
    } else if oct == 7 {
        (p.0 - c.0, p.1 - c.1)
    } else {
        (p.1 - c.1, p.0 - c.0)
    }
}

/// The image coordinate of the octant-local point `(x, y)`.
pub fn iter_to_real(x: i32, y: i32, oct: u8, c: Pt<i32>) -> (p: Pt<i64>)
    requires
        is_octant(oct as int),
    ensures
        p.pair() == to_real((x as int, y as int), oct as int, c.pair()),
{
    let cx: i64 = c.x as i64;
    let cy: i64 = c.y as i64;
    let x: i64 = x as i64;
    let y: i64 = y as i64;
    match oct {
        1 => Pt { x: cx + y, y: cy - x },
        2 => Pt { x: cx + x, y: cy - y },
        3 => Pt { x: cx - x, y: cy - y },
        4 => Pt { x: cx - y, y: cy - x },
        5 => Pt { x: cx - y, y: cy + x },
        6 => Pt { x: cx - x, y: cy + y },
        7 => Pt { x: cx + x, y: cy + y },
        _ => Pt { x: cx + y, y: cy + x },
    }
}

/// The octant-local coordinate of the image point `p`.
pub fn real_to_iter(p: Pt<i32>, oct: u8, c: Pt<i32>) -> (q: Pt<i64>)
    requires
        is_octant(oct as int),
    ensures
        q.pair() == to_iter(p.pair(), oct as int, c.pair()),
{
    let cx: i64 = c.x as i64;
    let cy: i64 = c.y as i64;
    let p: Pt<i64> = Pt { x: p.x as i64, y: p.y as i64 };
    match oct {
        1 => Pt { x: cy - p.y, y: p.x - cx },
        2 => Pt { x: p.x - cx, y: cy - p.y },
        3 => Pt { x: cx - p.x, y: cy - p.y },
        4 => Pt { x: cy - p.y, y: cx - p.x },
        5 => Pt { x: p.y - cy, y: cx - p.x },
        6 => Pt { x: cx - p.x, y: p.y - cy },
        7 => Pt { x: p.x - cx, y: p.y - cy },
        _ => Pt { x: p.y - cy, y: p.x - cx },
    }
}

/// The two maps undo each other.
pub proof fn lemma_round_trip(q: (int, int), oct: int, c: (int, int))
    ensures
        to_iter(to_real(q, oct, c), oct, c) == q,
        to_real(to_iter(q, oct, c), oct, c) == q,
{
}

} // verus!
