//! Angles, held exactly.
//!
//! An angle is kept as a direction: a vector `(dx, dy)` that points from the
//! center of a circle along the angle, `dy` counted upwards on screen. Any
//! non-zero vector will do; its length does not matter. Held this way an
//! angle needs no normalization, its octant is found by comparing integers,
//! and the point where it meets a circle is an integer square root away.

use vstd::prelude::*;
use crate::translate::{is_octant, to_iter};

verus! {

/// A direction from the center of a circle.
#[derive(Clone, Copy, Debug, PartialEq, Eq, Structural)]
pub struct Dir {
    pub dx: i32,
    pub dy: i32,
}

impl Dir {
    /// Only the zero vector points nowhere.
    pub open spec fn wf(self) -> bool {
        self.dx != 0 || self.dy != 0
    }

    /// The direction as an octant-local vector of octant `oct`: how far it
    /// leads away from the axis of the octant, and how far along it.
    pub open spec fn local(self, oct: int) -> (int, int) {
        to_iter((self.dx as int, -(self.dy as int)), oct, (0, 0))
    }

    /// Whether an arc that starts at this direction starts in octant `oct`.
    /// Octants own the boundary they begin with.
    pub open spec fn starts_in(self, oct: int) -> bool {
        let q = self.local(oct);
        if oct % 2 == 1 {
            0 <= q.0 < q.1
        } else {
            0 < q.0 <= q.1
        }
    }

    /// Whether an arc that ends at this direction ends in octant `oct`. An
    /// arc that ends on the boundary between two octants ends in the earlier
    /// one, and does not enter the later.
    pub open spec fn ends_in(self, oct: int) -> bool {
        let q = self.local(oct);
        if oct % 2 == 1 {
            0 < q.0 <= q.1
        } else {
            0 <= q.0 < q.1
        }
    }

    /// Twice the signed area of the triangle that `self` and `other` span:
    /// positive when `other` lies counter-clockwise of `self` by less than
    /// half a turn.
    pub open spec fn cross(self, other: Dir) -> int {
        self.dx * other.dy - self.dy * other.dx
    }

    /// On which side of the line through `c` along this direction the image
    /// point `p` lies: positive to its left, as one looks along the
    /// direction on screen, negative to its right, and zero on the line.
    pub open spec fn side(self, c: (int, int), p: (int, int)) -> int {
        self.dx * (c.1 - p.1) - self.dy * (p.0 - c.0)
    }

    /// The direction along `(dx, dy)`, or `None` for the zero vector.
    pub fn new(dx: i32, dy: i32) -> (d: Option<Dir>)
        ensures
            d == if dx != 0 || dy != 0 {
                Some(Dir { dx, dy })
            } else {
                None
            },
            d matches Some(dir) ==> dir.wf(),
    {
        if dx != 0 || dy != 0 {
            Some(Dir { dx, dy })
        } else {
            None
        }
    }

    /// The direction as an octant-local vector of octant `oct`, for a
    /// direction that starts or ends in that octant.
    pub fn split(&self, oct: u8) -> (q: (u32, u32))
        requires
            is_octant(oct as int),
            self.starts_in(oct as int) || self.ends_in(oct as int),
        ensures
            (q.0 as int, q.1 as int) == self.local(oct as int),
            q.0 <= q.1,
            0 < q.1 <= 0x8000_0000,
    {
        let dx: i64 = self.dx as i64;
        let dy: i64 = self.dy as i64;
        let ax: u32 = if dx < 0 { (-dx) as u32 } else { dx as u32 };
        let ay: u32 = if dy < 0 { (-dy) as u32 } else { dy as u32 };
        match oct {
            1 | 4 | 5 | 8 => (ay, ax),
            _ => (ax, ay),
        }
    }

    /// Whether `other` lies strictly counter-clockwise of `self`, by less
    /// than half a turn.
    pub fn turns_left_to(&self, other: &Dir) -> (b: bool)
        ensures
            b == (self.cross(*other) > 0),
    {
        let a: i64 = self.dx as i64;
        let b: i64 = self.dy as i64;
        let c: i64 = other.dx as i64;
        let d: i64 = other.dy as i64;
        assert(-0x8000_0000 * 0x8000_0000 <= a * d <= 0x8000_0000 * 0x8000_0000)
            by (nonlinear_arith)
            requires
                -0x8000_0000 <= a <= 0x8000_0000,
                -0x8000_0000 <= d <= 0x8000_0000,
        ;
        assert(-0x8000_0000 * 0x8000_0000 <= b * c <= 0x8000_0000 * 0x8000_0000)
            by (nonlinear_arith)
            requires
                -0x8000_0000 <= b <= 0x8000_0000,
                -0x8000_0000 <= c <= 0x8000_0000,
        ;
        a * d > b * c
    }
}

/// An angle in whole degrees, brought into the range from 0 to 359 by
/// adding or taking away whole turns.
pub fn normalize(degrees: i32) -> (d: i32)
    ensures
        0 <= d < 360,
        (degrees - d) % 360 == 0,
{
    let d = degrees % 360;
    if d < 0 {
        d + 360
    } else {
        d
    }
}

/// The octant in which an arc that starts at `d` starts.
pub fn angle_to_octant(d: Dir) -> (oct: u8)
    requires
        d.wf(),
    ensures
        is_octant(oct as int),
        d.starts_in(oct as int),
{
    let dx: i64 = d.dx as i64;
    let dy: i64 = d.dy as i64;
    if dy >= 0 && dx > 0 {
        if dy < dx {
            1
        } else {
            2
        }
    } else if dy > 0 {
        if -dx < dy {
            3
        } else {
            4
        }
    } else if dx < 0 {
        if -dy < -dx {
            5
        } else {
            6
        }
    } else {
        if dx < -dy {
            7
        } else {
            8
        }
    }
}

/// The octant in which an arc that ends at `d` ends.
pub fn angle_to_end_octant(d: Dir) -> (oct: u8)
    requires
        d.wf(),
    ensures
        is_octant(oct as int),
        d.ends_in(oct as int),
{
    let dx: i64 = d.dx as i64;
    let dy: i64 = d.dy as i64;
    if dy > 0 {
        if dx > 0 {
            if dy <= dx {
                1
            } else {
                2
            }
        } else if dx == 0 {
            2
        } else if -dx <= dy {
            3
        } else {
            4
        }
    } else if dy == 0 {
        if dx < 0 {
            4
        } else {
            8
        }
    } else if dx < 0 {
        if -dy <= -dx {
            5
        } else {
            6
        }
    } else if dx == 0 {
        6
    } else if dx <= -dy {
        7
    } else {
        8
    }
}

/// The direction at which octant `oct` begins.
pub open spec fn octant_start(oct: int) -> Dir {
    if oct == 1 {
        Dir { dx: 1, dy: 0 }
    } else if oct == 2 {
        Dir { dx: 1, dy: 1 }
    } else if oct == 3 {
        Dir { dx: 0, dy: 1 }
    } else if oct == 4 {
        Dir { dx: -1i32, dy: 1 }
    } else if oct == 5 {
        Dir { dx: -1i32, dy: 0 }
    } else if oct == 6 {
        Dir { dx: -1i32, dy: -1i32 }
    } else if oct == 7 {
        Dir { dx: 0, dy: -1i32 }
    } else {
        Dir { dx: 1, dy: -1i32 }
    }
}

/// The direction at which octant `oct` ends: that at which the next octant
/// begins.
pub open spec fn octant_end(oct: int) -> Dir {
    octant_start(oct % 8 + 1)
}

/// The direction at which octant `oct` begins.
pub fn octant_start_angle(oct: u8) -> (d: Dir)
    requires
        is_octant(oct as int),
    ensures
        d == octant_start(oct as int),
        d.wf(),
        d.starts_in(oct as int),
{
    match oct {
        1 => Dir { dx: 1, dy: 0 },
        2 => Dir { dx: 1, dy: 1 },
        3 => Dir { dx: 0, dy: 1 },
        4 => Dir { dx: -1, dy: 1 },
        5 => Dir { dx: -1, dy: 0 },
        6 => Dir { dx: -1, dy: -1 },
        7 => Dir { dx: 0, dy: -1 },
        _ => Dir { dx: 1, dy: -1 },
    }
}

/// The direction at which octant `oct` ends.
pub fn octant_end_angle(oct: u8) -> (d: Dir)
    requires
        is_octant(oct as int),
    ensures
        d == octant_end(oct as int),
        d.wf(),
        d.ends_in(oct as int),
{
    octant_start_angle(oct % 8 + 1)
}

/// A direction starts in exactly one octant and ends in exactly one.
pub proof fn lemma_octant_unique(d: Dir, a: int, b: int)
    requires
        is_octant(a),
        is_octant(b),
    ensures
        d.starts_in(a) && d.starts_in(b) ==> a == b,
        d.ends_in(a) && d.ends_in(b) ==> a == b,
{
}

} // verus!
