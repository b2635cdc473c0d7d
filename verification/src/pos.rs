//! The state of a walk along a circle inside one octant.

use vstd::prelude::*;
use crate::ring::{
    calc_error, lemma_ring_ends, lemma_ring_step, lemma_ring_top, lemma_ring_unique,
    midpoint_error, on_ring, ring_height, ring_y,
};
use crate::translate::{is_octant, to_iter};

verus! {

/// The pixels that the circle of radius `r` has in the columns `lo..=hi` of
/// an octant, in octant-local coordinates.
pub open spec fn run(r: int, lo: int, hi: int) -> Set<(int, int)> {
    Set::new(|q: (int, int)| lo <= q.0 <= hi && q.0 <= q.1 && on_ring(r, q.0, q.1))
}

/// The octant-local pixels `s`, laid into octant `oct` of a circle around
/// `c`.
pub open spec fn place(s: Set<(int, int)>, oct: int, c: (int, int)) -> Set<(int, int)> {
    Set::new(|p: (int, int)| s.contains(to_iter(p, oct, c)))
}

/// The first and the last column that a walk visits in an octant.
#[derive(Clone, Copy, Debug, PartialEq, Eq, Structural)]
pub struct Bounds {
    pub lo: i32,
    pub hi: i32,
}

/// A walk along the circle of radius `r` in octant `oct`: the pixel it is at,
/// the decision value there, and the last column it is to visit.
#[derive(Clone, Copy, Debug, PartialEq, Eq, Structural)]
pub struct Pos {
    pub oct: u8,
    pub x: i32,
    pub y: i32,
    pub d: i64,
    pub ex: i32,
    pub r: i32,
}

impl Pos {
    /// A walk is at the pixel of its column for as long as it is inside the
    /// octant, and never above the circle.
    pub open spec fn wf(self) -> bool {
        &&& is_octant(self.oct as int)
        &&& 1 <= self.r
        &&& 0 <= self.x
        &&& 0 <= self.y <= self.r
        &&& 0 <= self.ex <= self.r
        &&& self.r * self.r - self.x * self.x < self.y * (self.y + 1)
        &&& self.x <= self.y ==> {
            &&& on_ring(self.r as int, self.x as int, self.y as int)
            &&& self.d == midpoint_error(self.r as int, self.x as int, self.y as int)
        }
    }

    /// Whether the walk has left the octant or passed its last column.
    pub open spec fn stopped(self) -> bool {
        self.x > self.y || self.x > self.ex
    }

    /// The octant-local pixels that the walk has yet to visit.
    pub open spec fn cols(self) -> Set<(int, int)> {
        run(self.r as int, self.x as int, self.ex as int)
    }

    /// How many columns the walk may still visit.
    pub open spec fn cols_left(self) -> nat {
        if self.x > self.ex {
            0
        } else {
            (self.ex - self.x + 1) as nat
        }
    }

    /// The walk over the columns `bounds.lo..=bounds.hi` of octant `oct` of
    /// the circle of radius `r`, at the pixel of its first column.
    pub open spec fn at(oct: u8, bounds: Bounds, r: i32) -> Pos {
        let y = ring_y(r as int, bounds.lo as int);
        Pos {
            oct,
            x: bounds.lo,
            y: y as i32,
            d: midpoint_error(r as int, bounds.lo as int, y) as i64,
            ex: bounds.hi,
            r,
        }
    }

    /// The walk one step on.
    pub open spec fn next(self) -> Pos {
        let x = (self.x + 1) as i32;
        if self.d > 0 {
            let y = (self.y - 1) as i32;
            Pos { x, y, d: (self.d + 2 * (x - y) + 1) as i64, ..self }
        } else {
            Pos { x, d: (self.d + 2 * x + 1) as i64, ..self }
        }
    }

    /// The walk over the whole of octant `oct`, at its first pixel.
    pub fn start(oct: u8, r: i32) -> (pos: Pos)
        requires
            is_octant(oct as int),
            1 <= r,
        ensures
            pos.wf(),
            pos == Pos::at(oct, Bounds { lo: 0, hi: r }, r),
            pos.x == 0,
            pos.y == r,
            pos.d == 1 - r,
    {
        proof {
            lemma_ring_top(r as int);
            assert(r * r - 0 * 0 < r * (r + 1));
            lemma_ring_unique(r as int, 0, r as int, ring_y(r as int, 0));
        }
        Pos { oct, x: 0, y: r, d: 1 - r as i64, ex: r, r }
    }

    /// The walk over the columns `bounds.lo..=bounds.hi` of octant `oct`, at
    /// the pixel of its first column.
    pub fn new(oct: u8, bounds: Bounds, r: i32) -> (pos: Pos)
        requires
            is_octant(oct as int),
            1 <= r,
            0 <= bounds.lo <= r,
            0 <= bounds.hi <= r,
        ensures
            pos.wf(),
            pos == Pos::at(oct, bounds, r),
    {
        let y = ring_height(r, bounds.lo);
        let d = calc_error(bounds.lo, y, r);
        Pos { oct, x: bounds.lo, y, d, ex: bounds.hi, r }
    }

    /// A walk that has stopped has no pixel left to visit.
    pub proof fn lemma_stopped(self)
        requires
            self.wf(),
            self.stopped(),
        ensures
            self.cols() == Set::<(int, int)>::empty(),
    {
        if self.x > self.y {
            assert forall|q: (int, int)| !self.cols().contains(q) by {
                if self.x <= q.0 && q.0 <= q.1 {
                    lemma_ring_ends(self.r as int, self.x as int, self.y as int, q.0, q.1);
                }
            }
        }
        assert(self.cols() =~= Set::<(int, int)>::empty());
    }

    /// Whether the walk has left the octant or passed its last column. No
    /// pixel is left to visit then.
    pub fn stop(&self) -> (b: bool)
        requires
            self.wf(),
        ensures
            b == self.stopped(),
            b ==> self.cols() == Set::<(int, int)>::empty(),
            !b ==> self.cols().contains((self.x as int, self.y as int)),
    {
        let b = self.x > self.y || self.x > self.ex;
        proof {
            if b {
                self.lemma_stopped();
            }
        }
        b
    }

    /// One step of the midpoint walk: on to the next column, and down a row
    /// when the decision value says that the circle has fallen below the
    /// middle of the pixel.
    pub fn inc(&mut self)
        requires
            old(self).wf(),
            !old(self).stopped(),
        ensures
            final(self).wf(),
            *final(self) == old(self).next(),
            final(self).x == old(self).x + 1,
            old(self).cols() == final(self).cols().insert((old(self).x as int, old(self).y as int)),
    {
        let ghost r = self.r as int;
        let ghost x = self.x as int;
        let ghost y = self.y as int;
        proof {
            lemma_ring_step(r, x, y);
            assert((x + 1) * (x + 1) == x * x + 2 * x + 1) by (nonlinear_arith);
            assert(y * (y + 1) == (y - 1) * y + 2 * y) by (nonlinear_arith);
        }
        self.x = self.x + 1;
        if self.d > 0 {
            self.y = self.y - 1;
            self.d = self.d + 2 * (self.x as i64 - self.y as i64) + 1;
        } else {
            self.d = self.d + 2 * (self.x as i64) + 1;
        }
        proof {
            assert forall|q: (int, int)|
                old(self).cols().contains(q) <==> self.cols().insert((x, y)).contains(q) by {
                if q.0 == x && on_ring(r, x, q.1) {
                    lemma_ring_unique(r, x, y, q.1);
                }
            }
            assert(old(self).cols() =~= self.cols().insert((x, y)));
        }
    }
}

} // verus!
