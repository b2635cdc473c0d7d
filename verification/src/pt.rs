//! Points on the pixel grid, and the place of a circle on it.

use vstd::prelude::*;

verus! {

/// A pair of coordinates.
#[derive(Debug, PartialEq, Eq, Structural)]
pub struct Pt<T> {
    pub x: T,
    pub y: T,
}

impl<T: Copy> Clone for Pt<T> {
    fn clone(&self) -> (p: Pt<T>)
        ensures
            p == *self,
    {
        *self
    }
}

impl<T: Copy> Copy for Pt<T> {

}

impl<T: Copy> Pt<T> {
    /// The point `(x, y)`.
    pub fn new(x: T, y: T) -> (p: Pt<T>)
        ensures
            p.x == x,
            p.y == y,
    {
        Pt { x, y }
    }

    /// The horizontal coordinate.
    pub fn x(&self) -> (x: T)
        ensures
            x == self.x,
    {
        self.x
    }

    /// The vertical coordinate.
    pub fn y(&self) -> (y: T)
        ensures
            y == self.y,
    {
        self.y
    }
}

impl Pt<i64> {
    /// The point as a pair of mathematical integers.
    pub open spec fn pair(self) -> (int, int) {
        (self.x as int, self.y as int)
    }
}

impl Pt<i32> {
    /// The point as a pair of mathematical integers.
    pub open spec fn pair(self) -> (int, int) {
        (self.x as int, self.y as int)
    }
}

/// Radius and center of a circle.
#[derive(Clone, Copy, Debug, PartialEq, Eq, Structural)]
pub struct Loc {
    pub r: i32,
    pub c: Pt<i32>,
}

impl Loc {
    /// The circle of radius `r` around `c`.
    pub fn new(r: i32, c: Pt<i32>) -> (loc: Loc)
        ensures
            loc.r == r,
            loc.c == c,
    {
        Loc { r, c }
    }
}

} // verus!
