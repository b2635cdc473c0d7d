//! Whole circles: what their pixels are, and how they are alike in all
//! eight octants.

use vstd::prelude::*;
use crate::angle::{octant_start_angle, Dir};
use crate::arc::{arc_covers, lemma_arc_within_angles, sweep, Arc};
use crate::octants::{next_octant, on_the_way};
use crate::canvas::{Canvas, Color};
use crate::edge::{lemma_rim_axis, lemma_rim_diagonal, lemma_rim_unique, Edge};
use crate::pos::run;
use crate::pt::Pt;
use crate::ring::{
    lemma_ring_ends, lemma_ring_falls, lemma_ring_step, lemma_ring_top, midpoint_error, on_ring,
};
use crate::translate::{is_octant, to_iter, to_real};

verus! {

/// Whether the image point `p` is a pixel of the circle of radius `r` around
/// `c` in octant `k`.
pub open spec fn on_circle_in(r: int, c: (int, int), k: int, p: (int, int)) -> bool {
    let q = to_iter(p, k, c);
    is_octant(k) && 0 <= q.0 <= q.1 && on_ring(r, q.0, q.1)
}

/// The pixels of the circle of radius `r` around `c`: in each octant, the
/// pixel of every column from the axis to the diagonal.
pub open spec fn circle_pixels(r: int, c: (int, int)) -> Set<(int, int)> {
    Set::new(|p: (int, int)| exists|k: int| #[trigger] on_circle_in(r, c, k, p))
}

/// The larger of the two distances, along the rows and along the columns,
/// between two image points.
pub open spec fn chebyshev(a: (int, int), b: (int, int)) -> int {
    let dx = if a.0 <= b.0 {
        b.0 - a.0
    } else {
        a.0 - b.0
    };
    let dy = if a.1 <= b.1 {
        b.1 - a.1
    } else {
        a.1 - b.1
    };
    if dx <= dy {
        dy
    } else {
        dx
    }
}

/// A direction that starts in one octant and ends in another lies on the
/// boundary between the two.
pub proof fn lemma_on_boundary(d: Dir, s: int, e: int)
    requires
        is_octant(s),
        is_octant(e),
        d.starts_in(s),
        d.ends_in(e),
        s != e,
    ensures
        next_octant(e) == s,
        d.local(s) == if s % 2 == 1 {
            (0int, d.local(s).1)
        } else {
            (d.local(s).1, d.local(s).1)
        },
        d.local(e) == if e % 2 == 1 {
            (d.local(e).1, d.local(e).1)
        } else {
            (0int, d.local(e).1)
        },
        0 < d.local(s).1,
        0 < d.local(e).1,
{
}

/// An arc that ends where it starts is the whole circle.
pub proof fn lemma_full_turn(start: Edge, end: Edge, d: Dir, r: int, c: (int, int))
    requires
        1 <= r,
        start.is_start(d, r),
        end.is_end(d, r),
        start.wf(r),
        end.wf(r),
    ensures
        sweep(start, end, r, c) == circle_pixels(r, c),
{
    let s = start.oct as int;
    let e = end.oct as int;
    assert(d.cross(d) == 0) by (nonlinear_arith);
    assert forall|p: (int, int)|
        sweep(start, end, r, c).contains(p) <==> circle_pixels(r, c).contains(p) by {
        lemma_arc_within_angles(start, end, r, c, p);
        assert forall|k: int|
            #[trigger] arc_covers(start, end, r, k, to_iter(p, k, c)) <==> on_circle_in(
                r,
                c,
                k,
                p,
            ) by {
            let q = to_iter(p, k, c);
            if on_circle_in(r, c, k, p) {
                if s == e {
                    let l = d.local(s);
                    lemma_rim_unique(l.0, l.1, r, start.x as int, end.x as int);
                } else {
                    lemma_on_boundary(d, s, e);
                    assert(on_the_way(k, s, e)) by {
                        reveal(on_the_way);
                    }
                    if k == s {
                        if s % 2 == 1 {
                            lemma_rim_axis(d.local(s).1, r, start.x as int);
                        } else {
                            lemma_rim_diagonal(d.local(s).1, r, start.x as int, q);
                        }
                    }
                    if k == e {
                        if e % 2 == 1 {
                            lemma_rim_diagonal(d.local(e).1, r, end.x as int, q);
                        } else {
                            lemma_rim_axis(d.local(e).1, r, end.x as int);
                        }
                    }
                }
            }
        }
        if sweep(start, end, r, c).contains(p) {
            let k = choose|k: int| #[trigger] arc_covers(start, end, r, k, to_iter(p, k, c));
            assert(on_circle_in(r, c, k, p));
        }
        if circle_pixels(r, c).contains(p) {
            let k = choose|k: int| #[trigger] on_circle_in(r, c, k, p);
            assert(arc_covers(start, end, r, k, to_iter(p, k, c)));
        }
    }
    assert(sweep(start, end, r, c) =~= circle_pixels(r, c));
}

/// Every arc is part of its circle.
pub proof fn lemma_arc_on_circle(start: Edge, end: Edge, r: int, c: (int, int), p: (int, int))
    requires
        start.wf(r),
        end.wf(r),
        sweep(start, end, r, c).contains(p),
    ensures
        circle_pixels(r, c).contains(p),
{
    lemma_arc_within_angles(start, end, r, c, p);
    let k = choose|k: int| #[trigger] arc_covers(start, end, r, k, to_iter(p, k, c));
    assert(on_circle_in(r, c, k, p));
}

/// The arc from the positive x axis to the negative x axis is the upper half
/// of the circle: the pixels of the circle in the row of the center and
/// above it.
pub proof fn lemma_upper_half(start: Edge, end: Edge, r: int, c: (int, int))
    requires
        1 <= r,
        start.is_start(Dir { dx: 1, dy: 0 }, r),
        end.is_end(Dir { dx: -1i32, dy: 0 }, r),
        start.wf(r),
        end.wf(r),
    ensures
        sweep(start, end, r, c) == Set::new(
            |p: (int, int)| circle_pixels(r, c).contains(p) && p.1 <= c.1,
        ),
{
    let upper = Set::new(|p: (int, int)| circle_pixels(r, c).contains(p) && p.1 <= c.1);
    crate::angle::lemma_octant_unique(Dir { dx: 1, dy: 0 }, 1, start.oct as int);
    crate::angle::lemma_octant_unique(Dir { dx: -1i32, dy: 0 }, 4, end.oct as int);
    lemma_rim_axis(1, r, start.x as int);
    lemma_rim_axis(1, r, end.x as int);
    assert(start.dir.cross(end.dir) == 0) by (nonlinear_arith)
        requires
            start.dir == (Dir { dx: 1, dy: 0 }),
            end.dir == (Dir { dx: -1i32, dy: 0 }),
    ;
    assert forall|k: int| #[trigger] on_the_way(k, 1, 4) <==> 1 <= k <= 4 by {
        reveal(on_the_way);
    }
    assert forall|p: (int, int)| sweep(start, end, r, c).contains(p) <==> upper.contains(p) by {
        lemma_arc_within_angles(start, end, r, c, p);
        if sweep(start, end, r, c).contains(p) {
            let k = choose|k: int| #[trigger] arc_covers(start, end, r, k, to_iter(p, k, c));
            assert(on_the_way(k, 1, 4));
            assert(on_circle_in(r, c, k, p));
        }
        if upper.contains(p) {
            let k = choose|k: int| #[trigger] on_circle_in(r, c, k, p);
            let n = if k == 5 {
                4
            } else if k == 8 {
                1
            } else {
                k
            };
            assert(on_circle_in(r, c, n, p));
            assert(on_the_way(n, 1, 4));
            assert(arc_covers(start, end, r, n, to_iter(p, n, c)));
        }
    }
    assert(sweep(start, end, r, c) =~= upper);
}

/// A circle looks the same in all its octants: the reflection that carries
/// one octant onto another carries the pixels of the circle onto pixels of
/// the circle. So whatever octant an octant-local point is taken to lie in,
/// it is a pixel of the circle or it is not.
pub proof fn lemma_octant_symmetry(r: int, c: (int, int), j: int, k: int, q: (int, int))
    requires
        is_octant(j),
        is_octant(k),
    ensures
        circle_pixels(r, c).contains(to_real(q, j, c)) == circle_pixels(r, c).contains(
            to_real(q, k, c),
        ),
{
    if circle_pixels(r, c).contains(to_real(q, j, c)) {
        lemma_carried(r, c, j, k, q);
    }
    if circle_pixels(r, c).contains(to_real(q, k, c)) {
        lemma_carried(r, c, k, j, q);
    }
}

/// The octant from which the image point `p` looks like the octant-local
/// point `t`, if there is one.
spec fn seen_from(p: (int, int), t: (int, int), c: (int, int)) -> int {
    if to_iter(p, 1, c) == t {
        1
    } else if to_iter(p, 2, c) == t {
        2
    } else if to_iter(p, 3, c) == t {
        3
    } else if to_iter(p, 4, c) == t {
        4
    } else if to_iter(p, 5, c) == t {
        5
    } else if to_iter(p, 6, c) == t {
        6
    } else if to_iter(p, 7, c) == t {
        7
    } else {
        8
    }
}

/// What a point of octant `j` looks like from octant `i` is what it looks
/// like from octant 7 once it has been moved to some octant `g`.
proof fn lemma_turned(q: (int, int), j: int, i: int, c: (int, int)) -> (g: int)
    requires
        is_octant(i),
        is_octant(j),
    ensures
        is_octant(g),
        to_iter(to_real(q, j, c), i, c) == to_iter(to_real(q, g, c), 7, c),
{
    let t = to_iter(to_real(q, j, c), i, c);
    let g = seen_from((c.0 + t.0, c.1 + t.1), q, c);
    assert(to_iter((c.0 + t.0, c.1 + t.1), g, c) == q);
    g
}

/// A point of octant `k` looks from some octant `n` like a point of octant
/// `g` does from octant 7.
proof fn lemma_turned_back(q: (int, int), k: int, g: int, c: (int, int)) -> (n: int)
    requires
        is_octant(k),
        is_octant(g),
    ensures
        is_octant(n),
        to_iter(to_real(q, k, c), n, c) == to_iter(to_real(q, g, c), 7, c),
{
    let t = to_iter(to_real(q, g, c), 7, c);
    let n = seen_from(to_real(q, k, c), t, c);
    n
}

/// One direction of the symmetry: a pixel of the circle stays one when the
/// circle is reflected so that octant `j` comes to lie on octant `k`.
proof fn lemma_carried(r: int, c: (int, int), j: int, k: int, q: (int, int))
    requires
        is_octant(j),
        is_octant(k),
        circle_pixels(r, c).contains(to_real(q, j, c)),
    ensures
        circle_pixels(r, c).contains(to_real(q, k, c)),
{
    let p = to_real(q, j, c);
    let p2 = to_real(q, k, c);
    let i = choose|i: int| #[trigger] on_circle_in(r, c, i, p);
    let g = lemma_turned(q, j, i, c);
    let n = lemma_turned_back(q, k, g, c);
    assert(on_circle_in(r, c, n, p2));
}

/// The last pixel that the circle of radius `r` has in an octant, found by
/// walking on from the pixel `(x, y)`: it lies on the diagonal of the octant
/// or right above it.
pub proof fn lemma_last_column(r: int, x: int, y: int) -> (q: (int, int))
    requires
        0 <= x <= y,
        on_ring(r, x, y),
    ensures
        x <= q.0 <= q.1 <= q.0 + 1,
        on_ring(r, q.0, q.1),
        forall|q2: (int, int)| q2.0 <= q2.1 && on_ring(r, q2.0, q2.1) ==> q2.0 <= q.0,
    decreases y - x,
{
    lemma_ring_step(r, x, y);
    if x == y {
        assert forall|q2: (int, int)| q2.0 <= q2.1 && on_ring(r, q2.0, q2.1) implies q2.0 <= x by {
            if q2.0 > x {
                lemma_ring_falls(r, x, y, q2.0, q2.1);
            }
        }
        (x, y)
    } else if midpoint_error(r, x, y) <= 0 {
        lemma_last_column(r, x + 1, y)
    } else if x + 1 <= y - 1 {
        lemma_last_column(r, x + 1, y - 1)
    } else {
        assert forall|q2: (int, int)| q2.0 <= q2.1 && on_ring(r, q2.0, q2.1) implies q2.0 <= x by {
            if q2.0 > x {
                lemma_ring_ends(r, x + 1, y - 1, q2.0, q2.1);
            }
        }
        (x, y)
    }
}

/// Neighbouring octants of a circle meet without a gap: the pixels of the
/// two octants that lie nearest to the boundary between them touch. Where
/// the boundary is an axis, that is the first pixel of either octant, and
/// the two are one pixel. Where it is a diagonal, it is the last pixel of
/// either octant.
pub proof fn lemma_seam(r: int, c: (int, int), k: int) -> (q: (int, int))
    requires
        1 <= r,
        is_octant(k),
    ensures
        run(r, 0, r).contains(q),
        k % 2 == 0 ==> q == (0int, r),
        k % 2 == 1 ==> forall|q2: (int, int)| run(r, 0, r).contains(q2) ==> q2.0 <= q.0,
        circle_pixels(r, c).contains(to_real(q, k, c)),
        circle_pixels(r, c).contains(to_real(q, next_octant(k), c)),
        chebyshev(to_real(q, k, c), to_real(q, next_octant(k), c)) <= 1,
{
    lemma_ring_top(r);
    let q = if k % 2 == 0 {
        (0int, r)
    } else {
        lemma_last_column(r, 0, r)
    };
    crate::ring::lemma_ring_inside(r, q.0, q.1);
    crate::translate::lemma_round_trip(q, k, c);
    crate::translate::lemma_round_trip(q, next_octant(k), c);
    assert(on_circle_in(r, c, k, to_real(q, k, c)));
    assert(on_circle_in(r, c, next_octant(k), to_real(q, next_octant(k), c)));
    q
}

/// Draws the circle of radius `radius` around `center`.
pub fn circle(canvas: &mut Canvas, radius: i32, center: Pt<i32>, color: Color)
    requires
        radius > 0,
    ensures
        final(canvas)@ == old(canvas)@.fill(circle_pixels(radius as int, center.pair()), color),
{
    let d = octant_start_angle(1);
    let a = Arc::new(d, d, radius, center);
    proof {
        lemma_full_turn(a.start, a.end, d, radius as int, center.pair());
    }
    a.draw(canvas, color);
}

} // verus!
