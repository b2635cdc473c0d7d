//! Filled rings and slices of rings.
//!
//! An annulus is the part of the plane between two circles around one
//! center, cut down to the angles between a start and an end direction. It
//! is filled octant by octant and, inside an octant, column by column: one
//! walk follows the inner circle and one the outer, and each column is filled
//! from the inner circle, or from the edge of the slice where that lies
//! higher, up to the outer circle, or to the other edge where that lies
//! lower.

use vstd::prelude::*;
use crate::angle::Dir;
use crate::arc::wraps;
use crate::basics::{least, most};
use crate::canvas::{lemma_fill_put, lemma_fill_union, Canvas, Color, Raster};
use crate::edge::{end_edge, start_edge, Edge};
use crate::octants::{
    enters_later, lemma_enters_later, lemma_on_the_way, lemma_tail_of, lemma_tail_of_full_turn,
    next_octant, on_the_way, tail_of, visits_left,
};
use crate::pos::{place, Bounds, Pos};
use crate::pt::Pt;
use crate::ring::on_ring;
use crate::translate::{is_octant, iter_to_real, lemma_round_trip, to_iter, to_real};

verus! {

/// Whether the octant-local point `q` lies between the circle of radius `ri`
/// and the circle of radius `ro`, the pixels of both circles included. An
/// inner radius of zero leaves no hole, not even at the center.
pub open spec fn in_band(ri: int, ro: int, q: (int, int)) -> bool {
    &&& 0 <= q.0 <= q.1
    &&& q.1 * (q.1 - 1) <= ro * ro - q.0 * q.0
    &&& ri == 0 || ri * ri - q.0 * q.0 < q.1 * (q.1 + 1)
}

/// Whether the octant-local point `q` lies between the octant-local
/// directions `lo`, on the side of the axis, and `hi`, on the side of the
/// diagonal, or on one of them.
pub open spec fn in_wedge(lo: (int, int), hi: (int, int), q: (int, int)) -> bool {
    q.1 * lo.0 <= q.0 * lo.1 && q.0 * hi.1 <= q.1 * hi.0
}

/// The octant-local pixels of a slice of a ring, from column `from` on.
pub open spec fn slice(ri: int, ro: int, lo: (int, int), hi: (int, int), from: int) -> Set<
    (int, int),
> {
    Set::new(|q: (int, int)| from <= q.0 && in_band(ri, ro, q) && in_wedge(lo, hi, q))
}

/// The octant-local pixels of column `x` from row `y1` to row `y2`.
pub open spec fn column(x: int, y1: int, y2: int) -> Set<(int, int)> {
    Set::new(|q: (int, int)| q.0 == x && y1 <= q.1 <= y2)
}

/// Whether row `y` is the last row of column `x` on the axis side of the
/// octant-local direction `ray`: the direction crosses the column at or
/// above the row and below the next.
pub open spec fn cut_below(ray: (int, int), x: int, y: int) -> bool {
    0 < ray.0 && y * ray.0 <= x * ray.1 < (y + 1) * ray.0
}

/// Whether row `y` is the first row of column `x` on the diagonal side of
/// the octant-local direction `ray`: the direction crosses the column at or
/// below the row and above the one before.
pub open spec fn cut_above(ray: (int, int), x: int, y: int) -> bool {
    0 < ray.0 && (y - 1) * ray.0 < x * ray.1 <= y * ray.0
}

/// Whether the rows `span.1..=span.2` of column `span.0`, if there are any,
/// end where the annulus ends: the last row is the pixel of the outer
/// circle, or the last below the bounding direction on the side of the axis;
/// the first row is the pixel of the inner circle, or the first above the
/// bounding direction on the side of the diagonal.
pub open spec fn span_is_tight(
    ri: int,
    ro: int,
    lo: (int, int),
    hi: (int, int),
    span: (int, int, int),
) -> bool {
    span.1 <= span.2 ==> {
        &&& on_ring(ro, span.0, span.2) || cut_below(lo, span.0, span.2)
        &&& (0 < ri && on_ring(ri, span.0, span.1)) || cut_above(hi, span.0, span.1)
    }
}

/// The directions between which an annulus from `start` to `end` lies in
/// octant `k`. `first` says that the annulus starts in this visit of the
/// octant, `last` that it ends in it. Where no edge falls in the octant the
/// directions are the axis and the diagonal of the octant.
pub open spec fn visit_wedge(k: int, start: Edge, end: Edge, first: bool, last: bool) -> (
    (int, int),
    (int, int),
) {
    let from = start.dir.local(k);
    let to = end.dir.local(k);
    if k % 2 == 1 {
        (if first { from } else { (0, 1) }, if last { to } else { (1, 1) })
    } else {
        (if last { to } else { (0, 1) }, if first { from } else { (1, 1) })
    }
}

/// The pixels of an annulus in octant `k`.
pub open spec fn ring_visit(
    start: Edge,
    end: Edge,
    ri: int,
    ro: int,
    c: (int, int),
    k: int,
    first: bool,
    last: bool,
) -> Set<(int, int)> {
    let w = visit_wedge(k, start, end, first, last);
    place(slice(ri, ro, w.0, w.1, 0), k, c)
}

/// The pixels of an annulus in octant `k`, on a visit that the annulus does
/// not start in; `last` says that it ends in it.
pub open spec fn ring_part(start: Edge, end: Edge, ri: int, ro: int, c: (int, int)) -> spec_fn(
    int,
    bool,
) -> Set<(int, int)> {
    |k: int, last: bool| ring_visit(start, end, ri, ro, c, k, false, last)
}

/// The pixels of an annulus in the octants that it has yet to enter, when it
/// is in octant `oct`.
pub open spec fn ring_tail(
    start: Edge,
    end: Edge,
    ri: int,
    ro: int,
    c: (int, int),
    oct: int,
    revisit: bool,
) -> Set<(int, int)> {
    tail_of(ring_part(start, end, ri, ro, c), oct, end.oct as int, revisit)
}

/// The pixels of the annulus between the circles of radius `ri` and `ro`
/// around `c`, from the edge `start` counter-clockwise to the edge `end`.
pub open spec fn sector(start: Edge, end: Edge, ri: int, ro: int, c: (int, int)) -> Set<
    (int, int),
> {
    let revisit = wraps(start, end);
    ring_visit(
        start,
        end,
        ri,
        ro,
        c,
        start.oct as int,
        true,
        start.oct == end.oct && !revisit,
    ).union(ring_tail(start, end, ri, ro, c, start.oct as int, revisit))
}

/// The pixels of the annulus between two circles around `c`, whichever of
/// the two radii is the larger, from the direction `start` counter-clockwise
/// to the direction `end`.
pub open spec fn annulus_pixels(start: Dir, end: Dir, r1: int, r2: int, c: (int, int)) -> Set<
    (int, int),
> {
    let ri = if r1 <= r2 {
        r1
    } else {
        r2
    };
    let ro = if r1 <= r2 {
        r2
    } else {
        r1
    };
    sector(start_edge(start, ro), end_edge(end, ro), ri, ro, c)
}

/// The rows of a column that lie on the axis side of the direction `(m,
/// big)`: those up to `x * big / m`.
proof fn lemma_under(x: int, m: int, big: int, t: int, y: int)
    requires
        0 <= x,
        0 < m,
        0 <= big,
        t == (x * big) / m,
    ensures
        y <= t <==> y * m <= x * big,
{
    let a = x * big;
    assert(0 <= a) by (nonlinear_arith)
        requires
            a == x * big,
            0 <= x,
            0 <= big,
    ;
    assert(t * m <= a < (t + 1) * m) by (nonlinear_arith)
        requires
            t == a / m,
            0 < m,
            0 <= a,
    ;
    if y <= t {
        assert(y * m <= t * m) by (nonlinear_arith)
            requires
                y <= t,
                0 < m,
        ;
    } else {
        assert(y * m >= (t + 1) * m) by (nonlinear_arith)
            requires
                y >= t + 1,
                0 < m,
        ;
    }
}

/// The rows of a column that lie on the diagonal side of the direction `(m,
/// big)`: those from `x * big / m`, rounded up, on.
proof fn lemma_over(x: int, m: int, big: int, b: int, y: int)
    requires
        0 <= x,
        0 < m,
        0 <= big,
        b == (x * big + m - 1) / m,
    ensures
        b <= y <==> x * big <= y * m,
{
    let a = x * big;
    assert(0 <= a) by (nonlinear_arith)
        requires
            a == x * big,
            0 <= x,
            0 <= big,
    ;
    assert(b * m <= a + m - 1 < (b + 1) * m) by (nonlinear_arith)
        requires
            b == (a + m - 1) / m,
            0 < m,
            0 <= a,
    ;
    assert((b + 1) * m == b * m + m) by (nonlinear_arith);
    if b <= y {
        assert(b * m <= y * m) by (nonlinear_arith)
            requires
                b <= y,
                0 < m,
        ;
    } else {
        assert((y + 1) * m <= b * m) by (nonlinear_arith)
            requires
                y + 1 <= b,
                0 < m,
        ;
        assert((y + 1) * m == y * m + m) by (nonlinear_arith);
    }
}

/// The rows of column `x` that lie at or below the pixel `(x, yo)` of the
/// outer circle are those inside the circle.
proof fn lemma_below_outer(ro: int, x: int, yo: int, y: int)
    requires
        0 <= x <= yo,
        on_ring(ro, x, yo),
        0 <= y,
    ensures
        y <= yo <==> y * (y - 1) <= ro * ro - x * x,
{
    if y <= yo {
        assert(y * (y - 1) <= yo * (yo - 1)) by (nonlinear_arith)
            requires
                0 <= y <= yo,
                1 <= yo,
        ;
    } else {
        assert(y * (y - 1) >= (yo + 1) * yo) by (nonlinear_arith)
            requires
                y >= yo + 1,
                1 <= yo,
        ;
        assert((yo + 1) * yo == yo * (yo + 1)) by (nonlinear_arith);
    }
}

/// The rows of the octant that lie in column `x` and at or above `yi`, where
/// the inner circle is below row `yi + 1` in that column, are outside the
/// inner circle.
proof fn lemma_above_inner(ri: int, x: int, yi: int, y: int)
    requires
        0 <= yi,
        ri * ri - x * x < yi * (yi + 1),
        yi <= y,
    ensures
        ri * ri - x * x < y * (y + 1),
{
    assert(yi * (yi + 1) <= y * (y + 1)) by (nonlinear_arith)
        requires
            0 <= yi <= y,
    ;
}

/// The rows of column `x` below the pixel `(x, yi)` of the inner circle are
/// inside the inner circle.
proof fn lemma_inside_inner(ri: int, x: int, yi: int, y: int)
    requires
        on_ring(ri, x, yi),
        0 <= y < yi,
    ensures
        !(ri * ri - x * x < y * (y + 1)),
{
    assert(y * (y + 1) <= (yi - 1) * yi) by (nonlinear_arith)
        requires
            0 <= y,
            y + 1 <= yi,
    ;
    assert((yi - 1) * yi == yi * (yi - 1)) by (nonlinear_arith);
}

/// An annulus, part of the way through being filled.
#[derive(Clone, Copy, Debug)]
pub struct Annulus {
    /// Where the annulus starts.
    pub start: Edge,
    /// Where the annulus ends.
    pub end: Edge,
    /// The octant that is being filled.
    pub oct: u8,
    /// Whether the fill has yet to leave the octant of both edges and come
    /// back to it.
    pub revisit: bool,
    /// The direction that bounds the annulus in this octant on the side of
    /// the axis.
    pub lo: (u32, u32),
    /// The direction that bounds the annulus in this octant on the side of
    /// the diagonal.
    pub hi: (u32, u32),
    /// The walk along the inner circle; none for an inner radius of zero.
    pub inr: Option<Pos>,
    /// The walk along the outer circle.
    pub otr: Pos,
    /// The column that is filled next.
    pub x: i32,
    /// The center of both circles.
    pub c: Pt<i32>,
    /// The inner radius.
    pub ri: i32,
    /// The outer radius.
    pub ro: i32,
}

impl View for Annulus {
    type V = Set<(int, int)>;

    /// The pixels that have yet to be filled, in image coordinates.
    open spec fn view(&self) -> Set<(int, int)> {
        place(
            slice(self.ri as int, self.ro as int, self.lo_ray(), self.hi_ray(), self.x as int),
            self.oct as int,
            self.c.pair(),
        ).union(
            ring_tail(
                self.start,
                self.end,
                self.ri as int,
                self.ro as int,
                self.c.pair(),
                self.oct as int,
                self.revisit,
            ),
        )
    }
}

impl Annulus {
    /// The bounding direction on the side of the axis.
    pub open spec fn lo_ray(self) -> (int, int) {
        (self.lo.0 as int, self.lo.1 as int)
    }

    /// The bounding direction on the side of the diagonal.
    pub open spec fn hi_ray(self) -> (int, int) {
        (self.hi.0 as int, self.hi.1 as int)
    }

    /// The annulus at the first column of octant `oct`. `first` says that it
    /// starts in this visit of the octant, `revisit` that it comes back to
    /// the octant after a full turn.
    pub open spec fn entering(
        start: Edge,
        end: Edge,
        oct: u8,
        first: bool,
        revisit: bool,
        ri: i32,
        ro: i32,
        c: Pt<i32>,
    ) -> Annulus {
        let w = visit_wedge(oct as int, start, end, first, oct == end.oct && !revisit);
        Annulus {
            start,
            end,
            oct,
            revisit,
            lo: (w.0.0 as u32, w.0.1 as u32),
            hi: (w.1.0 as u32, w.1.1 as u32),
            inr: if ri == 0 {
                None
            } else {
                Some(Pos::at(oct, Bounds { lo: 0, hi: ri }, ri))
            },
            otr: Pos::at(oct, Bounds { lo: 0, hi: ro }, ro),
            x: 0,
            c,
            ri,
            ro,
        }
    }

    /// The rows of the column that is filled next, as column, first row and
    /// last row: from the inner circle, or from the bounding direction on
    /// the side of the diagonal where that lies higher, up to the outer
    /// circle, or to the bounding direction on the side of the axis where
    /// that lies lower. Where there is no such row the first row is 1 and
    /// the last 0.
    pub open spec fn span(self) -> (int, int, int) {
        let x = self.x as int;
        let cut = (x * self.lo.1) / (self.lo.0 as int);
        let top = if self.lo.0 > 0 && cut < self.otr.y {
            cut
        } else {
            self.otr.y as int
        };
        let rise = (x * self.hi.1 + self.hi.0 - 1) / (self.hi.0 as int);
        let floor = if self.inner_live() {
            self.inr->0.y as int
        } else {
            0
        };
        let bot = if rise > floor {
            rise
        } else {
            floor
        };
        if bot > top {
            (x, 1, 0)
        } else {
            (x, bot, top)
        }
    }

    /// The annulus with the column that is filled next left behind.
    pub open spec fn stepped(self) -> Annulus {
        Annulus {
            x: (self.x + 1) as i32,
            otr: self.otr.next(),
            inr: if self.inner_live() {
                Some(self.inr->0.next())
            } else {
                self.inr
            },
            ..self
        }
    }

    /// Whether the walk along the inner circle has a pixel in the column
    /// that is filled next.
    pub open spec fn inner_live(self) -> bool {
        self.inr matches Some(p) && p.x <= p.y
    }

    /// Both walks are at the column that is filled next, or have left the
    /// octant before it.
    pub open spec fn wf(self) -> bool {
        &&& 0 <= self.ri <= self.ro
        &&& 1 <= self.ro
        &&& is_octant(self.oct as int)
        &&& is_octant(self.start.oct as int)
        &&& is_octant(self.end.oct as int)
        &&& self.revisit ==> self.oct == self.end.oct
        &&& 0 <= self.x
        &&& self.otr.wf()
        &&& self.otr.r == self.ro
        &&& self.otr.ex == self.ro
        &&& self.otr.x == self.x
        &&& match self.inr {
            Some(p) => {
                &&& 1 <= self.ri
                &&& p.wf()
                &&& p.r == self.ri
                &&& p.ex == self.ri
                &&& if p.x <= p.y {
                    p.x == self.x
                } else {
                    p.x <= self.x
                }
            },
            None => self.ri == 0,
        }
        &&& self.lo.0 <= self.lo.1 <= 0x8000_0000
        &&& 0 < self.hi.0 <= self.hi.1 <= 0x8000_0000
        &&& self.start.dir.starts_in(self.start.oct as int)
        &&& self.end.dir.ends_in(self.end.oct as int)
    }

    /// Whether every pixel has been filled.
    pub open spec fn finished(self) -> bool {
        self.octant_done() && self.in_last_octant()
    }

    /// Whether the octant that is being filled has no column left.
    pub open spec fn octant_done(self) -> bool {
        self.otr.x > self.otr.y
    }

    /// Whether the fill is in the octant where the annulus ends, for the
    /// last time.
    pub open spec fn in_last_octant(self) -> bool {
        self.oct == self.end.oct && !self.revisit
    }

    /// How many octants the fill has yet to enter.
    pub open spec fn octants_left(self) -> nat {
        visits_left(self.oct as int, self.end.oct as int, self.revisit)
    }

    /// How many columns the octant that is being filled may still hold.
    pub open spec fn cols_left(self) -> nat {
        if self.octant_done() {
            0
        } else {
            (self.ro - self.x + 1) as nat
        }
    }

    /// Whether `other` is this annulus further along its fill.
    pub open spec fn precedes(self, other: Annulus) -> bool {
        &&& other.start == self.start
        &&& other.end == self.end
        &&& other.c == self.c
        &&& other.ri == self.ri
        &&& other.ro == self.ro
        &&& other.octants_left() < self.octants_left() || (other.octants_left()
            == self.octants_left() && other.cols_left() < self.cols_left())
    }
}

/// Beyond the column where the outer circle leaves the octant, the octant
/// holds no point inside the circle.
proof fn lemma_band_ends(ri: int, ro: int, x: int, y: int, q: (int, int))
    requires
        0 <= y < x,
        ro * ro - x * x < y * (y + 1),
        x <= q.0,
    ensures
        !in_band(ri, ro, q),
{
    if in_band(ri, ro, q) {
        assert(y * (y + 1) <= q.1 * (q.1 - 1)) by (nonlinear_arith)
            requires
                0 <= y,
                y + 1 <= q.1,
        ;
        assert(x * x <= q.0 * q.0) by (nonlinear_arith)
            requires
                0 <= x <= q.0,
        ;
    }
}

/// The row up to which column `x` lies on the axis side of the direction
/// `ray`: `x * big / m`, rounded down.
pub fn calc_line(ray: (u32, u32), x: i32) -> (y: u64)
    requires
        0 < ray.0,
        ray.1 <= 0x8000_0000,
        0 <= x,
    ensures
        y == (x * ray.1) / (ray.0 as int),
        forall|row: int| row <= y <==> #[trigger] (row * ray.0) <= x * ray.1,
{
    let a: u64 = x as u64;
    let b: u64 = ray.1 as u64;
    assert(0 <= a * b <= 0x8000_0000 * 0x8000_0000) by (nonlinear_arith)
        requires
            0 <= a <= 0x8000_0000,
            0 <= b <= 0x8000_0000,
    ;
    let y = (a * b) / (ray.0 as u64);
    proof {
        assert forall|row: int| row <= y <==> #[trigger] (row * ray.0) <= x * ray.1 by {
            lemma_under(x as int, ray.0 as int, ray.1 as int, y as int, row);
        }
    }
    y
}

/// The row from which column `x` lies on the diagonal side of the direction
/// `ray`: `x * big / m`, rounded up.
pub fn calc_line_up(ray: (u32, u32), x: i32) -> (y: u64)
    requires
        0 < ray.0,
        ray.1 <= 0x8000_0000,
        0 <= x,
    ensures
        y == (x * ray.1 + ray.0 - 1) / (ray.0 as int),
        forall|row: int| y <= row <==> x * ray.1 <= #[trigger] (row * ray.0),
{
    let a: u64 = x as u64;
    let b: u64 = ray.1 as u64;
    assert(0 <= a * b <= 0x8000_0000 * 0x8000_0000) by (nonlinear_arith)
        requires
            0 <= a <= 0x8000_0000,
            0 <= b <= 0x8000_0000,
    ;
    let y = (a * b + (ray.0 as u64 - 1)) / (ray.0 as u64);
    proof {
        assert forall|row: int| y <= row <==> x * ray.1 <= #[trigger] (row * ray.0) by {
            lemma_over(x as int, ray.0 as int, ray.1 as int, y as int, row);
        }
    }
    y
}

impl Annulus {
    /// The annulus between the circles of radius `ri` and `ro` around `c`,
    /// whichever of the two is the larger, from the direction `start_angle`
    /// counter-clockwise to the direction `end_angle`. One radius may be
    /// zero: the annulus is then a slice of a disc.
    pub fn new(start_angle: Dir, end_angle: Dir, ri: i32, ro: i32, c: Pt<i32>) -> (a: Annulus)
        requires
            ri >= 0,
            ro >= 0,
            ri + ro > 0,
            start_angle.wf(),
            end_angle.wf(),
        ensures
            a.wf(),
            a == Annulus::entering(
                start_edge(start_angle, a.ro as int),
                end_edge(end_angle, a.ro as int),
                a.start.oct,
                true,
                wraps(a.start, a.end),
                a.ri,
                a.ro,
                c,
            ),
            a.ri <= a.ro,
            a.ri == ri && a.ro == ro || a.ri == ro && a.ro == ri,
            a@ == annulus_pixels(start_angle, end_angle, ri as int, ro as int, c.pair()),
    {
        let (ri, ro) = Self::check_radii(ri, ro);
        let start = Edge::start(start_angle, ro);
        let end = Edge::end(end_angle, ro);
        let revisit = start.oct == end.oct && !start_angle.turns_left_to(&end_angle);
        Self::annulus(start, end, start.oct, true, revisit, ri, ro, c)
    }

    /// The annulus that [`Annulus::new`] makes, or `None` where there is
    /// none to make: when a radius is negative, when both are zero, or when
    /// one of the directions is the zero vector.
    pub fn try_new(start_angle: Dir, end_angle: Dir, ri: i32, ro: i32, c: Pt<i32>) -> (r: Option<
        Annulus,
    >)
        ensures
            r is Some <==> ri >= 0 && ro >= 0 && ri + ro > 0 && start_angle.wf() && end_angle.wf(),
            r matches Some(a) ==> {
                &&& a.wf()
                &&& a == Annulus::entering(
                    start_edge(start_angle, a.ro as int),
                    end_edge(end_angle, a.ro as int),
                    a.start.oct,
                    true,
                    wraps(a.start, a.end),
                    a.ri,
                    a.ro,
                    c,
                )
                &&& a.ri <= a.ro
                &&& a.ri == ri && a.ro == ro || a.ri == ro && a.ro == ri
                &&& a@ == annulus_pixels(start_angle, end_angle, ri as int, ro as int, c.pair())
            },
    {
        if ri >= 0 && ro >= 0 && (ri > 0 || ro > 0) && (start_angle.dx != 0 || start_angle.dy
            != 0) && (end_angle.dx != 0 || end_angle.dy != 0) {
            Some(Annulus::new(start_angle, end_angle, ri, ro, c))
        } else {
            None
        }
    }

    /// The annulus at the first column of octant `oct`.
    fn annulus(
        start: Edge,
        end: Edge,
        oct: u8,
        first: bool,
        revisit: bool,
        ri: i32,
        ro: i32,
        c: Pt<i32>,
    ) -> (a: Annulus)
        requires
            0 <= ri <= ro,
            1 <= ro,
            is_octant(oct as int),
            is_octant(start.oct as int),
            is_octant(end.oct as int),
            start.dir.starts_in(start.oct as int),
            end.dir.ends_in(end.oct as int),
            first ==> oct == start.oct,
            revisit ==> oct == end.oct,
        ensures
            a.wf(),
            a == Annulus::entering(start, end, oct, first, revisit, ri, ro, c),
            (a.lo_ray(), a.hi_ray()) == visit_wedge(
                oct as int,
                start,
                end,
                first,
                oct == end.oct && !revisit,
            ),
    {
        let last = oct == end.oct && !revisit;
        let axis: (u32, u32) = (0, 1);
        let diagonal: (u32, u32) = (1, 1);
        let from = if first {
            start.dir.split(oct)
        } else {
            axis
        };
        let to = if last {
            end.dir.split(oct)
        } else {
            axis
        };
        let (lo, hi) = if oct % 2 == 1 {
            (if first { from } else { axis }, if last { to } else { diagonal })
        } else {
            (if last { to } else { axis }, if first { from } else { diagonal })
        };
        let inr = if ri == 0 {
            None
        } else {
            Some(Pos::start(oct, ri))
        };
        Annulus { start, end, oct, revisit, lo, hi, inr, otr: Pos::start(oct, ro), x: 0, c, ri, ro }
    }

    /// The two radii in order, the smaller first.
    fn check_radii(a: i32, b: i32) -> (r: (i32, i32))
        requires
            a >= 0,
            b >= 0,
        ensures
            r.0 <= r.1,
            r == if a <= b {
                (a, b)
            } else {
                (b, a)
            },
    {
        if a > b {
            (b, a)
        } else {
            (a, b)
        }
    }

    /// The octant-local point at which the walk along the inner circle is,
    /// or the center when the inner radius is zero.
    pub fn inner_start(&self) -> (p: Pt<i32>)
        ensures
            p == match self.inr {
                Some(pos) => Pt { x: pos.x, y: pos.y },
                None => Pt { x: 0i32, y: 0i32 },
            },
    {
        match self.inr {
            Some(pos) => Pt::new(pos.x, pos.y),
            None => Pt::new(0, 0),
        }
    }

    /// The octant-local point at which the walk along the outer circle is.
    pub fn outer_start(&self) -> (p: Pt<i32>)
        ensures
            p == (Pt { x: self.otr.x, y: self.otr.y }),
    {
        Pt::new(self.otr.x, self.otr.y)
    }

    /// Moves on to the next octant when the one that is being filled has no
    /// column left, and says whether it did.
    pub fn next_octant(&mut self) -> (moved: bool)
        requires
            old(self).wf(),
            !old(self).finished(),
        ensures
            final(self).wf(),
            moved == old(self).octant_done(),
            final(self)@ == old(self)@,
            !moved ==> *final(self) == *old(self),
            moved ==> old(self).precedes(*final(self)),
            moved ==> *final(self) == Annulus::entering(
                old(self).start,
                old(self).end,
                next_octant(old(self).oct as int) as u8,
                false,
                false,
                old(self).ri,
                old(self).ro,
                old(self).c,
            ),
    {
        if self.otr.x > self.otr.y {
            let oct = self.oct % 8 + 1;
            let ghost before = *self;
            proof {
                lemma_enters_later(0, before.oct as int, before.end.oct as int);
            }
            *self = Self::annulus(self.start, self.end, oct, false, false, self.ri, self.ro, self.c);
            proof {
                before.lemma_octant_done();
                assert(self@ =~= before@);
            }
            true
        } else {
            false
        }
    }

    /// When the outer circle has left the octant, the octant has no pixel
    /// left to fill.
    pub proof fn lemma_octant_done(self)
        requires
            self.wf(),
            self.octant_done(),
        ensures
            slice(self.ri as int, self.ro as int, self.lo_ray(), self.hi_ray(), self.x as int)
                == Set::<(int, int)>::empty(),
    {
        let s = slice(self.ri as int, self.ro as int, self.lo_ray(), self.hi_ray(), self.x as int);
        assert forall|q: (int, int)| !s.contains(q) by {
            if self.x <= q.0 {
                lemma_band_ends(
                    self.ri as int,
                    self.ro as int,
                    self.x as int,
                    self.otr.y as int,
                    q,
                );
            }
        }
        assert(s =~= Set::<(int, int)>::empty());
    }

    /// Whether every pixel has been filled.
    pub fn end(&self) -> (b: bool)
        requires
            self.wf(),
        ensures
            b == self.finished(),
            b ==> self@ == Set::<(int, int)>::empty(),
    {
        let b = self.oct == self.end.oct && !self.revisit && self.otr.x > self.otr.y;
        proof {
            if b {
                self.lemma_octant_done();
                assert(self@ =~= Set::<(int, int)>::empty());
            }
        }
        b
    }

    /// Puts the color on the rows of the octant-local column `x` from `yi` to
    /// `yo`, both included, whichever of the two is the lower.
    pub fn put_line(&self, x: i32, yi: i32, yo: i32, canvas: &mut Canvas, color: Color)
        requires
            is_octant(self.oct as int),
        ensures
            final(canvas)@ == old(canvas)@.fill(
                place(
                    column(x as int, least(yi as int, yo as int), most(yi as int, yo as int)),
                    self.oct as int,
                    self.c.pair(),
                ),
                color,
            ),
    {
        let ghost oct = self.oct as int;
        let ghost c = self.c.pair();
        let (lo, hi) = if yi <= yo {
            (yi, yo)
        } else {
            (yo, yi)
        };
        let mut y: i32 = lo;
        proof {
            assert(place(column(x as int, lo as int, lo - 1), oct, c) =~= Set::<
                (int, int),
            >::empty());
            assert(canvas@.px =~= old(canvas)@.fill(Set::<(int, int)>::empty(), color).px);
        }
        loop
            invariant
                lo <= y <= hi,
                lo == least(yi as int, yo as int),
                hi == most(yi as int, yo as int),
                is_octant(self.oct as int),
                oct == self.oct,
                c == self.c.pair(),
                canvas@ == old(canvas)@.fill(
                    place(column(x as int, lo as int, y - 1), oct, c),
                    color,
                ),
            decreases hi - y,
        {
            let p = iter_to_real(x, y, self.oct, self.c);
            canvas.put(p.x, p.y, color);
            proof {
                let done = place(column(x as int, lo as int, y - 1), oct, c);
                let more = place(column(x as int, lo as int, y as int), oct, c);
                lemma_fill_put(old(canvas)@, done, p.pair(), color);
                assert forall|a: (int, int)| more.contains(a) <==> done.insert(p.pair()).contains(
                    a,
                ) by {
                    lemma_round_trip(a, oct, c);
                    lemma_round_trip((x as int, y as int), oct, c);
                }
                assert(more =~= done.insert(p.pair()));
            }
            if y == hi {
                return ;
            }
            y = y + 1;
        }
    }
}

/// A column that lies on the diagonal side of a direction of the octant
/// lies inside the octant.
proof fn lemma_in_octant(x: int, y: int, m: int, big: int)
    requires
        0 <= y,
        0 < m <= big,
        x * big <= y * m,
    ensures
        x <= y,
{
    if y < x {
        assert(y * m <= y * big) by (nonlinear_arith)
            requires
                0 <= y,
                m <= big,
        ;
        assert(y * big < x * big) by (nonlinear_arith)
            requires
                y < x,
                0 < big,
        ;
    }
}

impl Annulus {
    /// The octant-local point at which the direction that bounds the annulus
    /// on the side of the diagonal crosses the outer circle.
    pub fn outer_end(&self) -> (p: Pt<i32>)
        requires
            self.wf(),
        ensures
            crate::edge::is_rim(self.hi_ray().0, self.hi_ray().1, self.ro as int, p.x as int),
            on_ring(self.ro as int, p.x as int, p.y as int),
    {
        let x = crate::edge::rim_abscissa(self.hi.0, self.hi.1, self.ro);
        Pt::new(x, crate::ring::ring_height(self.ro, x))
    }

    /// The octant-local point at which the direction that bounds the annulus
    /// on the side of the diagonal crosses the inner circle, or the center
    /// when the inner radius is zero.
    pub fn inner_end(&self) -> (p: Pt<i32>)
        requires
            self.wf(),
        ensures
            self.ri == 0 ==> p == (Pt { x: 0i32, y: 0i32 }),
            self.ri > 0 ==> crate::edge::is_rim(
                self.hi_ray().0,
                self.hi_ray().1,
                self.ri as int,
                p.x as int,
            ) && on_ring(self.ri as int, p.x as int, p.y as int),
    {
        if self.ri == 0 {
            Pt::new(0, 0)
        } else {
            let x = crate::edge::rim_abscissa(self.hi.0, self.hi.1, self.ri);
            Pt::new(x, crate::ring::ring_height(self.ri, x))
        }
    }

    /// Fills nothing yet: says which rows of which column of the octant are
    /// next, as column, first row and last row, and moves on to the column
    /// after it. The rows are none when the first lies above the last.
    pub fn step(&mut self) -> (span: (i32, i32, i32))
        requires
            old(self).wf(),
            !old(self).octant_done(),
        ensures
            final(self).wf(),
            *final(self) == old(self).stepped(),
            (span.0 as int, span.1 as int, span.2 as int) == old(self).span(),
            final(self).oct == old(self).oct,
            old(self).precedes(*final(self)),
            span.0 == old(self).x,
            0 <= span.1 <= span.2 + 1,
            span.2 <= old(self).ro,
            span_is_tight(
                old(self).ri as int,
                old(self).ro as int,
                old(self).lo_ray(),
                old(self).hi_ray(),
                (span.0 as int, span.1 as int, span.2 as int),
            ),
            old(self)@ == final(self)@.union(
                place(
                    column(span.0 as int, span.1 as int, span.2 as int),
                    old(self).oct as int,
                    old(self).c.pair(),
                ),
            ),
    {
        let x = self.x;
        let ghost ri = self.ri as int;
        let ghost ro = self.ro as int;
        let ghost lo = self.lo_ray();
        let ghost hi = self.hi_ray();
        let ghost yo = self.otr.y as int;
        let mut top: u64 = self.otr.y as u64;
        if self.lo.0 > 0 {
            let t = calc_line(self.lo, x);
            if t < top {
                top = t;
            }
        }
        let live = match self.inr {
            Some(p) => p.x <= p.y,
            None => false,
        };
        let mut bot: u64 = match self.inr {
            Some(p) => if p.x <= p.y {
                p.y as u64
            } else {
                0
            },
            None => 0,
        };
        let b = calc_line_up(self.hi, x);
        if b > bot {
            bot = b;
        }
        if bot > top {
            bot = 1;
            top = 0;
        }
        let span = (x, bot as i32, top as i32);
        proof {
            assert(top * lo.0 == #[trigger] (top * self.lo.0));
            assert((top + 1) * lo.0 == #[trigger] ((top + 1) * self.lo.0));
            assert(bot * hi.0 == #[trigger] (bot * self.hi.0));
            assert((bot - 1) * hi.0 == #[trigger] ((bot - 1) * self.hi.0));
            let here = slice(ri, ro, lo, hi, x as int);
            let col = column(x as int, bot as int, top as int);
            assert forall|q: (int, int)| q.0 == x implies (here.contains(q) <==> col.contains(
                q,
            )) by {
                let y = q.1;
                assert(y * lo.0 == #[trigger] (y * self.lo.0));
                assert(y * hi.0 == #[trigger] (y * self.hi.0));
                assert(0 <= x * lo.1) by (nonlinear_arith)
                    requires
                        0 <= x,
                        0 <= lo.1,
                ;
                if lo.0 == 0 {
                    assert(y * lo.0 == 0) by (nonlinear_arith)
                        requires
                            lo.0 == 0,
                    ;
                }
                if 0 <= y {
                    lemma_below_outer(ro, x as int, yo, y);
                    if x * hi.1 <= y * hi.0 {
                        lemma_in_octant(x as int, y, hi.0, hi.1);
                    }
                }
                match self.inr {
                    Some(p) => {
                        if p.x <= p.y {
                            if y >= p.y {
                                lemma_above_inner(ri, x as int, p.y as int, y);
                            } else if y >= 0 {
                                lemma_inside_inner(ri, x as int, p.y as int, y);
                            }
                        } else if y >= x {
                            assert(p.x * p.x <= x * x) by (nonlinear_arith)
                                requires
                                    0 <= p.x <= x,
                            ;
                            lemma_above_inner(ri, p.x as int, p.y as int, y);
                        }
                    },
                    None => {},
                }
            }
        }
        self.otr.inc();
        if live {
            let mut p = self.inr.unwrap();
            p.inc();
            self.inr = Some(p);
        }
        self.x = x + 1;
        proof {
            let here = slice(ri, ro, lo, hi, x as int);
            let col = column(x as int, bot as int, top as int);
            let rest = slice(ri, ro, lo, hi, x + 1);
            assert(here =~= rest.union(col));
            let oct = self.oct as int;
            let c = self.c.pair();
            assert(place(here, oct, c) =~= place(rest, oct, c).union(place(col, oct, c)));
            assert(old(self)@ =~= self@.union(place(col, oct, c)));
        }
        span
    }

    /// Fills the annulus: every pixel of it that lies inside the canvas
    /// takes the color `color`, and no other pixel changes.
    pub fn draw(self, canvas: &mut Canvas, color: Color)
        requires
            self.wf(),
        ensures
            final(canvas)@ == old(canvas)@.fill(self@, color),
    {
        let mut walk = self;
        let ghost whole = self@;
        let ghost mut done = Set::<(int, int)>::empty();
        proof {
            assert(canvas@.px =~= old(canvas)@.fill(done, color).px);
        }
        loop
            invariant
                walk.wf(),
                done.union(walk@) == whole,
                canvas@ == old(canvas)@.fill(done, color),
            ensures
                canvas@ == old(canvas)@.fill(whole, color),
            decreases walk.octants_left(), walk.cols_left(),
        {
            if walk.end() {
                proof {
                    assert(done =~= whole);
                }
                break;
            }
            if walk.next_octant() {
                continue;
            }
            let (x, y1, y2) = walk.step();
            let ghost col = place(
                column(x as int, y1 as int, y2 as int),
                walk.oct as int,
                walk.c.pair(),
            );
            if y1 <= y2 {
                walk.put_line(x, y1, y2, canvas, color);
                proof {
                    lemma_fill_union(old(canvas)@, done, col, color);
                }
            } else {
                // a column without rows: nothing to put
                proof {
                    assert(col =~= Set::<(int, int)>::empty());
                    assert(done.union(col) =~= done);
                }
            }
            proof {
                done = done.union(col);
                assert(done.union(walk@) =~= whole);
            }
        }
    }
}

/// Fills the annulus between the circles of radius `inner_radius` and
/// `outer_radius` around `center`, from the direction `start_angle`
/// counter-clockwise to the direction `end_angle`.
pub fn annulus(
    canvas: &mut Canvas,
    start_angle: Dir,
    end_angle: Dir,
    inner_radius: i32,
    outer_radius: i32,
    center: Pt<i32>,
    color: Color,
)
    requires
        inner_radius >= 0,
        outer_radius >= 0,
        inner_radius + outer_radius > 0,
        start_angle.wf(),
        end_angle.wf(),
    ensures
        final(canvas)@ == old(canvas)@.fill(
            annulus_pixels(
                start_angle,
                end_angle,
                inner_radius as int,
                outer_radius as int,
                center.pair(),
            ),
            color,
        ),
{
    Annulus::new(start_angle, end_angle, inner_radius, outer_radius, center).draw(canvas, color);
}

/// Fills the annulus as [`annulus`] does and says so, or fills nothing and
/// says so: nothing is filled when a radius is negative, when both are zero,
/// or when one of the directions is the zero vector.
pub fn try_annulus(
    canvas: &mut Canvas,
    start_angle: Dir,
    end_angle: Dir,
    inner_radius: i32,
    outer_radius: i32,
    center: Pt<i32>,
    color: Color,
) -> (drawn: bool)
    ensures
        drawn == (inner_radius >= 0 && outer_radius >= 0 && inner_radius + outer_radius > 0
            && start_angle.wf() && end_angle.wf()),
        drawn ==> final(canvas)@ == old(canvas)@.fill(
            annulus_pixels(
                start_angle,
                end_angle,
                inner_radius as int,
                outer_radius as int,
                center.pair(),
            ),
            color,
        ),
        !drawn ==> final(canvas)@ == old(canvas)@,
{
    match Annulus::try_new(start_angle, end_angle, inner_radius, outer_radius, center) {
        Some(a) => {
            a.draw(canvas, color);
            true
        },
        None => false,
    }
}

/// What filling an annulus leaves behind is determined by the canvas and
/// the annulus: on equal canvases equal annuli leave equal canvases, and
/// filling the annulus a second time changes nothing.
pub proof fn lemma_annulus_determined(
    v: Raster,
    w: Raster,
    start: Dir,
    end: Dir,
    r1: int,
    r2: int,
    c: (int, int),
    color: Color,
)
    requires
        v == w,
    ensures
        v.fill(annulus_pixels(start, end, r1, r2, c), color) == w.fill(
            annulus_pixels(start, end, r1, r2, c),
            color,
        ),
        v.fill(annulus_pixels(start, end, r1, r2, c), color).fill(
            annulus_pixels(start, end, r1, r2, c),
            color,
        ) == v.fill(annulus_pixels(start, end, r1, r2, c), color),
{
    lemma_fill_union(
        v,
        annulus_pixels(start, end, r1, r2, c),
        annulus_pixels(start, end, r1, r2, c),
        color,
    );
}

/// Fills the slice of the disc of radius `radius` around `center` from the
/// direction `start_angle` counter-clockwise to the direction `end_angle`.
pub fn pie_slice_filled(
    canvas: &mut Canvas,
    start_angle: Dir,
    end_angle: Dir,
    radius: i32,
    center: Pt<i32>,
    color: Color,
)
    requires
        radius > 0,
        start_angle.wf(),
        end_angle.wf(),
    ensures
        final(canvas)@ == old(canvas)@.fill(
            annulus_pixels(start_angle, end_angle, 0, radius as int, center.pair()),
            color,
        ),
{
    annulus(canvas, start_angle, end_angle, 0, radius, center, color);
}

/// Whether the octant-local point `q` of octant `k` lies on the side of the
/// direction `start` to which an annulus that starts there extends, or on
/// the direction itself.
pub open spec fn after_start(start: Edge, k: int, q: (int, int)) -> bool {
    let d = start.dir.local(k);
    if k % 2 == 1 {
        q.1 * d.0 <= q.0 * d.1
    } else {
        q.0 * d.1 <= q.1 * d.0
    }
}

/// Whether the octant-local point `q` of octant `k` lies on the side of the
/// direction `end` from which an annulus that ends there comes, or on the
/// direction itself.
pub open spec fn before_end(end: Edge, k: int, q: (int, int)) -> bool {
    let d = end.dir.local(k);
    if k % 2 == 1 {
        q.0 * d.1 <= q.1 * d.0
    } else {
        q.1 * d.0 <= q.0 * d.1
    }
}

/// The side of an edge on which a point lies is the same from whichever
/// octant it is told: a point lies on the annulus' side of the start
/// direction when it lies to the left of it or on it, and on the annulus'
/// side of the end direction when it lies to the right of it or on it.
pub proof fn lemma_sides(start: Edge, end: Edge, c: (int, int), k: int, p: (int, int))
    requires
        is_octant(k),
    ensures
        after_start(start, k, to_iter(p, k, c)) <==> start.dir.side(c, p) >= 0,
        before_end(end, k, to_iter(p, k, c)) <==> end.dir.side(c, p) <= 0,
{
    let q = to_iter(p, k, c);
    let x = p.0 - c.0;
    let y = c.1 - p.1;
    lemma_told_from(start.dir, k, x, y);
    lemma_told_from(end.dir, k, x, y);
    let ls = start.dir.local(k);
    let le = end.dir.local(k);
    assert(q.1 * ls.0 == ls.0 * q.1 && q.0 * ls.1 == ls.1 * q.0 && q.1 * le.0 == le.0 * q.1 && q.0
        * le.1 == le.1 * q.0) by (nonlinear_arith);
}

/// Seen from an octant with an odd number, left and right change places.
proof fn lemma_told_from(d: Dir, k: int, x: int, y: int)
    requires
        is_octant(k),
    ensures
        ({
            let l = d.local(k);
            let q = to_iter((x, -y), k, (0, 0));
            l.0 * q.1 - l.1 * q.0 == if k % 2 == 1 {
                -(d.dx * y - d.dy * x)
            } else {
                d.dx * y - d.dy * x
            }
        }),
{
    let a = d.dx as int;
    let b = d.dy as int;
    assert((-a) * y == -(a * y) && (-b) * x == -(b * x) && a * (-y) == -(a * y) && b * (-x) == -(b
        * x) && (-a) * (-y) == a * y && (-b) * (-x) == b * x && y * a == a * y && x * b == b * x
        && (-y) * a == -(a * y) && (-x) * b == -(b * x) && y * (-a) == -(a * y) && x * (-b) == -(b
        * x) && (-y) * (-a) == a * y && (-x) * (-b) == b * x) by (nonlinear_arith);
}

/// Whether the octant-local point `q` of octant `k` is a pixel of the
/// annulus from `start` to `end` between the circles of radius `ri` and
/// `ro`: it lies between the circles, the octant lies on the way from the
/// start to the end, and the point lies on the annulus' side of each edge
/// that falls in the octant. In the octant of both edges of an annulus that
/// goes all the way round, one edge is enough.
pub open spec fn ring_covers(start: Edge, end: Edge, ri: int, ro: int, k: int, q: (int, int)) -> bool {
    &&& is_octant(k)
    &&& in_band(ri, ro, q)
    &&& if wraps(start, end) {
        k == start.oct ==> after_start(start, k, q) || before_end(end, k, q)
    } else {
        &&& on_the_way(k, start.oct as int, end.oct as int)
        &&& k == start.oct ==> after_start(start, k, q)
        &&& k == end.oct ==> before_end(end, k, q)
    }
}

/// What an annulus holds in an octant is the points between the circles
/// that lie on its side of the edges that fall in the octant.
proof fn lemma_ring_visit(
    start: Edge,
    end: Edge,
    ri: int,
    ro: int,
    c: (int, int),
    k: int,
    first: bool,
    last: bool,
    p: (int, int),
)
    ensures
        ring_visit(start, end, ri, ro, c, k, first, last).contains(p) <==> {
            let q = to_iter(p, k, c);
            &&& in_band(ri, ro, q)
            &&& first ==> after_start(start, k, q)
            &&& last ==> before_end(end, k, q)
        },
{
    let q = to_iter(p, k, c);
    assert(q.1 * 0 == 0 && q.0 * 1 == q.0 && q.1 * 1 == q.1) by (nonlinear_arith);
}

/// An annulus is made of the points between its circles and between its
/// edges: a point belongs to it exactly when, seen from one of the octants
/// on the way from the start to the end, it lies between the circles and on
/// the annulus' side of the start direction and of the end direction. The
/// sides are told exactly, so that no pixel of the annulus has its center
/// outside the angles that the annulus was asked for.
pub proof fn lemma_annulus_within_angles(
    start: Edge,
    end: Edge,
    ri: int,
    ro: int,
    c: (int, int),
    p: (int, int),
)
    requires
        is_octant(start.oct as int),
        is_octant(end.oct as int),
    ensures
        sector(start, end, ri, ro, c).contains(p) <==> exists|k: int|
            #[trigger] ring_covers(start, end, ri, ro, k, to_iter(p, k, c)),
{
    let s = start.oct as int;
    let e = end.oct as int;
    let revisit = wraps(start, end);
    let part = ring_part(start, end, ri, ro, c);
    let first = ring_visit(start, end, ri, ro, c, s, true, s == e && !revisit);
    lemma_ring_visit(start, end, ri, ro, c, s, true, s == e && !revisit, p);
    lemma_on_the_way(s, s, e);
    if revisit {
        lemma_tail_of_full_turn(part, s, p);
    } else {
        lemma_tail_of(part, s, e, p);
    }
    if sector(start, end, ri, ro, c).contains(p) {
        if first.contains(p) {
            assert(ring_covers(start, end, ri, ro, s, to_iter(p, s, c)));
        } else if revisit {
            let k = choose|k: int| #[trigger] is_octant(k) && part(k, k == s).contains(p);
            lemma_ring_visit(start, end, ri, ro, c, k, false, k == e, p);
            assert(ring_covers(start, end, ri, ro, k, to_iter(p, k, c)));
        } else {
            let k = choose|k: int| #[trigger] enters_later(k, s, e) && part(k, k == e).contains(p);
            lemma_ring_visit(start, end, ri, ro, c, k, false, k == e, p);
            lemma_on_the_way(k, s, e);
            lemma_enters_later(k, s, e);
            assert(ring_covers(start, end, ri, ro, k, to_iter(p, k, c)));
        }
    }
    if exists|k: int| #[trigger] ring_covers(start, end, ri, ro, k, to_iter(p, k, c)) {
        let k = choose|k: int| #[trigger] ring_covers(start, end, ri, ro, k, to_iter(p, k, c));
        lemma_ring_visit(start, end, ri, ro, c, k, false, k == e, p);
        lemma_on_the_way(k, s, e);
        lemma_enters_later(k, s, e);
        if !first.contains(p) {
            if revisit {
                assert(is_octant(k) && part(k, k == s).contains(p));
            } else {
                assert(enters_later(k, s, e) && part(k, k == e).contains(p));
            }
        }
    }
}

/// The pixels of the whole ring between the circles of radius `ri` and `ro`
/// around `c`.
pub open spec fn ring_pixels(ri: int, ro: int, c: (int, int)) -> Set<(int, int)> {
    Set::new(|p: (int, int)| exists|k: int| #[trigger] in_ring(ri, ro, c, k, p))
}

/// Whether the image point `p` lies between the circles of radius `ri` and
/// `ro` around `c`, as seen from octant `k`.
pub open spec fn in_ring(ri: int, ro: int, c: (int, int), k: int, p: (int, int)) -> bool {
    is_octant(k) && in_band(ri, ro, to_iter(p, k, c))
}

/// An annulus that ends where it starts is the whole ring.
pub proof fn lemma_full_ring(start: Edge, end: Edge, ri: int, ro: int, c: (int, int))
    requires
        is_octant(start.oct as int),
        is_octant(end.oct as int),
        start.dir == end.dir,
        start.dir.starts_in(start.oct as int),
        end.dir.ends_in(end.oct as int),
    ensures
        sector(start, end, ri, ro, c) == ring_pixels(ri, ro, c),
{
    let s = start.oct as int;
    let e = end.oct as int;
    let d = start.dir;
    assert(d.cross(d) == 0) by (nonlinear_arith);
    assert forall|p: (int, int)|
        sector(start, end, ri, ro, c).contains(p) <==> ring_pixels(ri, ro, c).contains(p) by {
        lemma_annulus_within_angles(start, end, ri, ro, c, p);
        assert forall|k: int| #[trigger]
            ring_covers(start, end, ri, ro, k, to_iter(p, k, c)) <==> in_ring(ri, ro, c, k, p) by {
            let q = to_iter(p, k, c);
            if in_ring(ri, ro, c, k, p) {
                if s != e {
                    crate::circle::lemma_on_boundary(d, s, e);
                    lemma_on_the_way(k, s, e);
                    let ls = d.local(s);
                    let le = d.local(e);
                    assert(q.1 * 0 == 0 && 0 <= q.0 * ls.1 && 0 <= q.0 * le.1 && q.0 * ls.1 <= q.1
                        * ls.1 && q.0 * le.1 <= q.1 * le.1) by (nonlinear_arith)
                        requires
                            0 <= q.0 <= q.1,
                            0 < ls.1,
                            0 < le.1,
                    ;
                }
            }
        }
        if sector(start, end, ri, ro, c).contains(p) {
            let k = choose|k: int| #[trigger] ring_covers(start, end, ri, ro, k, to_iter(p, k, c));
            assert(in_ring(ri, ro, c, k, p));
        }
        if ring_pixels(ri, ro, c).contains(p) {
            let k = choose|k: int| #[trigger] in_ring(ri, ro, c, k, p);
            assert(ring_covers(start, end, ri, ro, k, to_iter(p, k, c)));
        }
    }
    assert(sector(start, end, ri, ro, c) =~= ring_pixels(ri, ro, c));
}

/// A ring is bounded by its two circles: the pixels of the outer circle
/// belong to the ring and the pixels right beyond them do not, and the
/// pixels of the inner circle belong to the ring and the pixels right within
/// them do not.
pub proof fn lemma_ring_rims(ri: int, ro: int, c: (int, int), k: int, q: (int, int))
    requires
        0 <= ri <= ro,
        is_octant(k),
        0 <= q.0 <= q.1,
    ensures
        on_ring(ro, q.0, q.1) ==> ring_pixels(ri, ro, c).contains(to_real(q, k, c))
            && !ring_pixels(ri, ro, c).contains(to_real((q.0, q.1 + 1), k, c)),
        0 < ri && on_ring(ri, q.0, q.1) ==> ring_pixels(ri, ro, c).contains(to_real(q, k, c)) && (
        q.0 < q.1 ==> !ring_pixels(ri, ro, c).contains(to_real((q.0, q.1 - 1), k, c))),
{
    assert(ri * ri <= ro * ro) by (nonlinear_arith)
        requires
            0 <= ri <= ro,
    ;
    assert((q.1 + 1) * (q.1 + 1 - 1) == q.1 * (q.1 + 1)) by (nonlinear_arith);
    assert((q.1 - 1) * (q.1 - 1 + 1) == q.1 * (q.1 - 1)) by (nonlinear_arith);
    assert(q.1 * (q.1 - 1) <= q.1 * (q.1 + 1)) by (nonlinear_arith)
        requires
            0 <= q.1,
    ;
    lemma_round_trip(q, k, c);
    if on_ring(ro, q.0, q.1) {
        assert(in_ring(ri, ro, c, k, to_real(q, k, c)));
        lemma_only_view(ri, ro, c, k, (q.0, q.1 + 1));
    }
    if 0 < ri && on_ring(ri, q.0, q.1) {
        assert(in_ring(ri, ro, c, k, to_real(q, k, c)));
        if q.0 < q.1 {
            lemma_only_view(ri, ro, c, k, (q.0, q.1 - 1));
        }
    }
}

/// A point of an octant looks the same from every octant that it lies in,
/// so that it lies between two circles as seen from one of them only if it
/// does as seen from the first.
proof fn lemma_only_view(ri: int, ro: int, c: (int, int), k: int, q: (int, int))
    requires
        is_octant(k),
        0 <= q.0 <= q.1,
        !in_band(ri, ro, q),
    ensures
        !ring_pixels(ri, ro, c).contains(to_real(q, k, c)),
{
    let p = to_real(q, k, c);
    assert forall|n: int| !#[trigger] in_ring(ri, ro, c, n, p) by {
        if is_octant(n) {
            let t = to_iter(p, n, c);
            if 0 <= t.0 <= t.1 {
                assert(t == q);
            }
        }
    }
}

} // verus!
