//! Arcs of circles, walked octant by octant.
//!
//! An arc runs counter-clockwise from its start direction to its end
//! direction. It is walked one octant at a time: in each octant the midpoint
//! walk of [`Pos`] visits a range of columns, cut short at the column of the
//! start edge in the octant where the arc starts and at the column of the end
//! edge in the octant where it ends. In octants with an even number the
//! columns run against the angle, so there the two edges change places.

use vstd::prelude::*;
use crate::angle::{
    lemma_octant_unique, octant_end, octant_end_angle, octant_start, octant_start_angle, Dir,
};
use crate::canvas::{lemma_fill_union, Canvas, Color, Raster};
use crate::edge::{
    end_edge, lemma_rim_axis, lemma_rim_diagonal, lemma_rim_sides, not_after, not_before,
    start_edge, Edge,
};
use crate::octants::{
    enters_later, lemma_enters_later, lemma_on_the_way, lemma_tail_of, next_octant, on_the_way,
    tail_of, visits_left,
};
use crate::pos::{place, run, Bounds, Pos};
use crate::pt::{Loc, Pt};
use crate::ring::{lemma_ring_inside, on_ring};
use crate::translate::{is_octant, iter_to_real, lemma_round_trip, to_iter, to_real};

verus! {

/// The columns that an arc from `start` to `end` on a circle of radius `r`
/// covers in octant `oct`. `first` says that the arc starts in this visit of
/// the octant, `last` that it ends in it.
pub open spec fn visit_bounds(oct: int, start: Edge, end: Edge, first: bool, last: bool, r: int) -> (
    int,
    int,
) {
    let from: int = if first {
        start.x as int
    } else {
        0
    };
    let to: int = if last {
        end.x as int
    } else {
        0
    };
    if oct % 2 == 1 {
        (from, if last { to } else { r })
    } else {
        (to, if first { from } else { r })
    }
}

/// The pixels of an arc in octant `k`, on a visit that the arc does not
/// start in; `last` says that it ends in it.
pub open spec fn arc_part(start: Edge, end: Edge, r: int, c: (int, int)) -> spec_fn(
    int,
    bool,
) -> Set<(int, int)> {
    |k: int, last: bool|
        {
            let b = visit_bounds(k, start, end, false, last, r);
            place(run(r, b.0, b.1), k, c)
        }
}

/// The pixels of an arc in the octants that it has yet to enter, when it is
/// in octant `oct`. `revisit` says that the arc comes back to this octant
/// after a full turn.
pub open spec fn tail(start: Edge, end: Edge, r: int, c: (int, int), oct: int, revisit: bool) -> Set<
    (int, int),
> {
    tail_of(arc_part(start, end, r, c), oct, end.oct as int, revisit)
}

/// Whether an arc from `start` to `end` leaves the octant that it starts in
/// and comes back to it: the two edges share an octant, and the end does not
/// lie ahead of the start.
pub open spec fn wraps(start: Edge, end: Edge) -> bool {
    start.oct == end.oct && start.dir.cross(end.dir) <= 0
}

/// The pixels of the arc from `start` to `end` on the circle of radius `r`
/// around `c`.
pub open spec fn sweep(start: Edge, end: Edge, r: int, c: (int, int)) -> Set<(int, int)> {
    let revisit = wraps(start, end);
    let b = visit_bounds(
        start.oct as int,
        start,
        end,
        true,
        start.oct == end.oct && !revisit,
        r,
    );
    place(run(r, b.0, b.1), start.oct as int, c).union(
        tail(start, end, r, c, start.oct as int, revisit),
    )
}

/// The pixels of the arc that runs counter-clockwise from the direction
/// `start` to the direction `end` on the circle of radius `r` around `c`.
pub open spec fn arc_pixels(start: Dir, end: Dir, r: int, c: (int, int)) -> Set<(int, int)> {
    sweep(start_edge(start, r), end_edge(end, r), r, c)
}

impl Bounds {
    /// The columns that an arc from `start` to `end` on a circle of radius
    /// `r` covers in octant `oct`.
    pub open spec fn of(oct: int, start: Edge, end: Edge, first: bool, last: bool, r: int) -> Bounds {
        let b = visit_bounds(oct, start, end, first, last, r);
        Bounds { lo: b.0 as i32, hi: b.1 as i32 }
    }

    /// The columns that an arc covers in the octant where it starts.
    pub fn start_bounds(start: &Edge, end: &Edge, revisit: bool, r: i32) -> (b: Bounds)
        requires
            start.wf(r as int),
            end.wf(r as int),
        ensures
            b == Bounds::of(
                start.oct as int,
                *start,
                *end,
                true,
                start.oct == end.oct && !revisit,
                r as int,
            ),
            (b.lo as int, b.hi as int) == visit_bounds(
                start.oct as int,
                *start,
                *end,
                true,
                start.oct == end.oct && !revisit,
                r as int,
            ),
            0 <= b.lo <= r,
            0 <= b.hi <= r,
    {
        let last = start.oct == end.oct && !revisit;
        if start.oct % 2 == 1 {
            Bounds { lo: start.x, hi: if last { end.x } else { r } }
        } else {
            Bounds { lo: if last { end.x } else { 0 }, hi: start.x }
        }
    }

    /// The columns that an arc covers in an octant that it enters from the
    /// octant before.
    pub fn bounds_from_edges(oct: u8, start: &Edge, end: &Edge, r: i32) -> (b: Bounds)
        requires
            is_octant(oct as int),
            start.wf(r as int),
            end.wf(r as int),
        ensures
            b == Bounds::of(oct as int, *start, *end, false, oct == end.oct, r as int),
            (b.lo as int, b.hi as int) == visit_bounds(
                oct as int,
                *start,
                *end,
                false,
                oct == end.oct,
                r as int,
            ),
            0 <= b.lo <= r,
            0 <= b.hi <= r,
    {
        let last = oct == end.oct;
        if oct % 2 == 1 {
            Bounds { lo: 0, hi: if last { end.x } else { r } }
        } else {
            Bounds { lo: if last { end.x } else { 0 }, hi: r }
        }
    }
}

/// An arc of a circle, part of the way through its walk.
#[derive(Clone, Copy, Debug)]
pub struct Arc {
    /// Where the walk is.
    pub pos: Pos,
    /// Where the arc starts.
    pub start: Edge,
    /// Where the arc ends.
    pub end: Edge,
    /// The circle that the arc is part of.
    pub loc: Loc,
    /// Whether the walk has yet to leave the octant of both edges and come
    /// back to it.
    pub revisit: bool,
}

impl View for Arc {
    type V = Set<(int, int)>;

    /// The pixels that the walk has yet to visit, in image coordinates.
    open spec fn view(&self) -> Set<(int, int)> {
        place(self.pos.cols(), self.pos.oct as int, self.loc.c.pair()).union(
            tail(
                self.start,
                self.end,
                self.loc.r as int,
                self.loc.c.pair(),
                self.pos.oct as int,
                self.revisit,
            ),
        )
    }
}

impl Arc {
    /// The walk is inside the circle's octants and between the arc's edges.
    pub open spec fn wf(self) -> bool {
        &&& 1 <= self.loc.r
        &&& self.pos.wf()
        &&& self.pos.r == self.loc.r
        &&& self.start.wf(self.loc.r as int)
        &&& self.end.wf(self.loc.r as int)
        &&& self.revisit ==> self.pos.oct == self.end.oct
    }

    /// Whether the walk is in the octant where the arc ends, for the last
    /// time.
    pub open spec fn in_last_octant(self) -> bool {
        self.pos.oct == self.end.oct && !self.revisit
    }

    /// The walk at the first column of the next octant.
    pub open spec fn restarted(self) -> Arc {
        let oct = next_octant(self.pos.oct as int);
        let bounds = Bounds::of(oct, self.start, self.end, false, oct == self.end.oct, self.loc.r as int);
        Arc { pos: Pos::at(oct as u8, bounds, self.loc.r), revisit: false, ..self }
    }

    /// The walk moved on to the first octant in which it has a pixel left,
    /// or to the end of its last octant when it has none left at all.
    pub open spec fn settled(self) -> Arc
        decreases self.octants_left(),
    {
        if !self.wf() || !self.pos.stopped() || self.in_last_octant() {
            self
        } else {
            self.restarted().settled()
        }
    }

    /// The pixel that the walk is at, in image coordinates.
    pub open spec fn at(self) -> (int, int) {
        to_real((self.pos.x as int, self.pos.y as int), self.pos.oct as int, self.loc.c.pair())
    }

    /// How many octants the walk has yet to enter.
    pub open spec fn octants_left(self) -> nat {
        visits_left(self.pos.oct as int, self.end.oct as int, self.revisit)
    }

    /// Whether `other` is this arc further along its walk.
    pub open spec fn precedes(self, other: Arc) -> bool {
        &&& other.start == self.start
        &&& other.end == self.end
        &&& other.loc == self.loc
        &&& other.octants_left() < self.octants_left() || (other.octants_left()
            == self.octants_left() && other.pos.cols_left() < self.pos.cols_left())
    }

    /// The arc of the circle of radius `radius` around `center` that runs
    /// counter-clockwise from the direction `start_angle` to the direction
    /// `end_angle`. Where the end does not lie ahead of the start, the arc
    /// goes all the way round to reach it.
    pub fn new(start_angle: Dir, end_angle: Dir, radius: i32, center: Pt<i32>) -> (arc: Arc)
        requires
            radius > 0,
            start_angle.wf(),
            end_angle.wf(),
        ensures
            arc.wf(),
            arc.loc == (Loc { r: radius, c: center }),
            arc.start == start_edge(start_angle, radius as int),
            arc.end == end_edge(end_angle, radius as int),
            arc.start.is_start(start_angle, radius as int),
            arc.end.is_end(end_angle, radius as int),
            arc.revisit == wraps(arc.start, arc.end),
            arc.pos == Pos::at(
                arc.start.oct,
                Bounds::of(
                    arc.start.oct as int,
                    arc.start,
                    arc.end,
                    true,
                    arc.start.oct == arc.end.oct && !arc.revisit,
                    radius as int,
                ),
                radius,
            ),
            arc@ == arc_pixels(start_angle, end_angle, radius as int, center.pair()),
    {
        let mut arc = Arc::blank(start_angle, end_angle, radius, center);
        let bounds = Bounds::start_bounds(&arc.start, &arc.end, arc.revisit, radius);
        arc.pos = Pos::new(arc.start.oct, bounds, arc.loc.r);
        arc
    }

    /// The arc that [`Arc::new`] makes, or `None` where there is none to
    /// make: when the radius is not positive, or one of the directions is
    /// the zero vector.
    pub fn try_new(start_angle: Dir, end_angle: Dir, radius: i32, center: Pt<i32>) -> (r: Option<
        Arc,
    >)
        ensures
            r is Some <==> radius > 0 && start_angle.wf() && end_angle.wf(),
            r matches Some(arc) ==> {
                &&& arc.wf()
                &&& arc.loc == (Loc { r: radius, c: center })
                &&& arc.start == start_edge(start_angle, radius as int)
                &&& arc.end == end_edge(end_angle, radius as int)
                &&& arc.revisit == wraps(arc.start, arc.end)
                &&& arc@ == arc_pixels(start_angle, end_angle, radius as int, center.pair())
            },
    {
        if radius > 0 && (start_angle.dx != 0 || start_angle.dy != 0) && (end_angle.dx != 0
            || end_angle.dy != 0) {
            Some(Arc::new(start_angle, end_angle, radius, center))
        } else {
            None
        }
    }

    /// The arc with its edges in place and its walk not yet set up.
    fn blank(start_angle: Dir, end_angle: Dir, r: i32, c: Pt<i32>) -> (arc: Arc)
        requires
            r > 0,
            start_angle.wf(),
            end_angle.wf(),
        ensures
            arc.loc == (Loc { r, c }),
            arc.start == start_edge(start_angle, r as int),
            arc.end == end_edge(end_angle, r as int),
            arc.start.is_start(start_angle, r as int),
            arc.end.is_end(end_angle, r as int),
            arc.start.wf(r as int),
            arc.end.wf(r as int),
            arc.revisit == wraps(arc.start, arc.end),
    {
        let start = Edge::start(start_angle, r);
        let end = Edge::end(end_angle, r);
        let revisit = start.oct == end.oct && !start_angle.turns_left_to(&end_angle);
        Arc { pos: Pos::start(start.oct, r), start, end, loc: Loc::new(r, c), revisit }
    }

    /// The arc that covers octant `oct` of the circle of radius `r` around
    /// `c`, and nothing else: the arc from the direction at which the octant
    /// begins to the direction at which it ends.
    pub fn octant(oct: u8, r: i32, c: Pt<i32>) -> (arc: Arc)
        requires
            is_octant(oct as int),
            r > 0,
        ensures
            arc.wf(),
            arc.loc == (Loc { r, c }),
            arc.start == start_edge(octant_start(oct as int), r as int),
            arc.end == end_edge(octant_end(oct as int), r as int),
            arc.start.oct == oct,
            arc.end.oct == oct,
            arc.pos.oct == oct,
            !arc.revisit,
            arc@ == arc_pixels(octant_start(oct as int), octant_end(oct as int), r as int, c.pair()),
            arc@ == place(run(r as int, 0, r as int), oct as int, c.pair()),
    {
        let from = octant_start_angle(oct);
        let to = octant_end_angle(oct);
        let arc = Arc::new(from, to, r, c);
        proof {
            lemma_octant_unique(from, oct as int, arc.start.oct as int);
            lemma_octant_unique(to, oct as int, arc.end.oct as int);
            let whole = place(run(r as int, 0, r as int), oct as int, c.pair());
            assert forall|p: (int, int)| arc@.contains(p) <==> whole.contains(p) by {
                let q = to_iter(p, oct as int, c.pair());
                if q.0 <= q.1 && on_ring(r as int, q.0, q.1) && 0 <= q.0 {
                    lemma_ring_inside(r as int, q.0, q.1);
                    if oct % 2 == 1 {
                        lemma_rim_axis(1, r as int, arc.start.x as int);
                        lemma_rim_diagonal(1, r as int, arc.end.x as int, q);
                    } else {
                        lemma_rim_axis(1, r as int, arc.end.x as int);
                        lemma_rim_diagonal(1, r as int, arc.start.x as int, q);
                    }
                }
            }
            assert(arc@ =~= whole);
        }
        arc
    }

    /// Moves the walk into the next octant.
    pub fn restart(&mut self)
        requires
            old(self).wf(),
            old(self).pos.stopped(),
            !old(self).in_last_octant(),
        ensures
            final(self).wf(),
            *final(self) == old(self).restarted(),
            final(self)@ == old(self)@,
            final(self).octants_left() < old(self).octants_left(),
    {
        let oct = self.pos.oct % 8 + 1;
        let bounds = Bounds::bounds_from_edges(oct, &self.start, &self.end, self.loc.r);
        proof {
            old(self).pos.lemma_stopped();
        }
        self.pos = Pos::new(oct, bounds, self.loc.r);
        self.revisit = false;
        proof {
            assert(self@ =~= old(self)@);
        }
    }

    /// Whether the walk is in the octant where the arc ends, for the last
    /// time.
    pub fn end(&self) -> (b: bool)
        ensures
            b == self.in_last_octant(),
    {
        self.pos.oct == self.end.oct && !self.revisit
    }

    /// Whether the walk has no pixel left in the octant that it is in.
    pub fn stop(&self) -> (b: bool)
        requires
            self.wf(),
        ensures
            b == self.pos.stopped(),
            b ==> self.pos.cols() == Set::<(int, int)>::empty(),
    {
        self.pos.stop()
    }

    /// The pixel that the walk is at, in image coordinates.
    pub fn pt(&self) -> (p: Pt<i64>)
        requires
            self.wf(),
        ensures
            p.pair() == self.at(),
    {
        iter_to_real(self.pos.x, self.pos.y, self.pos.oct, self.loc.c)
    }

    /// The image coordinates that the pixel the walk is at would have in
    /// octant `oct`.
    pub fn coords_oct(&self, oct: u8) -> (p: Pt<i64>)
        requires
            is_octant(oct as int),
        ensures
            p.pair() == to_real(
                (self.pos.x as int, self.pos.y as int),
                oct as int,
                self.loc.c.pair(),
            ),
    {
        iter_to_real(self.pos.x, self.pos.y, oct, self.loc.c)
    }

    /// Leaves the pixel that the walk is at for the next of the octant.
    pub fn inc(&mut self)
        requires
            old(self).wf(),
            !old(self).pos.stopped(),
        ensures
            final(self).wf(),
            *final(self) == (Arc { pos: old(self).pos.next(), ..*old(self) }),
            old(self).precedes(*final(self)),
            old(self)@ == final(self)@.insert(old(self).at()),
    {
        let ghost before = *self;
        self.pos.inc();
        proof {
            let q = (before.pos.x as int, before.pos.y as int);
            let oct = before.pos.oct as int;
            let c = self.loc.c.pair();
            let p = to_real(q, oct, c);
            assert forall|a: (int, int)|
                place(before.pos.cols(), oct, c).contains(a) <==> place(
                    self.pos.cols(),
                    oct,
                    c,
                ).insert(p).contains(a) by {
                lemma_round_trip(a, oct, c);
                lemma_round_trip(q, oct, c);
            }
            assert(before@ =~= self@.insert(p));
        }
    }

    /// The next pixel of the arc in image coordinates, or `None` when the
    /// arc has been walked to its end.
    pub fn step(&mut self) -> (p: Option<Pt<i64>>)
        requires
            old(self).wf(),
        ensures
            final(self).wf(),
            final(self).start == old(self).start,
            final(self).end == old(self).end,
            final(self).loc == old(self).loc,
            match p {
                Some(p) => {
                    &&& !old(self).settled().pos.stopped()
                    &&& p.pair() == old(self).settled().at()
                    &&& *final(self) == (Arc {
                        pos: old(self).settled().pos.next(),
                        ..old(self).settled()
                    })
                    &&& old(self)@ == final(self)@.insert(p.pair())
                    &&& old(self).precedes(*final(self))
                },
                None => {
                    &&& old(self).settled().pos.stopped()
                    &&& *final(self) == old(self).settled()
                    &&& old(self)@ == Set::<(int, int)>::empty()
                    &&& final(self)@ == old(self)@
                },
            },
    {
        loop
            invariant
                self.wf(),
                self@ == old(self)@,
                self.start == old(self).start,
                self.end == old(self).end,
                self.loc == old(self).loc,
                self.settled() == old(self).settled(),
                self.octants_left() < old(self).octants_left() || *self == *old(self),
            decreases self.octants_left(),
        {
            if self.stop() {
                if self.end() {
                    proof {
                        assert(self@ =~= Set::<(int, int)>::empty());
                    }
                    return None;
                }
                self.restart();
                continue;
            }
            let p = self.pt();
            self.inc();
            return Some(p);
        }
    }

    /// Draws the arc: every pixel of it that lies inside the canvas takes
    /// the color `color`, and no other pixel changes.
    pub fn draw(self, canvas: &mut Canvas, color: Color)
        requires
            self.wf(),
        ensures
            final(canvas)@ == old(canvas)@.fill(self@, color),
    {
        let mut walk = self;
        let ghost whole = self@;
        let ghost mut done = Set::<(int, int)>::empty();
        proof {
            assert(canvas@.px =~= old(canvas)@.fill(done, color).px);
        }
        loop
            invariant
                walk.wf(),
                done.union(walk@) == whole,
                canvas@ == old(canvas)@.fill(done, color),
            ensures
                canvas@ == old(canvas)@.fill(whole, color),
            decreases walk.octants_left(), walk.pos.cols_left(),
        {
            match walk.step() {
                Some(p) => {
                    canvas.put(p.x, p.y, color);
                    proof {
                        done = done.insert(p.pair());
                        assert(done.union(walk@) =~= whole);
                        assert(canvas@.px =~= old(canvas)@.fill(done, color).px);
                    }
                },
                None => {
                    proof {
                        assert(done =~= whole);
                    }
                    break;
                },
            }
        }
    }

    /// The center of the circle.
    pub fn center(&self) -> (c: Pt<i32>)
        ensures
            c == self.loc.c,
    {
        self.loc.c
    }

    /// The radius of the circle.
    pub fn radius(&self) -> (r: i32)
        ensures
            r == self.loc.r,
    {
        self.loc.r
    }
}

/// Draws the arc of the circle of radius `radius` around `center` that runs
/// counter-clockwise from `start_angle` to `end_angle`.
pub fn arc(
    canvas: &mut Canvas,
    start_angle: Dir,
    end_angle: Dir,
    radius: i32,
    center: Pt<i32>,
    color: Color,
)
    requires
        radius > 0,
        start_angle.wf(),
        end_angle.wf(),
    ensures
        final(canvas)@ == old(canvas)@.fill(
            arc_pixels(start_angle, end_angle, radius as int, center.pair()),
            color,
        ),
{
    let a = Arc::new(start_angle, end_angle, radius, center);
    a.draw(canvas, color);
}

/// Draws the arc as [`arc`] does and says so, or draws nothing and says so:
/// nothing is drawn when the radius is not positive, or when one of the
/// directions is the zero vector.
pub fn try_arc(
    canvas: &mut Canvas,
    start_angle: Dir,
    end_angle: Dir,
    radius: i32,
    center: Pt<i32>,
    color: Color,
) -> (drawn: bool)
    ensures
        drawn == (radius > 0 && start_angle.wf() && end_angle.wf()),
        drawn ==> final(canvas)@ == old(canvas)@.fill(
            arc_pixels(start_angle, end_angle, radius as int, center.pair()),
            color,
        ),
        !drawn ==> final(canvas)@ == old(canvas)@,
{
    match Arc::try_new(start_angle, end_angle, radius, center) {
        Some(a) => {
            a.draw(canvas, color);
            true
        },
        None => false,
    }
}

/// What drawing an arc leaves behind is determined by the canvas and the
/// arc: on equal canvases equal arcs leave equal canvases, and drawing the
/// arc a second time changes nothing.
pub proof fn lemma_arc_determined(
    v: Raster,
    w: Raster,
    start: Dir,
    end: Dir,
    r: int,
    c: (int, int),
    color: Color,
)
    requires
        v == w,
    ensures
        v.fill(arc_pixels(start, end, r, c), color) == w.fill(arc_pixels(start, end, r, c), color),
        v.fill(arc_pixels(start, end, r, c), color).fill(arc_pixels(start, end, r, c), color)
            == v.fill(arc_pixels(start, end, r, c), color),
{
    lemma_fill_union(v, arc_pixels(start, end, r, c), arc_pixels(start, end, r, c), color);
}

/// The pixels of an arc in octant `k`, on a visit that the arc does not
/// start in.
pub open spec fn visit(start: Edge, end: Edge, r: int, c: (int, int), k: int) -> Set<(int, int)> {
    let b = visit_bounds(k, start, end, false, k == end.oct, r);
    place(run(r, b.0, b.1), k, c)
}

/// The octants that an arc has yet to enter are those between the one it is
/// in and the one it ends in, and it covers each of them whole but for the
/// last, which it covers up to its end edge.
pub proof fn lemma_tail(start: Edge, end: Edge, r: int, c: (int, int), oct: int, p: (int, int))
    requires
        is_octant(oct),
        is_octant(end.oct as int),
    ensures
        tail(start, end, r, c, oct, false).contains(p) <==> exists|k: int|
            #[trigger] enters_later(k, oct, end.oct as int) && visit(start, end, r, c, k).contains(
                p,
            ),
{
    let part = arc_part(start, end, r, c);
    lemma_tail_of(part, oct, end.oct as int, p);
    assert forall|k: int| part(k, k == end.oct) == visit(start, end, r, c, k) by {}
}

/// Whether the octant-local point `q` of octant `k` is a pixel of the arc
/// from `start` to `end` on a circle of radius `r`: it is the pixel of its
/// column, the octant lies on the way from the start to the end, and the
/// column lies on the arc's side of each edge that falls in the octant. In
/// the octant of both edges of an arc that goes all the way round, one edge
/// is enough.
pub open spec fn arc_covers(start: Edge, end: Edge, r: int, k: int, q: (int, int)) -> bool {
    let after_start = if k % 2 == 1 {
        start.x <= q.0
    } else {
        q.0 <= start.x
    };
    let before_end = if k % 2 == 1 {
        q.0 <= end.x
    } else {
        end.x <= q.0
    };
    &&& is_octant(k)
    &&& 0 <= q.0 <= q.1
    &&& on_ring(r, q.0, q.1)
    &&& if wraps(start, end) {
        k == start.oct ==> after_start || before_end
    } else {
        &&& on_the_way(k, start.oct as int, end.oct as int)
        &&& k == start.oct ==> after_start
        &&& k == end.oct ==> before_end
    }
}

/// An arc is made of the pixels of its circle that lie between its edges: a
/// pixel belongs to it exactly when, seen from one of the octants, it is the
/// pixel of a column on the arc's side of the start edge and of the end
/// edge. The column of an edge is the nearest to where the edge's direction
/// crosses the circle, so no pixel of the arc lies more than half a column
/// outside the angles that the arc was asked for.
pub proof fn lemma_arc_within_angles(start: Edge, end: Edge, r: int, c: (int, int), p: (int, int))
    requires
        start.wf(r),
        end.wf(r),
    ensures
        sweep(start, end, r, c).contains(p) <==> exists|k: int|
            #[trigger] arc_covers(start, end, r, k, to_iter(p, k, c)),
{
    let s = start.oct as int;
    let e = end.oct as int;
    let revisit = wraps(start, end);
    let b = visit_bounds(s, start, end, true, s == e && !revisit, r);
    let first = place(run(r, b.0, b.1), s, c);
    let next = next_octant(s);
    lemma_on_the_way(s, s, e);
    if revisit {
        assert(tail(start, end, r, c, s, true) == visit(start, end, r, c, next).union(
            tail(start, end, r, c, next, false),
        ));
    }
    lemma_tail(start, end, r, c, s, p);
    lemma_tail(start, end, r, c, next, p);
    if sweep(start, end, r, c).contains(p) {
        if first.contains(p) {
            assert(arc_covers(start, end, r, s, to_iter(p, s, c)));
        } else if !revisit {
            let k = choose|k: int|
                #[trigger] enters_later(k, s, e) && visit(start, end, r, c, k).contains(p);
            lemma_on_the_way(k, s, e);
            lemma_enters_later(k, s, e);
            assert(arc_covers(start, end, r, k, to_iter(p, k, c)));
        } else if visit(start, end, r, c, next).contains(p) {
            assert(arc_covers(start, end, r, next, to_iter(p, next, c)));
        } else {
            let k = choose|k: int|
                #[trigger] enters_later(k, next, e) && visit(start, end, r, c, k).contains(p);
            reveal(enters_later);
            assert(arc_covers(start, end, r, k, to_iter(p, k, c)));
        }
    }
    if exists|k: int| #[trigger] arc_covers(start, end, r, k, to_iter(p, k, c)) {
        let k = choose|k: int| #[trigger] arc_covers(start, end, r, k, to_iter(p, k, c));
        let q = to_iter(p, k, c);
        lemma_ring_inside(r, q.0, q.1);
        lemma_on_the_way(k, s, e);
        lemma_enters_later(k, s, e);
        if revisit {
            if k == s {
                if !first.contains(p) {
                    assert(enters_later(k, next, e));
                    assert(visit(start, end, r, c, k).contains(p));
                }
            } else if k != next {
                assert(enters_later(k, next, e));
                assert(visit(start, end, r, c, k).contains(p));
            } else {
                assert(visit(start, end, r, c, k).contains(p));
            }
        } else {
            if k == s {
                assert(first.contains(p));
            } else {
                assert(enters_later(k, s, e));
                assert(visit(start, end, r, c, k).contains(p));
            }
        }
    }
}

/// Whether the octant-local column `x` of octant `k` lies, to within half a
/// column, on the side of the direction of `start` to which an arc that
/// starts there extends.
pub open spec fn near_start(start: Edge, r: int, k: int, x: int) -> bool {
    let d = start.dir.local(k);
    if k % 2 == 1 {
        not_before(d.0, d.1, r, x)
    } else {
        not_after(d.0, d.1, r, x)
    }
}

/// Whether the octant-local column `x` of octant `k` lies, to within half a
/// column, on the side of the direction of `end` from which an arc that ends
/// there comes.
pub open spec fn near_end(end: Edge, r: int, k: int, x: int) -> bool {
    let d = end.dir.local(k);
    if k % 2 == 1 {
        not_after(d.0, d.1, r, x)
    } else {
        not_before(d.0, d.1, r, x)
    }
}

/// No pixel of an arc lies more than half a column outside the angles that
/// the arc was asked for: in the octant in which the arc starts its pixels
/// lie on the arc's side of the start direction, give or take half a column,
/// and in the octant in which it ends on the arc's side of the end
/// direction. An arc that goes all the way round is held by one of the two
/// in the octant of both.
pub proof fn lemma_arc_near_angles(
    start: Edge,
    end: Edge,
    from: Dir,
    to: Dir,
    r: int,
    k: int,
    q: (int, int),
)
    requires
        start.is_start(from, r),
        end.is_end(to, r),
        arc_covers(start, end, r, k, q),
    ensures
        k == start.oct && k == end.oct && wraps(start, end) ==> near_start(start, r, k, q.0)
            || near_end(end, r, k, q.0),
        k == start.oct && !wraps(start, end) ==> near_start(start, r, k, q.0),
        k == end.oct && !wraps(start, end) ==> near_end(end, r, k, q.0),
{
    if k == start.oct {
        let d = from.local(k);
        lemma_rim_sides(d.0, d.1, r, start.x as int, q.0);
    }
    if k == end.oct {
        let d = to.local(k);
        lemma_rim_sides(d.0, d.1, r, end.x as int, q.0);
    }
}

} // verus!
