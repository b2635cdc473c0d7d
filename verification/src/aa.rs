//! Antialiased circles.
//!
//! The walk goes round the circle a quadrant at a time. In the half of a
//! quadrant where the circle is flat it goes column by column, in the half
//! where the circle is steep row by row, so that the boundary moves by less
//! than a pixel from one step to the next. At each step the boundary passes
//! between two neighbouring pixels; the color is laid over both, with
//! opacities that share one whole between them according to where between
//! the two the boundary passes. All of it is computed exactly, with integer
//! square roots: the place of the boundary is known to the nearest 255th of
//! a pixel.

use vstd::prelude::*;
use crate::angle::Dir;
use crate::canvas::{Canvas, Color, Raster};
use crate::pt::Pt;

verus! {

/// Whether `s` is the square root of `n`, rounded down.
pub open spec fn is_floor_sqrt(n: int, s: int) -> bool {
    0 <= s && s * s <= n < (s + 1) * (s + 1)
}

/// Whether `t` is the integer nearest to the square root of `n`.
pub open spec fn is_round_sqrt(n: int, t: int) -> bool {
    &&& 0 <= t
    &&& t == 0 || (2 * t - 1) * (2 * t - 1) <= 4 * n
    &&& 4 * n < (2 * t + 1) * (2 * t + 1)
}

/// Whether `o` is the share, out of 255, that the upper of two pixels gets
/// of a boundary at the height of the square root of `n`, when the lower
/// pixel is at height `s`: the distance of the boundary from `s`, in 255ths
/// and rounded to the nearest.
pub open spec fn is_shade(n: int, s: int, o: int) -> bool {
    0 <= o <= 255 && is_round_sqrt(65025 * n, 255 * s + o)
}

/// A number has one square root rounded down.
pub proof fn lemma_floor_sqrt_unique(n: int, a: int, b: int)
    requires
        is_floor_sqrt(n, a),
        is_floor_sqrt(n, b),
    ensures
        a == b,
{
    if a < b {
        assert((a + 1) * (a + 1) <= b * b) by (nonlinear_arith)
            requires
                0 <= a,
                a + 1 <= b,
        ;
    }
    if b < a {
        assert((b + 1) * (b + 1) <= a * a) by (nonlinear_arith)
            requires
                0 <= b,
                b + 1 <= a,
        ;
    }
}

/// A number has one nearest integer to its square root.
pub proof fn lemma_round_sqrt_unique(n: int, a: int, b: int)
    requires
        is_round_sqrt(n, a),
        is_round_sqrt(n, b),
    ensures
        a == b,
{
    if a < b {
        assert((2 * a + 1) * (2 * a + 1) <= (2 * b - 1) * (2 * b - 1)) by (nonlinear_arith)
            requires
                0 <= a,
                a + 1 <= b,
        ;
    }
    if b < a {
        assert((2 * b + 1) * (2 * b + 1) <= (2 * a - 1) * (2 * a - 1)) by (nonlinear_arith)
            requires
                0 <= b,
                b + 1 <= a,
        ;
    }
}

/// The square root of `n`, rounded down.
pub open spec fn floor_sqrt(n: int) -> int {
    choose|s: int| is_floor_sqrt(n, s)
}

/// The share of the upper pixel for a boundary at the height of the square
/// root of `n`.
pub open spec fn shade(n: int) -> int {
    choose|o: int| is_shade(n, floor_sqrt(n), o)
}

/// The square root of `n`, rounded down.
pub fn isqrt(n: u64) -> (s: u32)
    requires
        n < 0x4000_0000_0000_0000,
    ensures
        is_floor_sqrt(n as int, s as int),
        s == floor_sqrt(n as int),
        s < 0x8000_0000,
{
    let mut lo: u64 = 0;
    let mut hi: u64 = 0x8000_0000;
    assert(0 * 0 <= n);
    while hi - lo > 1
        invariant
            0 <= lo < hi <= 0x8000_0000,
            lo * lo <= n,
            hi * hi > n,
        decreases hi - lo,
    {
        let mid: u64 = lo + (hi - lo) / 2;
        assert(mid * mid <= 0x8000_0000 * 0x8000_0000) by (nonlinear_arith)
            requires
                0 <= mid <= 0x8000_0000,
        ;
        if mid * mid <= n {
            lo = mid;
        } else {
            hi = mid;
        }
    }
    proof {
        assert(hi == lo + 1);
        assert(is_floor_sqrt(n as int, lo as int));
        lemma_floor_sqrt_unique(n as int, lo as int, floor_sqrt(n as int));
    }
    lo as u32
}

/// The integer nearest to the square root of `n`.
fn round_sqrt(n: u128) -> (t: u64)
    requires
        n < 0x4000_0000_0000_0000_0000,
    ensures
        is_round_sqrt(n as int, t as int),
        t < 0x1_00_0000_0000,
{
    // The root is the largest `t` that is zero or has `(2t - 1)^2 <= 4n`;
    // it lies in `lo..hi`.
    let mut lo: u128 = 0;
    let mut hi: u128 = 0x1_00_0000_0000;
    assert((2 * hi - 1) * (2 * hi - 1) > 4 * n) by (nonlinear_arith)
        requires
            hi == 0x1_00_0000_0000,
            n < 0x4000_0000_0000_0000_0000,
    ;
    while hi - lo > 1
        invariant
            0 <= lo < hi <= 0x1_00_0000_0000,
            n < 0x4000_0000_0000_0000_0000,
            lo == 0 || (2 * lo - 1) * (2 * lo - 1) <= 4 * n,
            (2 * hi - 1) * (2 * hi - 1) > 4 * n,
        decreases hi - lo,
    {
        let mid: u128 = lo + (hi - lo) / 2;
        let w: u128 = 2 * mid - 1;
        assert(w * w <= 0x2_00_0000_0000 * 0x2_00_0000_0000) by (nonlinear_arith)
            requires
                0 <= w <= 0x2_00_0000_0000,
        ;
        if w * w <= 4 * n {
            lo = mid;
        } else {
            hi = mid;
        }
    }
    assert(2 * hi - 1 == 2 * lo + 1);
    lo as u64
}

/// The nearest 255th to the square root of a number lies between the 255
/// multiples of the root's integer part and of the next integer.
proof fn lemma_shade_range(n: int, s: int, t: int)
    requires
        is_floor_sqrt(n, s),
        is_round_sqrt(65025 * n, t),
    ensures
        255 * s <= t <= 255 * s + 255,
{
    let m = 65025 * n;
    if t < 255 * s {
        assert((2 * t + 1) * (2 * t + 1) <= (510 * s - 1) * (510 * s - 1)) by (nonlinear_arith)
            requires
                0 <= t,
                t + 1 <= 255 * s,
        ;
        assert((510 * s - 1) * (510 * s - 1) < 4 * (65025 * (s * s))) by (nonlinear_arith)
            requires
                1 <= s,
        ;
        assert(4 * (65025 * (s * s)) <= 4 * (65025 * n)) by (nonlinear_arith)
            requires
                s * s <= n,
        ;
    }
    if t > 255 * s + 255 {
        let u = s + 1;
        assert((2 * t - 1) * (2 * t - 1) >= (510 * u + 1) * (510 * u + 1)) by (nonlinear_arith)
            requires
                0 <= u,
                t >= 255 * u + 1,
        ;
        assert((510 * u + 1) * (510 * u + 1) > 4 * (65025 * (u * u))) by (nonlinear_arith)
            requires
                0 <= u,
        ;
        assert(4 * (65025 * (u * u)) > 4 * (65025 * n)) by (nonlinear_arith)
            requires
                n < u * u,
        ;
    }
}

/// The share, out of 255, of the upper of the two pixels between which a
/// boundary at the height of the square root of `n` passes; `s` is that root
/// rounded down.
pub fn shade_of(n: u64, s: u32) -> (o: u8)
    requires
        n < 0x4000_0000_0000_0000,
        is_floor_sqrt(n as int, s as int),
    ensures
        is_shade(n as int, s as int, o as int),
        o == shade(n as int),
{
    let t = round_sqrt(65025 * (n as u128));
    proof {
        lemma_shade_range(n as int, s as int, t as int);
        assert(s < 0x8000_0000) by (nonlinear_arith)
            requires
                0 <= s,
                s * s <= n,
                n < 0x4000_0000_0000_0000,
        ;
    }
    let o = (t - 255 * (s as u64)) as u8;
    proof {
        lemma_floor_sqrt_unique(n as int, s as int, floor_sqrt(n as int));
        let o2 = shade(n as int);
        assert(is_shade(n as int, s as int, o as int));
        lemma_round_sqrt_unique(65025 * n, 255 * s + o, 255 * s + o2);
    }
    o
}

/// One step of an antialiased walk: the two neighbouring pixels between
/// which the boundary passes, and the opacity, out of 255, that falls to the
/// second of them.
#[derive(Clone, Copy, Debug, PartialEq, Eq, Structural)]
pub struct Coverage {
    pub a: Pt<i64>,
    pub b: Pt<i64>,
    pub o: u8,
}

/// The raster after one step has been plotted: the color laid over the first
/// pixel with what opacity the second leaves, then over the second.
pub open spec fn plotted(v: Raster, s: Coverage, c: Color) -> Raster {
    v.blend(s.a.pair(), Color { r: c.r, g: c.g, b: c.b, a: (255 - s.o) as u8 }).blend(
        s.b.pair(),
        Color { r: c.r, g: c.g, b: c.b, a: s.o },
    )
}

/// The raster after the steps have been plotted one after the other.
pub open spec fn plotted_all(v: Raster, steps: Seq<Coverage>, c: Color) -> Raster
    decreases steps.len(),
{
    if steps.len() == 0 {
        v
    } else {
        plotted(plotted_all(v, steps.drop_last(), c), steps.last(), c)
    }
}

/// The opacities of the two pixels of a step, the first pixel's first. They
/// always make up one whole.
pub fn opacities(o: u8) -> (r: (u8, u8))
    ensures
        r.0 == 255 - o,
        r.1 == o,
        r.0 + r.1 == 255,
{
    (255 - o, o)
}

/// Plots one step: lays the color `c` over the pixel `a` with opacity
/// `255 - o` and over the pixel `b` with opacity `o`. A pixel outside the
/// canvas is left out.
pub fn plot_aa(canvas: &mut Canvas, a: Pt<i64>, b: Pt<i64>, o: u8, c: Color)
    ensures
        final(canvas)@ == plotted(old(canvas)@, Coverage { a, b, o }, c),
{
    let (first, second) = opacities(o);
    canvas.blend_at(a.x, a.y, c.with_alpha(first));
    canvas.blend_at(b.x, b.y, c.with_alpha(second));
}

/// Whether `quad` numbers a quadrant. Quadrants are numbered `1..=4`
/// counter-clockwise as seen on screen, quadrant 1 starting at the positive
/// x axis.
pub open spec fn is_quadrant(quad: int) -> bool {
    1 <= quad <= 4
}

/// The image coordinate of the quadrant-local point `q` in quadrant `quad`
/// of a circle around `c`. In a quadrant `q.0` counts away from the axis at
/// which the quadrant begins and `q.1` away from the axis at which it ends.
pub open spec fn quad_real(q: (int, int), quad: int, c: (int, int)) -> (int, int) {
    if quad == 1 {
        (c.0 + q.1, c.1 - q.0)
    } else if quad == 2 {
        (c.0 - q.0, c.1 - q.1)
    } else if quad == 3 {
        (c.0 - q.1, c.1 + q.0)
    } else {
        (c.0 + q.0, c.1 + q.1)
    }
}

/// The image coordinate of the quadrant-local point `(x, y)`.
pub fn quad_to_real(x: i64, y: i64, quad: u8, c: Pt<i32>) -> (p: Pt<i64>)
    requires
        is_quadrant(quad as int),
        -0x1_0000_0000 <= x <= 0x1_0000_0000,
        -0x1_0000_0000 <= y <= 0x1_0000_0000,
    ensures
        p.pair() == quad_real((x as int, y as int), quad as int, c.pair()),
{
    let cx: i64 = c.x as i64;
    let cy: i64 = c.y as i64;
    match quad {
        1 => Pt { x: cx + y, y: cy - x },
        2 => Pt { x: cx - x, y: cy - y },
        3 => Pt { x: cx - y, y: cy + x },
        _ => Pt { x: cx + x, y: cy + y },
    }
}

/// The last column, and the first row, of a quadrant of the circle of
/// radius `r` that the walk visits: the largest `f` with `2 * f * f <= r *
/// r`, where the circle crosses the diagonal of the quadrant.
pub open spec fn turn(r: int) -> int {
    floor_sqrt((r * r) / 2)
}

/// The step of the walk at the quadrant-local coordinate `fast`: along the
/// column `fast` while the walk goes by columns, along the row `fast` once
/// it goes by rows.
pub open spec fn step_at(r: int, c: (int, int), quad: int, rows: bool, fast: int) -> Coverage {
    let n = r * r - fast * fast;
    let s = floor_sqrt(n);
    let a = if rows {
        (s, fast)
    } else {
        (fast, s)
    };
    let b = if rows {
        (s + 1, fast)
    } else {
        (fast, s + 1)
    };
    let pa = quad_real(a, quad, c);
    let pb = quad_real(b, quad, c);
    Coverage {
        a: Pt { x: pa.0 as i64, y: pa.1 as i64 },
        b: Pt { x: pb.0 as i64, y: pb.1 as i64 },
        o: shade(n) as u8,
    }
}

/// The steps by columns, from column `from` to column `to`.
pub open spec fn by_columns(r: int, c: (int, int), quad: int, from: int, to: int) -> Seq<Coverage> {
    Seq::new(
        if from <= to {
            (to - from + 1) as nat
        } else {
            0
        },
        |i: int| step_at(r, c, quad, false, from + i),
    )
}

/// The steps by rows, from row `from` down to row 1.
pub open spec fn by_rows(r: int, c: (int, int), quad: int, from: int) -> Seq<Coverage> {
    Seq::new(
        if 0 <= from {
            from as nat
        } else {
            0
        },
        |i: int| step_at(r, c, quad, true, from - i),
    )
}

/// The steps of the quadrants after `quad`, up to quadrant `end`.
pub open spec fn later_quads(r: int, c: (int, int), quad: int, end: int) -> Seq<Coverage>
    decreases end - quad,
{
    if quad >= end {
        Seq::empty()
    } else {
        by_columns(r, c, quad + 1, 0, turn(r)) + by_rows(r, c, quad + 1, turn(r)) + later_quads(
            r,
            c,
            quad + 1,
            end,
        )
    }
}

/// The steps of the antialiased circle of radius `r` around `c`.
pub open spec fn aa_steps(r: int, c: (int, int)) -> Seq<Coverage> {
    by_columns(r, c, 1, 0, turn(r)) + by_rows(r, c, 1, turn(r)) + later_quads(r, c, 1, 4)
}

/// An antialiased circle, part of the way through its walk.
#[derive(Clone, Copy, Debug)]
pub struct AAArc {
    /// The column that the walk is at, or the row once it goes by rows.
    pub fast: i32,
    /// Whether the walk goes by rows.
    pub rows: bool,
    /// The column at which the walk turns from columns to rows.
    pub turn: i32,
    /// The radius.
    pub r: i32,
    /// The quadrant that the walk is in.
    pub quad: u8,
    /// The quadrant in which the walk ends.
    pub end: u8,
    /// The center.
    pub c: Pt<i32>,
}

impl View for AAArc {
    type V = Seq<Coverage>;

    /// The steps that the walk has yet to take.
    open spec fn view(&self) -> Seq<Coverage> {
        let r = self.r as int;
        let c = self.c.pair();
        let quad = self.quad as int;
        let here = if self.rows {
            by_rows(r, c, quad, self.fast as int)
        } else {
            by_columns(r, c, quad, self.fast as int, self.turn as int) + by_rows(
                r,
                c,
                quad,
                self.turn as int,
            )
        };
        here + later_quads(r, c, quad, self.end as int)
    }
}

impl AAArc {
    /// The walk is inside a quadrant of the circle.
    pub open spec fn wf(self) -> bool {
        &&& 1 <= self.r
        &&& is_quadrant(self.quad as int)
        &&& is_quadrant(self.end as int)
        &&& self.quad <= self.end
        &&& self.turn == turn(self.r as int)
        &&& 0 <= self.turn < self.r
        &&& 0 <= self.fast <= self.turn
    }

    /// Whether the walk has done with the quadrant that it is in.
    pub open spec fn quad_done(self) -> bool {
        self.rows && self.fast <= 0
    }

    /// How many steps the walk has yet to take in the quadrant that it is
    /// in, at most.
    pub open spec fn steps_left(self) -> nat {
        if self.rows {
            self.fast as nat
        } else {
            (2 * self.turn - self.fast + 1) as nat
        }
    }

    /// The walk one step on inside its quadrant: a row down when it goes by
    /// rows, a column on when it goes by columns, and turned to go by rows
    /// after the last column.
    pub open spec fn stepped(self) -> AAArc {
        if self.rows {
            AAArc { fast: (self.fast - 1) as i32, ..self }
        } else if self.fast < self.turn {
            AAArc { fast: (self.fast + 1) as i32, ..self }
        } else {
            AAArc { rows: true, ..self }
        }
    }

    /// Whether `other` is this walk further along.
    pub open spec fn precedes(self, other: AAArc) -> bool {
        &&& other.r == self.r
        &&& other.c == self.c
        &&& other.end == self.end
        &&& other.quad > self.quad || (other.quad == self.quad && other.steps_left()
            < self.steps_left())
    }

    /// The walk round the whole circle of radius `r` around `c`, at its
    /// first step.
    pub fn start(r: i32, c: Pt<i32>) -> (arc: AAArc)
        requires
            r > 0,
        ensures
            arc.wf(),
            arc == (AAArc { fast: 0, rows: false, turn: turn(r as int) as i32, r, quad: 1, end: 4, c }),
            arc@ == aa_steps(r as int, c.pair()),
    {
        let rr: u64 = r as u64;
        assert(rr * rr <= 0x7fff_ffff * 0x7fff_ffff) by (nonlinear_arith)
            requires
                0 <= rr <= 0x7fff_ffff,
        ;
        let half: u64 = (rr * rr) / 2;
        let turn = isqrt(half);
        proof {
            assert(turn < rr) by (nonlinear_arith)
                requires
                    0 <= turn,
                    1 <= rr,
                    turn * turn <= half,
                    2 * half <= rr * rr,
            ;
        }
        AAArc { fast: 0, rows: false, turn: turn as i32, r, quad: 1, end: 4, c }
    }

    /// The walk that [`AAArc::start`] makes, or `None` when the radius is
    /// not positive.
    pub fn try_start(r: i32, c: Pt<i32>) -> (walk: Option<AAArc>)
        ensures
            walk is Some <==> r > 0,
            walk matches Some(arc) ==> {
                &&& arc.wf()
                &&& arc == (AAArc {
                    fast: 0,
                    rows: false,
                    turn: turn(r as int) as i32,
                    r,
                    quad: 1,
                    end: 4,
                    c,
                })
                &&& arc@ == aa_steps(r as int, c.pair())
            },
    {
        if r > 0 {
            Some(AAArc::start(r, c))
        } else {
            None
        }
    }

    /// The slow coordinate of the circle at the fast coordinate `fast`,
    /// rounded down: the square root of `r * r - fast * fast`.
    pub fn calc_slow(&self, fast: i32) -> (s: u32)
        requires
            0 <= fast <= self.r,
        ensures
            s == floor_sqrt(self.r * self.r - fast * fast),
            is_floor_sqrt(self.r * self.r - fast * fast, s as int),
            s <= self.r,
    {
        let f: u64 = fast as u64;
        let rr: u64 = self.r as u64;
        assert(rr * rr <= 0x7fff_ffff * 0x7fff_ffff) by (nonlinear_arith)
            requires
                0 <= rr <= 0x7fff_ffff,
        ;
        assert(f * f <= rr * rr) by (nonlinear_arith)
            requires
                0 <= f <= rr,
        ;
        let s = isqrt(rr * rr - f * f);
        assert(s <= rr) by (nonlinear_arith)
            requires
                0 <= s,
                0 <= rr,
                s * s <= rr * rr - f * f,
                0 <= f * f,
        ;
        s
    }

    /// The two slow coordinates between which the circle passes at the fast
    /// coordinate `fast`, and the share, out of 255, that falls to the
    /// second of them.
    pub fn calc_fract(&self, fast: i32) -> (r: (u32, u32, u8))
        requires
            0 <= fast <= self.r,
        ensures
            r.0 == floor_sqrt(self.r * self.r - fast * fast),
            r.1 == r.0 + 1,
            r.2 == shade(self.r * self.r - fast * fast),
    {
        let f: u64 = fast as u64;
        let rr: u64 = self.r as u64;
        assert(rr * rr <= 0x7fff_ffff * 0x7fff_ffff) by (nonlinear_arith)
            requires
                0 <= rr <= 0x7fff_ffff,
        ;
        assert(f * f <= rr * rr) by (nonlinear_arith)
            requires
                0 <= f <= rr,
        ;
        let slow = self.calc_slow(fast);
        (slow, slow + 1, shade_of(rr * rr - f * f, slow))
    }

    /// Moves on to the next quadrant when the walk has done with the one
    /// that it is in, and says whether it did.
    pub fn next_quad(&mut self) -> (moved: bool)
        requires
            old(self).wf(),
            !old(self).finished(),
        ensures
            final(self).wf(),
            moved == old(self).quad_done(),
            !final(self).quad_done(),
            final(self)@ == old(self)@,
            !moved ==> *final(self) == *old(self),
            moved ==> old(self).precedes(*final(self)),
            moved ==> *final(self) == (AAArc {
                fast: 0,
                rows: false,
                quad: (old(self).quad + 1) as u8,
                ..*old(self)
            }),
    {
        if self.rows && self.fast <= 0 {
            self.fast = 0;
            self.rows = false;
            self.quad = self.quad + 1;
            proof {
                let r = self.r as int;
                let c = self.c.pair();
                assert(by_rows(r, c, old(self).quad as int, old(self).fast as int) =~= Seq::<
                    Coverage,
                >::empty());
                assert(self@ =~= old(self)@);
            }
            true
        } else {
            false
        }
    }

    /// Whether the walk has gone all the way round.
    pub open spec fn finished(self) -> bool {
        self.quad == self.end && self.quad_done()
    }

    /// Whether the walk has gone all the way round.
    pub fn end(&self) -> (b: bool)
        requires
            self.wf(),
        ensures
            b == self.finished(),
            b ==> self@ == Seq::<Coverage>::empty(),
    {
        let b = self.quad == self.end && self.rows && self.fast <= 0;
        proof {
            if b {
                assert(self@ =~= Seq::<Coverage>::empty());
            }
        }
        b
    }

    /// Takes one step inside the quadrant: says between which two pixels the
    /// boundary passes here and how it is shared between them, and moves on
    /// by a column or a row.
    pub fn step(&mut self) -> (s: Coverage)
        requires
            old(self).wf(),
            !old(self).quad_done(),
        ensures
            final(self).wf(),
            s == step_at(
                old(self).r as int,
                old(self).c.pair(),
                old(self).quad as int,
                old(self).rows,
                old(self).fast as int,
            ),
            *final(self) == old(self).stepped(),
            old(self).precedes(*final(self)),
            final(self).quad == old(self).quad,
            old(self)@ == seq![s] + final(self)@,
    {
        let ghost r = self.r as int;
        let ghost c = self.c.pair();
        let ghost quad = self.quad as int;
        let ghost mid = *self;
        let f: u64 = self.fast as u64;
        let (lower, upper, o) = self.calc_fract(self.fast);
        let (a, b) = if self.rows {
            (
                quad_to_real(lower as i64, f as i64, self.quad, self.c),
                quad_to_real(upper as i64, f as i64, self.quad, self.c),
            )
        } else {
            (
                quad_to_real(f as i64, lower as i64, self.quad, self.c),
                quad_to_real(f as i64, upper as i64, self.quad, self.c),
            )
        };
        let s = Coverage { a, b, o };
        if self.rows {
            self.fast = self.fast - 1;
        } else if self.fast < self.turn {
            self.fast = self.fast + 1;
        } else {
            // the columns are done: on with the rows
            self.rows = true;
        }
        proof {
            assert(s == step_at(r, c, quad, mid.rows, mid.fast as int));
            if mid.rows {
                assert(by_rows(r, c, quad, mid.fast as int) =~= seq![s] + by_rows(
                    r,
                    c,
                    quad,
                    self.fast as int,
                ));
            } else {
                assert(by_columns(r, c, quad, mid.fast as int, self.turn as int) =~= seq![s]
                    + by_columns(r, c, quad, mid.fast + 1, self.turn as int));
                assert(by_columns(r, c, quad, self.turn + 1, self.turn as int) =~= Seq::<
                    Coverage,
                >::empty());
            }
            assert(mid@ =~= seq![s] + self@);
        }
        s
    }

    /// The next step of the walk, or `None` when it has gone all the way
    /// round.
    pub fn next(&mut self) -> (s: Option<Coverage>)
        requires
            old(self).wf(),
        ensures
            final(self).wf(),
            match s {
                Some(s) => old(self)@ == seq![s] + final(self)@ && old(self).precedes(
                    *final(self),
                ),
                None => old(self)@ == Seq::<Coverage>::empty() && *final(self) == *old(self),
            },
    {
        if self.end() {
            return None;
        }
        let _ = self.next_quad();
        Some(self.step())
    }
}

/// Draws the antialiased circle: plots the steps of the walk one after the
/// other.
pub fn draw(canvas: &mut Canvas, iter: AAArc, color: Color)
    requires
        iter.wf(),
    ensures
        final(canvas)@ == plotted_all(old(canvas)@, iter@, color),
{
    let mut walk = iter;
    let ghost mut done = Seq::<Coverage>::empty();
    loop
        invariant
            walk.wf(),
            done + walk@ == iter@,
            canvas@ == plotted_all(old(canvas)@, done, color),
        ensures
            canvas@ == plotted_all(old(canvas)@, iter@, color),
        decreases 4 - walk.quad, walk.steps_left(),
    {
        let ghost before = walk@;
        match walk.next() {
            Some(s) => {
                plot_aa(canvas, s.a, s.b, s.o, color);
                proof {
                    let more = done.push(s);
                    assert(more.drop_last() =~= done);
                    assert(more + walk@ =~= done + before);
                    done = more;
                }
            },
            None => {
                proof {
                    assert(done =~= iter@);
                }
                break;
            },
        }
    }
}

/// Whether the point `p`, as seen from the center `c`, lies at an angle
/// between the directions `start` and `end`, counter-clockwise from the one
/// to the other, or on one of them. As with arcs, an end that does not lie
/// ahead of the start is reached by going all the way round.
pub open spec fn in_sweep(start: Dir, end: Dir, c: (int, int), p: (int, int)) -> bool {
    let after = start.side(c, p) >= 0;
    let before = end.side(c, p) <= 0;
    let turn = start.cross(end);
    if turn > 0 {
        after && before
    } else if turn < 0 {
        after || before
    } else if start.dx * end.dx + start.dy * end.dy > 0 {
        true
    } else {
        after
    }
}

/// The raster after those of the steps have been plotted, one after the
/// other, whose first pixel lies between the directions `start` and `end`.
pub open spec fn plotted_between(
    v: Raster,
    steps: Seq<Coverage>,
    start: Dir,
    end: Dir,
    center: (int, int),
    c: Color,
) -> Raster
    decreases steps.len(),
{
    if steps.len() == 0 {
        v
    } else {
        let before = plotted_between(v, steps.drop_last(), start, end, center, c);
        if in_sweep(start, end, center, steps.last().a.pair()) {
            plotted(before, steps.last(), c)
        } else {
            before
        }
    }
}

/// Whether the image point `p` lies between the directions `start` and
/// `end`, as seen from `c`.
pub fn within(start: Dir, end: Dir, c: Pt<i32>, p: Pt<i64>) -> (b: bool)
    ensures
        b == in_sweep(start, end, c.pair(), p.pair()),
{
    let dx: i128 = p.x as i128 - c.x as i128;
    let dy: i128 = c.y as i128 - p.y as i128;
    let sx: i128 = start.dx as i128;
    let sy: i128 = start.dy as i128;
    let ex: i128 = end.dx as i128;
    let ey: i128 = end.dy as i128;
    proof {
        lemma_product_bound(dy as int, sx as int);
        lemma_product_bound(dx as int, sy as int);
        lemma_product_bound(dx as int, ey as int);
        lemma_product_bound(dy as int, ex as int);
        assert(sx * dy == dy * sx) by (nonlinear_arith);
        assert(sy * dx == dx * sy) by (nonlinear_arith);
        assert(ex * dy == dy * ex) by (nonlinear_arith);
        assert(ey * dx == dx * ey) by (nonlinear_arith);
        lemma_product_bound(sx as int, ey as int);
        lemma_product_bound(sy as int, ex as int);
        lemma_product_bound(sx as int, ex as int);
        lemma_product_bound(sy as int, ey as int);
    }
    let after = sx * dy - sy * dx >= 0;
    let before = ex * dy - ey * dx <= 0;
    let turn = sx * ey - sy * ex;
    if turn > 0 {
        after && before
    } else if turn < 0 {
        after || before
    } else if sx * ex + sy * ey > 0 {
        true
    } else {
        after
    }
}

/// The product of a difference of coordinates and a component of a
/// direction fits in 128 bits with room to spare.
proof fn lemma_product_bound(a: int, b: int)
    requires
        -0x2_0000_0000_0000_0000 <= a <= 0x2_0000_0000_0000_0000,
        -0x1_0000_0000 <= b <= 0x1_0000_0000,
    ensures
        -0x2_0000_0000_0000_0000 * 0x1_0000_0000 <= a * b <= 0x2_0000_0000_0000_0000
            * 0x1_0000_0000,
{
    assert(-0x2_0000_0000_0000_0000 * 0x1_0000_0000 <= a * b <= 0x2_0000_0000_0000_0000
        * 0x1_0000_0000) by (nonlinear_arith)
        requires
            -0x2_0000_0000_0000_0000 <= a <= 0x2_0000_0000_0000_0000,
            -0x1_0000_0000 <= b <= 0x1_0000_0000,
    ;
}

/// Draws the part of the antialiased circle of radius `radius` around
/// `center` that lies between the direction `start_angle` and, counter-
/// clockwise from it, the direction `end_angle`: of the steps of the whole
/// circle, those whose first pixel lies between the two.
pub fn antialiased_arc(
    canvas: &mut Canvas,
    start_angle: Dir,
    end_angle: Dir,
    radius: i32,
    center: Pt<i32>,
    color: Color,
)
    requires
        radius > 0,
    ensures
        final(canvas)@ == plotted_between(
            old(canvas)@,
            aa_steps(radius as int, center.pair()),
            start_angle,
            end_angle,
            center.pair(),
            color,
        ),
{
    let mut walk = AAArc::start(radius, center);
    let ghost whole = walk@;
    let ghost mut done = Seq::<Coverage>::empty();
    let ghost c = center.pair();
    loop
        invariant
            walk.wf(),
            walk.c == center,
            walk.r == radius,
            c == center.pair(),
            done + walk@ == whole,
            canvas@ == plotted_between(old(canvas)@, done, start_angle, end_angle, c, color),
        ensures
            canvas@ == plotted_between(old(canvas)@, whole, start_angle, end_angle, c, color),
        decreases 4 - walk.quad, walk.steps_left(),
    {
        let ghost before = walk@;
        match walk.next() {
            Some(s) => {
                if within(start_angle, end_angle, center, s.a) {
                    plot_aa(canvas, s.a, s.b, s.o, color);
                }
                proof {
                    let more = done.push(s);
                    assert(more.drop_last() =~= done);
                    assert(more + walk@ =~= done + before);
                    done = more;
                }
            },
            None => {
                proof {
                    assert(done =~= whole);
                }
                break;
            },
        }
    }
}

/// Draws the antialiased arc as [`antialiased_arc`] does and says so, or
/// draws nothing and says so: nothing is drawn when the radius is not
/// positive.
pub fn try_antialiased_arc(
    canvas: &mut Canvas,
    start_angle: Dir,
    end_angle: Dir,
    radius: i32,
    center: Pt<i32>,
    color: Color,
) -> (drawn: bool)
    ensures
        drawn == (radius > 0),
        drawn ==> final(canvas)@ == plotted_between(
            old(canvas)@,
            aa_steps(radius as int, center.pair()),
            start_angle,
            end_angle,
            center.pair(),
            color,
        ),
        !drawn ==> final(canvas)@ == old(canvas)@,
{
    if radius > 0 {
        antialiased_arc(canvas, start_angle, end_angle, radius, center, color);
        true
    } else {
        false
    }
}

/// What drawing an antialiased arc leaves behind is determined by the
/// canvas and the arc: on equal canvases equal arcs leave equal canvases.
/// Blending is not overwriting, so a second drawing does change the canvas.
pub proof fn lemma_antialiased_determined(
    v: Raster,
    w: Raster,
    start: Dir,
    end: Dir,
    r: int,
    c: (int, int),
    color: Color,
)
    requires
        v == w,
    ensures
        plotted_between(v, aa_steps(r, c), start, end, c, color) == plotted_between(
            w,
            aa_steps(r, c),
            start,
            end,
            c,
            color,
        ),
        plotted_all(v, aa_steps(r, c), color) == plotted_all(w, aa_steps(r, c), color),
{
}

/// Every number that is not negative has a square root rounded down.
pub proof fn lemma_floor_sqrt(n: int)
    requires
        0 <= n,
    ensures
        is_floor_sqrt(n, floor_sqrt(n)),
    decreases n,
{
    if n == 0 {
        assert(is_floor_sqrt(0, 0));
    } else {
        lemma_floor_sqrt(n - 1);
        let s = floor_sqrt(n - 1);
        assert((s + 2) * (s + 2) > (s + 1) * (s + 1)) by (nonlinear_arith)
            requires
                0 <= s,
        ;
        if (s + 1) * (s + 1) <= n {
            assert(is_floor_sqrt(n, s + 1));
        } else {
            assert(is_floor_sqrt(n, s));
        }
    }
}

/// The square of the distance between two image points.
pub open spec fn dist2(a: (int, int), b: (int, int)) -> int {
    (a.0 - b.0) * (a.0 - b.0) + (a.1 - b.1) * (a.1 - b.1)
}

/// The two pixels of a step are neighbours, and the circle passes between
/// them: the first lies on the circle or inside it, the second outside.
pub proof fn lemma_step_brackets(r: i32, c: Pt<i32>, quad: int, rows: bool, fast: int)
    requires
        is_quadrant(quad),
        0 <= fast <= r,
    ensures
        ({
            let s = step_at(r as int, c.pair(), quad, rows, fast);
            &&& dist2(s.a.pair(), s.b.pair()) == 1
            &&& dist2(s.a.pair(), c.pair()) <= r * r < dist2(s.b.pair(), c.pair())
        }),
{
    let n = r * r - fast * fast;
    assert(0 <= n <= r * r) by (nonlinear_arith)
        requires
            0 <= fast <= r,
            n == r * r - fast * fast,
    ;
    lemma_floor_sqrt(n);
    let s = floor_sqrt(n);
    assert(s <= r) by (nonlinear_arith)
        requires
            0 <= s,
            0 <= r,
            s * s <= n,
            n <= r * r,
    ;
    let qa = if rows {
        (s, fast)
    } else {
        (fast, s)
    };
    let qb = if rows {
        (s + 1, fast)
    } else {
        (fast, s + 1)
    };
    lemma_quad_dist(qa, qb, quad, c.pair());
    lemma_quad_dist(qa, (0, 0), quad, c.pair());
    lemma_quad_dist(qb, (0, 0), quad, c.pair());
    assert(dist2(qa, qb) == 1) by (nonlinear_arith)
        requires
            qb == (qa.0 + 1, qa.1) || qb == (qa.0, qa.1 + 1),
    ;
    assert(dist2(qa, (0, 0)) == fast * fast + s * s && dist2(qb, (0, 0)) == fast * fast + (s + 1)
        * (s + 1)) by (nonlinear_arith)
        requires
            qa == (s, fast) && qb == (s + 1, fast) || qa == (fast, s) && qb == (fast, s + 1),
    ;
}

/// Laying points into a quadrant keeps their distances.
proof fn lemma_quad_dist(a: (int, int), b: (int, int), quad: int, c: (int, int))
    requires
        is_quadrant(quad),
    ensures
        dist2(quad_real(a, quad, c), quad_real(b, quad, c)) == dist2(a, b),
{
    let pa = quad_real(a, quad, c);
    let pb = quad_real(b, quad, c);
    let dx = a.0 - b.0;
    let dy = a.1 - b.1;
    assert((-dx) * (-dx) == dx * dx && (-dy) * (-dy) == dy * dy) by (nonlinear_arith);
    assert(pa.0 - pb.0 == dx || pa.0 - pb.0 == -dx || pa.0 - pb.0 == dy || pa.0 - pb.0 == -dy);
}

} // verus!
