//! Straight lines along the rows and columns of a canvas, and rectangles.

use vstd::prelude::*;
use vstd::arithmetic::div_mod::lemma_fundamental_div_mod_converse;
use crate::canvas::{lemma_fill_put, lemma_fill_union, raw_pixel, Canvas, Color};
use crate::pt::Pt;

verus! {

/// The points `(x, y)` with `x0 <= x <= x1` and `y0 <= y <= y1`.
pub open spec fn rect(x0: int, y0: int, x1: int, y1: int) -> Set<(int, int)> {
    Set::new(|p: (int, int)| x0 <= p.0 <= x1 && y0 <= p.1 <= y1)
}

/// Whether `t`, counted from `from`, falls on a dash of a dashed line whose
/// dashes and gaps are `width` long each. The line begins with a dash.
pub open spec fn on_dash(t: int, from: int, width: int) -> bool {
    0 < width && (t - from) % (2 * width) < width
}

/// The points of row `y` from column `x0` up to, but without, column `x1`
/// that fall on a dash.
pub open spec fn h_dashes(y: int, x0: int, x1: int, width: int) -> Set<(int, int)> {
    Set::new(|p: (int, int)| p.1 == y && x0 <= p.0 < x1 && on_dash(p.0, x0, width))
}

/// The points of column `x` from row `y0` up to, but without, row `y1` that
/// fall on a dash.
pub open spec fn v_dashes(x: int, y0: int, y1: int, width: int) -> Set<(int, int)> {
    Set::new(|p: (int, int)| p.0 == x && y0 <= p.1 < y1 && on_dash(p.1, y0, width))
}

/// How far `t` is short of `end`, and zero when it is not.
pub open spec fn room(t: int, end: int) -> int {
    if t < end {
        end - t
    } else {
        0
    }
}

/// The larger of two numbers.
pub open spec fn most(a: int, b: int) -> int {
    if a <= b {
        b
    } else {
        a
    }
}

/// The smaller of two numbers.
pub open spec fn least(a: int, b: int) -> int {
    if a <= b {
        a
    } else {
        b
    }
}

/// Draws row `y` from column `x0` to column `x1`, both included, as far as
/// it lies inside the canvas.
pub fn horizontal_line(canvas: &mut Canvas, y: u32, x0: u32, x1: u32, color: Color)
    ensures
        final(canvas)@ == old(canvas)@.fill(
            rect(x0 as int, y as int, x1 as int, y as int),
            color,
        ),
{
    let w = canvas.width();
    let h = canvas.height();
    let ghost whole = rect(x0 as int, y as int, x1 as int, y as int);
    if y >= h || x0 >= w || x0 > x1 {
        proof {
            assert(canvas@.px =~= old(canvas)@.fill(whole, color).px);
        }
        return ;
    }
    let last = if x1 < w {
        x1
    } else {
        w - 1
    };
    let mut x = x0;
    proof {
        assert(canvas@.px =~= old(canvas)@.fill(
            rect(x0 as int, y as int, x0 - 1, y as int),
            color,
        ).px);
    }
    loop
        invariant_except_break
            canvas@ == old(canvas)@.fill(rect(x0 as int, y as int, x - 1, y as int), color),
        invariant
            x0 <= x <= last,
            last < w,
            last <= x1,
            w == old(canvas)@.width,
        ensures
            canvas@ == old(canvas)@.fill(rect(x0 as int, y as int, last as int, y as int), color),
        decreases last - x,
    {
        canvas.put(x as i64, y as i64, color);
        proof {
            let done = rect(x0 as int, y as int, x - 1, y as int);
            lemma_fill_put(old(canvas)@, done, (x as int, y as int), color);
            assert(done.insert((x as int, y as int)) =~= rect(
                x0 as int,
                y as int,
                x as int,
                y as int,
            ));
        }
        if x == last {
            break;
        }
        x = x + 1;
    }
    proof {
        assert(canvas@.px =~= old(canvas)@.fill(whole, color).px);
    }
}

/// Draws column `x` from row `y0` to row `y1`, both included, as far as it
/// lies inside the canvas.
pub fn vertical_line(canvas: &mut Canvas, x: u32, y0: u32, y1: u32, color: Color)
    ensures
        final(canvas)@ == old(canvas)@.fill(
            rect(x as int, y0 as int, x as int, y1 as int),
            color,
        ),
{
    let w = canvas.width();
    let h = canvas.height();
    let ghost whole = rect(x as int, y0 as int, x as int, y1 as int);
    if x >= w || y0 >= h || y0 > y1 {
        proof {
            assert(canvas@.px =~= old(canvas)@.fill(whole, color).px);
        }
        return ;
    }
    let last = if y1 < h {
        y1
    } else {
        h - 1
    };
    let mut y = y0;
    proof {
        assert(canvas@.px =~= old(canvas)@.fill(
            rect(x as int, y0 as int, x as int, y0 - 1),
            color,
        ).px);
    }
    loop
        invariant_except_break
            canvas@ == old(canvas)@.fill(rect(x as int, y0 as int, x as int, y - 1), color),
        invariant
            y0 <= y <= last,
            last < h,
            last <= y1,
            h == old(canvas)@.height,
        ensures
            canvas@ == old(canvas)@.fill(rect(x as int, y0 as int, x as int, last as int), color),
        decreases last - y,
    {
        canvas.put(x as i64, y as i64, color);
        proof {
            let done = rect(x as int, y0 as int, x as int, y - 1);
            lemma_fill_put(old(canvas)@, done, (x as int, y as int), color);
            assert(done.insert((x as int, y as int)) =~= rect(
                x as int,
                y0 as int,
                x as int,
                y as int,
            ));
        }
        if y == last {
            break;
        }
        y = y + 1;
    }
    proof {
        assert(canvas@.px =~= old(canvas)@.fill(whole, color).px);
    }
}

/// A point that lies `j` beyond `n` whole periods of a dashed line falls on a
/// dash exactly when `j` is less than the length of a dash.
proof fn lemma_on_dash(t: int, from: int, width: int, n: int, j: int)
    requires
        0 < width,
        0 <= j < 2 * width,
        t - from == n * (2 * width) + j,
    ensures
        on_dash(t, from, width) == (j < width),
{
    lemma_fundamental_div_mod_converse(t - from, 2 * width, n, j);
}

/// Draws row `y` dashed, from the smaller of the columns `x0` and `x1` up
/// to, but without, the larger of them and the last column of the canvas.
/// Dashes and gaps are `width` pixels long, and the line begins with a dash.
/// A width of zero draws nothing.
pub fn horizontal_dashed_line(
    canvas: &mut Canvas,
    y: u32,
    x0: u32,
    x1: u32,
    width: u32,
    color: Color,
)
    ensures
        final(canvas)@ == old(canvas)@.fill(
            h_dashes(
                y as int,
                least(x0 as int, x1 as int),
                least(most(x0 as int, x1 as int), old(canvas)@.width - 1),
                width as int,
            ),
            color,
        ),
{
    let (lo, hi) = if x0 > x1 {
        (x1, x0)
    } else {
        (x0, x1)
    };
    let w = canvas.width();
    let h = canvas.height();
    let ghost end_spec = least(hi as int, w - 1);
    let ghost whole = h_dashes(y as int, lo as int, end_spec, width as int);
    if width == 0 || y >= h || lo >= w {
        proof {
            assert(canvas@.px =~= old(canvas)@.fill(whole, color).px);
        }
        return ;
    }
    let end: u64 = if hi < w {
        hi as u64
    } else {
        (w - 1) as u64
    };
    let mut x: u64 = lo as u64;
    let mut i: u32 = 0;
    let ghost mut n: int = 0;
    proof {
        assert(0 * (2 * width) == 0) by (nonlinear_arith);
        assert(canvas@.px =~= old(canvas)@.fill(
            h_dashes(y as int, lo as int, lo as int, width as int),
            color,
        ).px);
    }
    while x < end
        invariant
            lo <= x,
            end <= 0xffff_ffff,
            end == end_spec,
            0 < width,
            i < width,
            0 <= n,
            x - i - lo == n * (2 * width),
            canvas@ == old(canvas)@.fill(
                h_dashes(y as int, lo as int, least(x as int, end as int), width as int),
                color,
            ),
        decreases room(x as int, end as int),
    {
        canvas.put(x as i64, y as i64, color);
        let ghost before = x as int;
        let ghost j0 = i as int;
        if i == width - 1 {
            x = x + width as u64 + 1;
            i = 0;
            proof {
                assert((n + 1) * (2 * width) == n * (2 * width) + 2 * width) by (nonlinear_arith);
                n = n + 1;
            }
        } else {
            x = x + 1;
            i = i + 1;
        }
        proof {
            let m = if i == 0 {
                n - 1
            } else {
                n
            };
            let done = h_dashes(y as int, lo as int, before, width as int);
            let more = h_dashes(y as int, lo as int, least(x as int, end as int), width as int);
            lemma_fill_put(old(canvas)@, done, (before, y as int), color);
            assert forall|p: (int, int)| more.contains(p) <==> done.insert((before, y as int)).contains(
                p,
            ) by {
                if p.1 == y && before <= p.0 < x {
                    lemma_on_dash(p.0, lo as int, width as int, m, j0 + (p.0 - before));
                }
            }
            assert(more =~= done.insert((before, y as int)));
        }
    }
}

/// Draws column `x` dashed, from the smaller of the rows `y0` and `y1` up
/// to, but without, the larger of them and the last row of the canvas.
/// Dashes and gaps are `width` pixels long, and the line begins with a dash.
/// A width of zero draws nothing.
pub fn vertical_dashed_line(
    canvas: &mut Canvas,
    x: u32,
    y0: u32,
    y1: u32,
    width: u32,
    color: Color,
)
    ensures
        final(canvas)@ == old(canvas)@.fill(
            v_dashes(
                x as int,
                least(y0 as int, y1 as int),
                least(most(y0 as int, y1 as int), old(canvas)@.height - 1),
                width as int,
            ),
            color,
        ),
{
    let (lo, hi) = if y0 > y1 {
        (y1, y0)
    } else {
        (y0, y1)
    };
    let w = canvas.width();
    let h = canvas.height();
    let ghost end_spec = least(hi as int, h - 1);
    let ghost whole = v_dashes(x as int, lo as int, end_spec, width as int);
    if width == 0 || x >= w || lo >= h {
        proof {
            assert(canvas@.px =~= old(canvas)@.fill(whole, color).px);
        }
        return ;
    }
    let end: u64 = if hi < h {
        hi as u64
    } else {
        (h - 1) as u64
    };
    let mut y: u64 = lo as u64;
    let mut i: u32 = 0;
    let ghost mut n: int = 0;
    proof {
        assert(0 * (2 * width) == 0) by (nonlinear_arith);
        assert(canvas@.px =~= old(canvas)@.fill(
            v_dashes(x as int, lo as int, lo as int, width as int),
            color,
        ).px);
    }
    while y < end
        invariant
            lo <= y,
            end <= 0xffff_ffff,
            end == end_spec,
            0 < width,
            i < width,
            0 <= n,
            y - i - lo == n * (2 * width),
            canvas@ == old(canvas)@.fill(
                v_dashes(x as int, lo as int, least(y as int, end as int), width as int),
                color,
            ),
        decreases room(y as int, end as int),
    {
        canvas.put(x as i64, y as i64, color);
        let ghost before = y as int;
        let ghost j0 = i as int;
        if i == width - 1 {
            y = y + width as u64 + 1;
            i = 0;
            proof {
                assert((n + 1) * (2 * width) == n * (2 * width) + 2 * width) by (nonlinear_arith);
                n = n + 1;
            }
        } else {
            y = y + 1;
            i = i + 1;
        }
        proof {
            let m = if i == 0 {
                n - 1
            } else {
                n
            };
            let done = v_dashes(x as int, lo as int, before, width as int);
            let more = v_dashes(x as int, lo as int, least(y as int, end as int), width as int);
            lemma_fill_put(old(canvas)@, done, (x as int, before), color);
            assert forall|p: (int, int)| more.contains(p) <==> done.insert((x as int, before)).contains(
                p,
            ) by {
                if p.0 == x && before <= p.1 < y {
                    lemma_on_dash(p.1, lo as int, width as int, m, j0 + (p.1 - before));
                }
            }
            assert(more =~= done.insert((x as int, before)));
        }
    }
}

/// Fills the rectangle of the given height and width whose top left corner
/// is `pt`, as far as it lies inside the canvas.
pub fn rectangle_filled(canvas: &mut Canvas, pt: Pt<u32>, height: u32, width: u32, color: Color)
    ensures
        final(canvas)@ == old(canvas)@.fill(
            rect(pt.x as int, pt.y as int, pt.x + width - 1, pt.y + height - 1),
            color,
        ),
{
    let w = canvas.width();
    let h = canvas.height();
    let ghost whole = rect(pt.x as int, pt.y as int, pt.x + width - 1, pt.y + height - 1);
    if width == 0 || height == 0 || pt.y >= h {
        proof {
            assert(canvas@.px =~= old(canvas)@.fill(whole, color).px);
        }
        return ;
    }
    let x0 = pt.x;
    let x1: u32 = if width - 1 > u32::MAX - pt.x {
        u32::MAX
    } else {
        pt.x + (width - 1)
    };
    let last: u32 = if height - 1 >= h - pt.y {
        h - 1
    } else {
        pt.y + (height - 1)
    };
    let mut y = pt.y;
    proof {
        assert(canvas@.px =~= old(canvas)@.fill(
            rect(x0 as int, pt.y as int, x1 as int, pt.y - 1),
            color,
        ).px);
    }
    loop
        invariant_except_break
            canvas@ == old(canvas)@.fill(rect(x0 as int, pt.y as int, x1 as int, y - 1), color),
        invariant
            pt.y <= y <= last,
            last < h,
            h == old(canvas)@.height,
        ensures
            canvas@ == old(canvas)@.fill(
                rect(x0 as int, pt.y as int, x1 as int, last as int),
                color,
            ),
        decreases last - y,
    {
        horizontal_line(canvas, y, x0, x1, color);
        proof {
            let done = rect(x0 as int, pt.y as int, x1 as int, y - 1);
            let row = rect(x0 as int, y as int, x1 as int, y as int);
            lemma_fill_union(old(canvas)@, done, row, color);
            assert(done.union(row) =~= rect(x0 as int, pt.y as int, x1 as int, y as int));
        }
        if y == last {
            break;
        }
        y = y + 1;
    }
    proof {
        assert(canvas@.px =~= old(canvas)@.fill(whole, color).px);
    }
}

/// Puts the color on every one of `points` that lies inside the canvas.
pub fn draw_iter(canvas: &mut Canvas, points: &Vec<Pt<u32>>, color: Color)
    ensures
        final(canvas)@ == old(canvas)@.fill(
            Set::new(
                |p: (int, int)|
                    exists|i: int|
                        0 <= i < points@.len() && p == (
                            #[trigger] points@[i].x as int,
                            points@[i].y as int,
                        ),
            ),
            color,
        ),
{
    let mut n: usize = 0;
    proof {
        assert(canvas@.px =~= old(canvas)@.fill(points_upto(points@, 0), color).px);
    }
    while n < points.len()
        invariant
            n <= points@.len(),
            canvas@ == old(canvas)@.fill(points_upto(points@, n as int), color),
        decreases points@.len() - n,
    {
        let p = points[n];
        canvas.put(p.x as i64, p.y as i64, color);
        proof {
            let done = points_upto(points@, n as int);
            lemma_fill_put(old(canvas)@, done, (p.x as int, p.y as int), color);
            assert(done.insert((p.x as int, p.y as int)) =~= points_upto(points@, n + 1));
        }
        n = n + 1;
    }
    proof {
        assert(points_upto(points@, points@.len() as int) =~= Set::new(
            |p: (int, int)|
                exists|i: int|
                    0 <= i < points@.len() && p == (
                        #[trigger] points@[i].x as int,
                        points@[i].y as int,
                    ),
        ));
    }
}

/// The first `n` of `points`, as a set.
pub open spec fn points_upto(points: Seq<Pt<u32>>, n: int) -> Set<(int, int)> {
    Set::new(
        |p: (int, int)|
            exists|i: int| 0 <= i < n && p == (#[trigger] points[i].x as int, points[i].y as int),
    )
}

/// The offset, in a row-major RGBA byte buffer of an image of the given
/// width, of the first byte of the pixel at `(x, y)`.
pub fn rgba_array_index(img_width: u32, x: u32, y: u32) -> (at: usize)
    requires
        (y * img_width + x) * 4 <= usize::MAX,
    ensures
        at == (y * img_width + x) * 4,
        forall|data: Seq<u8>| #[trigger]
            raw_pixel(data, img_width as int, x as int, y as int).r == data[at as int],
{
    assert(0 <= y * img_width <= 0xffff_ffff * 0xffff_ffff) by (nonlinear_arith)
        requires
            0 <= y <= 0xffff_ffff,
            0 <= img_width <= 0xffff_ffff,
    ;
    let row: u64 = y as u64 * img_width as u64;
    ((row + x as u64) * 4) as usize
}

} // verus!
