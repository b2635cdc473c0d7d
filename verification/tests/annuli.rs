use freehand::angle::Dir;
use freehand::annulus::{annulus, calc_line, calc_line_up, Annulus};
use freehand::arc::arc;
use freehand::canvas::{Canvas, Color};
use freehand::pt::Pt;

const RED: Color = Color { r: 255, g: 0, b: 0, a: 255 };
const BLUE: Color = Color { r: 0, g: 0, b: 255, a: 255 };

fn blank(w: u32, h: u32) -> Canvas {
    Canvas::from_raw(w, h, vec![255u8; (4 * w * h) as usize]).unwrap()
}

fn dir(dx: i32, dy: i32) -> Dir {
    Dir::new(dx, dy).unwrap()
}

fn of_color(cv: &Canvas, c: Color) -> Vec<(i64, i64)> {
    let mut out = Vec::new();
    for x in 0..cv.width() {
        for y in 0..cv.height() {
            if cv.get(x, y) == Some(c) {
                out.push((x as i64, y as i64));
            }
        }
    }
    out
}

/// Whether the point, given from the center, with `x` to the right and `y`
/// upwards, lies between the two circles: the rule is the same in all
/// octants, with the larger distance from the center as the row.
fn between(ri: i64, ro: i64, x: i64, y: i64) -> bool {
    let (a, b) = (x.abs().min(y.abs()), x.abs().max(y.abs()));
    b * (b - 1) <= ro * ro - a * a && (ri == 0 || ri * ri - a * a < b * (b + 1))
}

#[test]
fn full_ring_is_what_lies_between_the_circles() {
    for (ri, ro) in [(150, 190), (0, 7), (3, 3), (1, 2), (10, 30), (0, 1)] {
        let mut cv = blank(400, 400);
        annulus(&mut cv, dir(1, 0), dir(1, 0), ri, ro, Pt::new(200, 200), RED);
        let mut want = Vec::new();
        for x in 0..400i64 {
            for y in 0..400i64 {
                if between(ri as i64, ro as i64, x - 200, 200 - y) {
                    want.push((x, y));
                }
            }
        }
        assert_eq!(of_color(&cv, RED), want, "radii {} and {}", ri, ro);
    }
}

#[test]
fn ring_is_bounded_by_the_two_circles() {
    let mut cv = blank(400, 400);
    annulus(&mut cv, dir(1, 0), dir(1, 0), 150, 190, Pt::new(200, 200), RED);
    let ring = of_color(&cv, RED);
    arc(&mut cv, dir(1, 0), dir(1, 0), 150, Pt::new(200, 200), BLUE);
    arc(&mut cv, dir(1, 0), dir(1, 0), 190, Pt::new(200, 200), BLUE);
    let rims = of_color(&cv, BLUE);
    assert!(!rims.is_empty());
    for p in &rims {
        assert!(ring.contains(p), "{:?} of a circle is not in the ring", p);
    }
    // Just beyond the outer circle and just within the inner there is no
    // ring: one pixel further along the longer of the two distances from
    // the center.
    let step = |p: &(i64, i64), by: i64| {
        let (dx, dy) = (p.0 - 200, p.1 - 200);
        if dx.abs() >= dy.abs() {
            (p.0 + by * dx.signum(), p.1)
        } else {
            (p.0, p.1 + by * dy.signum())
        }
    };
    let mut cv = blank(400, 400);
    arc(&mut cv, dir(1, 0), dir(1, 0), 190, Pt::new(200, 200), BLUE);
    for p in &of_color(&cv, BLUE) {
        assert!(!ring.contains(&step(p, 1)), "{:?} lies beyond the outer circle", step(p, 1));
    }
    let mut cv = blank(400, 400);
    arc(&mut cv, dir(1, 0), dir(1, 0), 150, Pt::new(200, 200), BLUE);
    for p in &of_color(&cv, BLUE) {
        assert!(!ring.contains(&step(p, -1)), "{:?} lies within the inner circle", step(p, -1));
    }
    // Nothing of the ring lies outside the outer circle or inside the inner:
    // along the row of the center the ring spans exactly the two radii.
    let row: Vec<i64> = ring.iter().filter(|p| p.1 == 200).map(|p| p.0).collect();
    let want: Vec<i64> = (10..=50).chain(350..=390).collect();
    assert_eq!(row, want);
}

#[test]
fn radii_may_come_in_either_order() {
    let mut a = blank(100, 100);
    let mut b = blank(100, 100);
    annulus(&mut a, dir(3, 1), dir(-1, 4), 10, 30, Pt::new(50, 50), RED);
    annulus(&mut b, dir(3, 1), dir(-1, 4), 30, 10, Pt::new(50, 50), RED);
    assert!(!of_color(&a, RED).is_empty());
    assert_eq!(of_color(&a, RED), of_color(&b, RED));
}

#[test]
fn slice_lies_between_its_angles() {
    let rads = std::f64::consts::PI / 4.0;
    let s = (1u32 << 30) as f64;
    for (a, b, ri, ro) in [(1.5, 6.8, 150, 190), (0.3, 0.6, 20, 100), (2.2, 3.9, 0, 60), (7.5, 0.4, 40, 90)] {
        let (start, end): (f64, f64) = (rads * a, rads * b);
        let ds = dir((start.cos() * s).round() as i32, (start.sin() * s).round() as i32);
        let de = dir((end.cos() * s).round() as i32, (end.sin() * s).round() as i32);
        let mut cv = blank(400, 400);
        annulus(&mut cv, ds, de, ri, ro, Pt::new(200, 200), RED);
        let got = of_color(&cv, RED);
        let mut want = Vec::new();
        for x in 0..400i64 {
            for y in 0..400i64 {
                let (px, py) = (x - 200, 200 - y);
                if !between(ri as i64, ro as i64, px, py) {
                    continue;
                }
                // on the left of the start direction and on the right of the end
                let after = ds.dx as i64 * py - ds.dy as i64 * px >= 0;
                let before = px * de.dy as i64 - py * de.dx as i64 >= 0;
                let wide = (ds.dx as i64) * (de.dy as i64) - (ds.dy as i64) * (de.dx as i64) < 0;
                if (px, py) == (0, 0) || if wide { after || before } else { after && before } {
                    want.push((x, y));
                }
            }
        }
        assert!(!got.is_empty());
        assert_eq!(got, want, "from {} to {}", a, b);
    }
}

#[test]
fn pie_slice_holds_the_center() {
    let mut cv = blank(100, 100);
    annulus(&mut cv, dir(1, 0), dir(0, 1), 0, 20, Pt::new(50, 50), RED);
    let got = of_color(&cv, RED);
    assert!(got.contains(&(50, 50)));
    assert!(got.contains(&(70, 50)));
    assert!(got.contains(&(50, 30)));
    assert!(got.contains(&(60, 40)));
    assert!(!got.contains(&(49, 51)));
    assert!(!got.contains(&(50, 71)));
    assert!(got.iter().all(|p| p.0 >= 50 && p.1 <= 50));
}

#[test]
fn columns_of_a_slice() {
    assert_eq!(calc_line((2, 5), 3), 7);
    assert_eq!(calc_line_up((2, 5), 3), 8);
    assert_eq!(calc_line((1, 1), 9), 9);
    assert_eq!(calc_line_up((1, 1), 9), 9);
    assert_eq!(calc_line((3, 6), 4), 8);
    assert_eq!(calc_line_up((3, 6), 4), 8);
    assert_eq!(calc_line((1, 1 << 31), i32::MAX), (i32::MAX as u64) << 31);

    // octant 2 between the directions (1, 2) and (1, 5), radii 3 and 10
    let mut a = Annulus::new(dir(1, 2), dir(1, 5), 3, 10, Pt::new(0, 0));
    assert_eq!((a.oct, a.lo, a.hi, a.revisit), (2, (1, 5), (1, 2), false));
    assert!(!a.end());
    assert!(!a.next_octant());
    let mut spans = Vec::new();
    loop {
        if a.end() {
            break;
        }
        if a.next_octant() {
            continue;
        }
        spans.push(a.step());
    }
    // column x holds the rows from 2x, or from the inner circle, up to 5x,
    // or to the outer circle
    assert_eq!(
        spans,
        vec![(0, 1, 0), (1, 3, 5), (2, 4, 10), (3, 6, 10), (4, 8, 9), (5, 1, 0), (6, 1, 0), (7, 1, 0)]
    );
}

#[test]
fn annulus_state_points() {
    let a = Annulus::new(dir(1, 0), dir(1, 1), 3, 5, Pt::new(0, 0));
    assert_eq!(a.inner_start(), Pt::new(0, 3));
    assert_eq!(a.outer_start(), Pt::new(0, 5));
    // the diagonal crosses the circle of radius 5 at 3.54: column 4, row 3
    assert_eq!(a.outer_end(), Pt::new(4, 3));
    assert_eq!(a.inner_end(), Pt::new(2, 2));
}

#[test]
fn a_line_runs_between_its_two_rows_whichever_comes_first() {
    let ring = Annulus::new(dir(1, 0), dir(1, 1), 3, 8, Pt::new(10, 10));
    assert_eq!(ring.oct, 1);
    let mut up = blank(30, 30);
    ring.put_line(2, 4, 7, &mut up, RED);
    // octant 1: rows run to the right, columns upwards
    assert_eq!(of_color(&up, RED), vec![(14, 8), (15, 8), (16, 8), (17, 8)]);
    let mut down = blank(30, 30);
    ring.put_line(2, 7, 4, &mut down, RED);
    assert_eq!(of_color(&down, RED), vec![(14, 8), (15, 8), (16, 8), (17, 8)]);
    let mut one = blank(30, 30);
    ring.put_line(2, 5, 5, &mut one, RED);
    assert_eq!(of_color(&one, RED), vec![(15, 8)]);
    // off the canvas nothing is put
    let mut off = blank(30, 30);
    ring.put_line(2, 25, 18, &mut off, RED);
    assert_eq!(of_color(&off, RED), vec![(28, 8), (29, 8)]);
}

#[test]
fn no_annulus_without_a_radius() {
    let c = Pt::new(10, 10);
    assert!(Annulus::try_new(dir(1, 0), dir(0, 1), -1, 5, c).is_none());
    assert!(Annulus::try_new(dir(1, 0), dir(0, 1), 5, -1, c).is_none());
    assert!(Annulus::try_new(dir(1, 0), dir(0, 1), 0, 0, c).is_none());
    assert!(Annulus::try_new(dir(1, 0), Dir { dx: 0, dy: 0 }, 2, 5, c).is_none());
    let a = Annulus::try_new(dir(1, 0), dir(0, 1), 5, 0, c).unwrap();
    assert_eq!((a.ri, a.ro, a.oct), (0, 5, 1));

    let mut cv = blank(20, 20);
    assert!(!freehand::annulus::try_annulus(&mut cv, dir(1, 0), dir(1, 0), -3, 5, c, RED));
    assert!(!freehand::annulus::try_annulus(&mut cv, dir(1, 0), dir(1, 0), 0, 0, c, RED));
    assert!(of_color(&cv, RED).is_empty());
    assert!(freehand::annulus::try_annulus(&mut cv, dir(1, 0), dir(1, 0), 5, 3, c, RED));
    let mut want = blank(20, 20);
    annulus(&mut want, dir(1, 0), dir(1, 0), 3, 5, c, RED);
    assert!(!of_color(&cv, RED).is_empty());
    assert_eq!(of_color(&cv, RED), of_color(&want, RED));
}
