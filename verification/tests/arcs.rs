use freehand::angle::Dir;
use freehand::arc::{arc, Arc};
use freehand::canvas::{Canvas, Color};
use freehand::pt::Pt;

const RED: Color = Color { r: 255, g: 0, b: 0, a: 255 };
const WHITE: Color = Color { r: 255, g: 255, b: 255, a: 255 };

fn blank(w: u32, h: u32) -> Canvas {
    Canvas::from_raw(w, h, vec![255u8; (4 * w * h) as usize]).unwrap()
}

fn dir(dx: i32, dy: i32) -> Dir {
    Dir::new(dx, dy).unwrap()
}

fn dir_of(radians: f64) -> Dir {
    let s = (1u32 << 30) as f64;
    dir((radians.cos() * s).round() as i32, (radians.sin() * s).round() as i32)
}

/// The classic midpoint circle, all eight reflections of each step.
fn reference_circle(r: i32, cx: i32, cy: i32) -> Vec<(i32, i32)> {
    let mut out = Vec::new();
    let (mut x, mut y, mut d) = (0, r, 1 - r);
    while x <= y {
        for (px, py) in [
            (x, y), (y, x), (-x, y), (-y, x), (x, -y), (y, -x), (-x, -y), (-y, -x),
        ] {
            out.push((cx + px, cy + py));
        }
        x += 1;
        if d > 0 {
            y -= 1;
            d += 2 * (x - y) + 1;
        } else {
            d += 2 * x + 1;
        }
    }
    out
}

fn painted(cv: &Canvas) -> Vec<(i32, i32)> {
    let mut out = Vec::new();
    for y in 0..cv.height() {
        for x in 0..cv.width() {
            if cv.get(x, y) == Some(RED) {
                out.push((x as i32, y as i32));
            } else {
                assert_eq!(cv.get(x, y), Some(WHITE));
            }
        }
    }
    out.sort();
    out
}

fn sorted(mut v: Vec<(i32, i32)>) -> Vec<(i32, i32)> {
    v.sort();
    v.dedup();
    v
}

#[test]
fn full_circle_matches_midpoint_circle() {
    for r in [1, 2, 3, 5, 7, 10, 50, 190] {
        let mut cv = blank(400, 400);
        arc(&mut cv, dir(1, 0), dir(1, 0), r, Pt::new(200, 200), RED);
        assert_eq!(painted(&cv), sorted(reference_circle(r, 200, 200)), "radius {}", r);
    }
}

#[test]
fn full_circle_from_any_direction() {
    for r in [1, 2, 3, 5, 7, 12, 29, 190] {
        let want = sorted(reference_circle(r, 200, 200));
        for d in [dir(1, 1), dir(0, 1), dir(-3, 1), dir(-1, -1), dir(5, -7), dir(2, 1), dir(1, 2)] {
            let mut cv = blank(400, 400);
            arc(&mut cv, d, d, r, Pt::new(200, 200), RED);
            assert_eq!(painted(&cv), want, "radius {} from {:?}", r, d);
        }
    }
}

#[test]
fn upper_semicircle() {
    let mut cv = blank(400, 400);
    arc(&mut cv, dir(1, 0), dir(-1, 0), 190, Pt::new(200, 200), RED);
    let want: Vec<(i32, i32)> =
        sorted(reference_circle(190, 200, 200)).into_iter().filter(|p| p.1 <= 200).collect();
    assert_eq!(painted(&cv), want);
}

#[test]
fn single_octant() {
    let mut cv = blank(400, 400);
    Arc::octant(7, 190, Pt::new(200, 200)).draw(&mut cv, RED);
    let got = painted(&cv);
    assert!(got.contains(&(200, 390)));
    assert!(got.iter().all(|p| p.0 >= 200 && p.1 >= 200 && p.0 - 200 <= p.1 - 200));
    let whole = sorted(reference_circle(190, 200, 200));
    let want: Vec<(i32, i32)> = whole
        .into_iter()
        .filter(|p| p.0 >= 200 && p.1 >= 200 && p.0 - 200 <= p.1 - 200)
        .collect();
    assert_eq!(got, want);
}

#[test]
fn partial_arc_stays_between_its_angles() {
    let rads = std::f64::consts::PI / 4.0;
    for (a, b) in [(6.3, 6.8), (0.2, 0.9), (1.1, 1.3), (0.5, 3.7), (2.0, 7.9)] {
        let (start, end) = (rads * a, rads * b);
        let mut cv = blank(400, 400);
        arc(&mut cv, dir_of(start), dir_of(end), 190, Pt::new(200, 200), RED);
        let got = painted(&cv);
        assert!(!got.is_empty());
        let slack = 1.0 / 190.0;
        for p in &got {
            let mut t = (-(p.1 - 200) as f64).atan2((p.0 - 200) as f64);
            if t < 0.0 {
                t += 2.0 * std::f64::consts::PI;
            }
            assert!(t >= start - slack && t <= end + slack, "{:?} at {} not in {}..{}", p, t, start, end);
        }
        let whole = sorted(reference_circle(190, 200, 200));
        for p in &whole {
            let mut t = (-(p.1 - 200) as f64).atan2((p.0 - 200) as f64);
            if t < 0.0 {
                t += 2.0 * std::f64::consts::PI;
            }
            if t >= start + slack && t <= end - slack {
                assert!(got.contains(p), "{:?} at {} missing from {}..{}", p, t, start, end);
            }
        }
    }
}

#[test]
fn arc_clips_to_the_canvas() {
    let mut cv = blank(100, 100);
    arc(&mut cv, dir(1, 0), dir(1, 0), 190, Pt::new(0, 0), RED);
    let want: Vec<(i32, i32)> = sorted(reference_circle(190, 0, 0))
        .into_iter()
        .filter(|p| 0 <= p.0 && p.0 < 100 && 0 <= p.1 && p.1 < 100)
        .collect();
    assert_eq!(painted(&cv), want);
}

#[test]
fn circle_is_alike_in_all_octants() {
    for r in [1, 2, 7, 50, 190] {
        let mut cv = blank(400, 400);
        freehand::circle::circle(&mut cv, r, Pt::new(200, 200), RED);
        let got = painted(&cv);
        assert_eq!(got, sorted(reference_circle(r, 200, 200)));
        for (x, y) in &got {
            let (dx, dy) = (x - 200, y - 200);
            for (ex, ey) in [(-dx, dy), (dx, -dy), (dy, dx), (-dy, dx), (dy, -dx), (-dy, -dx), (-dx, -dy)] {
                assert!(got.contains(&(200 + ex, 200 + ey)), "radius {}: ({}, {})", r, dx, dy);
            }
        }
    }
}

#[test]
fn circle_has_no_gap() {
    for r in [1, 2, 3, 7, 50, 190] {
        let mut got = Vec::new();
        for oct in 1..=8u8 {
            let mut arc = Arc::octant(oct, r, Pt::new(200, 200));
            let mut run = Vec::new();
            while let Some(p) = arc.step() {
                // inside an octant the walk moves on by one pixel at a time
                if let Some(&(x, y)) = run.last() {
                    let (dx, dy): (i64, i64) = (p.x - x, p.y - y);
                    assert!(dx.abs().max(dy.abs()) == 1);
                }
                run.push((p.x, p.y));
            }
            got.push(run);
        }
        for oct in 0..8 {
            let (here, next) = (&got[oct], &got[(oct + 1) % 8]);
            // octants with an odd number end at the diagonal where the next
            // one ends, and octants with an even number begin at the axis
            // where the next one begins
            let (a, b) = if oct % 2 == 0 {
                (here.last().unwrap(), next.last().unwrap())
            } else {
                (here.first().unwrap(), next.first().unwrap())
            };
            let d = (a.0 - b.0).abs().max((a.1 - b.1).abs());
            assert!(d <= 1, "radius {}, after octant {}: {:?} and {:?}", r, oct + 1, a, b);
        }
    }
}

#[test]
fn drawing_again_changes_nothing() {
    let c = Pt::new(60, 60);
    let mut once = blank(120, 120);
    arc(&mut once, dir(3, 1), dir(-1, 2), 50, c, RED);
    freehand::annulus::annulus(&mut once, dir(0, -1), dir(5, 1), 10, 30, c, RED);
    let mut twice = blank(120, 120);
    for _ in 0..2 {
        arc(&mut twice, dir(3, 1), dir(-1, 2), 50, c, RED);
        freehand::annulus::annulus(&mut twice, dir(0, -1), dir(5, 1), 10, 30, c, RED);
    }
    let once = once.into_raw();
    assert_eq!(once, twice.into_raw());
    assert!(once.chunks(4).any(|p| p == [255, 0, 0, 255]));

    // blending is not overwriting, but it is determined all the same
    let mut a = blank(120, 120);
    let mut b = blank(120, 120);
    let half = Color { r: 0, g: 0, b: 255, a: 128 };
    freehand::aa::antialiased_arc(&mut a, dir(1, 0), dir(1, 0), 40, c, half);
    freehand::aa::antialiased_arc(&mut b, dir(1, 0), dir(1, 0), 40, c, half);
    assert_eq!(a.into_raw(), b.into_raw());
}

#[test]
fn arcs_are_parts_of_the_circle() {
    let whole = sorted(reference_circle(37, 50, 50));
    for (s, e) in [((1, 0), (0, 1)), ((5, 4), (5, 3)), ((-1, -7), (9, -2)), ((2, 3), (3, 2))] {
        let mut cv = blank(100, 100);
        arc(&mut cv, dir(s.0, s.1), dir(e.0, e.1), 37, Pt::new(50, 50), RED);
        let got = painted(&cv);
        assert!(!got.is_empty());
        assert!(got.iter().all(|p| whole.contains(p)));
    }
}

#[test]
fn no_arc_without_a_radius() {
    let c = Pt::new(50, 50);
    assert!(Arc::try_new(dir(1, 0), dir(0, 1), 0, c).is_none());
    assert!(Arc::try_new(dir(1, 0), dir(0, 1), -190, c).is_none());
    assert!(Arc::try_new(Dir { dx: 0, dy: 0 }, dir(0, 1), 5, c).is_none());
    assert!(Arc::try_new(dir(1, 0), Dir { dx: 0, dy: 0 }, 5, c).is_none());
    let a = Arc::try_new(dir(1, 0), dir(0, 1), 5, c).unwrap();
    assert_eq!((a.radius(), a.center(), a.start.oct, a.end.oct), (5, c, 1, 2));

    let mut cv = blank(100, 100);
    assert!(!freehand::arc::try_arc(&mut cv, dir(1, 0), dir(1, 0), -1, c, RED));
    assert!(!freehand::arc::try_arc(&mut cv, dir(1, 0), dir(1, 0), 0, c, RED));
    assert!(!freehand::arc::try_arc(&mut cv, dir(1, 0), dir(1, 0), i32::MIN, c, RED));
    assert!(painted(&cv).is_empty());
    assert!(freehand::arc::try_arc(&mut cv, dir(1, 0), dir(1, 0), 37, c, RED));
    assert_eq!(painted(&cv), sorted(reference_circle(37, 50, 50)));
}
