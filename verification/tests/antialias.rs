use freehand::aa::{
    antialiased_arc, draw, isqrt, plot_aa, quad_to_real, shade_of, AAArc, Coverage,
};
use freehand::angle::Dir;
use freehand::canvas::{Canvas, Color};
use freehand::pt::Pt;

const RED: Color = Color { r: 255, g: 0, b: 0, a: 255 };
const WHITE: Color = Color { r: 255, g: 255, b: 255, a: 255 };

fn blank(w: u32, h: u32) -> Canvas {
    Canvas::from_raw(w, h, vec![255u8; (4 * w * h) as usize]).unwrap()
}

fn steps_of(r: i32, c: Pt<i32>) -> Vec<Coverage> {
    let mut walk = AAArc::start(r, c);
    let mut out = Vec::new();
    while let Some(s) = walk.next() {
        out.push(s);
        assert!(out.len() < 100_000);
    }
    assert_eq!(walk.next(), None);
    out
}

#[test]
fn square_roots() {
    for n in 0..2000u64 {
        let s = isqrt(n) as u64;
        assert!(s * s <= n && n < (s + 1) * (s + 1));
        let o = shade_of(n, s as u32);
        let want = (255.0 * ((n as f64).sqrt() - s as f64)).round();
        assert_eq!(o as f64, want, "at {}", n);
    }
    assert_eq!(isqrt(36099), 189);
    assert_eq!(shade_of(36099, 189), 254);
    assert_eq!(isqrt(24), 4);
    assert_eq!(shade_of(24, 4), 229);
    assert_eq!(isqrt((1u64 << 62) - 1), (1u32 << 31) - 1);
    assert_eq!(shade_of((1u64 << 62) - 1, (1u32 << 31) - 1), 255);
    assert_eq!(shade_of(1u64 << 60, 1u32 << 30), 0);
    let walk = AAArc::start(190, Pt::new(0, 0));
    assert_eq!(walk.calc_slow(1), 189);
    assert_eq!(walk.calc_fract(1), (189, 190, 254));
    assert_eq!(walk.calc_fract(0), (190, 191, 0));
    assert_eq!(walk.calc_fract(190), (0, 1, 0));
    assert_eq!(walk.calc_fract(114), (152, 153, 0));
}

#[test]
fn quadrants() {
    let c = Pt::new(10, 20);
    assert_eq!(quad_to_real(1, 5, 1, c), Pt::new(15, 19));
    assert_eq!(quad_to_real(1, 5, 2, c), Pt::new(9, 15));
    assert_eq!(quad_to_real(1, 5, 3, c), Pt::new(5, 21));
    assert_eq!(quad_to_real(1, 5, 4, c), Pt::new(11, 25));
}

#[test]
fn steps_of_a_small_circle() {
    let got = steps_of(5, Pt::new(0, 0));
    // floor(5 / sqrt 2) = 3: four columns and three rows to the quadrant
    assert_eq!(got.len(), 28);
    let first: Vec<(i64, i64, i64, i64, u8)> =
        got[..7].iter().map(|s| (s.a.x, s.a.y, s.b.x, s.b.y, s.o)).collect();
    assert_eq!(
        first,
        vec![
            (5, 0, 6, 0, 0),
            (4, -1, 5, -1, 229),
            (4, -2, 5, -2, 149),
            (4, -3, 5, -3, 0),
            (3, -4, 3, -5, 0),
            (2, -4, 2, -5, 149),
            (1, -4, 1, -5, 229),
        ]
    );
    // the other quadrants are the first, turned
    for q in 1..4 {
        for i in 0..7 {
            let (s, t) = (got[i], got[7 * q + i]);
            assert_eq!(t.o, s.o);
            let turned = |p: Pt<i64>| {
                let mut p = p;
                for _ in 0..q {
                    p = Pt::new(p.y, -p.x);
                }
                p
            };
            assert_eq!(t.a, turned(s.a));
            assert_eq!(t.b, turned(s.b));
        }
    }
}

#[test]
fn smallest_circle() {
    let got = steps_of(1, Pt::new(3, 3));
    let list: Vec<(i64, i64, i64, i64, u8)> =
        got.iter().map(|s| (s.a.x, s.a.y, s.b.x, s.b.y, s.o)).collect();
    assert_eq!(
        list,
        vec![(4, 3, 5, 3, 0), (3, 2, 3, 1, 0), (2, 3, 1, 3, 0), (3, 4, 3, 5, 0)]
    );
}

#[test]
fn draw_is_plotting_the_steps() {
    let c = Pt::new(20, 20);
    let mut got = blank(40, 40);
    draw(&mut got, AAArc::start(15, c), RED);
    let mut want = blank(40, 40);
    for s in steps_of(15, c) {
        plot_aa(&mut want, s.a, s.b, s.o, RED);
    }
    let got = got.into_raw();
    assert_eq!(got, want.into_raw());
    assert!(got.chunks(4).any(|p| p != [255, 255, 255, 255]));
}

#[test]
fn the_whole_circle_from_equal_angles() {
    let c = Pt::new(20, 20);
    let mut got = blank(40, 40);
    let d = Dir::new(3, -2).unwrap();
    antialiased_arc(&mut got, d, d, 15, c, RED);
    let mut want = blank(40, 40);
    draw(&mut want, AAArc::start(15, c), RED);
    assert_eq!(got.into_raw(), want.into_raw());
}

#[test]
fn part_of_the_circle() {
    let c = Pt::new(20, 20);
    let mut cv = blank(40, 40);
    // the upper half
    antialiased_arc(&mut cv, Dir::new(1, 0).unwrap(), Dir::new(-1, 0).unwrap(), 15, c, RED);
    assert_eq!(cv.get(35, 20), Some(RED));
    assert_eq!(cv.get(20, 5), Some(RED));
    assert_eq!(cv.get(5, 20), Some(RED));
    assert_eq!(cv.get(20, 35), Some(WHITE));
    for y in 21..40 {
        for x in 0..40 {
            assert_eq!(cv.get(x, y), Some(WHITE), "at ({}, {})", x, y);
        }
    }
    // three quarters, from the top round to the right
    let mut cv = blank(40, 40);
    antialiased_arc(&mut cv, Dir::new(0, 1).unwrap(), Dir::new(1, 0).unwrap(), 15, c, RED);
    assert_eq!(cv.get(20, 5), Some(RED));
    assert_eq!(cv.get(5, 20), Some(RED));
    assert_eq!(cv.get(20, 35), Some(RED));
    assert_eq!(cv.get(35, 20), Some(RED));
    for y in 0..20 {
        for x in 21..40 {
            assert_eq!(cv.get(x, y), Some(WHITE), "at ({}, {})", x, y);
        }
    }
}

#[test]
fn circle_off_the_canvas() {
    let mut cv = blank(10, 10);
    draw(&mut cv, AAArc::start(190, Pt::new(-1000, 5)), RED);
    assert!(cv.into_raw().iter().all(|b| *b == 255));
    let mut cv = blank(10, 10);
    draw(&mut cv, AAArc::start(12, Pt::new(0, 0)), RED);
    assert_eq!(cv.get(0, 0), Some(WHITE));
    assert_eq!(cv.get(0, 9), Some(WHITE));
    assert_ne!(cv.get(9, 8), Some(WHITE));
}

#[test]
fn no_walk_without_a_radius() {
    assert_eq!(AAArc::try_start(0, Pt::new(0, 0)).map(|w| w.r), None);
    assert_eq!(AAArc::try_start(-7, Pt::new(0, 0)).map(|w| w.r), None);
    let w = AAArc::try_start(5, Pt::new(1, 2)).unwrap();
    assert_eq!((w.r, w.turn, w.quad, w.end, w.fast, w.rows, w.c), (5, 3, 1, 4, 0, false, Pt::new(1, 2)));

    let c = Pt::new(20, 20);
    let d = Dir::new(1, 0).unwrap();
    let mut cv = blank(40, 40);
    assert!(!freehand::aa::try_antialiased_arc(&mut cv, d, d, 0, c, RED));
    assert!(!freehand::aa::try_antialiased_arc(&mut cv, d, d, -15, c, RED));
    assert!(cv.into_raw().iter().all(|b| *b == 255));
    let mut cv = blank(40, 40);
    assert!(freehand::aa::try_antialiased_arc(&mut cv, d, d, 15, c, RED));
    let mut want = blank(40, 40);
    draw(&mut want, AAArc::start(15, c), RED);
    assert_eq!(cv.into_raw(), want.into_raw());
}
