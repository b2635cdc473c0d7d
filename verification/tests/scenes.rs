use freehand::aa::AAArc;
use freehand::angle::Dir;
use freehand::arc::Arc;
use freehand::canvas::{Canvas, Color};
use freehand::pt::Pt;

const RADS: f64 = std::f64::consts::PI / 4.0;
const IMG_SIZE: u32 = 400;
const RADIUS: i32 = 190;
const CENTER: (i32, i32) = (200, 200);

const RED: Color = Color { r: 255, g: 0, b: 0, a: 255 };
const GREEN: Color = Color { r: 0, g: 255, b: 0, a: 255 };
const WHITE: Color = Color { r: 255, g: 255, b: 255, a: 255 };

fn setup() -> Canvas {
    Canvas::from_raw(IMG_SIZE, IMG_SIZE, vec![255u8; (4 * IMG_SIZE * IMG_SIZE) as usize]).unwrap()
}

fn center() -> Pt<i32> {
    Pt::new(CENTER.0, CENTER.1)
}

fn dir_of(radians: f64) -> Dir {
    let s = (1u32 << 30) as f64;
    Dir::new((radians.cos() * s).round() as i32, (radians.sin() * s).round() as i32).unwrap()
}

/// The pixel nearest to the point of the circle of radius `r` at the angle
/// given in octants.
fn at(octants: f64, r: i32) -> (u32, u32) {
    let t = RADS * octants;
    (
        (CENTER.0 as f64 + r as f64 * t.cos()).round() as u32,
        (CENTER.1 as f64 - r as f64 * t.sin()).round() as u32,
    )
}

/// Whether a pixel of the color lies at the point of the circle of radius
/// `r` at the angle given in octants, or next to it.
fn near(cv: &Canvas, octants: f64, r: i32, c: Color) -> bool {
    let (x, y) = at(octants, r);
    (x - 1..=x + 1).any(|i| (y - 1..=y + 1).any(|j| cv.get(i, j) == Some(c)))
}

fn count(cv: &Canvas, c: Color) -> usize {
    let mut n = 0;
    for y in 0..cv.height() {
        for x in 0..cv.width() {
            if cv.get(x, y) == Some(c) {
                n += 1;
            }
        }
    }
    n
}

#[test]
fn partial_arc() {
    let mut image = setup();
    let start = RADS * 6.3;
    let end = RADS * 6.8;
    let ro = RADIUS;
    let ri = RADIUS - 10;
    let arc = Arc::new(dir_of(start), dir_of(end), ro, center());
    arc.draw(&mut image, RED);
    let arc = Arc::new(dir_of(start), dir_of(end), ri, center());
    arc.draw(&mut image, GREEN);
    assert!(near(&image, 6.5, ro, RED));
    assert!(near(&image, 6.5, ri, GREEN));
    for octants in [0.0, 1.0, 3.3, 6.0, 6.2, 6.9, 7.5] {
        assert!(!near(&image, octants, ro, RED) && !near(&image, octants, ro, GREEN), "at {}", octants);
        assert!(!near(&image, octants, ri, RED) && !near(&image, octants, ri, GREEN), "at {}", octants);
    }
    // one pixel a column, from the column nearest to r * sin(0.3 * 45 deg)
    // to the one nearest to r * sin(0.8 * 45 deg): 44 to 112, and 42 to 106
    assert_eq!(count(&image, RED), 69);
    assert_eq!(count(&image, GREEN), 65);
    assert_eq!(image.get(200 + 44, 200 + 185), Some(RED));
    assert_eq!(image.get(200 + 43, 200 + 185), Some(WHITE));
    assert_eq!(image.get(200 + 112, 200 + 153), Some(RED));
    assert_eq!(image.get(200 + 113, 200 + 153), Some(WHITE));
}

#[test]
fn partial_arc_backwards() {
    let mut image = setup();
    let start = RADS * 6.5;
    let end = RADS * 0.5;
    let ro = RADIUS;
    let ri = RADIUS - 10;
    freehand::arc::arc(&mut image, dir_of(start), dir_of(end), ro, center(), RED);
    freehand::arc::arc(&mut image, dir_of(start), dir_of(end), ri, center(), GREEN);
    for octants in [6.6, 7.0, 7.5, 0.0, 0.4] {
        assert!(near(&image, octants, ro, RED), "at {}", octants);
        assert!(near(&image, octants, ri, GREEN), "at {}", octants);
    }
    for octants in [0.6, 1.0, 2.0, 4.0, 6.0, 6.4] {
        assert!(!near(&image, octants, ro, RED) && !near(&image, octants, ro, GREEN), "at {}", octants);
        assert!(!near(&image, octants, ri, RED) && !near(&image, octants, ri, GREEN), "at {}", octants);
    }
}

#[test]
fn partial_arc_almost_full() {
    let mut image = setup();
    let start = RADS * 0.5;
    let end = RADS * 0.1;
    let ro = RADIUS;
    let ri = RADIUS - 10;
    freehand::arc::arc(&mut image, dir_of(start), dir_of(end), ro, center(), RED);
    freehand::arc::arc(&mut image, dir_of(start), dir_of(end), ri, center(), GREEN);
    for octants in [0.0, 0.05, 0.55, 1.0, 2.5, 4.0, 5.5, 7.0, 7.99] {
        assert!(near(&image, octants, ro, RED), "at {}", octants);
        assert!(near(&image, octants, ri, GREEN), "at {}", octants);
    }
    for octants in [0.15, 0.3, 0.45] {
        assert!(!near(&image, octants, ro, RED) && !near(&image, octants, ro, GREEN), "at {}", octants);
        assert!(!near(&image, octants, ri, RED) && !near(&image, octants, ri, GREEN), "at {}", octants);
    }
}

#[test]
fn arc_draw() {
    let r = 190;
    let c = Pt::new(200, 200);
    let start = RADS * 1.8;
    let end = RADS * 0.5;
    let mut image = setup();
    let arc = Arc::new(dir_of(start), dir_of(end), r, c);
    assert_eq!(arc.radius(), 190);
    assert_eq!(arc.center(), Pt::new(200, 200));
    arc.draw(&mut image, RED);
    for octants in [1.9, 2.0, 3.0, 5.0, 7.0, 0.0, 0.4] {
        assert!(near(&image, octants, r, RED), "at {}", octants);
    }
    for octants in [0.6, 1.0, 1.5, 1.7] {
        assert!(!near(&image, octants, r, RED) && !near(&image, octants, r, GREEN), "at {}", octants);
    }
}

#[test]
fn annulus() {
    let mut image = setup();
    let ri = RADIUS - 40;
    let ro = RADIUS;
    let start = RADS * 1.5;
    let end = RADS * 6.8;
    let center = Pt::new(300, 300);
    let an = freehand::annulus::Annulus::new(dir_of(start), dir_of(end), ri, ro, center);
    an.draw(&mut image, RED);
    // what of the ring around (300, 300) lies on the canvas and between the
    // angles, on the side of the second and third quadrant
    assert_eq!(image.get(300 - 170, 300), Some(RED));
    assert_eq!(image.get(300 - 150, 300), Some(RED));
    assert_eq!(image.get(300 - 190, 300), Some(RED));
    assert_eq!(image.get(300 - 149, 300), Some(WHITE));
    assert_eq!(image.get(300 - 191, 300), Some(WHITE));
    assert_eq!(image.get(300, 300 - 170), Some(RED));
    assert_eq!(image.get(300 - 120, 300 - 120), Some(RED));
    assert_eq!(image.get(300 - 120, 399), Some(RED));
    // before the start, at one octant, and inside the hole
    assert_eq!(image.get(399, 300 - 99), Some(WHITE));
    assert_eq!(image.get(300 + 80, 300 - 140), Some(WHITE));
    assert_eq!(image.get(300 + 60, 300 - 150), Some(RED));
    assert_eq!(image.get(300, 300), Some(WHITE));
    assert_eq!(image.get(300 - 100, 300 - 100), Some(WHITE));
    assert!(count(&image, RED) > 10000);
}

#[test]
fn aa_iter() {
    let mut image = setup();
    let iter = AAArc::start(RADIUS, center());
    freehand::aa::draw(&mut image, iter, RED);
    // where the circle meets the axes it passes through the middle of a
    // pixel, which takes the whole color
    assert_eq!(image.get(390, 200), Some(RED));
    assert_eq!(image.get(200, 10), Some(RED));
    assert_eq!(image.get(10, 200), Some(RED));
    assert_eq!(image.get(200, 390), Some(RED));
    assert_eq!(image.get(391, 200), Some(WHITE));
    assert_eq!(image.get(389, 200), Some(WHITE));
    // one column on: sqrt(190^2 - 1) = 189.9974, so that the pixel at 189
    // gets all of the color but 254 / 255 of its opacity
    let inner = image.get(200 + 189, 199).unwrap();
    let outer = image.get(200 + 190, 199).unwrap();
    assert_eq!(outer, over_white(RED, 254));
    assert_eq!(inner, over_white(RED, 1));
    // off the circle nothing is touched
    assert_eq!(image.get(200, 200), Some(WHITE));
    assert_eq!(image.get(0, 0), Some(WHITE));
    assert_eq!(image.get(200 + 180, 200), Some(WHITE));
}

fn over_white(c: Color, alpha: u8) -> Color {
    let mut p = image::Rgba([255u8, 255, 255, 255]);
    image::Pixel::blend(&mut p, &image::Rgba([c.r, c.g, c.b, alpha]));
    Color::new(p.0[0], p.0[1], p.0[2], p.0[3])
}
