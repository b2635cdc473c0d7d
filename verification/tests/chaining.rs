use freehand::angle::Dir;
use freehand::canvas::{Canvas, Color};
use freehand::draw::Draw;
use freehand::pt::Pt;

const RED: Color = Color { r: 255, g: 0, b: 0, a: 255 };
const BLUE: Color = Color { r: 0, g: 0, b: 255, a: 255 };

fn blank(w: u32, h: u32) -> Canvas {
    Canvas::from_raw(w, h, vec![255u8; (4 * w * h) as usize]).unwrap()
}

#[test]
fn chained_calls_draw_in_order() {
    let c = Pt::new(50, 50);
    let east = Dir::new(1, 0).unwrap();
    let north = Dir::new(0, 1).unwrap();
    let mut got = blank(100, 100);
    Draw::new(&mut got)
        .rectangle_filled(Pt::new(10, 10), 5, 7, RED)
        .circle(30, c, BLUE)
        .arc(east, north, 40, c, RED)
        .pie_slice_filled(north, east, 10, c, BLUE)
        .annulus(east, north, 15, 20, c, RED)
        .antialiased_arc(east, east, 45, c, BLUE);
    let mut want = blank(100, 100);
    freehand::basics::rectangle_filled(&mut want, Pt::new(10, 10), 5, 7, RED);
    freehand::circle::circle(&mut want, 30, c, BLUE);
    freehand::arc::arc(&mut want, east, north, 40, c, RED);
    freehand::annulus::pie_slice_filled(&mut want, north, east, 10, c, BLUE);
    freehand::annulus::annulus(&mut want, east, north, 15, 20, c, RED);
    freehand::aa::antialiased_arc(&mut want, east, east, 45, c, BLUE);
    assert_eq!(got.get(12, 12), Some(RED));
    assert_eq!(got.get(80, 50), Some(BLUE));
    assert_eq!(got.get(90, 50), Some(RED));
    assert_eq!(got.get(45, 50), Some(BLUE));
    assert_eq!(got.get(55, 45), Some(Color::new(255, 255, 255, 255)));
    assert_eq!(got.get(62, 38), Some(RED));
    assert_eq!(got.get(95, 50), Some(BLUE));
    assert_eq!(got.into_raw(), want.into_raw());
}

#[test]
fn free_constructor() {
    let mut cv = blank(10, 10);
    freehand::draw::new(&mut cv).rectangle_filled(Pt::new(0, 0), 1, 1, RED);
    assert_eq!(cv.get(0, 0), Some(RED));
    assert_eq!(cv.get(1, 0), Some(Color::new(255, 255, 255, 255)));
}
