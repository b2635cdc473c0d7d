use freehand::angle::{
    angle_to_end_octant, angle_to_octant, normalize, octant_end_angle, octant_start_angle, Dir,
};
use freehand::arc::Arc;
use freehand::edge::{rim_abscissa, Edge};
use freehand::pos::{Bounds, Pos};
use freehand::pt::{Loc, Pt};
use freehand::ring::{calc_error, ring_height};
use freehand::translate::{iter_to_real, real_to_iter};

fn dir(dx: i32, dy: i32) -> Dir {
    Dir::new(dx, dy).unwrap()
}

#[test]
fn points_and_circles() {
    let p = Pt::new(3, -4);
    assert_eq!((p.x(), p.y()), (3, -4));
    let loc = Loc::new(190, Pt::new(200, 200));
    assert_eq!(loc.r, 190);
    assert_eq!(loc.c, Pt::new(200, 200));
}

#[test]
fn no_direction_without_a_vector() {
    assert_eq!(Dir::new(0, 0), None);
    assert_eq!(Dir::new(0, -1), Some(Dir { dx: 0, dy: -1 }));
    assert_eq!(Dir::new(i32::MIN, i32::MAX), Some(Dir { dx: i32::MIN, dy: i32::MAX }));
}

#[test]
fn degrees_are_brought_into_one_turn() {
    assert_eq!(normalize(0), 0);
    assert_eq!(normalize(359), 359);
    assert_eq!(normalize(360), 0);
    assert_eq!(normalize(725), 5);
    assert_eq!(normalize(-1), 359);
    assert_eq!(normalize(-360), 0);
    assert_eq!(normalize(-725), 355);
    assert_eq!(normalize(i32::MAX), 127);
    assert_eq!(normalize(i32::MIN), 232);
}

#[test]
fn octants_of_directions() {
    // inside the octants the start and the end of an arc agree
    let inside = [(5, 1), (1, 5), (-1, 5), (-5, 1), (-5, -1), (-1, -5), (1, -5), (5, -1)];
    for (i, (dx, dy)) in inside.iter().enumerate() {
        assert_eq!(angle_to_octant(dir(*dx, *dy)), i as u8 + 1);
        assert_eq!(angle_to_end_octant(dir(*dx, *dy)), i as u8 + 1);
    }
    // on a boundary an arc starts in the octant that follows and ends in the
    // one before
    let on = [(1, 0), (1, 1), (0, 1), (-1, 1), (-1, 0), (-1, -1), (0, -1), (1, -1)];
    for (i, (dx, dy)) in on.iter().enumerate() {
        let d = dir(7 * dx, 7 * dy);
        assert_eq!(angle_to_octant(d), i as u8 + 1);
        assert_eq!(angle_to_end_octant(d), (i as u8 + 7) % 8 + 1);
        assert_eq!(octant_start_angle(i as u8 + 1), dir(*dx, *dy));
        assert_eq!(octant_end_angle((i as u8 + 7) % 8 + 1), dir(*dx, *dy));
    }
    assert_eq!(angle_to_octant(dir(i32::MIN, i32::MIN)), 6);
    assert_eq!(angle_to_end_octant(dir(i32::MIN, i32::MIN)), 5);
    assert_eq!(angle_to_octant(dir(i32::MAX, i32::MIN)), 7);
}

#[test]
fn directions_split_by_octant() {
    assert_eq!(dir(5, 1).split(1), (1, 5));
    assert_eq!(dir(1, 5).split(2), (1, 5));
    assert_eq!(dir(-2, 5).split(3), (2, 5));
    assert_eq!(dir(-5, 2).split(4), (2, 5));
    assert_eq!(dir(-5, -3).split(5), (3, 5));
    assert_eq!(dir(-3, -5).split(6), (3, 5));
    assert_eq!(dir(4, -5).split(7), (4, 5));
    assert_eq!(dir(5, -4).split(8), (4, 5));
    assert_eq!(dir(i32::MIN, 0).split(5), (0, 1 << 31));
}

#[test]
fn left_turns() {
    assert!(dir(1, 0).turns_left_to(&dir(1, 1)));
    assert!(dir(1, 0).turns_left_to(&dir(-5, 1)));
    assert!(!dir(1, 0).turns_left_to(&dir(1, 0)));
    assert!(!dir(1, 0).turns_left_to(&dir(-1, 0)));
    assert!(!dir(1, 0).turns_left_to(&dir(1, -1)));
    assert!(dir(i32::MAX, i32::MIN).turns_left_to(&dir(i32::MAX, i32::MAX)));
    assert!(!dir(i32::MIN, i32::MIN).turns_left_to(&dir(i32::MIN, i32::MIN)));
}

#[test]
fn octant_maps() {
    let c = Pt::new(100, 200);
    let want = [
        (107, 198),
        (102, 193),
        (98, 193),
        (93, 198),
        (93, 202),
        (98, 207),
        (102, 207),
        (107, 202),
    ];
    for oct in 1..=8u8 {
        let p = iter_to_real(2, 7, oct, c);
        assert_eq!((p.x, p.y), want[oct as usize - 1], "octant {}", oct);
        let q = real_to_iter(Pt::new(p.x as i32, p.y as i32), oct, c);
        assert_eq!((q.x, q.y), (2, 7));
    }
    let far = iter_to_real(i32::MAX, i32::MIN, 1, Pt::new(i32::MIN, i32::MAX));
    assert_eq!((far.x, far.y), (2 * (i32::MIN as i64), 0));
}

#[test]
fn heights_of_columns() {
    // radius 5: sqrt(25 - x*x) is 5, 4.9, 4.58, 4, 3, 0
    let got: Vec<i32> = (0..=5).map(|x| ring_height(5, x)).collect();
    assert_eq!(got, vec![5, 5, 5, 4, 3, 1]);
    assert_eq!(ring_height(1, 0), 1);
    assert_eq!(ring_height(1, 1), 1);
    assert_eq!(ring_height(190, 134), 135);
    assert_eq!(ring_height(190, 135), 134);
    assert_eq!(ring_height(i32::MAX, 0), i32::MAX);
    assert_eq!(ring_height(i32::MAX, i32::MAX), 1);
    for r in 1..60 {
        for x in 0..=r {
            let y = ring_height(r, x) as i64;
            let n = (r as i64) * (r as i64) - (x as i64) * (x as i64);
            assert!(y >= 1 && y * (y - 1) <= n && n < y * (y + 1));
        }
    }
}

#[test]
fn decision_values() {
    assert_eq!(calc_error(0, 190, 190), 1 - 190);
    assert_eq!(calc_error(0, 5, 5), -4);
    assert_eq!(calc_error(1, 5, 5), -1);
    assert_eq!(calc_error(2, 5, 5), 4);
    assert_eq!(calc_error(3, 4, 5), 3);
    assert_eq!(calc_error(0, 0, 0), 1);
    assert_eq!(calc_error(i32::MAX, i32::MAX, i32::MAX), (1i64 << 62) - i32::MAX as i64);
}

#[test]
fn midpoint_walk() {
    let mut pos = Pos::start(7, 5);
    assert_eq!((pos.x, pos.y, pos.d, pos.ex, pos.r, pos.oct), (0, 5, -4, 5, 5, 7));
    let mut seen = Vec::new();
    while !pos.stop() {
        seen.push((pos.x, pos.y, pos.d));
        pos.inc();
    }
    assert_eq!(seen, vec![(0, 5, -4), (1, 5, -1), (2, 5, 4), (3, 4, 3)]);
    assert_eq!((pos.x, pos.y), (4, 3));

    // begun in the middle of the octant and cut short
    let mut pos = Pos::new(2, Bounds { lo: 40, hi: 42 }, 190);
    assert_eq!((pos.x, pos.y, pos.d, pos.ex), (40, 186, calc_error(40, 186, 190), 42));
    let mut seen = Vec::new();
    while !pos.stop() {
        seen.push((pos.x, pos.y));
        pos.inc();
    }
    assert_eq!(seen, vec![(40, 186), (41, 186), (42, 185)]);

    // begun beyond the diagonal there is nothing to walk
    assert!(Pos::new(1, Bounds { lo: 150, hi: 190 }, 190).stop());
    assert!(Pos::new(1, Bounds { lo: 10, hi: 9 }, 190).stop());
}

#[test]
fn where_directions_cross_circles() {
    assert_eq!(rim_abscissa(0, 1, 190), 0);
    assert_eq!(rim_abscissa(1, 1, 190), 134);
    assert_eq!(rim_abscissa(1, 1, 1), 1);
    assert_eq!(rim_abscissa(1, 1, 2), 1);
    assert_eq!(rim_abscissa(3, 4, 5), 3);
    assert_eq!(rim_abscissa(3, 4, 10), 6);
    // 7 / sqrt(5) = 3.13, 7 * 2 / sqrt(13) = 3.88, 3 / sqrt(2) = 2.12,
    // and 5 / sqrt(2) = 3.54, which is nearer to 4
    assert_eq!(rim_abscissa(1, 2, 7), 3);
    assert_eq!(rim_abscissa(2, 3, 7), 4);
    assert_eq!(rim_abscissa(1, 1, 3), 2);
    assert_eq!(rim_abscissa(1, 1, 5), 4);
    assert_eq!(rim_abscissa(1 << 31, 1 << 31, i32::MAX), 1518500249);
    assert_eq!(rim_abscissa(1, 1 << 31, i32::MAX), 1);
    // half a column, less a little, is nearer to none
    assert_eq!(rim_abscissa(1, 1 << 31, 1 << 30), 0);
    assert_eq!(rim_abscissa(1, 1 << 31, (1 << 30) + 1), 1);

    let e = Edge::start(dir(4, 3), 10);
    assert_eq!((e.oct, e.x, e.dir), (1, 6, dir(4, 3)));
    let e = Edge::end(dir(-4, 4), 10);
    assert_eq!((e.oct, e.x), (3, 7));
    let e = Edge::start(dir(-4, 4), 10);
    assert_eq!((e.oct, e.x), (4, 7));
    let e = Edge::end(dir(0, -9), 190);
    assert_eq!((e.oct, e.x), (6, 0));
}

#[test]
fn bounds_of_visits() {
    let s = Edge::start(dir(1, 3), 100);
    let e = Edge::end(dir(-3, 1), 100);
    assert_eq!((s.oct, s.x, e.oct, e.x), (2, 32, 4, 32));
    // an even octant is walked against the angle: the start is its far end
    assert_eq!(Bounds::start_bounds(&s, &e, false, 100), Bounds { lo: 0, hi: 32 });
    assert_eq!(Bounds::bounds_from_edges(3, &s, &e, 100), Bounds { lo: 0, hi: 100 });
    assert_eq!(Bounds::bounds_from_edges(4, &s, &e, 100), Bounds { lo: 32, hi: 100 });
    let s = Edge::start(dir(9, 1), 100);
    let e = Edge::end(dir(3, 2), 100);
    assert_eq!((s.oct, s.x, e.oct, e.x), (1, 11, 1, 55));
    assert_eq!(Bounds::start_bounds(&s, &e, false, 100), Bounds { lo: 11, hi: 55 });
    assert_eq!(Bounds::start_bounds(&e, &s, true, 100), Bounds { lo: 55, hi: 100 });
    assert_eq!(Bounds::bounds_from_edges(1, &e, &s, 100), Bounds { lo: 0, hi: 11 });
}

#[test]
fn arcs_step_by_step() {
    let c = Pt::new(10, 10);
    let mut arc = Arc::octant(1, 5, c);
    assert_eq!(arc.radius(), 5);
    assert_eq!(arc.center(), c);
    assert!(!arc.stop());
    assert!(arc.end());
    assert_eq!(arc.pt(), Pt::new(15, 10));
    assert_eq!(arc.coords_oct(3), Pt::new(10, 5));
    arc.inc();
    assert_eq!(arc.pt(), Pt::new(15, 9));
    let mut rest = Vec::new();
    while let Some(p) = arc.step() {
        rest.push((p.x, p.y));
    }
    assert_eq!(rest, vec![(15, 9), (15, 8), (14, 7)]);
    assert!(arc.stop());
    assert_eq!(arc.step(), None);

    // all the way round from the middle of octant 1: nine visits
    let d = dir(2, 1);
    let mut arc = Arc::new(d, d, 5, c);
    assert!(arc.revisit);
    assert!(!arc.end());
    let mut all = Vec::new();
    while let Some(p) = arc.step() {
        all.push((p.x, p.y));
    }
    // 5 / sqrt(5) = 2.24: the first visit begins at column 2 and the last
    // ends there
    assert_eq!(&all[..2], &[(15, 8), (14, 7)]);
    assert_eq!(&all[all.len() - 3..], &[(15, 10), (15, 9), (15, 8)]);
    assert_eq!(all.len(), 2 + 7 * 4 + 3);

    // moving on by hand
    let mut arc = Arc::new(dir(1, 0), dir(0, 1), 5, c);
    while !arc.stop() {
        arc.inc();
    }
    assert!(!arc.end());
    arc.restart();
    assert_eq!(arc.pos.oct, 2);
    assert!(arc.end());
    assert_eq!(arc.pt(), Pt::new(10, 5));
}

#[test]
fn largest_circles() {
    let r = i32::MAX;
    let c = Pt::new(i32::MIN, i32::MAX);
    let mut arc = Arc::new(dir(1, 0), dir(i32::MAX, 1), r, c);
    let p = arc.step().unwrap();
    assert_eq!((p.x, p.y), (-1, i32::MAX as i64));
    let p = arc.step().unwrap();
    assert_eq!((p.x, p.y), (-1, i32::MAX as i64 - 1));
    assert_eq!(arc.step(), None);

    let mut ring = freehand::annulus::Annulus::new(dir(0, 1), dir(-1, i32::MAX), r - 1, r, c);
    assert_eq!(ring.oct, 3);
    assert_eq!(ring.step(), (0, r - 1, r));
    // the end direction crosses column 1 at the height of the radius
    assert_eq!(ring.step(), (1, r, r));
    assert_eq!(ring.step(), (2, 1, 0));

    let mut walk = freehand::aa::AAArc::start(r, c);
    let s = walk.next().unwrap();
    assert_eq!((s.a.x, s.a.y, s.b.x, s.b.y, s.o), (-1, r as i64, 0, r as i64, 0));
    let s = walk.next().unwrap();
    assert_eq!((s.a.x, s.a.y, s.b.x, s.b.y, s.o), (-2, r as i64 - 1, -1, r as i64 - 1, 255));
    assert_eq!(walk.turn, 1518500249);
}
