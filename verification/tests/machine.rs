//! Formulas against the same ones in the machine's floats.
use lungbreak::angle::{cosine, sine};
use lungbreak::game::Game;
use lungbreak::kind::Kind;
use lungbreak::lung::{cell_pos, dist_to_segment, in_lung, is_trachea, length, Point};
use lungbreak::motion::{
    axis_span, bounce_off_block, bounce_off_paddle, off_centre, wall_impact, Axis, Ball, Impact,
};
use lungbreak::rng::next;
use lungbreak::single::Single;
use lungbreak::{COLS, ROWS};

fn s(x: f32) -> Single {
    Single { bits: x.to_bits() }
}

fn f(x: Single) -> f32 {
    f32::from_bits(x.bits)
}

fn pt(p: [f32; 2]) -> Point {
    Point { x: s(p[0]), y: s(p[1]) }
}

fn ball(x: f32, y: f32, vx: f32, vy: f32) -> Ball {
    Ball { x: s(x), y: s(y), vx: s(vx), vy: s(vy) }
}

fn distance(p: [f32; 2], a: [f32; 2], b: [f32; 2]) -> f32 {
    let (abx, aby) = (b[0] - a[0], b[1] - a[1]);
    let (apx, apy) = (p[0] - a[0], p[1] - a[1]);
    let len2 = abx * abx + aby * aby;
    let t = if len2 > 0.0 { ((apx * abx + apy * aby) / len2).clamp(0.0, 1.0) } else { 0.0 };
    let (dx, dy) = (apx - abx * t, apy - aby * t);
    (dx * dx + dy * dy).sqrt()
}

fn place(col: usize, row: usize) -> [f32; 2] {
    [(col as f32 - 19.5) / 20.0, (row as f32 - 11.5) / 12.0]
}

/// The bronchi and their branches: from, to and radius.
const BRANCHES: [([f32; 2], [f32; 2], f32); 9] = [
    ([0.0, -0.58], [-0.32, -0.20], 0.062),
    ([0.0, -0.58], [0.32, -0.20], 0.062),
    ([-0.24, -0.28], [-0.44, -0.38], 0.048),
    ([0.24, -0.28], [0.44, -0.38], 0.048),
    ([-0.28, -0.22], [-0.34, 0.42], 0.050),
    ([0.28, -0.22], [0.34, 0.42], 0.050),
    ([-0.32, 0.12], [-0.56, 0.22], 0.042),
    ([0.32, 0.12], [0.56, 0.22], 0.042),
    ([0.33, 0.34], [0.50, 0.44], 0.040),
];

fn windpipe(p: [f32; 2]) -> bool {
    distance(p, [0.0, -1.0], [0.0, -0.60]) < 0.048
}

fn tissue(col: usize, row: usize) -> bool {
    let p = place(col, row);
    let (nx, ny) = (p[0], p[1]);
    let ax = nx.abs();
    if windpipe(p) {
        return true;
    }
    if ax < 0.10 {
        return false;
    }
    let (apex, base) = (-0.86f32, 0.96f32);
    if ny < apex || ny > base {
        return false;
    }
    let depth = (ny - apex) / (base - apex);
    let half_width = 0.22 + 0.70 * (depth * 1.30).min(1.0).powf(0.50);
    let inner = 0.10 + 0.09 * (1.0 - depth);
    if ax > half_width || ax < inner {
        return false;
    }
    let from_base = (base - ny) / (base - apex);
    if from_base < 0.14 && ax > half_width - (0.14 - from_base) * 3.8 {
        return false;
    }
    if nx < 0.0 {
        let d = ((ax - 0.14) / 0.26).powi(2) + ((ny - 0.46) / 0.42).powi(2);
        if d < 1.0 {
            return false;
        }
    }
    !BRANCHES.iter().any(|(a, b, r)| distance(p, *a, *b) < *r)
}

#[test]
fn every_cell_of_the_lung_is_where_floats_put_it() {
    for row in 0..ROWS {
        for col in 0..COLS {
            let p = cell_pos(col, row);
            let q = place(col, row);
            assert_eq!([f(p.x), f(p.y)], q, "place of ({col}, {row})");
            assert_eq!(is_trachea(p), windpipe(q), "trachea at ({col}, {row})");
            assert_eq!(in_lung(col, row), tissue(col, row), "tissue at ({col}, {row})");
        }
    }
    // The silhouette before stranded cells are culled, and after.
    let seed = (0..ROWS * COLS).filter(|i| tissue(i % COLS, i / COLS)).count();
    let g = Game::new();
    assert!(g.alive_count <= seed);
    assert_eq!(g.alive_count, 382);
}

#[test]
fn the_left_lung_mirrors_the_right() {
    let twig = BRANCHES[8];
    let mut mirrored = 0;
    for row in 0..ROWS {
        for col in 0..COLS / 2 {
            let q = cell_pos(COLS - 1 - col, row);
            let clear = f(dist_to_segment(q, pt(twig.0), pt(twig.1))) >= twig.2;
            if in_lung(col, row) && clear {
                assert!(in_lung(COLS - 1 - col, row), "({col}, {row})");
                mirrored += 1;
            }
        }
    }
    assert!(mirrored > 100);
    // Places are told off the grid too.
    let p = cell_pos(100, 50);
    assert_eq!([f(p.x), f(p.y)], place(100, 50));
    assert!(!in_lung(100, 50));
}

#[test]
fn distances_to_a_segment_are_those_of_floats() {
    let (a, b) = ([0.0, 0.0], [1.0, 0.0]);
    // Beyond either end, over the middle, and to a segment of no length.
    assert_eq!(f(dist_to_segment(pt([-3.0, 4.0]), pt(a), pt(b))), 5.0);
    assert_eq!(f(dist_to_segment(pt([4.0, 4.0]), pt(a), pt(b))), 5.0);
    assert_eq!(f(dist_to_segment(pt([0.5, 2.0]), pt(a), pt(b))), 2.0);
    assert_eq!(f(dist_to_segment(pt([3.0, 4.0]), pt(a), pt(a))), 5.0);
    for (col, row) in [(3, 7), (20, 1), (33, 20)] {
        for (a, b, _) in BRANCHES {
            let p = place(col, row);
            assert_eq!(f(dist_to_segment(pt(p), pt(a), pt(b))), distance(p, a, b));
        }
    }
    assert_eq!(f(length(s(3.0), s(-4.0))), 5.0);
}

#[test]
fn sines_and_cosines_are_within_a_bit_of_those_of_floats() {
    let mut worst = 0u32;
    for k in -1250..=1250 {
        let a = k as f32 / 1000.0;
        // What is right, rounded once.
        let (sin, cos) = ((a as f64).sin() as f32, (a as f64).cos() as f32);
        assert_eq!(f(sine(s(a))), sin, "sin {a}");
        assert_eq!(f(cosine(s(a))), cos, "cos {a}");
        worst = worst.max(a.sin().to_bits().abs_diff(sine(s(a)).bits));
        worst = worst.max(a.cos().to_bits().abs_diff(cosine(s(a)).bits));
    }
    assert!(worst <= 1, "off by {worst} bits");
    assert!(sine(s(f32::NAN)).is_nan() && cosine(s(f32::NAN)).is_nan());
}

#[test]
fn weights_are_those_of_floats() {
    for k in 0..=1000 {
        let scatter = k as f32 / 1000.0;
        let late = ((scatter - 0.55) / 0.40).clamp(0.0, 1.0);
        let mix = |a: f32, b: f32| (a + (b - a) * late).round() as u32;
        assert_eq!(Kind::Cigarettes.weight(s(scatter)), mix(65.0, 10.0));
        assert_eq!(Kind::Asbestos.weight(s(scatter)), mix(35.0, 15.0));
        assert_eq!(Kind::Radiologist.weight(s(scatter)), mix(0.0, 40.0));
        assert_eq!(Kind::Pneumothorax.weight(s(scatter)), mix(0.0, 8.0));
    }
    assert_eq!(Kind::Radiologist.weight(s(0.75)), 20);
    // The opening mix up to 0.55, the last from 0.95 on, on any level.
    let mix = |level: f32| {
        [Kind::Cigarettes, Kind::Asbestos, Kind::Radiologist, Kind::Pneumothorax]
            .map(|k| k.weight(s(level)))
    };
    for level in [f32::MIN, -3.0, 0.0, 0.55] {
        assert_eq!(mix(level), [65, 35, 0, 0], "at {level}");
    }
    for level in [0.95, 1.0, 2.0, f32::MAX] {
        assert_eq!(mix(level), [10, 15, 40, 8], "at {level}");
    }
    // No level, no weight.
    assert_eq!(Kind::Cigarettes.weight(s(f32::NAN)), 0);
}

#[test]
fn burns_last_as_long_as_in_floats() {
    let mut g = Game::new();
    let i = (0..g.blocks.len()).find(|&i| g.blocks[i].alive).unwrap();
    g.ignite(i, s(0.25));
    assert_eq!(f(g.blocks[i].burn), 0.45 * (0.7 + 0.3 * 1.0) + 0.25);
    assert_eq!(g.blocks[i].burn, g.blocks[i].burn_full);
    // A second time does nothing.
    let (alive, destroyed) = (g.alive_count, g.destroyed);
    g.ignite(i, s(9.0));
    assert_eq!((g.alive_count, g.destroyed), (alive, destroyed));
    assert_eq!(g.blocks[i].burn, g.blocks[i].burn_full);

    // A big sac burns longer.
    let mut g = Game::new();
    g.merge_alveoli();
    let i = (0..g.blocks.len()).find(|&i| g.blocks[i].alive && g.blocks[i].span == 2).unwrap();
    g.ignite(i, Single::zero());
    assert_eq!(f(g.blocks[i].burn), 0.45 * (0.7 + 0.3 * 2.0) + 0.0);
}

#[test]
fn a_collapse_spreads_outward_as_in_floats() {
    let mut g = Game::new();
    let was = g.blocks.clone();
    g.collapse_lobe();
    let mut burning = 0;
    for i in 0..was.len() {
        if was[i].alive && !g.blocks[i].alive {
            let (col, row) = ((i % COLS) as f32, (i / COLS) as f32);
            let d = ((col - 20.0).abs() / 20.0).min(1.0);
            let delay = 0.10 + 0.55 * d + 0.10 * (row / 24.0);
            assert_eq!(f(g.blocks[i].burn), 0.45 * (0.7 + 0.3) + delay, "cell {i}");
            burning += 1;
        }
    }
    assert_eq!(burning, g.destroyed as usize);
    assert_eq!(f(g.copd), 0.15);
}

#[test]
fn a_return_is_that_of_floats() {
    for k in -53..=53 {
        let (x, vx, vy) = (300.0 + k as f32, 90.0f32, 300.0f32);
        let mut b = ball(x, 755.0, vx, vy);
        assert!(bounce_off_paddle(&mut b, s(300.0)));
        let speed = (vx * vx + vy * vy).sqrt();
        let mut angle = ((x - 300.0) / 45.0).clamp(-1.0, 1.0) * 1.05;
        if angle.abs() < 0.06 {
            angle = 0.06f32.copysign(if angle == 0.0 { 1.0 } else { angle });
        }
        assert_eq!((f(b.x), f(b.y)), (x, 753.0));
        assert!((f(b.vx) - speed * angle.sin()).abs() < 1e-4, "vx at {k}");
        assert!((f(b.vy) + speed * angle.cos()).abs() < 1e-4, "vy at {k}");
    }
    assert_eq!(f(off_centre(s(345.0), s(300.0))), 1.0);
}

#[test]
fn what_the_paddle_does_not_touch_goes_on() {
    // Rising, above the face, below the paddle, beside it.
    for b in [
        ball(300.0, 755.0, 90.0, -300.0),
        ball(300.0, 755.0, 90.0, 0.0),
        ball(300.0, 752.9, 90.0, 300.0),
        ball(300.0, 779.0, 90.0, 300.0),
        ball(354.0, 755.0, 90.0, 300.0),
        ball(246.0, 755.0, 90.0, 300.0),
    ] {
        let mut after = b;
        assert!(!bounce_off_paddle(&mut after, s(300.0)));
        assert_eq!(after, b);
    }
    // On the top face is in contact.
    assert!(bounce_off_paddle(&mut ball(300.0, 753.0, 90.0, 300.0), s(300.0)));
    assert!(bounce_off_paddle(&mut ball(300.0, 778.9, 90.0, 300.0), s(300.0)));
}

#[test]
fn a_block_turns_the_axis_that_was_struck() {
    let mut b = ball(1.0, 2.0, 3.0, -4.0);
    bounce_off_block(&mut b, Axis::X);
    assert_eq!(b, ball(1.0, 2.0, -3.0, -4.0));
    bounce_off_block(&mut b, Axis::Y);
    assert_eq!(b, ball(1.0, 2.0, -3.0, 4.0));
}

#[test]
fn a_range_is_passed_between_two_times() {
    let span = |pos: f32, vel: f32| {
        let (a, b) = axis_span(s(pos), s(vel), s(10.0), s(20.0));
        (f(a), f(b))
    };
    assert_eq!(span(0.0, 5.0), (2.0, 4.0));
    assert_eq!(span(30.0, -5.0), (2.0, 4.0));
    assert_eq!(span(15.0, 5.0), (-1.0, 1.0));
    // Standing still: always, or never.
    assert_eq!(span(15.0, 0.0), (f32::NEG_INFINITY, f32::INFINITY));
    assert_eq!(span(10.0, 1e-7), (f32::NEG_INFINITY, f32::INFINITY));
    assert_eq!(span(25.0, 0.0), (f32::INFINITY, f32::NEG_INFINITY));
}

#[test]
fn walls_are_met_when_they_are_reached() {
    let hit = |b: Ball| wall_impact(&b, s(1.0));
    assert_eq!(hit(ball(71.0, 400.0, -100.0, 0.0)), Impact::Wall(true, false, s(0.5)));
    assert_eq!(hit(ball(529.0, 400.0, 100.0, 50.0)), Impact::Wall(true, false, s(0.5)));
    assert_eq!(hit(ball(300.0, 71.0, 0.0, -100.0)), Impact::Wall(false, true, s(0.5)));
    // A corner turns both.
    assert_eq!(hit(ball(71.0, 71.0, -100.0, -100.0)), Impact::Wall(true, true, s(0.5)));
    // On the wall and into it is a hit; there is no floor; nothing in time.
    assert!(matches!(hit(ball(21.0, 400.0, -100.0, 0.0)), Impact::Wall(true, false, _)));
    assert_eq!(hit(ball(300.0, 700.0, 0.0, 300.0)), Impact::Free);
    assert_eq!(hit(ball(300.0, 400.0, 100.0, 0.0)), Impact::Free);
}

#[test]
fn the_generator_is_a_xorshift() {
    let mut g = Game::new();
    assert_eq!(g.rng, 0x2545F491);
    let mut x = 0x2545F491u32;
    for _ in 0..1000 {
        x ^= x << 13;
        x ^= x >> 17;
        x ^= x << 5;
        assert_eq!(g.rand(), x);
    }
    assert_eq!(next(1), 270369);
}
