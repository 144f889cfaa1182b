//! What a fresh pair of lungs looks like, and the distances that shape it.
use lungbreak::board::{fresh, serve_row};
use lungbreak::game::Game;
use lungbreak::lung::{dist_to_segment, in_lung, length, Point};
use lungbreak::single::Single;
use lungbreak::{COLS, GRID_Y, ROWS};

fn s(x: f32) -> Single {
    Single { bits: x.to_bits() }
}

fn f(x: Single) -> f32 {
    f32::from_bits(x.bits)
}

fn at(x: f32, y: f32) -> Point {
    Point { x: s(x), y: s(y) }
}

/// The lungs, row by row: tissue, and what is culled where it has no support.
const LUNGS: [&str; 24] = [
    "...................##...................",
    "...................##...................",
    ".............###...##...###.............",
    "...........#####...##...#####...........",
    "..........######...##...######..........",
    ".........#######x......x#######.........",
    "........########........########........",
    ".......###....x..........x....###.......",
    ".......#####x..............x#####.......",
    "......######...##......##...######......",
    ".....########..##......##..########.....",
    ".....########..##......##..########.....",
    "....#########..##......##..#########....",
    "....#######............##....#######....",
    "...#####....x..........##..x....#####...",
    "...#########...........###..x########...",
    "..##########...........###...#########..",
    "..##########..........####.##..#######..",
    "..##########..........################..",
    "..##########..........################..",
    "..###########.........################..",
    ".....#########........#############.....",
    ".........#######......#########.........",
    "............####xx....######............",
];

#[test]
fn the_lungs_are_as_drawn() {
    let b = fresh();
    for (row, line) in LUNGS.iter().enumerate() {
        for (col, ch) in line.chars().enumerate() {
            assert_eq!(in_lung(col, row), ch != '.', "seed at ({col}, {row})");
            assert_eq!(b[row * COLS + col].alive, ch == '#', "cell at ({col}, {row})");
        }
    }
    assert_eq!(b.iter().filter(|b| b.alive).count(), 382);
}

#[test]
fn the_trachea_is_two_cells_wide_down_to_the_carina() {
    let b = fresh();
    for row in 0..ROWS {
        for col in 0..COLS {
            let on = (col == 19 || col == 20) && row <= 4;
            assert_eq!(b[row * COLS + col].airway, on);
            if col == 19 || col == 20 {
                assert_eq!(b[row * COLS + col].alive, on);
            }
        }
    }
}

#[test]
fn every_row_of_the_lobes_has_tissue_on_both_sides() {
    let b = fresh();
    for row in 2..ROWS {
        assert!((0..19).any(|col| b[row * COLS + col].alive), "no left lung in {row}");
        assert!((21..COLS).any(|col| b[row * COLS + col].alive), "no right lung in {row}");
    }
}

#[test]
fn the_first_serve_is_two_rows_below_the_carina() {
    assert_eq!(serve_row(&fresh()), 6);
    let g = Game::new();
    assert_eq!(f(g.ball.y), GRID_Y as f32 + 6.5 * 13.0);
    assert_eq!(f(g.ball.x), 300.0);
}

#[test]
fn a_distance_is_that_to_the_nearest_point() {
    // Beside the segment, past one end, past the other, and on it.
    let (a, b) = (at(-0.5, 0.0), at(0.5, 0.0));
    assert_eq!(f(dist_to_segment(at(0.25, 0.375), a, b)), 0.375);
    assert_eq!(f(dist_to_segment(at(0.875, 0.5), a, b)), 0.625);
    assert_eq!(f(dist_to_segment(at(-0.875, -0.5), a, b)), 0.625);
    assert_eq!(f(dist_to_segment(at(0.1, 0.0), a, b)), 0.0);
}

#[test]
fn a_segment_of_no_length_is_a_point() {
    for p in [at(0.3, -0.7), at(0.2, 0.9), at(-1.0, 0.1), at(0.2, 0.1)] {
        let a = at(0.2, 0.1);
        assert_eq!(dist_to_segment(p, a, a), length(p.x.minus(a.x), p.y.minus(a.y)));
    }
    assert_eq!(f(dist_to_segment(at(0.2, 0.1), at(0.2, 0.1), at(0.2, 0.1))), 0.0);
}

#[test]
fn a_segment_is_no_further_than_its_ends() {
    let grid = [-1.0, -0.77, -0.31, 0.0, 0.12, 0.58, 1.0];
    for px in grid {
        for py in grid {
            for ax in grid {
                for by in grid {
                    let (p, a, b) = (at(px, py), at(ax, -0.4), at(0.66, by));
                    let d = f(dist_to_segment(p, a, b));
                    let e = f(length(p.x.minus(a.x), p.y.minus(a.y)));
                    let g = f(length(p.x.minus(b.x), p.y.minus(b.y)));
                    assert!(d >= 0.0);
                    assert!(d * d <= e * e + 1.0 / 32768.0 && d <= e + 1.0 / 128.0);
                    assert!(d * d <= g * g + 1.0 / 32768.0 && d <= g + 1.0 / 128.0);
                }
            }
        }
    }
}
