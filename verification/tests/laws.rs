//! What holds of every game, on games that are played.
use lungbreak::board::Block;
use lungbreak::game::Game;
use lungbreak::impact::next_impact;
use lungbreak::kind::Kind;
use lungbreak::lung::Point;
use lungbreak::merge::{find_patch, Patch};
use lungbreak::motion::{axis_span, bounce_off_paddle, Ball, Impact};
use lungbreak::rng::next;
use lungbreak::scene::{draw_trail, MOST_INSTANCES};
use lungbreak::single::Single;
use lungbreak::world::Pickup;
use lungbreak::{CELLS, COLS, GRID_Y, MAX_TRAIL_DOTS, ROWS, SPAWN_EVERY};

fn s(x: f32) -> Single {
    Single { bits: x.to_bits() }
}

fn f(x: Single) -> f32 {
    f32::from_bits(x.bits)
}

fn ball(x: f32, y: f32, vx: f32, vy: f32) -> Ball {
    Ball { x: s(x), y: s(y), vx: s(vx), vy: s(vy) }
}

fn live(g: &Game) -> usize {
    g.blocks.iter().filter(|b| b.alive).count()
}

/// A game with the board empty but for some cells.
fn only(cells: &[usize]) -> Game {
    let mut g = Game::new();
    for i in 0..CELLS {
        g.blocks[i].alive = cells.contains(&i);
    }
    g.alive_count = cells.len();
    g.starting_alive = cells.len();
    g
}

#[test]
fn play_only_empties_the_board() {
    let mut g = Game::new();
    for n in 0..3_000 {
        let was = g.blocks.clone();
        let (alive, destroyed, copd) = (g.alive_count, g.destroyed, f(g.copd));
        g.set_paddle(if n % 7 == 0 { s(300.0) } else { g.ball.x });
        if n % 400 == 399 {
            g.apply(Kind::Cigarettes);
        }
        g.tick(s(1.0 / 60.0));
        assert!((0..CELLS).all(|i| was[i].alive || !g.blocks[i].alive), "a block came back");
        assert_eq!(g.alive_count, live(&g));
        assert!(g.alive_count <= alive && g.destroyed >= destroyed);
        assert!(g.destroyed as usize + g.alive_count <= destroyed as usize + alive);
        assert!(f(g.copd) >= copd && f(g.copd) <= 1.0);
        assert!(g.pierce <= 4 && g.radiologist <= 1);
    }
}

#[test]
fn an_end_is_for_good_and_only_burns_go_on() {
    let mut g = Game::new();
    g.ignite(17 * COLS + 8, s(1.0));
    g.lost = true;
    let (ball, elapsed) = (g.ball, g.elapsed);
    let burning = g.blocks.iter().filter(|b| f(b.burn) > 0.0).count();
    assert!(burning > 0);
    for _ in 0..200 {
        g.tick(s(1.0 / 60.0));
    }
    assert!(g.lost && !g.won);
    assert_eq!((g.ball, g.elapsed), (ball, elapsed));
    assert!(g.blocks.iter().all(|b| f(b.burn) == 0.0), "a burn did not run out");
}

#[test]
fn two_pneumothoraces_clear_the_lungs() {
    let mut g = Game::new();
    let start = g.alive_count;
    g.apply(Kind::Pneumothorax);
    assert!(!g.won && g.alive_count > 0);
    let left = (0..CELLS).any(|i| g.blocks[i].alive && i % COLS < COLS / 2);
    let right = (0..CELLS).any(|i| g.blocks[i].alive && i % COLS >= COLS / 2);
    assert!(left != right, "one side is left");
    g.apply(Kind::Pneumothorax);
    assert!(g.won && g.cleared() && !g.lost);
    assert_eq!(g.destroyed as usize, start);
    assert_eq!(f(g.copd), 0.15 + 0.15);
}

#[test]
fn a_collapse_burns_longer_outward() {
    let mut g = Game::new();
    let was = g.blocks.clone();
    g.apply(Kind::Pneumothorax);
    let mut pairs = 0;
    let taken = |i: usize| was[i].alive && !g.blocks[i].alive;
    for i in (0..CELLS).filter(|&i| taken(i)) {
        assert_eq!(g.blocks[i].burn, g.blocks[i].burn_full);
        assert!(f(g.blocks[i].burn) > 0.0);
        let j = i + 1;
        if j % COLS != 0 && taken(j) {
            let out = |i: usize| (i % COLS).abs_diff(COLS / 2);
            assert_eq!(out(i) < out(j), f(g.blocks[i].burn) < f(g.blocks[j].burn));
            pairs += 1;
        }
    }
    assert!(pairs > 50);
}

#[test]
fn a_merge_lands_where_there_is_one_square_left() {
    // The last square of the sweep, which no probe is likely to hit.
    let p = Patch { col: COLS - 3, row: ROWS - 3, span: 2 };
    let at = |c: usize, r: usize| r * COLS + c;
    let cells = [
        at(p.col, p.row),
        at(p.col + 1, p.row),
        at(p.col, p.row + 1),
        at(p.col + 1, p.row + 1),
    ];
    let mut g = only(&cells);
    assert_eq!(find_patch(&g.blocks, g.rng, 4).0, Some(p));
    g.merge_alveoli();
    assert_eq!((g.alive_count, g.destroyed, g.won), (1, 0, false));
    assert_eq!(g.blocks[cells[0]].span, 2);
    assert_eq!(f(g.copd), 0.05);
    // Nothing is left to merge.
    let before = g.blocks.clone();
    g.merge_alveoli();
    assert!((0..CELLS).all(|i| g.blocks[i] == before[i]));
    assert_eq!(f(g.copd), 0.05);
}

#[test]
fn sacs_grow_with_the_disease() {
    for (copd, span) in [(0.25, 2), (0.26, 3), (0.55, 3), (0.56, 4), (1.0, 4)] {
        let mut g = Game::new();
        g.copd = s(copd);
        g.merge_alveoli();
        let widest = g.blocks.iter().filter(|b| b.alive).map(|b| b.span).max();
        assert_eq!(widest, Some(span), "at {copd}");
        assert_eq!(f(g.copd), (copd + 0.05).min(1.0));
    }
}

#[test]
fn every_sixth_hit_drops_something() {
    let mut g = Game::new();
    let row = 18;
    let cells: Vec<usize> =
        (0..COLS).map(|c| row * COLS + c).filter(|&i| g.blocks[i].alive).collect();
    let mut counted = 0;
    for &i in cells.iter().take(14) {
        let falls = g.pickup.is_some();
        g.strike(i);
        assert!(!g.blocks[i].alive && g.broke_since_bounce);
        if !falls {
            counted += 1;
        }
        assert_eq!(g.spawn_counter, counted);
        assert_eq!(g.pickup.is_some(), falls || counted % SPAWN_EVERY == 0);
    }
    // It fell from the middle of the sixth block, and kept the others from
    // counting.
    assert_eq!(counted, 6);
    let p: Pickup = g.pickup.unwrap();
    let (x, y, w, _) = g.block_rect(cells[5]);
    assert_eq!((f(p.x), f(p.y)), (x as f32 + w as f32 / 2.0, y as f32));
}

#[test]
fn an_intact_lung_rolls_what_breaks_tissue() {
    let mut g = Game::new();
    assert!(f(g.scatter()) <= 0.55);
    for _ in 0..500 {
        let k = g.roll_kind().unwrap();
        assert!(k == Kind::Cigarettes || k == Kind::Asbestos, "{k:?}");
    }
    // With nothing left but lone cells everything can fall.
    let mut g = only(&[0, 50, 900]);
    assert_eq!(f(g.scatter()), 1.0);
    let mut seen = [false; 4];
    for _ in 0..500 {
        seen[g.roll_kind().unwrap().sprite() as usize - 10] = true;
    }
    assert_eq!(seen, [true; 4]);
}

#[test]
fn scatter_is_the_share_of_exposed_cells() {
    assert_eq!(f(only(&[]).scatter()), 1.0);
    // A full square of nine: all but the one in the middle are exposed.
    let cells: Vec<usize> = (0..9).map(|k| (5 + k / 3) * COLS + 5 + k % 3).collect();
    assert_eq!(f(only(&cells).scatter()), 8.0 / 9.0);
    // The edge of the grid is as good as a gap.
    let all: Vec<usize> = (0..CELLS).collect();
    let rim = 2 * COLS + 2 * (ROWS - 2);
    assert_eq!(f(only(&all).scatter()), rim as f32 / CELLS as f32);
}

#[test]
fn what_is_caught_lasts_its_bounces() {
    let mut g = Game::new();
    g.apply(Kind::Asbestos);
    g.apply(Kind::Radiologist);
    let mut left = vec![];
    for _ in 0..6 {
        left.push((g.pierce, g.radiologist));
        g.pickup = None;
        g.book_return();
    }
    assert_eq!(left, vec![(4, 1), (3, 0), (2, 0), (1, 0), (0, 0), (0, 0)]);
    assert_eq!(g.bounces, 6);
}

#[test]
fn the_second_barren_return_sends_help() {
    let mut g = Game::new();
    g.set_paddle(s(45.0));
    g.book_return();
    assert!(g.pickup.is_none() && g.barren == 1);
    g.book_return();
    let p: Pickup = g.pickup.unwrap();
    assert_eq!((p.kind, f(p.x), f(p.y)), (Kind::Radiologist, 45.0, GRID_Y as f32));
    assert_eq!(g.barren, 0);
    // Not while something falls.
    g.book_return();
    g.book_return();
    g.book_return();
    assert_eq!(g.barren, 3);
    assert_eq!(f(g.pickup.unwrap().y), GRID_Y as f32);
    // A rally that broke something starts over.
    g.pickup = None;
    let i = (0..CELLS).find(|&i| g.blocks[i].alive).unwrap();
    g.strike(i);
    g.book_return();
    assert_eq!(g.barren, 0);
    assert!(g.pickup.is_none() && !g.broke_since_bounce);
}

#[test]
fn a_pickup_is_caught_missed_or_falls_on() {
    let drop = |x: f32, y: f32| {
        let mut g = Game::new();
        g.set_paddle(s(300.0));
        g.pickup = Some(Pickup { x: s(x), y: s(y), kind: Kind::Asbestos });
        g.fall(s(0.05));
        g
    };
    // Falls on, by 190 pixels a second.
    let g = drop(300.0, 100.0);
    assert_eq!((f(g.pickup.unwrap().y), g.caught_seq), (100.0 + 190.0 * 0.05, 0));
    // Touches the paddle from above, and at its end.
    assert_eq!((drop(300.0, 740.0).pickup.is_none(), drop(300.0, 740.0).caught_seq), (true, 1));
    assert_eq!(drop(364.0, 750.0).caught_seq, 1);
    assert_eq!(drop(365.0, 750.0).caught_seq, 0);
    // Gone below.
    let g = drop(100.0, 803.0);
    assert_eq!((g.pickup.is_none(), g.caught_seq), (true, 0));
    let g = drop(100.0, 802.0);
    assert!(g.pickup.is_some());
}

#[test]
fn a_return_goes_up_and_aside() {
    for k in -53..=53 {
        let mut b = ball(300.0 + k as f32, 755.0, -12.0, 250.0);
        assert!(bounce_off_paddle(&mut b, s(300.0)));
        assert!(f(b.vy) < 0.0 && f(b.vx) != 0.0, "at {k}");
        assert_eq!(f(b.vx) < 0.0, k < 0, "the paddle aims, at {k}");
    }
}

#[test]
fn a_ball_at_game_speed_stays_inside_to_the_bit() {
    let mut x = 0x2545F491u32;
    for n in 0..400 {
        let mut g = Game::new();
        x = next(x);
        let vx = (x % 638) as f32 - 319.0;
        let vy = (x / 638 % 638) as f32 - 319.0;
        let px = 21.0 + (x / 1000 % 558) as f32;
        g.ball = ball(px, 21.0 + (n % 500) as f32, vx, vy);
        for k in 0..120 {
            g.set_paddle(g.ball.x);
            g.tick(s(if k % 2 == 0 { 1.0 / 60.0 } else { 0.05 }));
            let (bx, by) = (f(g.ball.x), f(g.ball.y));
            assert!((21.0..=579.0).contains(&bx) && by >= 21.0, "({bx}, {by}) from {px} at {vx}");
            if f(g.ball.vx).abs() > 319.0 || f(g.ball.vy).abs() > 319.0 {
                break;
            }
        }
    }
}

#[test]
fn the_ball_keeps_its_pace_and_stays_inside_all_game() {
    let mut g = Game::new();
    let mut x = 0x2545F491u32;
    for n in 0..12_000 {
        x = next(x);
        // Mostly a good player, who aims here and there.
        g.set_paddle(s(f(g.ball.x) + (x % 41) as f32 - 20.0));
        g.pickup = None;
        // A board that is never cleared.
        if g.alive_count < 50 {
            let (ball, bounces) = (g.ball, g.bounces);
            g = Game::new();
            g.ball = ball;
            g.bounces = bounces;
        }
        g.tick(s(if n % 3 == 0 { 0.05 } else { 1.0 / 60.0 }));
        let (vx, vy) = (f(g.ball.vx) as f64, f(g.ball.vy) as f64);
        let energy = vx * vx + vy * vy;
        let slack = 0.31 * g.bounces as f64;
        assert!((energy - 98_100.0).abs() <= slack, "{energy} after {} returns", g.bounces);
        assert!((21.0..=579.0).contains(&f(g.ball.x)) && f(g.ball.y) >= 21.0);
    }
    assert!(!g.lost && g.bounces > 50, "only {} returns", g.bounces);
}

#[test]
fn a_return_keeps_the_speed() {
    for k in -53..=53 {
        let (vx, vy) = (-12.0f64, 250.0f64);
        let mut b = ball(300.0 + k as f32, 755.0, vx as f32, vy as f32);
        assert!(bounce_off_paddle(&mut b, s(300.0)));
        let (was, now) = (vx * vx + vy * vy, (f(b.vx) as f64).powi(2) + (f(b.vy) as f64).powi(2));
        assert!((now - was).abs() <= was * 3e-6, "{was} to {now} at {k}");
        let speed = was.sqrt();
        // Between the angles 0.06 and 1.05.
        assert!((f(b.vx) as f64).abs() >= 0.059 * speed && f(b.vy) as f64 <= -0.48 * speed);
    }
}

#[test]
fn a_followed_ball_is_never_lost() {
    for dt in [1.0 / 60.0, 0.05, 0.013] {
        let mut g = Game::new();
        for _ in 0..4_000 {
            g.cig_x = g.ball.x;
            g.tick(s(dt));
            assert!(!g.lost);
            assert!(f(g.ball.y) <= 770.0);
        }
        assert!(g.bounces > 10 || g.won);
    }
}

#[test]
fn a_fast_ball_is_never_half_a_pixel_past_a_wall() {
    let mut x = 0x2545F491u32;
    for _ in 0..3_000 {
        let mut g = Game::new();
        x = next(x);
        let vx = (x % 8192) as f32 - 4096.0;
        x = next(x);
        let vy = (x % 8192) as f32 - 4096.0;
        x = next(x);
        let at = (21.0 + (x % 558) as f32, 21.0 + (x / 558 % 700) as f32);
        g.ball = ball(at.0, at.1, vx, vy);
        g.tick(s(0.05));
        let (bx, by) = (f(g.ball.x), f(g.ball.y));
        assert!((20.5..=579.5).contains(&bx) && by >= 20.5, "({bx}, {by}) from {at:?}");
    }
    // One that ends a tick just as it meets the wall is past it by a bit.
    let mut g = only(&[0]);
    g.ball = ball(41.0, 500.0, -1200.0, 0.0);
    g.tick(s(1.0 / 60.0));
    assert!(f(g.ball.x) < 21.0 && f(g.ball.x) > 20.9999);
}

#[test]
fn the_next_impact_is_the_first_and_does_not_depend_on_the_limit() {
    let g = only(&[5 * COLS + 20, 8 * COLS + 20]);
    // Straight up the column from below: the lower block comes first.
    let b = ball(306.0, 400.0, 0.0, -100.0);
    let low = 8 * COLS + 20;
    let hit = next_impact(&g.blocks, &b, s(9.0), &[]);
    assert!(matches!(hit, Impact::Block(i, _, _) if i == low));
    assert_eq!(next_impact(&g.blocks, &b, s(99.0), &[]), hit);
    // Left out, the other; both out, the apex; too soon, nothing.
    let hit = next_impact(&g.blocks, &b, s(9.0), &[low]);
    assert!(matches!(hit, Impact::Block(i, _, _) if i == 5 * COLS + 20));
    let hit = next_impact(&g.blocks, &b, s(9.0), &[low, 5 * COLS + 20]);
    assert!(matches!(hit, Impact::Wall(false, true, _)));
    assert_eq!(next_impact(&g.blocks, &b, s(0.5), &[]), Impact::Free);
}

#[test]
fn the_ball_breaks_what_the_path_breaks() {
    let mut g = Game::new();
    let mut followed = 0;
    for n in 0..3_000 {
        g.set_paddle(s(f(g.ball.x) + (n % 61) as f32 - 30.0));
        g.pickup = None;
        // While nothing but walls and blocks has a say.
        if f(g.ball.y) < 700.0 {
            g.predict();
            let (path, broken) = (g.path.clone(), g.broken.clone());
            assert_eq!(path[0], g.ball.point());
            g.tick(s(1.0 / 60.0));
            assert!(g.hits.len() <= broken.len());
            assert_eq!(g.hits[..], broken[..g.hits.len()], "the ball left the path");
            followed += g.hits.len();
        } else {
            g.tick(s(1.0 / 60.0));
        }
    }
    assert!(followed > 20, "only {followed} blocks were broken");
}

#[test]
fn a_prediction_starts_at_the_ball_and_breaks_live_blocks_once() {
    let mut g = Game::new();
    for n in 0..300 {
        g.set_paddle(s(f(g.ball.x) + (n % 61) as f32 - 30.0));
        g.predict();
        assert_eq!(g.path[0], g.ball.point());
        assert!((1..=161).contains(&g.path.len()));
        assert!(g.broken.iter().all(|&i| g.blocks[i].alive));
        let mut once = g.broken.clone();
        once.sort_unstable();
        once.dedup();
        assert_eq!(once.len(), g.broken.len());
        // Again, it comes out the same.
        let (path, broken) = (g.path.clone(), g.broken.clone());
        g.predict();
        assert!(g.path == path && g.broken == broken);
        g.tick(s(1.0 / 60.0));
    }
}

#[test]
fn a_piercing_ball_is_not_turned_by_blocks() {
    let cells: Vec<usize> = (0..6).map(|r| (10 + r) * COLS + 20).collect();
    let mut g = only(&cells);
    g.pierce = 1;
    g.ball = ball(306.0, 320.0, 0.0, -300.0);
    for _ in 0..30 {
        g.tick(s(1.0 / 60.0));
        if f(g.ball.vy) > 0.0 {
            break;
        }
        assert_eq!((f(g.ball.vx), f(g.ball.vy)), (0.0, -300.0));
    }
    assert!(g.won && g.destroyed == 6, "the channel was not cut: {}", g.destroyed);
}

#[test]
fn a_block_is_struck_once_in_a_tick() {
    let mut g = Game::new();
    for _ in 0..2_000 {
        g.set_paddle(g.ball.x);
        let was = g.blocks.clone();
        g.tick(s(0.05));
        let mut hits = g.hits.clone();
        assert!(hits.iter().all(|&i| was[i].alive && !g.blocks[i].alive));
        hits.sort_unstable();
        hits.dedup();
        assert_eq!(hits.len(), g.hits.len());
    }
}

#[test]
fn what_is_drawn_is_numbered_and_fits() {
    let mut g = Game::new();
    g.apply(Kind::Radiologist);
    g.apply(Kind::Cigarettes);
    g.apply(Kind::Pneumothorax);
    g.pickup = Some(Pickup { x: s(300.0), y: s(300.0), kind: Kind::Radiologist });
    g.tick(s(0.05));
    g.rebuild();
    assert!(g.instances.len() <= MOST_INSTANCES);
    let known = [0.0, 1.0, 2.0, 3.0, 5.0, 6.0, 7.0, 8.0, 10.0, 11.0, 12.0, 13.0];
    for i in &g.instances {
        assert!(known.contains(&f(i.kind)), "kind {}", f(i.kind));
        assert!((0.0..=1.0).contains(&f(i.burn)), "burn {}", f(i.burn));
    }
    let dots = g.instances.iter().filter(|i| f(i.kind) == 7.0).count();
    assert!(dots > 0 && dots <= MAX_TRAIL_DOTS);
    // Dots are evenly spaced along the first leg.
    let d: Vec<f32> = g.instances.iter().filter(|i| f(i.kind) == 7.0).map(|i| f(i.y)).collect();
    assert_eq!(d[0], f(g.ball.y) - 2.0);
}

#[test]
fn a_fresh_block_is_whole() {
    let g = Game::new();
    for b in &g.blocks {
        let whole = Block { alive: b.alive, airway: b.airway, ..g.blocks[0] };
        assert_eq!(*b, whole);
        assert_eq!((b.span, f(b.burn), f(b.burn_full)), (1, 0.0, 0.0));
    }
    assert_eq!(g.ball, ball(300.0, f(g.ball.y), 90.0, 300.0));
    assert_eq!((f(g.ball.y) - 70.0 - 6.5) % 13.0, 0.0);
}

#[test]
fn a_skipped_block_counts_as_a_dead_one() {
    let g = Game::new();
    let skip: Vec<usize> = (0..CELLS).filter(|i| i % 3 == 0).collect();
    let mut c = g.blocks.clone();
    for &i in &skip {
        c[i].alive = false;
    }
    let mut met = 0;
    for k in 0..200 {
        let b = ball(30.0 + 2.7 * k as f32, 500.0 - k as f32, 150.0 - 1.5 * k as f32, -310.0);
        let hit = next_impact(&g.blocks, &b, s(9.0), &skip);
        assert_eq!(hit, next_impact(&c, &b, s(9.0), &[]));
        met += matches!(hit, Impact::Block(_, _, _)) as usize;
    }
    assert!(met > 50, "only {met} blocks were met");
}

#[test]
fn the_next_prediction_is_the_rest_of_the_old_one() {
    // Up to the apex, which is met at the last moment of the tick.
    let mut g = only(&[0]);
    g.ball = ball(300.0, 21.0 + 3355443.0 / 262144.0, 0.0, -256.0);
    g.predict();
    let (path, broken) = (g.path.clone(), g.broken.clone());
    g.tick(s(0.05));
    assert_eq!(g.ball, ball(300.0, 21.0, 0.0, 256.0));
    g.predict();
    assert_eq!(g.path[..], path[1..]);
    assert_eq!(g.broken, broken);
    assert!(g.path.len() > 1);
    // Up to a block, which is dead after the tick and was left out before it.
    let mut g = only(&[0, 20]);
    g.ball = ball(306.0, 90.0 + 3355443.0 / 131072.0, 0.0, -512.0);
    g.predict();
    let (path, broken) = (g.path.clone(), g.broken.clone());
    assert_eq!(broken, [20]);
    g.tick(s(0.05));
    assert_eq!(g.ball, ball(306.0, 90.0, 0.0, 512.0));
    assert_eq!(g.hits, [20]);
    g.predict();
    assert_eq!(g.path[..], path[1..]);
    assert!(g.broken.is_empty());
}

#[test]
fn a_drawing_leaves_the_game() {
    let (mut g, mut h) = (Game::new(), Game::new());
    g.apply(Kind::Radiologist);
    h.apply(Kind::Radiologist);
    for n in 0..2_000 {
        for w in [&mut g, &mut h] {
            let x = s(f(w.ball.x) + (n % 41) as f32 - 20.0);
            w.set_paddle(x);
            w.tick(s(1.0 / 60.0));
        }
        g.rebuild();
        assert_eq!(g.ball, h.ball);
        assert_eq!(g.blocks, h.blocks);
        assert_eq!((g.alive_count, g.destroyed, g.bounces), (h.alive_count, h.destroyed, h.bounces));
        assert_eq!((g.rng, g.lost, g.won), (h.rng, h.lost, h.won));
    }
    assert!(g.destroyed > 20);
}

#[test]
fn a_span_is_an_interval() {
    let span = |pos: f32, vel: f32, lo: f32, hi: f32| {
        let (a, b) = axis_span(s(pos), s(vel), s(lo), s(hi));
        (f(a), f(b))
    };
    assert_eq!(span(0.0, 2.0, 4.0, 8.0), (2.0, 4.0));
    assert_eq!(span(0.0, -2.0, 4.0, 8.0), (-4.0, -2.0));
    assert_eq!(span(6.0, -2.0, 4.0, 8.0), (-1.0, 1.0));
    assert_eq!(span(6.0, 0.0, 4.0, 8.0), (f32::NEG_INFINITY, f32::INFINITY));
    assert_eq!(span(9.0, 0.0, 4.0, 8.0), (f32::INFINITY, f32::NEG_INFINITY));
    for vel in [-319.0, -0.3, 0.000_001, 7.0, 1e30] {
        for pos in [-5.0, 4.0, 5.5, 8.0, 1e20] {
            let (a, b) = span(pos, vel, 4.0, 8.0);
            assert!(a <= b);
            assert!(!(4.0..=8.0).contains(&pos) || (a <= 0.0 && 0.0 <= b));
        }
    }
}

/// The middles of the dots along a path.
fn dots(path: &[(f32, f32)]) -> Vec<(f64, f64)> {
    let path: Vec<Point> = path.iter().map(|p| Point { x: s(p.0), y: s(p.1) }).collect();
    let mut out = Vec::new();
    draw_trail(&path, &mut out);
    out.iter().map(|d| (f(d.x) as f64 + 2.0, f(d.y) as f64 + 2.0)).collect()
}

#[test]
fn neighbouring_dots_are_a_spacing_apart() {
    let d = dots(&[(31.7, 640.2), (577.1, 88.9)]);
    assert_eq!(d.len(), 52);
    assert!((d[0].0 - 31.7).abs() < 1e-4 && (d[0].1 - 640.2).abs() < 1e-4);
    for w in d.windows(2) {
        let apart = (w[1].0 - w[0].0).powi(2) + (w[1].1 - w[0].1).powi(2);
        assert!((apart - 225.0).abs() < 1.0, "{apart}");
    }
}

#[test]
fn the_rhythm_goes_on_through_a_bounce() {
    // Seven dots on the first leg, the last ten from its end, and so the first on
    // the second leg five from its start. The stretch of no length between them
    // changes nothing.
    let d = dots(&[(100.0, 100.0), (200.0, 100.0), (200.0, 100.0), (200.0, 200.0)]);
    assert_eq!(d.len(), 14);
    assert_eq!(d[6], (190.0, 100.0));
    assert_eq!(d[7], (200.0, 105.0));
    assert_eq!(d[13], (200.0, 195.0));
    // A leg that is shorter than the remainder gets no dot, and passes it on.
    let d = dots(&[(100.0, 100.0), (101.0, 100.0), (101.0, 104.0), (201.0, 104.0)]);
    assert_eq!(d[..2], [(100.0, 100.0), (111.0, 104.0)]);
}
