//! The game in play.
use lungbreak::game::Game;
use lungbreak::kind::{Kind, KINDS};
use lungbreak::lung::{dist_to_segment, Point};
use lungbreak::motion::{bounce_off_paddle, Ball};
use lungbreak::scene::{Instance, FLOATS_PER_INSTANCE};
use lungbreak::single::Single;
use lungbreak::{
    BALL_R, BARREN_BOUNCES, CELL, CIG_W, CIG_Y, COLS, GRID_X, GRID_Y, H, PIERCE_BOUNCES, PLEURA,
    RADIOLOGIST_BOUNCES, ROWS, W, WALL_L, WALL_R, WALL_TOP,
};

fn s(x: f32) -> Single {
    Single { bits: x.to_bits() }
}

fn f(x: Single) -> f32 {
    f32::from_bits(x.bits)
}

fn ball(x: f32, y: f32, vx: f32, vy: f32) -> Ball {
    Ball { x: s(x), y: s(y), vx: s(vx), vy: s(vy) }
}

const WF: f32 = W as f32;
const HF: f32 = H as f32;
const CIG_WF: f32 = CIG_W as f32;
const CIG_YF: f32 = CIG_Y as f32;
const RF: f32 = BALL_R as f32;

fn tick(g: &mut Game, dt: f32) {
    g.tick(s(dt));
}

fn live(g: &Game) -> usize {
    g.blocks.iter().filter(|b| b.alive).count()
}

/// Keep the paddle under the ball.
fn follow(g: &mut Game) {
    g.cig_x = g.ball.x;
}

/// Keep the paddle under the ball, but in the field.
fn follow_in_field(g: &mut Game) {
    g.cig_x = s(f(g.ball.x).clamp(CIG_WF / 2.0, WF - CIG_WF / 2.0));
}

/// A block's place and size.
fn rect(g: &Game, i: usize) -> (f32, f32, f32, f32) {
    let (x, y, w, h) = g.block_rect(i);
    (x as f32, y as f32, w as f32, h as f32)
}

/// A path as pairs.
fn corners(g: &Game) -> Vec<[f32; 2]> {
    g.path.iter().map(|p| [f(p.x), f(p.y)]).collect()
}

fn point(p: [f32; 2]) -> Point {
    Point { x: s(p[0]), y: s(p[1]) }
}

/// Distance from a point to a polyline.
fn dist_to_path(path: &[[f32; 2]], p: [f32; 2]) -> f32 {
    path.windows(2)
        .map(|w| f(dist_to_segment(point(p), point(w[0]), point(w[1]))))
        .fold(f32::MAX, f32::min)
}

#[test]
fn ball_clears_blocks_and_buffer_never_grows() {
    let mut g = Game::new();
    let cap = g.instances.capacity();
    let start = live(&g);
    assert!(start > 50, "lung should have blocks, got {start}");

    for _ in 0..20_000 {
        follow(&mut g); // perfect autoplay, never lose
        tick(&mut g, 1.0 / 60.0);
        g.rebuild();
        assert!(g.instances.capacity() == cap, "reallocated: view would detach");
        assert!(g.instances.len() <= cap, "overflowed the GPU buffer");
    }
    assert!(!g.lost);
    assert!(live(&g) < start);
}

#[test]
fn merging_frees_cells_and_widens_one() {
    let mut g = Game::new();
    let before = live(&g);
    g.merge_alveoli();
    let merged: Vec<u8> =
        g.blocks.iter().filter(|b| b.alive && b.span > 1).map(|b| b.span).collect();
    assert_eq!(merged.len(), 1, "exactly one merged block");
    let span = merged[0] as usize;
    let freed = before - live(&g);
    assert_eq!(freed, span * span - 1, "{span}x{span} collapses to 1 block");
}

#[test]
fn airways_are_carved_and_lung_is_two_lobes() {
    // The built grid, not the raw silhouette: the cull of speckle runs after.
    let g = Game::new();
    let live = |c: usize, r: usize| g.blocks[r * COLS + c].alive;
    let total: usize = (0..ROWS).map(|r| (0..COLS).filter(|&c| live(c, r)).count()).sum();
    assert!(total > 300, "lung too sparse: {total}");

    // Trachea occupies the midline at the top, then the mediastinum below
    // the carina is clear.
    assert!(live(COLS / 2, 0), "no trachea at the top of the midline");
    assert!(
        (ROWS / 2..ROWS).all(|r| !live(COLS / 2, r)),
        "mediastinum should be clear below the carina"
    );

    // Both lobes present at mid-height.
    let mid = ROWS / 2;
    assert!((0..COLS / 2).any(|c| live(c, mid)), "no left lobe");
    assert!((COLS / 2..COLS).any(|c| live(c, mid)), "no right lobe");

    // Airways remove tissue: some row has an interior gap inside a lobe.
    let has_interior_gap = (0..ROWS).any(|r| {
        let cells: Vec<usize> = (0..COLS / 2).filter(|&c| live(c, r)).collect();
        cells.len() > 2 && cells.last().unwrap() - cells[0] + 1 > cells.len()
    });
    assert!(has_interior_gap, "airways carved nothing out of the left lobe");
}

#[test]
fn hit_blocks_burn_then_disappear() {
    let mut g = Game::new();
    let start = live(&g);

    // Run until the ball destroys something.
    let mut hit_at = None;
    for n in 0..2_000 {
        follow(&mut g);
        tick(&mut g, 1.0 / 60.0);
        if live(&g) < start {
            hit_at = Some(n);
            break;
        }
    }
    assert!(hit_at.is_some(), "ball never hit a block");

    let burning = g.blocks.iter().filter(|b| !b.alive && f(b.burn) > 0.0).count();
    assert!(burning > 0, "destroyed block should be burning");

    // A burning block is emitted as kind 6, with progress starting at 0.
    g.rebuild();
    let b = g.instances.iter().find(|i| f(i.kind) == 6.0).expect("no burning instance");
    assert!((0.0..=1.0).contains(&f(b.burn)), "progress out of range: {}", f(b.burn));
    // The kind must stay a clean integer, with nothing packed into its fraction.
    assert!(
        g.instances.iter().all(|i| f(i.kind).fract() == 0.0),
        "kind must stay integral"
    );

    // After the burn window those blocks stop rendering. Tracked by index: the
    // serve keeps breaking tissue on its way down, so there is almost always
    // something else burning.
    let burning_now: Vec<usize> = (0..g.blocks.len())
        .filter(|&i| !g.blocks[i].alive && f(g.blocks[i].burn) > 0.0)
        .collect();
    let longest = burning_now.iter().map(|&i| f(g.blocks[i].burn)).fold(0.0f32, f32::max);
    for _ in 0..((longest * 60.0) as usize + 10) {
        tick(&mut g, 1.0 / 60.0);
    }
    assert!(
        burning_now.iter().all(|&i| f(g.blocks[i].burn) <= 0.0),
        "burn outlived its window"
    );
}

/// The stride and offsets that the renderer reads are derived from this layout.
#[test]
fn instance_layout_matches_shader() {
    assert_eq!(std::mem::size_of::<Instance>(), FLOATS_PER_INSTANCE * 4);
    assert_eq!(std::mem::size_of::<Instance>(), 24, "STRIDE in index.html");
    let mut g = Game::new();
    let i = Instance { x: s(1.0), y: s(2.0), w: s(3.0), h: s(4.0), kind: s(5.0), burn: s(6.0) };
    g.instances.clear();
    g.instances.push(i);
    let raw: Vec<f32> = g.words().into_iter().map(f32::from_bits).collect();
    // rect <- bytes 0..16, kind <- 16..20, burn <- 20..24
    assert_eq!(raw, [1.0, 2.0, 3.0, 4.0, 5.0, 6.0], "field order changed");
}

#[test]
fn pneumothorax_collapses_one_side_only() {
    let mut g = Game::new();
    let mid = COLS / 2;
    let side_counts = |g: &Game| {
        let l = g.blocks.iter().enumerate().filter(|(i, b)| b.alive && i % COLS < mid).count();
        let r = g.blocks.iter().enumerate().filter(|(i, b)| b.alive && i % COLS >= mid).count();
        (l, r)
    };
    let (l0, r0) = side_counts(&g);
    g.apply(Kind::Pneumothorax);
    let (l1, r1) = side_counts(&g);

    // Exactly one side is wiped; the other is untouched.
    assert!(
        (l1 == 0 && r1 == r0) || (r1 == 0 && l1 == l0),
        "expected one side cleared, got {l0}->{l1} and {r0}->{r1}"
    );
    // The collapsed side is mid-burn, staggered rather than uniform.
    let durations: Vec<f32> =
        g.blocks.iter().filter(|b| f(b.burn) > 0.0).map(|b| f(b.burn_full)).collect();
    assert!(durations.len() > 20, "collapse should ignite many blocks");
    let min = durations.iter().cloned().fold(f32::MAX, f32::min);
    let max = durations.iter().cloned().fold(0.0, f32::max);
    assert!(max - min > 0.2, "collapse should be staggered, spread {}", max - min);
}

/// Fibres refresh the piercing window, they do not stack.
#[test]
fn asbestos_refreshes_rather_than_stacks() {
    let mut g = Game::new();
    g.apply(Kind::Asbestos);
    assert_eq!(g.pierce, PIERCE_BOUNCES);

    // A second fibre caught at full charge adds nothing.
    g.apply(Kind::Asbestos);
    assert_eq!(g.pierce, PIERCE_BOUNCES, "asbestos stacked");

    // And one caught part-way through restores the full window.
    g.pierce = 1;
    g.apply(Kind::Asbestos);
    assert_eq!(g.pierce, PIERCE_BOUNCES, "a top-up should refresh to the full window");
}

#[test]
fn asbestos_lasts_four_paddle_bounces() {
    let mut g = Game::new();
    g.apply(Kind::Asbestos);
    assert_eq!(g.pierce, PIERCE_BOUNCES);

    let mut bounces = 0;
    let mut destroyed_while_piercing = 0;
    for _ in 0..20_000 {
        follow(&mut g); // perfect autoplay
        // Suppress drops so that the run measures one fibre from full.
        g.pickup = None;
        let piercing = g.pierce > 0;
        let vy_before = f(g.ball.vy);
        let live_before = live(&g);
        let pierce_before = g.pierce;
        tick(&mut g, 1.0 / 60.0);

        if g.pierce < pierce_before {
            bounces += 1;
        }
        // While piercing, destroying blocks must not flip vertical travel.
        let destroyed = live_before - live(&g);
        if piercing && destroyed > 0 {
            destroyed_while_piercing += destroyed;
            if vy_before < 0.0 {
                assert!(f(g.ball.vy) < 0.0, "piercing ball reflected off a block");
            }
        }
        if g.pierce == 0 && bounces == 4 {
            break;
        }
    }
    assert_eq!(bounces, 4, "pierce should be spent by exactly 4 bounces");
    assert!(
        destroyed_while_piercing > 6,
        "a fibre should cut whole channels, only got {destroyed_while_piercing}"
    );
}

#[test]
fn spawn_weights_gate_pneumothorax_until_scattered() {
    let mut g = Game::new();
    // An intact lung drops only the two tissue-breaking kinds.
    for _ in 0..500 {
        let k = g.roll_kind();
        assert!(
            k == Some(Kind::Cigarettes) || k == Some(Kind::Asbestos),
            "intact lung rolled {k:?}; opening drops should be cigarettes or asbestos"
        );
    }

    // Break the lung up until it is mostly exposed, then the endgame kinds
    // become reachable. Killing every other column does it directly.
    for i in 0..g.blocks.len() {
        if g.blocks[i].alive && (i % COLS) % 2 == 0 {
            g.ignite(i, s(0.0));
        }
    }
    assert!(f(g.scatter()) > 0.95, "setup should be fully scattered, got {}", f(g.scatter()));

    let mut saw_pneumo = false;
    let mut saw_radiologist = false;
    for _ in 0..2_000 {
        match g.roll_kind() {
            Some(Kind::Pneumothorax) => saw_pneumo = true,
            Some(Kind::Radiologist) => saw_radiologist = true,
            _ => {}
        }
    }
    assert!(saw_radiologist, "radiologist never rolled on a scattered lung");
    assert!(saw_pneumo, "pneumothorax never rolled on a scattered lung");
}

/// The ball must bounce off the inner face of the drawn pleura.
#[test]
fn ball_bounces_off_the_pleura_not_the_canvas_edge() {
    let mut g = Game::new();
    // Fire it flat and fast at the right wall; autoplay alone keeps the ball in
    // a central column and never tests the sides.
    g.ball = ball(WF / 2.0, 520.0, 320.0, -40.0);
    let mut touched_left = false;
    let mut touched_right = false;
    for _ in 0..20_000 {
        follow(&mut g);
        tick(&mut g, 1.0 / 60.0);
        let x = f(g.ball.x);
        // Never inside the membrane.
        assert!(x - RF >= PLEURA as f32 - 0.5, "ball entered the left pleura: x={x}");
        assert!(x + RF <= WF - PLEURA as f32 + 0.5, "ball entered the right pleura: x={x}");
        if x <= WALL_L as f32 + 1.0 {
            touched_left = true;
        }
        if x >= WALL_R as f32 - 1.0 {
            touched_right = true;
        }
    }
    // At least one side wall must get hit, or the assertions above are vacuous.
    assert!(touched_left || touched_right, "never reached a side wall");
}

/// The count must never drift from the truth.
#[test]
fn alive_count_tracks_the_blocks() {
    let mut g = Game::new();
    assert_eq!(g.alive_count, live(&g), "wrong at start");

    for n in 0..3_000 {
        follow(&mut g);
        tick(&mut g, 1.0 / 60.0);
        if n % 200 == 0 {
            g.apply(Kind::Pneumothorax); // bulk removal path
            g.apply(Kind::Cigarettes); // merge path
        }
        assert_eq!(g.alive_count, live(&g), "drifted at frame {n}");
    }
}

#[test]
fn destroying_every_block_wins_and_stops_the_game() {
    let mut g = Game::new();
    assert!(!g.won);

    // Collapse both lungs: two pneumothoraces clear each side in turn.
    for _ in 0..8 {
        if g.alive_count == 0 {
            break;
        }
        g.apply(Kind::Pneumothorax);
    }
    assert_eq!(g.alive_count, 0, "setup failed to clear the lungs");
    assert!(g.won, "clearing every block must win");
    assert!(!g.lost, "winning is not losing");
    assert!(g.cleared());

    // The clock stops and the ball freezes once won.
    let ball = g.ball;
    let t = g.elapsed;
    for _ in 0..120 {
        tick(&mut g, 1.0 / 60.0);
    }
    assert_eq!(g.elapsed, t, "clock kept running after the win");
    assert_eq!(g.ball, ball, "ball kept moving after the win");

    // But burns still finish, so the final collapse animates out.
    assert!(g.blocks.iter().all(|b| f(b.burn) == 0.0), "burns should have completed");
}

#[test]
fn catching_records_the_kind_and_bumps_the_sequence() {
    let mut g = Game::new();
    assert_eq!(g.caught_seq, 0);
    assert!(g.caught.is_none());

    for (n, kind) in KINDS.iter().enumerate() {
        g.apply(*kind);
        assert_eq!(g.caught, Some(*kind), "wrong kind recorded");
        assert_eq!(g.caught_seq, n as u32 + 1, "sequence must bump per catch");
    }
    // Two catches of the same kind still advance it, or the overlay would not
    // retrigger.
    let before = g.caught_seq;
    g.apply(Kind::Cigarettes);
    g.apply(Kind::Cigarettes);
    assert_eq!(g.caught_seq, before + 2);
}

/// The ball must fit through the channel between the pleura and the outermost
/// block column.
#[test]
fn ball_fits_between_the_pleura_and_the_grid() {
    let gap = GRID_X - PLEURA;
    assert!(
        gap >= BALL_R * 2,
        "only {gap}px between pleura and grid, ball is {}px wide",
        BALL_R * 2
    );
    // And the grid must not run under the membrane at all.
    assert!(GRID_X >= PLEURA, "grid starts inside the pleura");
    let right = GRID_X + COLS as u32 * CELL;
    assert!(right <= W - PLEURA, "grid ends inside the right pleura");
    // The walls are its inner face, a radius off, and the grid is centred.
    assert_eq!((WALL_L, WALL_R, WALL_TOP), (PLEURA + BALL_R, W - PLEURA - BALL_R, PLEURA + BALL_R));
    assert_eq!(2 * GRID_X + COLS as u32 * CELL, W);
}

#[test]
fn every_kind_is_named_for_the_player() {
    let mut names: Vec<&str> = KINDS.iter().map(|k| k.name()).collect();
    for k in KINDS {
        assert!(!k.name().is_empty(), "{k:?} has no name");
        assert!(!k.blurb().is_empty(), "{k:?} has no blurb");
        // Labels sit under a falling sprite; keep them short enough to read.
        assert!(k.name().len() <= 16, "{k:?} name too long: {}", k.name());
        assert!(k.blurb().len() <= 40, "{k:?} blurb too long: {}", k.blurb());
    }
    names.sort_unstable();
    names.dedup();
    assert_eq!(names.len(), KINDS.len(), "names must be distinct");
}

#[test]
fn every_kind_has_a_distinct_sprite() {
    let mut ids: Vec<u32> = KINDS.iter().map(|k| k.sprite()).collect();
    ids.sort_unstable();
    ids.dedup();
    assert_eq!(ids.len(), KINDS.len(), "sprite ids must be unique");
    // Must not collide with the numbers of tissue, paddle, ball and fire.
    for id in ids {
        assert!(id >= 10, "pickup sprite {id} collides with entity kinds");
    }
}

/// The drawn path must be where the ball goes.
#[test]
fn prediction_matches_real_physics() {
    let mut g = Game::new();
    // Park the paddle out of reach: a paddle under the ball would end the path
    // at the catch instead of the floor.
    g.cig_x = s(-1000.0);
    g.predict();
    let path = corners(&g);
    assert!(path.len() > 2, "path should bounce at least once");
    assert!(
        path.last().unwrap()[1] >= HF - 1.0,
        "path must reach the bottom, ended at y={}",
        path.last().unwrap()[1]
    );

    let first_impact = path[1];
    let mut worst: f32 = 0.0;
    for _ in 0..4_000 {
        tick(&mut g, 1.0 / 240.0); // fine steps
        let p = [f(g.ball.x), f(g.ball.y)];
        // Only up to the first impact.
        if (p[0] - first_impact[0]).hypot(p[1] - first_impact[1]) < 12.0 {
            break;
        }
        worst = worst.max(dist_to_path(&path, p));
        if p[1] > HF {
            break;
        }
    }
    assert!(worst < 12.0, "ball drifted {worst:.1}px before the first impact");
}

/// Accuracy at the real frame rate, for the part of the path that the player
/// steers by.
#[test]
fn prediction_is_accurate_for_the_first_few_bounces() {
    let mut g = Game::new();
    g.ball = ball(WF / 2.0, HF * 0.5, -160.0, -300.0);
    g.predict();
    let path = corners(&g);
    assert!(path.len() >= 5, "need a multi-bounce path, got {}", path.len());

    let near: Vec<[f32; 2]> = path.iter().take(2).copied().collect();
    let end = near[near.len() - 1];

    g.cig_x = s(-10_000.0);
    let mut worst: f32 = 0.0;
    for _ in 0..4_000 {
        tick(&mut g, 1.0 / 60.0); // the rate the game runs at
        let p = [f(g.ball.x), f(g.ball.y)];
        // Stop once the ball reaches the end of the segment under test.
        if (p[0] - end[0]).hypot(p[1] - end[1]) < 12.0 {
            break;
        }
        worst = worst.max(dist_to_path(&near, p));
        if p[1] > HF {
            break;
        }
    }
    assert!(worst < 12.0, "near path diverged by {worst:.1}px at 60fps");
}

#[test]
fn prediction_honours_asbestos() {
    let mut g = Game::new();
    // Aim up into the middle of the lung, where it will meet many blocks.
    g.ball = ball(400.0, 300.0, -160.0, -300.0);

    g.predict();
    let normal_broken = g.broken.len();
    assert!(normal_broken > 1, "setup should hit several blocks");

    g.apply(Kind::Asbestos);
    g.predict();
    assert!(
        g.broken.len() > normal_broken,
        "piercing should cut more blocks ({} vs {normal_broken})",
        g.broken.len()
    );
    let path = corners(&g);
    assert!(path.last().unwrap()[1] >= HF, "piercing path must still reach the floor");

    // Direction only changes at walls. Corners are recorded at every impact,
    // pierced blocks included, so check the heading.
    let dir = |a: [f32; 2], b: [f32; 2]| {
        let (dx, dy) = (b[0] - a[0], b[1] - a[1]);
        let len = (dx * dx + dy * dy).sqrt().max(1e-6);
        [dx / len, dy / len]
    };
    for i in 1..path.len() - 1 {
        let before = dir(path[i - 1], path[i]);
        let after = dir(path[i], path[i + 1]);
        let turned =
            (before[0] - after[0]).abs() > 1e-3 || (before[1] - after[1]).abs() > 1e-3;
        if !turned {
            continue; // cut straight through, as piercing should
        }
        let v = path[i];
        let at_wall = v[0] <= WALL_L as f32 + 1.0
            || v[0] >= WALL_R as f32 - 1.0
            || v[1] <= WALL_TOP as f32 + 1.0;
        assert!(at_wall, "piercing path turned at a block: vertex {i} = {v:?}");
    }
}

/// The drawn path must hold all the way to the floor.
#[test]
fn prediction_holds_for_the_whole_path() {
    let mut g = Game::new();
    g.ball = ball(400.0, 300.0, -160.0, -300.0);
    g.predict();
    let path = corners(&g);
    assert!(path.len() > 6, "need a long multi-bounce path, got {}", path.len());

    g.cig_x = s(-10_000.0);
    let mut worst: f32 = 0.0;
    for _ in 0..4_000 {
        tick(&mut g, 1.0 / 60.0);
        worst = worst.max(dist_to_path(&path, [f(g.ball.x), f(g.ball.y)]));
        if f(g.ball.y) > HF {
            break;
        }
    }
    // Tight on purpose: the two solves are the same code on the same state.
    assert!(worst < 1.0, "ball left the drawn path by {worst:.1}px");
}

/// Mean area of the blocks that the ball can still hit.
fn mean_target(g: &Game) -> f32 {
    let live: Vec<usize> = (0..g.blocks.len()).filter(|&i| g.blocks[i].alive).collect();
    let area: f32 = live
        .iter()
        .map(|&i| {
            let (_, _, w, h) = rect(g, i);
            w * h
        })
        .sum();
    area / live.len() as f32
}

/// Cigarettes make the field easier to clear: fewer blocks, each a bigger
/// target. Every carton must also land.
#[test]
fn cartons_consolidate_the_lung() {
    let mut g = Game::new();
    let (blocks0, target0) = (g.alive_count, mean_target(&g));
    for n in 1..=6 {
        let before = g.alive_count;
        g.apply(Kind::Cigarettes);
        assert!(
            g.alive_count < before,
            "carton {n} merged nothing (still {before} blocks, copd {:.2})",
            f(g.copd)
        );
    }
    assert!(
        g.alive_count < blocks0 / 2 + 10,
        "six cartons should roughly halve the block count: {blocks0} -> {}",
        g.alive_count
    );
    assert!(
        mean_target(&g) > target0 * 1.7,
        "targets should grow substantially: {target0:.0} -> {:.0}",
        mean_target(&g)
    );
}

#[test]
fn dbg_curve() {
    // How many squares of live cells a fresh lung has, by side.
    let g = Game::new();
    for span in 2..=6usize {
        let mut found = 0;
        for row in 0..(ROWS - span) {
            for col in 0..(COLS - span) {
                let ok = (0..span)
                    .all(|dy| (0..span).all(|dx| g.blocks[(row + dy) * COLS + col + dx].alive));
                if ok {
                    found += 1;
                }
            }
        }
        println!("span {span}: {found} clean patches in a fresh lung");
    }
}

/// The x-ray previews one paddle return, ending at the first tissue it meets.
#[test]
fn prediction_previews_the_paddle_return() {
    let mut g = Game::new();
    g.ball = ball(WF / 2.0, HF * 0.72, 40.0, 300.0);
    follow(&mut g); // under the ball, so it is caught rather than missed

    g.predict();
    let path = corners(&g);
    let caught = path
        .iter()
        .position(|v| (v[1] - (CIG_YF - RF)).abs() < 0.5)
        .expect("path should reach the paddle face");
    assert!(caught + 1 < path.len(), "path stops at the catch, no return leg drawn");

    // The return climbs: every vertex after the catch is above it.
    for v in &path[caught + 1..] {
        assert!(v[1] < CIG_YF - RF, "return leg dips back below the paddle at {v:?}");
    }

    // And it ends on tissue or at the apex, not in mid-air.
    let end = *path.last().unwrap();
    let at_apex = end[1] <= WALL_TOP as f32 + 1.0;
    let on_block = (0..g.blocks.len()).any(|i| {
        if !g.blocks[i].alive {
            return false;
        }
        let (bx, by, bw, bh) = rect(&g, i);
        end[0] >= bx - RF - 1.0
            && end[0] <= bx + bw + RF + 1.0
            && end[1] >= by - RF - 1.0
            && end[1] <= by + bh + RF + 1.0
    });
    assert!(at_apex || on_block, "return leg ended in mid-air at {end:?}");
}

/// A ball heading for the gap beside the paddle must still be drawn all the way
/// down.
#[test]
fn prediction_does_not_fake_a_catch_it_will_miss() {
    let mut g = Game::new();
    g.ball = ball(WF / 2.0, HF * 0.72, 0.0, 300.0);
    g.cig_x = s(CIG_WF / 2.0); // hard left, nowhere near the ball

    g.predict();
    let end = *corners(&g).last().unwrap();
    assert!(end[1] >= HF - 1.0, "missed ball should fall to the floor, ended at {end:?}");
}

/// Scatter must start low on an intact lung and rise as the board breaks up.
#[test]
fn scatter_rises_as_the_lung_breaks_up() {
    let mut g = Game::new();
    let intact = f(g.scatter());
    assert!(
        (0.3..0.6).contains(&intact),
        "an intact lung should read as mostly unexposed, got {intact:.2}"
    );

    // Cartons raise it: a merge leaves its absorbed cells dead, which exposes
    // the neighbours.
    g.apply(Kind::Cigarettes);
    g.apply(Kind::Cigarettes);
    assert!(f(g.scatter()) > intact, "cartons should expose tissue");

    // Punching holes through it must too, and much harder.
    for i in 0..g.blocks.len() {
        if g.blocks[i].alive && (i % COLS) % 2 == 0 {
            g.ignite(i, s(0.0));
        }
    }
    assert!(
        f(g.scatter()) > 0.95,
        "a combed lung should be fully exposed, got {:.2}",
        f(g.scatter())
    );
}

/// The mix that the player feels: only tissue-breakers early, the finishing
/// tools late, drifting rather than switching at a threshold.
#[test]
fn pickup_mix_follows_the_schedule() {
    let pct = |x: f32, k: Kind| {
        let tot: u32 = KINDS.iter().map(|k| k.weight(s(x))).sum();
        100.0 * k.weight(s(x)) as f32 / tot as f32
    };

    // Opening: 65/35 cigarettes to asbestos, nothing else.
    assert_eq!(pct(0.47, Kind::Cigarettes).round(), 65.0);
    assert_eq!(pct(0.47, Kind::Asbestos).round(), 35.0);
    assert_eq!(pct(0.47, Kind::Radiologist), 0.0);
    assert_eq!(pct(0.47, Kind::Pneumothorax), 0.0);

    // Endgame: the radiologist leads, pneumothorax stays rare.
    assert!(pct(1.0, Kind::Radiologist) > 45.0, "radiologist should lead late");
    assert!(pct(1.0, Kind::Pneumothorax) < 15.0, "pneumothorax should stay rare");

    // And it drifts, with no jump between neighbours.
    let steps = [0.55f32, 0.65, 0.75, 0.85, 0.95];
    for w in steps.windows(2) {
        assert!(
            pct(w[1], Kind::Radiologist) > pct(w[0], Kind::Radiologist),
            "radiologist share should keep rising ({:.2} -> {:.2})", w[0], w[1]
        );
        assert!(
            pct(w[1], Kind::Cigarettes) < pct(w[0], Kind::Cigarettes),
            "cigarette share should keep falling ({:.2} -> {:.2})", w[0], w[1]
        );
        assert!(
            (pct(w[1], Kind::Radiologist) - pct(w[0], Kind::Radiologist)).abs() < 25.0,
            "mix jumps too hard between {:.2} and {:.2}", w[0], w[1]
        );
    }
}

/// A vertical ball would bounce in one column for ever.
#[test]
fn a_centred_catch_never_returns_the_ball_vertically() {
    let mut b = ball(WF / 2.0, CIG_YF - RF, 0.0, 300.0);
    assert!(bounce_off_paddle(&mut b, s(WF / 2.0)), "dead centre should still bounce");
    let (vx, vy) = (f(b.vx), f(b.vy));
    assert!(vx.abs() > 1.0, "vertical return: vx = {vx}");
    // Speed is preserved, so the nudge cannot creep the ball faster.
    let speed = (vx * vx + vy * vy).sqrt();
    assert!((speed - 300.0).abs() < 1.0, "speed changed to {speed}");
}

/// Two barren returns in a row send a radiologist.
#[test]
fn barren_rallies_send_a_radiologist() {
    let mut g = Game::new();
    // Clear the lung so no bounce can break anything, then rally.
    for i in 0..g.blocks.len() {
        if g.blocks[i].alive {
            g.ignite(i, s(0.0));
        }
    }
    g.won = false;
    g.pickup = None;
    g.ball = ball(WF / 2.0, CIG_YF - RF - 50.0, 30.0, 300.0);

    let mut bounces = 0;
    for _ in 0..3_000 {
        follow_in_field(&mut g);
        let before = g.bounces;
        tick(&mut g, 1.0 / 60.0);
        if g.bounces != before {
            bounces += 1;
            if bounces < BARREN_BOUNCES {
                assert!(g.pickup.is_none(), "sent help after only {bounces} barren return(s)");
            } else {
                assert_eq!(
                    g.pickup.map(|p| p.kind),
                    Some(Kind::Radiologist),
                    "no radiologist after {bounces} barren returns"
                );
                return;
            }
        }
    }
    panic!("never completed {BARREN_BOUNCES} paddle returns");
}

/// Breaking a block resets the count.
#[test]
fn breaking_blocks_resets_the_barren_count() {
    let mut g = Game::new();
    g.ball = ball(WF / 2.0, HF * 0.5, 90.0, -260.0);
    for _ in 0..4_000 {
        follow_in_field(&mut g);
        tick(&mut g, 1.0 / 60.0);
        // A full lung is being cleared throughout.
        assert!(
            g.barren < BARREN_BOUNCES,
            "barren count reached {} while the ball was still clearing tissue",
            g.barren
        );
        if g.lost || g.won {
            break;
        }
    }
}

/// The serve comes down the airway, not up through the lungs.
#[test]
fn the_serve_starts_at_the_airway_heading_down() {
    let mut g = Game::new();
    let (x, y, vy) = (f(g.ball.x), f(g.ball.y), f(g.ball.vy));

    assert!(vy > 0.0, "serve should head down into the lungs, vy = {vy}");
    assert!((x - WF / 2.0).abs() < 1.0, "serve should start on the midline, x = {x}");
    // Near the top of the grid: the airway, not the belly of the lungs.
    assert!(
        y < GRID_Y as f32 + ROWS as f32 * CELL as f32 * 0.4,
        "serve should start high in the airway, y = {y}"
    );

    // And not embedded in tissue.
    let overlapping = (0..g.blocks.len()).any(|i| {
        if !g.blocks[i].alive {
            return false;
        }
        let (bx, by, bw, bh) = rect(&g, i);
        x + RF > bx && x - RF < bx + bw && y + RF > by && y - RF < by + bh
    });
    assert!(!overlapping, "serve starts inside a live block");

    // The opening descent should cost the lung a little, not a lot.
    let before = g.alive_count;
    for _ in 0..2_000 {
        follow_in_field(&mut g);
        let b0 = g.bounces;
        tick(&mut g, 1.0 / 60.0);
        if g.bounces != b0 {
            break;
        }
    }
    let carved = before - g.alive_count;
    assert!(carved > 0, "serve should reach tissue on the way down");
    assert!(
        carved < before / 10,
        "serve carved {carved} of {before} blocks before the player acted"
    );
}

/// The meter reports tissue destroyed.
#[test]
fn damage_tracks_the_board_not_the_disease() {
    let mut g = Game::new();
    let start = g.starting_alive;
    assert!(start > 0, "a fresh lung should have tissue");

    let damage = |g: &Game| 1.0 - g.alive_count as f32 / g.starting_alive as f32;
    assert_eq!(damage(&g), 0.0, "an untouched lung should read no damage");

    // Destroying tissue moves it.
    let before = damage(&g);
    for i in 0..g.blocks.len() {
        if g.blocks[i].alive {
            g.ignite(i, s(0.0));
            break;
        }
    }
    assert!(damage(&g) > before, "destroying a block should raise damage");

    // Clearing the lung reads exactly full.
    for i in 0..g.blocks.len() {
        if g.blocks[i].alive {
            g.ignite(i, s(0.0));
        }
    }
    assert_eq!(g.alive_count, 0);
    assert!((damage(&g) - 1.0).abs() < 1e-6, "a cleared lung should read 100%");
    assert_eq!(start, g.starting_alive, "the denominator must not drift");
}

#[test]
fn radiologist_clears_on_paddle_bounce() {
    let mut g = Game::new();
    g.apply(Kind::Radiologist);
    assert_eq!(g.radiologist, RADIOLOGIST_BOUNCES);

    for _ in 0..20_000 {
        follow(&mut g);
        g.pickup = None; // no top-ups
        tick(&mut g, 1.0 / 60.0);
        if g.radiologist == 0 {
            break;
        }
    }
    assert_eq!(g.radiologist, 0, "radiologist should end at the first paddle bounce");
}

#[test]
fn trail_respects_the_instance_budget() {
    let mut g = Game::new();
    let cap = g.instances.capacity();
    g.apply(Kind::Radiologist);
    for _ in 0..600 {
        follow(&mut g);
        g.radiologist = 1; // keep it on for the whole run
        tick(&mut g, 1.0 / 60.0);
        g.rebuild();
        assert!(g.instances.len() <= cap, "overflowed instance buffer");
        assert_eq!(g.instances.capacity(), cap, "reallocated: view would detach");
    }
}

#[test]
fn no_stranded_cells() {
    let g = Game::new();
    for row in 0..ROWS {
        for col in 0..COLS {
            if !g.blocks[row * COLS + col].alive {
                continue;
            }
            let live = |dx: i32, dy: i32| {
                let (c, r) = (col as i32 + dx, row as i32 + dy);
                c >= 0
                    && r >= 0
                    && (c as usize) < COLS
                    && (r as usize) < ROWS
                    && g.blocks[r as usize * COLS + c as usize].alive
            };
            assert!(
                (live(-1, 0) || live(1, 0)) && (live(0, -1) || live(0, 1)),
                "stranded cell at ({col}, {row})"
            );
        }
    }
}

#[test]
fn ball_stays_in_bounds() {
    let mut g = Game::new();
    for _ in 0..5_000 {
        follow(&mut g);
        tick(&mut g, 1.0 / 60.0);
        let (x, y) = (f(g.ball.x), f(g.ball.y));
        // The pleura is the wall, not the canvas edge.
        assert!(
            x >= WALL_L as f32 - 0.5 && x <= WALL_R as f32 + 0.5,
            "ball escaped the pleura: x={x}"
        );
        assert!(y >= WALL_TOP as f32 - 0.5, "ball escaped the apex: y={y}");
    }
}
