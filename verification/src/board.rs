//! The lungs as a grid of blocks: what a fresh pair looks like, and what can be
//! counted and found on one.
use crate::lung::{cell_pos, cell_pos_spec, in_lung, in_lung_spec, is_trachea, is_trachea_spec};
use crate::single::Single;
use crate::{BALL_R, CELL, CELLS, COLS, GRID_X, GRID_Y, ROWS, W};
use vstd::prelude::*;

verus! {

/// A block of tissue. One that merged has a span over one, and the cells that
/// it absorbed are dead.
#[derive(Clone, Copy, PartialEq, Eq, Structural, Debug)]
pub struct Block {
    pub alive: bool,
    /// Cells that it covers, across and down.
    pub span: u8,
    pub airway: bool,
    /// Seconds left of the burn-up. Set on a hit; the block is drawn until this
    /// is zero.
    pub burn: Single,
    /// What `burn` started at, so that progress is a share of it.
    pub burn_full: Single,
}

/// The column of a cell.
pub open spec fn col_of(i: int) -> int {
    i % COLS as int
}

/// The row of a cell.
pub open spec fn row_of(i: int) -> int {
    i / COLS as int
}

/// The cell at a column and a row.
pub open spec fn cell_at(col: int, row: int) -> int {
    row * COLS as int + col
}

/// A cell is found again from its column and its row.
pub proof fn lemma_cell(col: int, row: int)
    requires
        0 <= col < COLS,
        0 <= row < ROWS,
    ensures
        0 <= cell_at(col, row) < CELLS,
        col_of(cell_at(col, row)) == col,
        row_of(cell_at(col, row)) == row,
{
}

/// How many of the first `n` cells satisfy `p`.
pub open spec fn tally(n: nat, p: spec_fn(int) -> bool) -> nat
    decreases n,
{
    if n == 0 {
        0
    } else {
        tally((n - 1) as nat, p) + if p(n - 1) {
            1nat
        } else {
            0nat
        }
    }
}

/// A tally depends only on the cells that it goes over.
pub proof fn lemma_tally_same(n: nat, p: spec_fn(int) -> bool, q: spec_fn(int) -> bool)
    requires
        forall|i: int| 0 <= i < n ==> #[trigger] p(i) == q(i),
    ensures
        tally(n, p) == tally(n, q),
    decreases n,
{
    if n > 0 {
        lemma_tally_same((n - 1) as nat, p, q);
        assert(p(n - 1) == q(n - 1));
    }
}

/// A tally of two properties that exclude each other is the sum of theirs.
pub proof fn lemma_tally_split(
    n: nat,
    p: spec_fn(int) -> bool,
    q: spec_fn(int) -> bool,
    r: spec_fn(int) -> bool,
)
    requires
        forall|i: int| 0 <= i < n ==> #[trigger] p(i) == (q(i) || r(i)),
        forall|i: int| 0 <= i < n ==> !(#[trigger] q(i) && r(i)),
    ensures
        tally(n, p) == tally(n, q) + tally(n, r),
    decreases n,
{
    if n > 0 {
        lemma_tally_split((n - 1) as nat, p, q, r);
        assert(p(n - 1) == (q(n - 1) || r(n - 1)));
        assert(!(q(n - 1) && r(n - 1)));
    }
}

/// A property that one cell more has is tallied one higher.
pub proof fn lemma_tally_drop(n: nat, p: spec_fn(int) -> bool, q: spec_fn(int) -> bool, at: int)
    requires
        0 <= at < n,
        p(at),
        !q(at),
        forall|i: int| 0 <= i < n && i != at ==> #[trigger] p(i) == q(i),
    ensures
        tally(n, p) == tally(n, q) + 1,
    decreases n,
{
    if at == n - 1 {
        lemma_tally_same((n - 1) as nat, p, q);
    } else {
        lemma_tally_drop((n - 1) as nat, p, q, at);
        assert(p(n - 1) == q(n - 1));
    }
}

/// A property that implies another is tallied no higher, nor over the cells.
pub proof fn lemma_tally_order(n: nat, p: spec_fn(int) -> bool, q: spec_fn(int) -> bool)
    requires
        forall|i: int| 0 <= i < n && #[trigger] p(i) ==> q(i),
    ensures
        tally(n, p) <= tally(n, q) <= n,
        tally(n, p) == tally(n, q) ==> (forall|i: int| 0 <= i < n ==> #[trigger] p(i) == q(i)),
    decreases n,
{
    if n > 0 {
        lemma_tally_order((n - 1) as nat, p, q);
        assert(p(n - 1) ==> q(n - 1));
    }
}

/// A tally is zero where no cell has the property, and only there.
pub proof fn lemma_tally_none(n: nat, p: spec_fn(int) -> bool)
    ensures
        tally(n, p) == 0 <==> (forall|i: int| 0 <= i < n ==> !#[trigger] p(i)),
    decreases n,
{
    if n > 0 {
        lemma_tally_none((n - 1) as nat, p);
        if tally(n, p) != 0 && p(n - 1) {
            assert(exists|i: int| 0 <= i < n && #[trigger] p(i));
        }
    }
}

/// The cells with a live block.
pub open spec fn is_alive(b: Seq<Block>) -> spec_fn(int) -> bool {
    |i: int| b[i].alive
}

/// The number of live blocks.
pub open spec fn alive_tally(b: Seq<Block>) -> nat {
    tally(b.len(), is_alive(b))
}

/// The cell is on the left half of the grid.
pub open spec fn on_left(i: int) -> bool {
    col_of(i) < COLS / 2
}

/// The cells of a half of the grid with a live block.
pub open spec fn is_alive_on(b: Seq<Block>, left: bool) -> spec_fn(int) -> bool {
    |i: int| b[i].alive && on_left(i) == left
}

/// The number of live blocks on a half of the grid.
pub open spec fn side_tally(b: Seq<Block>, left: bool) -> nat {
    tally(b.len(), is_alive_on(b, left))
}

/// The live blocks are those of the two halves.
pub proof fn lemma_sides(b: Seq<Block>)
    ensures
        alive_tally(b) == side_tally(b, true) + side_tally(b, false),
{
    lemma_tally_split(b.len(), is_alive(b), is_alive_on(b, true), is_alive_on(b, false));
}

/// Count the live blocks.
pub fn count_alive(b: &Vec<Block>) -> (n: usize)
    ensures
        n == alive_tally(b@),
{
    let mut n: usize = 0;
    let mut i: usize = 0;
    while i < b.len()
        invariant
            i <= b.len(),
            n <= i,
            n == tally(i as nat, is_alive(b@)),
        decreases b.len() - i,
    {
        if b[i].alive {
            n = n + 1;
        }
        i = i + 1;
    }
    n
}

/// Count the live blocks on a half of the grid.
pub fn count_side(b: &Vec<Block>, left: bool) -> (n: usize)
    ensures
        n == side_tally(b@, left),
{
    let mut n: usize = 0;
    let mut i: usize = 0;
    while i < b.len()
        invariant
            i <= b.len(),
            n <= i,
            n == tally(i as nat, is_alive_on(b@, left)),
        decreases b.len() - i,
    {
        if b[i].alive && (i % COLS < COLS / 2) == left {
            n = n + 1;
        }
        i = i + 1;
    }
    n
}

/// There is a live block at the column and the row, which may lie off the grid.
pub open spec fn lives_at(b: Seq<Block>, col: int, row: int) -> bool {
    0 <= col < COLS && 0 <= row < ROWS && b[cell_at(col, row)].alive
}

/// A face of the cell meets a gap. The edge of the grid is one.
pub open spec fn is_open(b: Seq<Block>, i: int) -> bool {
    let c = col_of(i);
    let r = row_of(i);
    ||| !lives_at(b, c, r + 1)
    ||| !lives_at(b, c, r - 1)
    ||| !lives_at(b, c + 1, r)
    ||| !lives_at(b, c - 1, r)
}

/// The cells with a live block that has an exposed face.
pub open spec fn is_exposed(b: Seq<Block>) -> spec_fn(int) -> bool {
    |i: int| b[i].alive && is_open(b, i)
}

/// How broken up the lung is: the share of live cells that are exposed, and
/// one where none is left.
pub open spec fn scatter_spec(b: Seq<Block>) -> Single {
    if alive_tally(b) == 0 {
        Single::whole_spec(1)
    } else {
        Single::whole_spec(tally(b.len(), is_exposed(b))).over_spec(
            Single::whole_spec(alive_tally(b)),
        )
    }
}

/// Whether a face of the cell meets a gap.
fn has_open_face(b: &Vec<Block>, i: usize) -> (open: bool)
    requires
        b.len() == CELLS,
        i < CELLS,
    ensures
        open == is_open(b@, i as int),
{
    let c: usize = i % COLS;
    let r: usize = i / COLS;
    c == 0 || r == 0 || c + 1 >= COLS || r + 1 >= ROWS || !b[i + COLS].alive || !b[i - COLS].alive
        || !b[i + 1].alive || !b[i - 1].alive
}

/// How broken up the lung is.
pub fn scatter(b: &Vec<Block>) -> (s: Single)
    requires
        b.len() == CELLS,
    ensures
        s == scatter_spec(b@),
{
    let mut alive: u32 = 0;
    let mut exposed: u32 = 0;
    let mut i: usize = 0;
    while i < b.len()
        invariant
            i <= b.len(),
            b.len() == CELLS,
            alive <= i,
            exposed <= i,
            alive == tally(i as nat, is_alive(b@)),
            exposed == tally(i as nat, is_exposed(b@)),
        decreases b.len() - i,
    {
        if b[i].alive {
            alive = alive + 1;
            if has_open_face(b, i) {
                exposed = exposed + 1;
            }
        }
        i = i + 1;
    }
    if alive == 0 {
        return Single::whole(1);
    }
    Single::whole(exposed).over(Single::whole(alive))
}

/// There is tissue at the column and the row before any is culled.
pub open spec fn seed_at(col: int, row: int) -> bool {
    0 <= col && 0 <= row && in_lung_spec(col as nat, row as nat)
}

/// Tissue is kept where it has support on both axes. What is left of a lung
/// where an airway grazes it would read as speckle, not anatomy.
pub open spec fn kept_at(col: int, row: int) -> bool {
    &&& seed_at(col, row)
    &&& seed_at(col - 1, row) || seed_at(col + 1, row)
    &&& seed_at(col, row - 1) || seed_at(col, row + 1)
}

/// A cell of a fresh pair of lungs.
pub open spec fn fresh_block(i: int) -> Block {
    Block {
        alive: kept_at(col_of(i), row_of(i)),
        span: 1,
        airway: is_trachea_spec(cell_pos_spec(col_of(i) as nat, row_of(i) as nat)),
        burn: Single::zero_spec(),
        burn_full: Single::zero_spec(),
    }
}

/// A fresh pair of lungs.
pub open spec fn fresh_spec() -> Seq<Block> {
    Seq::new(CELLS as nat, |i: int| fresh_block(i))
}

/// A fresh pair of lungs.
pub fn fresh() -> (b: Vec<Block>)
    ensures
        b@ == fresh_spec(),
{
    let mut seed: Vec<bool> = Vec::new();
    let mut i: usize = 0;
    while i < CELLS
        invariant
            i <= CELLS,
            seed.len() == i,
            forall|k: int| 0 <= k < i ==> #[trigger] seed@[k] == seed_at(col_of(k), row_of(k)),
        decreases CELLS - i,
    {
        seed.push(in_lung(i % COLS, i / COLS));
        i = i + 1;
    }
    let mut b: Vec<Block> = Vec::new();
    let mut i: usize = 0;
    while i < CELLS
        invariant
            i <= CELLS,
            seed.len() == CELLS,
            forall|k: int| 0 <= k < CELLS ==> #[trigger] seed@[k] == seed_at(col_of(k), row_of(k)),
            b.len() == i,
            forall|k: int| 0 <= k < i ==> #[trigger] b@[k] == fresh_block(k),
        decreases CELLS - i,
    {
        let c: usize = i % COLS;
        let r: usize = i / COLS;
        proof {
            lemma_off_grid();
            if c > 0 {
                lemma_cell(c - 1, r as int);
            }
            if c + 1 < COLS {
                lemma_cell(c + 1, r as int);
            }
            if r > 0 {
                lemma_cell(c as int, r - 1);
            }
            if r + 1 < ROWS {
                lemma_cell(c as int, r + 1);
            }
        }
        let across: bool = (c > 0 && seed[i - 1]) || (c + 1 < COLS && seed[i + 1]);
        let down: bool = (r > 0 && seed[i - COLS]) || (r + 1 < ROWS && seed[i + COLS]);
        b.push(
            Block {
                alive: seed[i] && across && down,
                span: 1,
                airway: is_trachea(cell_pos(c, r)),
                burn: Single::zero(),
                burn_full: Single::zero(),
            },
        );
        i = i + 1;
    }
    assert(b@ =~= fresh_spec());
    b
}

/// There is no tissue off the grid.
proof fn lemma_off_grid()
    ensures
        forall|c: int, r: int| #[trigger] seed_at(c, r) ==> 0 <= c < COLS && 0 <= r < ROWS,
{
    reveal(in_lung_spec);
}

/// Where a block is, in pixels: left, top, width and height.
pub open spec fn rect_spec(i: int, span: u8) -> (int, int, int, int) {
    (
        GRID_X + col_of(i) * CELL,
        GRID_Y + row_of(i) * CELL,
        CELL * span as int,
        CELL * span as int,
    )
}

/// Where a block is, in pixels: left, top, width and height.
pub fn rect(i: usize, span: u8) -> (r: (u32, u32, u32, u32))
    requires
        i < CELLS,
    ensures
        r.0 == rect_spec(i as int, span).0,
        r.1 == rect_spec(i as int, span).1,
        r.2 == rect_spec(i as int, span).2,
        r.3 == rect_spec(i as int, span).3,
        r.0 < 600,
        r.1 < 800,
        r.2 < 4000,
        r.3 < 4000,
        r.0 >= GRID_X,
        r.1 >= GRID_Y,
{
    (
        GRID_X + (i % COLS) as u32 * CELL,
        GRID_Y + (i / COLS) as u32 * CELL,
        CELL * span as u32,
        CELL * span as u32,
    )
}

/// The row of the carina, where the trachea splits.
pub const CARINA_ROW: usize = 4;

/// The ball, served on the midline at the middle of a row, would overlap the
/// block. Heights are doubled, as the middle of a row is at half a pixel.
pub open spec fn blocks_serve(b: Seq<Block>, row: int, i: int) -> bool {
    let x = W / 2;
    let y2 = 2 * (GRID_Y + row * CELL) + CELL;
    let (bx, by, bw, bh) = rect_spec(i, b[i].span);
    &&& b[i].alive
    &&& x + BALL_R > bx
    &&& x - BALL_R < bx + bw
    &&& y2 + 2 * BALL_R > 2 * by
    &&& y2 - 2 * BALL_R < 2 * (by + bh)
}

/// The ball can be served on the midline of a row.
pub open spec fn clear_row(b: Seq<Block>, row: int) -> bool {
    forall|i: int| 0 <= i < b.len() ==> !#[trigger] blocks_serve(b, row, i)
}

/// The first row from `row` on from which the ball can be served.
pub open spec fn first_clear_row(b: Seq<Block>, row: nat) -> Option<nat>
    decreases ROWS - row,
{
    if row >= ROWS {
        None
    } else if clear_row(b, row as int) {
        Some(row)
    } else {
        first_clear_row(b, row + 1)
    }
}

/// The row from which the ball is served: the first clear one from the carina
/// down, or else that of the carina.
pub open spec fn serve_row_spec(b: Seq<Block>) -> nat {
    match first_clear_row(b, CARINA_ROW as nat) {
        Some(r) => r,
        None => CARINA_ROW as nat,
    }
}

/// The ball is served from a row of the grid.
pub proof fn lemma_serve_row(b: Seq<Block>)
    ensures
        serve_row_spec(b) < ROWS,
{
    lemma_first_clear_row(b, CARINA_ROW as nat);
}

/// A clear row is a row of the grid.
proof fn lemma_first_clear_row(b: Seq<Block>, row: nat)
    ensures
        first_clear_row(b, row) matches Some(r) ==> row <= r < ROWS,
    decreases ROWS - row,
{
    if row < ROWS && !clear_row(b, row as int) {
        lemma_first_clear_row(b, row + 1);
    }
}

/// Whether the ball can be served on the midline of a row.
fn is_clear_row(b: &Vec<Block>, row: usize) -> (clear: bool)
    requires
        b.len() == CELLS,
        row < ROWS,
    ensures
        clear == clear_row(b@, row as int),
{
    let x: u32 = W / 2;
    let y2: u32 = 2 * (GRID_Y + row as u32 * CELL) + CELL;
    let mut i: usize = 0;
    while i < b.len()
        invariant
            i <= b.len(),
            b.len() == CELLS,
            row < ROWS,
            x == W / 2,
            y2 == 2 * (GRID_Y + row * CELL) + CELL,
            forall|k: int| 0 <= k < i ==> !#[trigger] blocks_serve(b@, row as int, k),
        decreases b.len() - i,
    {
        let (bx, by, bw, bh) = rect(i, b[i].span);
        let hit: bool = b[i].alive && x + BALL_R > bx && x - BALL_R < bx + bw && y2 + 2 * BALL_R > 2
            * by && y2 - 2 * BALL_R < 2 * (by + bh);
        assert(hit == blocks_serve(b@, row as int, i as int));
        if hit {
            return false;
        }
        i = i + 1;
    }
    true
}

/// The row from which the ball is served.
pub fn serve_row(b: &Vec<Block>) -> (row: usize)
    requires
        b.len() == CELLS,
    ensures
        row == serve_row_spec(b@),
        row < ROWS,
{
    let mut r: usize = CARINA_ROW;
    while r < ROWS
        invariant
            CARINA_ROW <= r <= ROWS,
            b.len() == CELLS,
            first_clear_row(b@, CARINA_ROW as nat) == first_clear_row(b@, r as nat),
        decreases ROWS - r,
    {
        if is_clear_row(b, r) {
            return r;
        }
        r = r + 1;
    }
    CARINA_ROW
}

} // verus!
