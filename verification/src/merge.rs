//! Emphysema: a square patch of live cells collapses into one big fragile sac.
use crate::board::{
    alive_tally, cell_at, col_of, is_alive, lemma_cell, lemma_tally_drop, lemma_tally_same, row_of,
    Block,
};
use crate::rng::{next, xorshift_at};
use crate::{CELLS, COLS, ROWS};
use vstd::arithmetic::div_mod::*;
use vstd::arithmetic::mul::*;
use vstd::prelude::*;

verus! {

/// A square of cells, by its first cell and its side.
#[derive(Clone, Copy, PartialEq, Eq, Structural, Debug)]
pub struct Patch {
    pub col: usize,
    pub row: usize,
    pub span: usize,
}

/// Random probes that a search makes before it goes through the grid.
pub const PROBES: usize = 96;

impl Patch {
    /// The square has one of the sides that merge, and lies on the grid.
    pub open spec fn wf(self) -> bool {
        &&& 2 <= self.span <= 4
        &&& self.col + self.span <= COLS
        &&& self.row + self.span <= ROWS
    }

    /// The cell is in the square.
    pub open spec fn has(self, i: int) -> bool {
        &&& self.col <= col_of(i) < self.col + self.span
        &&& self.row <= row_of(i) < self.row + self.span
    }

    /// The first cell of the square.
    pub open spec fn corner(self) -> int {
        cell_at(self.col as int, self.row as int)
    }

    /// The place of a cell of the square, in reading order.
    pub open spec fn order(self, i: int) -> int {
        (row_of(i) - self.row) * self.span + (col_of(i) - self.col)
    }

    /// The cell of the square at a place in reading order.
    pub open spec fn nth(self, k: int) -> int {
        cell_at(self.col + k % self.span as int, self.row + k / self.span as int)
    }
}

/// The square is untouched tissue: every cell of it is a live block of its own.
pub open spec fn clean(b: Seq<Block>, p: Patch) -> bool {
    forall|i: int|
        #![trigger b[i]]
        0 <= i < b.len() && p.has(i) ==> b[i].alive && b[i].span == 1
}

/// The grid after the square has merged: its first block covers it, and the
/// others are dead, absorbed and not burnt.
pub open spec fn merged(b: Seq<Block>, p: Patch) -> Seq<Block> {
    Seq::new(
        b.len(),
        |i: int|
            if !p.has(i) {
                b[i]
            } else if i == p.corner() {
                Block { span: p.span as u8, ..b[i] }
            } else {
                Block { alive: false, ..b[i] }
            },
    )
}

/// The grid with the blocks of the square dead that come after its first one
/// and before place `k`.
spec fn absorbed(b: Seq<Block>, p: Patch, k: int) -> Seq<Block> {
    Seq::new(
        b.len(),
        |i: int|
            if p.has(i) && 1 <= p.order(i) < k {
                Block { alive: false, ..b[i] }
            } else {
                b[i]
            },
    )
}

/// Cells of a square are its places in reading order.
proof fn lemma_nth(p: Patch, k: int)
    requires
        p.wf(),
        0 <= k < p.span * p.span,
    ensures
        0 <= p.nth(k) < CELLS,
        p.has(p.nth(k)),
        p.order(p.nth(k)) == k,
        forall|i: int| p.has(i) && #[trigger] p.order(i) == k ==> i == p.nth(k),
{
    assert(p.span == 2 || p.span == 3 || p.span == 4);
    assert(k < 16) by {
        assert(p.span * p.span <= 16) by (nonlinear_arith)
            requires
                2 <= p.span <= 4,
        ;
    }
    if p.span == 2 {
        lemma_cell(p.col + k % 2, p.row + k / 2);
    } else if p.span == 3 {
        lemma_cell(p.col + k % 3, p.row + k / 3);
    } else {
        lemma_cell(p.col + k % 4, p.row + k / 4);
    }
    assert forall|i: int| p.has(i) && #[trigger] p.order(i) == k implies i == p.nth(k) by {
        let c: int = col_of(i) - p.col;
        let r: int = row_of(i) - p.row;
        lemma_mul_is_commutative(r, p.span as int);
        lemma_fundamental_div_mod_converse(k, p.span as int, r, c);
        lemma_fundamental_div_mod(i, COLS as int);
    }
}

/// The places of a square run up to its area.
proof fn lemma_order(p: Patch, i: int)
    requires
        p.wf(),
        p.has(i),
    ensures
        0 <= p.order(i) < p.span * p.span,
        p.order(i) == 0 <==> i == p.corner(),
{
    assert(p.span == 2 || p.span == 3 || p.span == 4);
    if p.span == 2 {
        assert(p.order(i) == (row_of(i) - p.row) * 2 + (col_of(i) - p.col));
    } else if p.span == 3 {
        assert(p.order(i) == (row_of(i) - p.row) * 3 + (col_of(i) - p.col));
    } else {
        assert(p.order(i) == (row_of(i) - p.row) * 4 + (col_of(i) - p.col));
    }
    lemma_cell(p.col as int, p.row as int);
    assert(p.span * p.span == 4 || p.span * p.span == 9 || p.span * p.span == 16)
        by (nonlinear_arith)
        requires
            p.span == 2 || p.span == 3 || p.span == 4,
    ;
}

/// Absorbing one block more takes one live block away.
proof fn lemma_absorb(b: Seq<Block>, p: Patch, k: int)
    requires
        b.len() == CELLS,
        p.wf(),
        clean(b, p),
        1 <= k < p.span * p.span,
    ensures
        alive_tally(absorbed(b, p, k)) == alive_tally(absorbed(b, p, k + 1)) + 1,
        absorbed(b, p, k + 1) == absorbed(b, p, k).update(
            p.nth(k),
            Block { alive: false, ..absorbed(b, p, k)[p.nth(k)] },
        ),
        absorbed(b, p, k)[p.nth(k)] == b[p.nth(k)],
        b[p.nth(k)].alive,
{
    lemma_nth(p, k);
    let at = p.nth(k);
    let x = absorbed(b, p, k);
    let y = absorbed(b, p, k + 1);
    assert(b[at].alive);
    assert(x[at] == b[at]);
    assert(y =~= x.update(at, Block { alive: false, ..x[at] })) by {
        assert forall|i: int| 0 <= i < CELLS && i != at implies #[trigger] y[i] == x[i] by {
            assert(p.has(i) ==> p.order(i) != k);
        }
    }
    assert forall|i: int| 0 <= i < CELLS && i != at implies #[trigger] is_alive(x)(i) == is_alive(
        y,
    )(i) by {
        assert(y[i] == x[i]);
    }
    lemma_tally_drop(CELLS as nat, is_alive(x), is_alive(y), at);
}

/// A square that merges frees all of its cells but one.
pub proof fn merging_frees_all_cells_but_one(b: Seq<Block>, p: Patch)
    requires
        b.len() == CELLS,
        p.wf(),
        clean(b, p),
    ensures
        alive_tally(merged(b, p)) + p.span * p.span - 1 == alive_tally(b),
        merged(b, p)[p.corner()].alive,
        merged(b, p)[p.corner()].span == p.span,
{
    assert(p.span * p.span >= 4) by (nonlinear_arith)
        requires
            p.span >= 2,
    ;
    lemma_absorbed_tally(b, p, p.span * p.span);
    lemma_cell(p.col as int, p.row as int);
    lemma_same_tally(b, p);
}

/// What is left alive by `absorbed`.
proof fn lemma_absorbed_tally(b: Seq<Block>, p: Patch, k: int)
    requires
        b.len() == CELLS,
        p.wf(),
        clean(b, p),
        1 <= k <= p.span * p.span,
    ensures
        alive_tally(absorbed(b, p, k)) + k - 1 == alive_tally(b),
    decreases k,
{
    if k == 1 {
        assert(absorbed(b, p, 1) =~= b);
    } else {
        lemma_absorbed_tally(b, p, k - 1);
        lemma_absorb(b, p, k - 1);
    }
}

/// Merging leaves alive what absorbing leaves alive.
proof fn lemma_same_tally(b: Seq<Block>, p: Patch)
    requires
        b.len() == CELLS,
        p.wf(),
    ensures
        alive_tally(merged(b, p)) == alive_tally(absorbed(b, p, p.span * p.span)),
        absorbed(b, p, p.span * p.span).update(
            p.corner(),
            Block { span: p.span as u8, ..absorbed(b, p, p.span * p.span)[p.corner()] },
        ) == merged(b, p),
        0 <= p.corner() < CELLS,
{
    let x = absorbed(b, p, p.span * p.span);
    let y = merged(b, p);
    lemma_cell(p.col as int, p.row as int);
    lemma_order(p, p.corner());
    assert forall|i: int| 0 <= i < CELLS implies #[trigger] is_alive(x)(i) == is_alive(y)(i) && (i
        != p.corner() ==> x[i] == y[i]) by {
        if p.has(i) {
            lemma_order(p, i);
        }
    }
    lemma_tally_same(CELLS as nat, is_alive(x), is_alive(y));
    assert(x.update(p.corner(), Block { span: p.span as u8, ..x[p.corner()] }) =~= y) by {
        assert forall|i: int| 0 <= i < CELLS && i != p.corner() implies x[i] == y[i] by {
            assert(is_alive(x)(i) == is_alive(y)(i));
        }
    }
}

/// Merge a square.
pub fn merge(b: &mut Vec<Block>, p: Patch)
    requires
        old(b).len() == CELLS,
        p.wf(),
        clean(old(b)@, p),
    ensures
        final(b)@ == merged(old(b)@, p),
{
    let ghost b0 = b@;
    assert(4 <= p.span * p.span <= 16) by (nonlinear_arith)
        requires
            2 <= p.span <= 4,
    ;
    let area: usize = p.span * p.span;
    let mut k: usize = 1;
    assert(b@ =~= absorbed(b0, p, 1));
    while k < area
        invariant
            1 <= k <= area,
            area == p.span * p.span,
            area <= 16,
            p.wf(),
            b0.len() == CELLS,
            clean(b0, p),
            b@ == absorbed(b0, p, k as int),
            b.len() == CELLS,
        decreases area - k,
    {
        proof {
            lemma_nth(p, k as int);
            lemma_absorb(b0, p, k as int);
        }
        let dx: usize = k % p.span;
        let dy: usize = k / p.span;
        assert(dx < 4 && dy < 16) by (nonlinear_arith)
            requires
                2 <= p.span <= 4,
                k < 16,
                dx == k % p.span,
                dy == k / p.span,
        ;
        let i: usize = (p.row + dy) * COLS + p.col + dx;
        let was: Block = b[i];
        b[i] = Block {
            alive: false,
            span: was.span,
            airway: was.airway,
            burn: was.burn,
            burn_full: was.burn_full,
        };
        k = k + 1;
    }
    proof {
        lemma_same_tally(b0, p);
    }
    let i: usize = p.row * COLS + p.col;
    let was: Block = b[i];
    b[i] = Block {
        alive: was.alive,
        span: p.span as u8,
        airway: was.airway,
        burn: was.burn,
        burn_full: was.burn_full,
    };
}

/// The square that a search tries in its `n`-th turn: random ones first, which
/// scatter the sacs around the lung, and then every one in reading order, so
/// that a search does not fail because the board is fragmented.
pub open spec fn probe_spec(rng: u32, span: nat, n: nat) -> Patch {
    let wide = (COLS - span) as nat;
    let high = (ROWS - span) as nat;
    if n < PROBES {
        let r = xorshift_at(rng, n + 1) as nat;
        Patch {
            col: (r % wide) as usize,
            row: ((r / COLS as nat) % high) as usize,
            span: span as usize,
        }
    } else {
        let i = (n - PROBES) as nat;
        Patch { col: (i % wide) as usize, row: (i / wide) as usize, span: span as usize }
    }
}

/// The turns of a search.
pub open spec fn turns(span: nat) -> nat {
    (PROBES + (ROWS - span) * (COLS - span)) as nat
}

/// The first turn from the `n`-th on that finds untouched tissue; one past the
/// last turn where none does.
pub open spec fn first_clean(b: Seq<Block>, rng: u32, span: nat, n: nat) -> nat
    decreases turns(span) - n,
{
    if n >= turns(span) || clean(b, probe_spec(rng, span, n)) {
        n
    } else {
        first_clean(b, rng, span, n + 1)
    }
}

/// What a search that came to turn `n` leaves the generator at: each random
/// probe took one step.
pub open spec fn rng_after(rng: u32, n: nat) -> u32 {
    xorshift_at(
        rng,
        if n < PROBES {
            n + 1
        } else {
            PROBES as nat
        },
    )
}

/// The square that merges next, and the generator after the search: the
/// largest sides are searched first.
pub open spec fn find_patch_spec(b: Seq<Block>, rng: u32, span: nat) -> (Option<Patch>, u32)
    decreases span,
{
    if span < 2 {
        (None, rng)
    } else {
        let n = first_clean(b, rng, span, 0);
        if n < turns(span) {
            (Some(probe_spec(rng, span, n)), rng_after(rng, n))
        } else {
            find_patch_spec(b, rng_after(rng, n), (span - 1) as nat)
        }
    }
}

/// Whether a square is untouched tissue.
fn is_clean(b: &Vec<Block>, p: Patch) -> (c: bool)
    requires
        b.len() == CELLS,
        p.wf(),
    ensures
        c == clean(b@, p),
{
    let mut dy: usize = 0;
    while dy < p.span
        invariant
            dy <= p.span,
            b.len() == CELLS,
            p.wf(),
            forall|i: int|
                #![trigger b@[i]]
                0 <= i < CELLS && p.has(i) && row_of(i) < p.row + dy ==> b@[i].alive && b@[i].span
                    == 1,
        decreases p.span - dy,
    {
        let mut dx: usize = 0;
        while dx < p.span
            invariant
                dx <= p.span,
                dy < p.span,
                b.len() == CELLS,
                p.wf(),
                forall|i: int|
                    #![trigger b@[i]]
                    0 <= i < CELLS && p.has(i) && (row_of(i) < p.row + dy || (row_of(i) == p.row
                        + dy && col_of(i) < p.col + dx)) ==> b@[i].alive && b@[i].span == 1,
            decreases p.span - dx,
        {
            let i: usize = (p.row + dy) * COLS + p.col + dx;
            proof {
                lemma_cell(p.col + dx, p.row + dy);
                assert(p.has(i as int));
            }
            let cell: Block = b[i];
            if !(cell.alive && cell.span == 1) {
                return false;
            }
            dx = dx + 1;
        }
        dy = dy + 1;
    }
    true
}

/// A search that probes lies on the grid.
proof fn lemma_probe(rng: u32, span: nat, n: nat)
    requires
        2 <= span <= 4,
        n < turns(span),
    ensures
        probe_spec(rng, span, n).wf(),
        probe_spec(rng, span, n).span == span,
        turns(span) == 96 + 22 * 38 || turns(span) == 96 + 21 * 37 || turns(span) == 96 + 20 * 36,
{
    if span == 2 {
    } else if span == 3 {
    } else {
        assert(span == 4);
    }
}

/// The square that merges next, and the generator after the search.
pub fn find_patch(b: &Vec<Block>, rng: u32, span: usize) -> (r: (Option<Patch>, u32))
    requires
        b.len() == CELLS,
        span <= 4,
    ensures
        r == find_patch_spec(b@, rng, span as nat),
        r.0 matches Some(p) ==> p.wf() && clean(b@, p),
{
    let mut s: usize = span;
    let mut state: u32 = rng;
    while s >= 2
        invariant
            s <= 4,
            b.len() == CELLS,
            find_patch_spec(b@, rng, span as nat) == find_patch_spec(b@, state, s as nat),
        decreases s,
    {
        let ghost start = state;
        let wide: usize = COLS - s;
        let high: usize = ROWS - s;
        proof {
            lemma_probe(start, s as nat, 0);
            assert(high * wide <= 22 * 38) by (nonlinear_arith)
                requires
                    0 <= high <= 22,
                    0 <= wide <= 38,
            ;
        }
        let all: usize = PROBES + high * wide;
        let mut n: usize = 0;
        while n < all
            invariant
                2 <= s <= 4,
                wide == COLS - s,
                high == ROWS - s,
                n <= all,
                all == turns(s as nat),
                all <= 1000,
                b.len() == CELLS,
                find_patch_spec(b@, rng, span as nat) == find_patch_spec(b@, start, s as nat),
                first_clean(b@, start, s as nat, 0) == first_clean(b@, start, s as nat, n as nat),
                state == xorshift_at(
                    start,
                    if n < PROBES {
                        n as nat
                    } else {
                        PROBES as nat
                    },
                ),
            decreases all - n,
        {
            let p: Patch = if n < PROBES {
                state = next(state);
                let r: usize = state as usize;
                Patch { col: r % wide, row: (r / COLS) % high, span: s }
            } else {
                let i: usize = n - PROBES;
                Patch { col: i % wide, row: i / wide, span: s }
            };
            proof {
                lemma_probe(start, s as nat, n as nat);
            }
            assert(p == probe_spec(start, s as nat, n as nat));
            if is_clean(b, p) {
                return (Some(p), state);
            }
            n = n + 1;
        }
        s = s - 1;
    }
    (None, state)
}

/// What a search finds is untouched tissue on the grid.
pub proof fn lemma_find(b: Seq<Block>, rng: u32, span: nat)
    requires
        span <= 4,
    ensures
        find_patch_spec(b, rng, span).0 matches Some(p) ==> p.wf() && clean(b, p) && p.span <= span,
    decreases span,
{
    if span >= 2 {
        let n = first_clean(b, rng, span, 0);
        lemma_first_clean(b, rng, span, 0);
        if n < turns(span) {
            lemma_probe(rng, span, n);
        } else {
            lemma_find(b, rng_after(rng, n), (span - 1) as nat);
        }
    }
}

/// The turn that a search stops at finds untouched tissue, and none before it
/// does.
proof fn lemma_first_clean(b: Seq<Block>, rng: u32, span: nat, n: nat)
    ensures
        n <= first_clean(b, rng, span, n),
        first_clean(b, rng, span, n) < turns(span) ==> clean(
            b,
            probe_spec(rng, span, first_clean(b, rng, span, n)),
        ),
        forall|k: nat|
            n <= k < first_clean(b, rng, span, n) ==> !clean(b, #[trigger] probe_spec(rng, span, k)),
    decreases turns(span) - n,
{
    if !(n >= turns(span) || clean(b, probe_spec(rng, span, n))) {
        lemma_first_clean(b, rng, span, n + 1);
    }
}

/// A merge never gives up while there is somewhere to land: if a square of
/// untouched tissue lies where the sweep goes, of a side that is allowed, one
/// is found, and none smaller.
pub proof fn a_search_finds_what_there_is(b: Seq<Block>, rng: u32, span: nat, p: Patch)
    requires
        p.wf(),
        p.span <= span <= 4,
        p.col + p.span < COLS,
        p.row + p.span < ROWS,
        clean(b, p),
    ensures
        find_patch_spec(b, rng, span).0 matches Some(q) && p.span <= q.span,
    decreases span,
{
    let n = first_clean(b, rng, span, 0);
    lemma_first_clean(b, rng, span, 0);
    if n >= turns(span) {
        if p.span == span {
            let wide: int = COLS - span;
            let high: int = ROWS - span;
            let i: int = p.row * wide + p.col;
            assert(0 <= i < high * wide) by (nonlinear_arith)
                requires
                    i == p.row * wide + p.col,
                    0 <= p.row < high,
                    0 <= p.col < wide,
            ;
            lemma_fundamental_div_mod_converse(i, wide, p.row as int, p.col as int);
            let k: nat = (PROBES + i) as nat;
            assert(probe_spec(rng, span, k) == p);
            assert(false);
        }
        a_search_finds_what_there_is(b, rng_after(rng, n), (span - 1) as nat, p);
    }
}

} // verus!
