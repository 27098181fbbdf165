//! What holds of every board and of every reveal, stated over the model.

use vstd::prelude::*;
use vstd::arithmetic::div_mod::{lemma_fundamental_div_mod, lemma_fundamental_div_mod_converse};
use crate::board::{lemma_placed_count, lemma_status_bits, mined, placed, Board};
use crate::cell::{cell_mine, cell_opened, cell_value, lemma_cell_open, lemma_cell_value};
use crate::flood::{
    adjacent, flooded, floods, lemma_flooded_grows, lemma_flooded_laid, lemma_floods_no_mine,
    lemma_floods_on, lemma_grows_mines, open_at,
};
use crate::game::lemma_placed_flag;
use crate::grid::{count, inside, lemma_count_same, mines_around};
use crate::mines::{is_deal, lemma_started_laid, mines_grid, picks};

verus! {

impl Board {
    /// The board after `n` ticks.
    pub open spec fn ticked(self, n: nat) -> Board
        decreases n,
    {
        if n == 0 {
            self
        } else {
            let b = self.ticked((n - 1) as nat);
            Board { t: b.next_tick(), ..b }
        }
    }
}

/// Right after the mines were placed no cell is open.
pub proof fn lemma_started_closed(b: Board, p: Seq<u16>, j: int, i: int)
    requires
        b.shaped(),
        0 <= j < b.h,
        0 <= i < b.w,
    ensures
        !cell_opened(b.started(p).grid[j][i]),
{
    let g = mines_grid(b.w as int, b.h as int, picks(p, b.cursor_index(), b.full(), b.m as int));
    assert(g[j][i] == 0x0fu8 || g[j][i] == 0u8);
    assert(0 <= mines_around(g, j, i) <= 8);
    lemma_cell_value(0x0f);
    lemma_cell_value(b.started(p).grid[j][i]);
}

/// Validity is kept: a reveal at the cursor of a valid board gives a valid
/// board, whatever the order in which the mines are placed.
pub proof fn lemma_click_keeps_valid(b: Board, p: Seq<u16>)
    requires
        b.wf(),
        b.s == 0 ==> is_deal(p, b.cells()),
    ensures
        b.clicked(p).wf(),
        !b.ended() ==> b.clicked(p).laid() && b.clicked(p).s != 0,
{
    let r = b.r as int;
    let c = b.c as int;
    lemma_status_bits(b.s);
    if !b.ended() {
        let b1 = b.ready(p);
        if b.s == 0 {
            lemma_started_laid(b, p);
            lemma_started_closed(b, p, r, c);
        }
        assert(b1.laid());
        lemma_placed_count(b1.grid, b1.w, b1.h, b1.m, b1.s);
        assert(b1.grid[r].len() == b.w) by {
            reveal(placed);
        }
        let u = b1.grid[r][c];
        lemma_status_bits(b1.s);
        if cell_opened(u) {
        } else if cell_mine(u) {
            lemma_placed_flag(b1, 0x8000);
        } else {
            lemma_flooded_laid(b1, r, c);
            let b2 = b1.opened_at(r, c);
            lemma_placed_count(b2.grid, b2.w, b2.h, b2.m, b2.s);
            lemma_status_bits(b2.s);
            if b2.s + b2.m == b2.cells() {
                lemma_placed_flag(b2, 0x4000);
            }
        }
    }
}

/// First-reveal safety: on a valid fresh board that is not to be filled with
/// mines, the first reveal places exactly `m` mines, none of them under the
/// cursor, opens the cell under the cursor and does not end the game as
/// lost, whatever the order in which the mines are placed.
pub proof fn lemma_first_reveal_safe(b: Board, p: Seq<u16>)
    requires
        b.wf(),
        b.s == 0,
        !b.full(),
        is_deal(p, b.cells()),
    ensures
        !b.click_hits(p),
        !b.clicked(p).exploded(),
        !cell_mine(b.clicked(p).grid[b.r as int][b.c as int]),
        cell_opened(b.clicked(p).grid[b.r as int][b.c as int]),
        count(b.clicked(p).grid, mined()) == b.m,
{
    let r = b.r as int;
    let c = b.c as int;
    let b1 = b.started(p);
    lemma_started_laid(b, p);
    lemma_started_closed(b, p, r, c);
    assert(b1.grid[r].len() == b.w) by {
        reveal(placed);
    }
    lemma_flooded_grows(b1.grid, r, c);
    lemma_flooded_laid(b1, r, c);
    let b2 = b1.opened_at(r, c);
    lemma_grows_mines(b1.grid, b2.grid);
    lemma_count_same(b1.grid, b2.grid, mined(), mined());
    lemma_status_bits(0);
    lemma_status_bits(b2.s);
}

/// Fill-all: on a valid fresh board with as many mines as cells, placing the
/// mines puts one into every cell, the cursor's cell included, and the first
/// reveal ends the game as lost, whatever the order.
pub proof fn lemma_fill_all(b: Board, p: Seq<u16>)
    requires
        b.wf(),
        b.s == 0,
        b.full(),
        is_deal(p, b.cells()),
    ensures
        forall|j: int, i: int|
            0 <= j < b.h && 0 <= i < b.w ==> cell_mine(#[trigger] b.started(p).grid[j][i]),
        b.click_hits(p),
        b.clicked(p).exploded(),
        b.clicked(p).grid == b.started(p).grid,
        b.clicked(p).opened_count() == 0,
{
    lemma_started_laid(b, p);
    lemma_started_closed(b, p, b.r as int, b.c as int);
    lemma_status_bits(0);
    assert(cell_mine(b.started(p).grid[b.r as int][b.c as int]));
}

/// Adjacency counts: once the mines are placed, every cell without a mine
/// holds the number of mines among its up to eight neighbours.
pub proof fn lemma_adjacency(b: Board, j: int, i: int)
    requires
        b.laid(),
        0 <= j < b.h,
        0 <= i < b.w,
        !cell_mine(b.grid[j][i]),
    ensures
        cell_value(b.grid[j][i]) == mines_around(b.grid, j, i),
        0 <= mines_around(b.grid, j, i) <= 8,
{
    reveal(placed);
    let u = b.grid[j][i];
    assert(!cell_mine(u) ==> cell_value(u) == mines_around(b.grid, j, i));
}

/// Flood fill: the reveal of a closed cell without a mine opens that cell;
/// it opens every neighbour of each cell that it opens and that has no mine
/// around it; it opens no mine; it leaves every cell that it does not flood
/// as it was; and no open cell is closed.
pub proof fn lemma_flood_fill(b: Board, r: int, c: int)
    requires
        b.laid(),
        inside(b.grid, r, c),
        !cell_opened(b.grid[r][c]),
        !cell_mine(b.grid[r][c]),
    ensures
        open_at(b.opened_at(r, c).grid, (r, c)),
        forall|z: (int, int), y: (int, int)|
            #![trigger floods(b.grid, (r, c), z), open_at(b.opened_at(r, c).grid, y)]
            floods(b.grid, (r, c), z) && cell_value(b.grid[z.0][z.1]) == 0 && adjacent(z, y)
                && inside(b.grid, y.0, y.1) ==> open_at(b.opened_at(r, c).grid, y),
        forall|j: int, i: int|
            inside(b.grid, j, i) && cell_mine(b.grid[j][i]) ==> #[trigger] b.opened_at(
                r,
                c,
            ).grid[j][i] == b.grid[j][i],
        forall|j: int, i: int|
            inside(b.grid, j, i) && !floods(b.grid, (r, c), (j, i)) ==> #[trigger] b.opened_at(
                r,
                c,
            ).grid[j][i] == b.grid[j][i],
        forall|j: int, i: int|
            inside(b.grid, j, i) && cell_opened(b.grid[j][i]) ==> cell_opened(
                #[trigger] b.opened_at(r, c).grid[j][i],
            ),
{
    let g = b.grid;
    let f = flooded(g, r, c);
    lemma_flooded_grows(g, r, c);
    lemma_grows_mines(g, f);
    assert forall|z: (int, int), y: (int, int)|
        #![trigger floods(g, (r, c), z), open_at(f, y)]
        floods(g, (r, c), z) && cell_value(g[z.0][z.1]) == 0 && adjacent(z, y) && inside(
            g,
            y.0,
            y.1,
        ) implies open_at(f, y) by {
        if !open_at(g, y) {
            lemma_floods_on(g, (r, c), z, y);
            assert(y == (y.0, y.1));
            lemma_cell_open(g[y.0][y.1], false);
        }
    }
    assert forall|j: int, i: int| inside(g, j, i) && cell_mine(g[j][i]) implies #[trigger] f[j][i]
        == g[j][i] by {
        if floods(g, (r, c), (j, i)) {
            lemma_floods_no_mine(b, r, c, (j, i));
        }
    }
}

/// Win detection: a valid board is won exactly when no mine went off and all
/// its cells without a mine, at least one, are revealed.
pub proof fn lemma_won_iff(b: Board)
    requires
        b.wf(),
    ensures
        b.succeeded() == (!b.exploded() && b.opened_count() > 0 && b.opened_count() + b.m
            == b.cells()),
        b.opened_count() + b.m <= b.cells(),
{
    lemma_status_bits(b.s);
    if b.s == 0 {
        assert(0u16 & 0x3fff == 0 && 0u16 & 0x4000 == 0) by (bit_vector);
    } else {
        lemma_placed_count(b.grid, b.w, b.h, b.m, b.s);
    }
}

/// Loss detection: a reveal that sets off a mine ends the game as lost and
/// leaves the count of revealed cells, and every cell, as it was.
pub proof fn lemma_loss(b: Board, p: Seq<u16>)
    requires
        b.click_hits(p),
    ensures
        b.clicked(p).exploded(),
        !b.clicked(p).succeeded(),
        b.clicked(p).opened_count() == b.opened_count(),
        b.clicked(p).grid == b.ready(p).grid,
{
    lemma_status_bits(b.s);
    lemma_status_bits(b.ready(p).s);
}

/// Idempotence: once the game is over a reveal changes nothing, wherever
/// the cursor is.
pub proof fn lemma_click_after_end(b: Board, p: Seq<u16>)
    requires
        b.ended(),
    ensures
        b.clicked(p) == b,
        !b.click_hits(p),
{
}

/// Blink cycle: from the start of a blink period the tick counter is the
/// number of ticks modulo the period, so the cursor blinks during the first
/// half of every period and the counter is back at zero after each full one.
/// Nothing but the counter changes.
pub proof fn lemma_blink_cycle(b: Board, n: nat)
    requires
        b.t == 0,
        b.b > 0,
    ensures
        b.ticked(n).t == n % (b.b as nat),
        b.ticked(n).blinking() == (n % (b.b as nat) < b.b / 2),
        b.ticked(n) == (Board { t: b.ticked(n).t, ..b }),
    decreases n,
{
    let d = b.b as int;
    if n == 0 {
        lemma_fundamental_div_mod_converse(0, d, 0, 0);
    } else {
        let k = (n - 1) as nat;
        lemma_blink_cycle(b, k);
        let t = b.ticked(k).t as int;
        lemma_fundamental_div_mod(k as int, d);
        let q = k as int / d;
        assert(d * q == q * d) by (nonlinear_arith);
        if t + 1 >= d {
            assert(n == (q + 1) * d + 0) by (nonlinear_arith)
                requires
                    n == k + 1,
                    k == q * d + t,
                    t + 1 == d,
            ;
            lemma_fundamental_div_mod_converse(n as int, d, q + 1, 0);
        } else {
            lemma_fundamental_div_mod_converse(n as int, d, q, t + 1);
        }
    }
}

} // verus!
