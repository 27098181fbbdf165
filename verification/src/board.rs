//! The board: its data, its mathematical model, what makes a board valid,
//! and the operations that do not touch the grid.

use vstd::prelude::*;
use std::time::Duration;
use crate::cell::{cell_forced, cell_mine, cell_opened, cell_revealed, cell_value};
use crate::grid::{
    count, grid_of, inside, lemma_count_nonneg, lemma_count_split, mines_around, neither, rect,
    Grid,
};

verus! {

/// The board. Its grid holds one packed byte per cell.
pub struct MineField {
    /// Status word: the two end flags above the count of revealed cells.
    pub s: u16,
    /// Width of the grid, in columns.
    pub w: u16,
    /// Height of the grid, in rows.
    pub h: u16,
    /// Number of mines.
    pub m: u16,
    /// The grid, `h` rows of `w` cells.
    pub f: Vec<Vec<u8>>,
    /// Cursor row.
    pub r: u16,
    /// Cursor column.
    pub c: u16,
    /// How long the driver should idle between two ticks.
    pub ms: Duration,
    /// Length of one blink period, in ticks.
    pub b: u16,
    /// Ticks counted in the current blink period.
    pub t: u16,
}

/// The mathematical model of a board: the fields of [`MineField`], with the
/// grid as a sequence of rows.
pub struct Board {
    /// Status word.
    pub s: u16,
    /// Width.
    pub w: u16,
    /// Height.
    pub h: u16,
    /// Number of mines.
    pub m: u16,
    /// The rows of the grid, top row first.
    pub grid: Grid,
    /// Cursor row.
    pub r: u16,
    /// Cursor column.
    pub c: u16,
    /// Idle time between two ticks.
    pub ms: Duration,
    /// Blink period.
    pub b: u16,
    /// Tick counter.
    pub t: u16,
}

impl View for MineField {
    type V = Board;

    open spec fn view(&self) -> Board {
        Board {
            s: self.s,
            w: self.w,
            h: self.h,
            m: self.m,
            grid: grid_of(self.f),
            r: self.r,
            c: self.c,
            ms: self.ms,
            b: self.b,
            t: self.t,
        }
    }
}

/// The duration of a number of milliseconds.
pub uninterp spec fn millis(ms: u64) -> Duration;

/// `Duration::from_millis`: the duration that lasts the given number of whole
/// milliseconds. The same number always gives the same duration.
#[verifier::external_body]
fn duration_from_millis(ms: u64) -> (d: Duration)
    ensures
        d == millis(ms),
{
    Duration::from_millis(ms)
}

/// The property of holding a mine.
pub open spec fn mined() -> spec_fn(u8) -> bool {
    |u: u8| cell_mine(u)
}

/// The property of having been opened by the player.
pub open spec fn revealed() -> spec_fn(u8) -> bool {
    |u: u8| cell_revealed(u)
}

/// A grid of `h` rows of `w` cells, all closed, without mines or counts.
pub open spec fn blank(w: int, h: int) -> Grid {
    Seq::new(h as nat, |j: int| Seq::new(w as nat, |i: int| 0u8))
}

/// The dimensions and the mine count that a board can be played with: a grid
/// that is not empty, whose cells can be numbered in 16 bits, with no more
/// mines than cells and with fewer cells to reveal than the status word can
/// count below its flags.
pub open spec fn fits(w: u16, h: u16, m: u16) -> bool {
    &&& w > 0
    &&& h > 0
    &&& w * h <= 0xffff
    &&& m <= w * h
    &&& w * h - m < 0x4000
}

/// The mines are placed on a grid of `h` rows of `w` cells: there are `m` of
/// them, every other cell holds the number of mines around it, no mine has
/// been revealed, and the status word `s` counts the revealed cells.
#[verifier::opaque]
pub open spec fn placed(g: Grid, w: u16, h: u16, m: u16, s: u16) -> bool {
    &&& fits(w, h, m)
    &&& rect(g, w as int, h as int)
    &&& count(g, mined()) == m
    &&& count(g, revealed()) == (s & 0x3fff) as int
    &&& forall|j: int, i: int|
        0 <= j < h && 0 <= i < w ==> {
            let u = #[trigger] g[j][i];
            &&& !cell_mine(u) ==> cell_value(u) == mines_around(g, j, i)
            &&& cell_forced(u) ==> cell_opened(u)
            &&& cell_revealed(u) ==> !cell_mine(u)
        }
}

/// A grid with its mines placed has the dimensions it was made with.
pub proof fn lemma_placed_shape(g: Grid, w: u16, h: u16, m: u16, s: u16)
    requires
        placed(g, w, h, m, s),
    ensures
        fits(w, h, m),
        rect(g, w as int, h as int),
{
    reveal(placed);
}

/// On a grid with its mines placed, the revealed cells and the mines are no
/// more than the cells.
pub proof fn lemma_placed_count(g: Grid, w: u16, h: u16, m: u16, s: u16)
    requires
        placed(g, w, h, m, s),
    ensures
        count(g, mined()) == m,
        count(g, revealed()) == (s & 0x3fff) as int,
        (s & 0x3fff) + m <= w * h,
{
    reveal(placed);
    assert forall|j: int, i: int| 0 <= j < h && 0 <= i < w implies !(revealed()(
        #[trigger] g[j][i],
    ) && mined()(g[j][i])) by {}
    lemma_count_split(g, w as int, h as int, revealed(), mined());
    lemma_count_nonneg(g, neither(revealed(), mined()));
}

impl Board {
    /// The number of cells.
    pub open spec fn cells(self) -> int {
        self.w * self.h
    }

    /// Whether a mine was revealed.
    pub open spec fn exploded(self) -> bool {
        self.s & 0x8000 != 0
    }

    /// Whether every cell without a mine was revealed.
    pub open spec fn succeeded(self) -> bool {
        self.s & 0x4000 != 0
    }

    /// Whether the game is over.
    pub open spec fn ended(self) -> bool {
        self.exploded() || self.succeeded()
    }

    /// The number of cells that the player has revealed, as the status word
    /// counts it.
    pub open spec fn opened_count(self) -> int {
        (self.s & 0x3fff) as int
    }

    /// Whether the cursor is shown in its blinking phase.
    pub open spec fn blinking(self) -> bool {
        self.t < self.b / 2
    }

    /// The grid has the board's dimensions, and they fit.
    pub open spec fn shaped(self) -> bool {
        fits(self.w, self.h, self.m) && rect(self.grid, self.w as int, self.h as int)
    }

    /// Nothing has happened on the board yet: no mine is placed, no cell is
    /// open.
    pub open spec fn fresh(self) -> bool {
        self.s == 0 && self.grid == blank(self.w as int, self.h as int)
    }

    /// The mines are placed: see [`placed`].
    pub open spec fn laid(self) -> bool {
        placed(self.grid, self.w, self.h, self.m, self.s)
    }

    /// The end flags agree with the count of revealed cells: the game is won
    /// when all cells without a mine are revealed, and is still on while
    /// some are left.
    pub open spec fn status_ok(self) -> bool {
        &&& !(self.exploded() && self.succeeded())
        &&& self.succeeded() ==> self.opened_count() > 0 && self.opened_count() + self.m
            == self.cells()
        &&& !self.ended() ==> self.opened_count() + self.m < self.cells()
    }

    /// The board is valid: the cursor is on the grid, the tick counter is
    /// within the blink period, and the board is either fresh or has its
    /// mines placed and its status in order.
    pub open spec fn wf(self) -> bool {
        &&& self.shaped()
        &&& self.r < self.h
        &&& self.c < self.w
        &&& self.t < self.b
        &&& if self.s == 0 {
            self.fresh()
        } else {
            self.laid() && self.status_ok()
        }
    }
}

/// The status word splits into two flags and a count.
pub proof fn lemma_status_bits(s: u16)
    ensures
        (s >= 0x4000) == (s & 0x8000 != 0 || s & 0x4000 != 0),
        s < 0x4000 ==> s & 0x3fff == s,
        (s | 0x8000) & 0x8000 != 0,
        (s | 0x8000) & 0x4000 == s & 0x4000,
        (s | 0x8000) & 0x3fff == s & 0x3fff,
        (s | 0x4000) & 0x4000 != 0,
        (s | 0x4000) & 0x8000 == s & 0x8000,
        (s | 0x4000) & 0x3fff == s & 0x3fff,
        s | 0x8000 != 0,
        s | 0x4000 != 0,
        s & 0x3fff < 0x3fff ==> s < 0xffff && (s + 1) as u16 & 0x3fff == (s & 0x3fff) + 1 && (s
            + 1) as u16 & 0x8000 == s & 0x8000 && (s + 1) as u16 & 0x4000 == s & 0x4000,
{
    assert((s >= 0x4000) == (s & 0x8000 != 0 || s & 0x4000 != 0)) by (bit_vector);
    assert(s < 0x4000 ==> s & 0x3fff == s) by (bit_vector);
    assert((s | 0x8000) & 0x8000 != 0 && (s | 0x8000) & 0x4000 == s & 0x4000 && (s | 0x8000)
        & 0x3fff == s & 0x3fff && s | 0x8000 != 0) by (bit_vector);
    assert((s | 0x4000) & 0x4000 != 0 && (s | 0x4000) & 0x8000 == s & 0x8000 && (s | 0x4000)
        & 0x3fff == s & 0x3fff && s | 0x4000 != 0) by (bit_vector);
    assert(s & 0x3fff < 0x3fff ==> s < 0xffff && (s + 1) as u16 & 0x3fff == (s & 0x3fff) + 1 && (s
        + 1) as u16 & 0x8000 == s & 0x8000 && (s + 1) as u16 & 0x4000 == s & 0x4000)
        by (bit_vector);
}

/// Adding to the count of the status word, within its range, leaves the
/// flags as they are.
pub proof fn lemma_status_add(s: u16, d: int)
    requires
        0 <= d,
        (s & 0x3fff) + d < 0x4000,
    ensures
        s + d <= 0xffff,
        (s + d) as u16 & 0x3fff == (s & 0x3fff) + d,
        (s + d) as u16 & 0x8000 == s & 0x8000,
        (s + d) as u16 & 0x4000 == s & 0x4000,
{
    let e = d as u16;
    assert((s & 0x3fff) + e < 0x4000 ==> s + e <= 0xffff && (s + e) as u16 & 0x3fff == (s
        & 0x3fff) + e && (s + e) as u16 & 0x8000 == s & 0x8000 && (s + e) as u16 & 0x4000 == s
        & 0x4000) by (bit_vector)
        requires
            e < 0x4000,
    ;
}

impl MineField {
    /// A board of `h` rows of `w` cells that will hold `m` mines. All cells
    /// are closed and no mine is placed yet; the cursor is in the top left
    /// corner; a blink period has 80 ticks, and the driver should idle 10 ms
    /// between ticks. The board is valid if the dimensions fit.
    pub fn new(w: u16, h: u16, m: u16) -> (b: Self)
        ensures
            b@ == (Board {
                s: 0,
                w,
                h,
                m,
                grid: blank(w as int, h as int),
                r: 0,
                c: 0,
                ms: millis(10),
                b: 80,
                t: 0,
            }),
            b@.fresh(),
            b@.opened_count() == 0,
            !b@.exploded(),
            !b@.succeeded(),
            forall|j: int, i: int|
                0 <= j < h && 0 <= i < w ==> !cell_opened(#[trigger] b@.grid[j][i]),
            b@.wf() == fits(w, h, m),
    {
        let mut f: Vec<Vec<u8>> = Vec::new();
        let mut j: u16 = 0;
        while j < h
            invariant
                j <= h,
                f.len() == j,
                forall|k: int| 0 <= k < j ==> #[trigger] f[k]@ == Seq::new(w as nat, |i: int| 0u8),
            decreases h - j,
        {
            let mut row: Vec<u8> = Vec::new();
            let mut i: u16 = 0;
            while i < w
                invariant
                    i <= w,
                    row.len() == i,
                    forall|k: int| 0 <= k < i ==> #[trigger] row[k] == 0u8,
                decreases w - i,
            {
                row.push(0);
                i += 1;
            }
            assert(row@ =~= Seq::new(w as nat, |i: int| 0u8));
            f.push(row);
            j += 1;
        }
        let b = MineField { s: 0, w, h, m, f, r: 0, c: 0, ms: duration_from_millis(10), b: 80, t: 0 };
        proof {
            assert(b@.grid =~= blank(w as int, h as int));
            assert(0u16 & 0x8000 == 0 && 0u16 & 0x4000 == 0 && 0u16 & 0x3fff == 0) by (bit_vector);
            assert(0u8 & 0x10 == 0) by (bit_vector);
        }
        b
    }

    /// Whether the cursor is shown in its blinking phase: the first half of
    /// the blink period.
    pub fn is_blink(&self) -> (b: bool)
        ensures
            b == self@.blinking(),
    {
        self.t < self.b / 2
    }

    /// Moves the cursor one row up, unless it is in the top row.
    pub fn up(&mut self)
        ensures
            final(self)@ == (Board {
                r: if old(self).r > 0 {
                    (old(self).r - 1) as u16
                } else {
                    old(self).r
                },
                ..old(self)@
            }),
            old(self)@.wf() ==> final(self)@.wf(),
    {
        if self.r > 0 {
            self.r -= 1;
        }
    }

    /// Moves the cursor one row down, unless it is in the bottom row.
    pub fn down(&mut self)
        requires
            old(self).h > 0,
        ensures
            final(self)@ == (Board {
                r: if old(self).r < old(self).h - 1 {
                    (old(self).r + 1) as u16
                } else {
                    old(self).r
                },
                ..old(self)@
            }),
            old(self)@.wf() ==> final(self)@.wf(),
    {
        if self.r < self.h - 1 {
            self.r += 1;
        }
    }

    /// Moves the cursor one column to the left, unless it is in the first
    /// column.
    pub fn left(&mut self)
        ensures
            final(self)@ == (Board {
                c: if old(self).c > 0 {
                    (old(self).c - 1) as u16
                } else {
                    old(self).c
                },
                ..old(self)@
            }),
            old(self)@.wf() ==> final(self)@.wf(),
    {
        if self.c > 0 {
            self.c -= 1;
        }
    }

    /// Moves the cursor one column to the right, unless it is in the last
    /// column.
    pub fn right(&mut self)
        requires
            old(self).w > 0,
        ensures
            final(self)@ == (Board {
                c: if old(self).c < old(self).w - 1 {
                    (old(self).c + 1) as u16
                } else {
                    old(self).c
                },
                ..old(self)@
            }),
            old(self)@.wf() ==> final(self)@.wf(),
    {
        if self.c < self.w - 1 {
            self.c += 1;
        }
    }

    /// Puts the cursor on column `x` of row `y` if that is a cell of the
    /// grid, and says whether it did.
    pub fn update_m(&mut self, x: u16, y: u16) -> (ok: bool)
        ensures
            ok == (x < old(self).w && y < old(self).h),
            ok ==> final(self)@ == (Board { c: x, r: y, ..old(self)@ }),
            !ok ==> final(self)@ == old(self)@,
            old(self)@.wf() ==> final(self)@.wf(),
    {
        if x < self.w && y < self.h {
            self.c = x;
            self.r = y;
            true
        } else {
            false
        }
    }

    /// Whether the cell in row `r`, column `c` is open.
    pub fn is_opened(&self, r: u16, c: u16) -> (b: bool)
        requires
            inside(self@.grid, r as int, c as int),
        ensures
            b == cell_opened(self@.grid[r as int][c as int]),
    {
        Self::is_o(self.f[r as usize][c as usize])
    }

    /// Whether a mine was revealed.
    pub fn is_explosion(&self) -> (b: bool)
        ensures
            b == self@.exploded(),
    {
        self.s & 0x8000 != 0
    }

    /// Records that a mine was revealed.
    pub fn explosion(&mut self)
        ensures
            final(self)@ == (Board { s: old(self).s | 0x8000, ..old(self)@ }),
            final(self)@.exploded(),
            final(self)@.succeeded() == old(self)@.succeeded(),
            final(self)@.opened_count() == old(self)@.opened_count(),
    {
        proof {
            lemma_status_bits(self.s);
        }
        self.s |= 0x8000;
    }

    /// Whether every cell without a mine was revealed.
    pub fn is_success(&self) -> (b: bool)
        ensures
            b == self@.succeeded(),
    {
        self.s & 0x4000 != 0
    }

    /// Records that every cell without a mine was revealed.
    pub fn success(&mut self)
        ensures
            final(self)@ == (Board { s: old(self).s | 0x4000, ..old(self)@ }),
            final(self)@.succeeded(),
            final(self)@.exploded() == old(self)@.exploded(),
            final(self)@.opened_count() == old(self)@.opened_count(),
    {
        proof {
            lemma_status_bits(self.s);
        }
        self.s |= 0x4000;
    }

    /// Whether the game is over, won or lost.
    pub fn is_end(&self) -> (b: bool)
        ensures
            b == self@.ended(),
    {
        proof {
            lemma_status_bits(self.s);
        }
        self.s >= 0x4000
    }
}

} // verus!
