//! What the board shows: one glyph and one color pair per cell, handed to a
//! renderer that the caller supplies, and the tick counter that makes the
//! cursor blink.

use vstd::prelude::*;
use vstd::string::StrSliceExecFns;
use crate::board::{mined, placed, revealed, Board, MineField};
use crate::cell::{
    cell_forced, cell_mine, cell_open, cell_opened, cell_revealed, cell_value, lemma_cell_open,
    lemma_cell_value,
};
use crate::grid::{
    inside, lemma_cell_index, lemma_count_same, lemma_grid_of, lemma_same_mines_around,
    mines_around, rect, same_mines, with_cell, Grid,
};

verus! {

/// One cell as it is handed to the renderer: the column and the row, the
/// style, the background and the foreground color, and the text.
pub struct Draw {
    pub x: u16,
    pub y: u16,
    pub st: u16,
    pub bgc: u16,
    pub fgc: u16,
    pub msg: Seq<char>,
}

/// The renderer. The board draws through it and knows nothing else of the
/// display. `T` is the renderer's own type of a color.
pub trait WR<T> {
    /// What a failed write reports.
    type Error;

    /// The cells of the writes that succeeded so far, in the order of the
    /// writes. A renderer that is to be verified states here what it keeps
    /// of its writes; one that keeps no record of them leaves this as it is.
    open spec fn drawn(&self) -> Seq<Draw> {
        Seq::empty()
    }

    /// Writes the text `msg` at column `x` of row `y`, in style `st`, with
    /// the background color `bgc` and the foreground color `fgc`. A write
    /// that succeeds adds the cell to those that were written; one that
    /// fails adds nothing.
    fn wr(&mut self, x: u16, y: u16, st: u16, bgc: u16, fgc: u16, msg: &String) -> (res: Result<
        (),
        Self::Error,
    >)
        ensures
            res is Ok ==> final(self).drawn() == old(self).drawn().push(
                Draw { x, y, st, bgc, fgc, msg: msg@ },
            ),
            res is Err ==> final(self).drawn() == old(self).drawn(),
    ;

    /// Registers the colors.
    fn reg(&mut self, c: Vec<T>);

    /// The color with the number `n`.
    fn col(&self, n: u16) -> T;
}

/// The style that every cell is written in.
pub const STYLE: u16 = 3;

/// The glyphs of the flags. The first is that of a closed cell, the second
/// that of the mine that went off, the last that of the cursor. The question
/// and flag marks between them are kept for marks that no operation sets.
pub open spec fn flag_glyphs() -> Seq<char> {
    seq!['L', '*', '?', '?', 'P', 'P', 'P', 'P', '+', '+', '+', '+', '+', '+', '+', '+']
}

/// The glyphs of the values of an open cell: no mine around, one to eight
/// mines around, six values that no operation sets, and a mine.
pub open spec fn value_glyphs() -> Seq<char> {
    seq!['_', '1', '2', '3', '4', '5', '6', '7', '8', '.', '.', '.', '.', '.', '.', '@']
}

/// The color pair of a cell, background first: one pair for a cell opened by
/// the end-of-game reveal, one for a cell opened by the player, one for a
/// closed cell.
pub open spec fn colors(u: u8) -> (u16, u16) {
    if cell_forced(u) {
        (4, 5)
    } else if cell_opened(u) {
        (2, 3)
    } else {
        (0, 1)
    }
}

/// The grid with every cell opened by the end-of-game reveal.
pub open spec fn shown(g: Grid) -> Grid {
    Seq::new(g.len(), |j: int| Seq::new(g[j].len(), |i: int| cell_open(g[j][i], true)))
}

impl Board {
    /// The glyph of the cell in row `r`, column `c`, taken to hold the byte
    /// `u`. A closed cell shows the closed glyph and an open one its value.
    /// Under the cursor, unless the game is won, the mine that went off shows
    /// as such, and any other cell shows the cursor glyph while the cursor
    /// blinks.
    pub open spec fn glyph(self, r: int, c: int, u: u8) -> char {
        let base = if cell_opened(self.grid[r][c]) {
            value_glyphs()[cell_value(u) as int]
        } else {
            flag_glyphs()[0]
        };
        if !(r == self.r && c == self.c) || self.succeeded() {
            base
        } else if self.exploded() && cell_mine(u) {
            flag_glyphs()[1]
        } else if self.blinking() {
            flag_glyphs()[15]
        } else {
            base
        }
    }

    /// The cell in row `r`, column `c` as it is handed to the renderer.
    pub open spec fn draw(self, r: int, c: int) -> Draw {
        let u = self.grid[r][c];
        Draw {
            x: c as u16,
            y: r as u16,
            st: STYLE,
            bgc: colors(u).0,
            fgc: colors(u).1,
            msg: seq![self.glyph(r, c, u)],
        }
    }

    /// All cells as they are handed to the renderer, row by row from the top,
    /// each row from the left.
    pub open spec fn frame(self) -> Seq<Draw> {
        Seq::new(
            (self.w * self.h) as nat,
            |k: int| self.draw(k / (self.w as int), k % (self.w as int)),
        )
    }

    /// What a drawing of the board adds to the cells written before: the
    /// whole frame if it succeeds, and else the cells before the one whose
    /// write failed.
    pub open spec fn draws(self, ok: bool, before: Seq<Draw>, after: Seq<Draw>) -> bool {
        if ok {
            after == before + self.frame()
        } else {
            exists|k: int|
                0 <= k < self.w * self.h && after == before + #[trigger] self.frame().take(k)
        }
    }

    /// The tick counter after one more tick: it starts again from zero when
    /// it reaches the blink period.
    pub open spec fn next_tick(self) -> u16 {
        if self.t + 1 >= self.b {
            0
        } else {
            (self.t + 1) as u16
        }
    }

    /// Whether the next tick draws the board: when the counter reaches half
    /// the blink period, and when it starts again.
    pub open spec fn tick_draws(self) -> bool {
        self.t + 1 == self.b / 2 || self.t + 1 >= self.b
    }
}

/// The end-of-game reveal leaves the mines placed and the count of revealed
/// cells as it is: the cells that it opens are not counted as revealed.
pub proof fn lemma_shown_laid(b: Board)
    requires
        b.laid(),
    ensures
        (Board { grid: shown(b.grid), ..b }).laid(),
        same_mines(b.grid, shown(b.grid)),
{
    reveal(placed);
    let g = b.grid;
    let d = shown(g);
    assert forall|j: int, i: int| 0 <= j < g.len() && 0 <= i < g[j].len() implies {
        &&& cell_mine(#[trigger] g[j][i]) == cell_mine(d[j][i])
        &&& cell_revealed(g[j][i]) == cell_revealed(d[j][i])
        &&& cell_value(g[j][i]) == cell_value(d[j][i])
        &&& cell_opened(d[j][i])
    } by {
        lemma_cell_open(g[j][i], true);
        assert(g[j].len() == b.w);
    }
    assert(same_mines(g, d));
    lemma_count_same(g, d, mined(), mined());
    lemma_count_same(g, d, revealed(), revealed());
    assert forall|j: int, i: int| 0 <= j < b.h && 0 <= i < b.w implies {
        let u = #[trigger] d[j][i];
        &&& !cell_mine(u) ==> cell_value(u) == mines_around(d, j, i)
        &&& cell_forced(u) ==> cell_opened(u)
        &&& cell_revealed(u) ==> !cell_mine(u)
    } by {
        lemma_same_mines_around(g, d, j, i);
        let u0 = g[j][i];
        assert(!cell_mine(u0) ==> cell_value(u0) == mines_around(g, j, i));
        assert(cell_mine(g[j][i]) == cell_mine(d[j][i]));
    }
}

impl MineField {
    /// The text and the color pair, background first, with which the cell in
    /// row `r`, column `c` is drawn when it holds the byte `u`.
    pub fn c(&self, r: u16, c: u16, u: u8) -> (res: (String, u16, u16))
        requires
            inside(self@.grid, r as int, c as int),
        ensures
            res.0@ == seq![self@.glyph(r as int, c as int, u)],
            (res.1, res.2) == colors(u),
    {
        let f = "L*??PPPP++++++++";
        let s = "_12345678......@";
        proof {
            reveal_strlit("L*??PPPP++++++++");
            reveal_strlit("_12345678......@");
            assert(f@ =~= flag_glyphs());
            assert(s@ =~= value_glyphs());
            lemma_cell_value(u);
        }
        let v = Self::get_v(u);
        let k = v as usize;
        let n = if self.is_opened(r, c) {
            s.substring_char(k, k + 1)
        } else {
            f.substring_char(0, 1)
        };
        let curs = r == self.r && c == self.c;
        let o = if !curs || self.is_success() {
            n
        } else if self.is_explosion() && Self::is_mine(v) {
            f.substring_char(1, 2)
        } else if self.is_blink() {
            f.substring_char(15, 16)
        } else {
            n
        };
        let (bgc, fgc): (u16, u16) = if Self::is_e(u) {
            (4, 5)
        } else if Self::is_o(u) {
            (2, 3)
        } else {
            (0, 1)
        };
        let text = o.to_owned();
        assert(text@ =~= seq![self@.glyph(r as int, c as int, u)]);
        (text, bgc, fgc)
    }

    /// Draws every cell, row by row from the top, each row from the left.
    /// The first write that fails ends the drawing, and what it reported is
    /// returned.
    pub fn refresh<T, G: WR<T>>(&self, g: &mut G) -> (res: Result<(), G::Error>)
        requires
            rect(self@.grid, self.w as int, self.h as int),
        ensures
            self@.draws(res is Ok, old(g).drawn(), final(g).drawn()),
    {
        let ghost before = g.drawn();
        let ghost frame = self@.frame();
        let mut r: u16 = 0;
        while r < self.h
            invariant
                r <= self.h,
                rect(self@.grid, self.w as int, self.h as int),
                frame == self@.frame(),
                before == old(g).drawn(),
                0 <= r * self.w <= self.w * self.h,
                g.drawn() == before + frame.take(r * self.w),
            decreases self.h - r,
        {
            let mut c: u16 = 0;
            while c < self.w
                invariant
                    r < self.h,
                    c <= self.w,
                    rect(self@.grid, self.w as int, self.h as int),
                    frame == self@.frame(),
                    before == old(g).drawn(),
                    0 <= r * self.w + c <= self.w * self.h,
                    g.drawn() == before + frame.take(r * self.w + c),
                decreases self.w - c,
            {
                let ghost k = r * self.w + c;
                proof {
                    lemma_cell_index(self.w as int, self.h as int, r as int, c as int);
                    assert(self@.grid[r as int].len() == self.w);
                    assert(frame[k] == self@.draw(r as int, c as int));
                }
                let u = self.f[r as usize][c as usize];
                let (s, bgc, fgc) = self.c(r, c, u);
                g.wr(c, r, STYLE, bgc, fgc, &s)?;
                assert(g.drawn() =~= before + frame.take(k + 1));
                c += 1;
            }
            proof {
                assert(r * self.w + self.w == (r + 1) * self.w) by (nonlinear_arith);
                assert((r + 1) * self.w <= self.w * self.h) by (nonlinear_arith)
                    requires
                        r < self.h,
                ;
            }
            r += 1;
        }
        proof {
            assert(self.h * self.w == self.w * self.h) by (nonlinear_arith);
            assert(frame.take(self.w * self.h) =~= frame);
        }
        Ok(())
    }

    /// Counts one tick. The board is drawn when the counter reaches half the
    /// blink period, and again when it reaches the period and starts over.
    /// The tick is counted whether or not the drawing succeeds.
    pub fn tick<T, G: WR<T>>(&mut self, g: &mut G) -> (res: Result<(), G::Error>)
        requires
            old(self).t < u16::MAX,
            rect(old(self)@.grid, old(self).w as int, old(self).h as int),
        ensures
            final(self)@ == (Board { t: old(self)@.next_tick(), ..old(self)@ }),
            old(self)@.wf() ==> final(self)@.wf(),
            old(self)@.tick_draws() ==> final(self)@.draws(
                res is Ok,
                old(g).drawn(),
                final(g).drawn(),
            ),
            !old(self)@.tick_draws() ==> res is Ok && final(g).drawn() == old(g).drawn(),
    {
        self.t += 1;
        if self.t == self.b / 2 {
            self.refresh(g)?;
        } else if self.t >= self.b {
            self.reset_tick(g)?;
        }
        Ok(())
    }

    /// Ends the game on the display: opens every cell, marking those that
    /// the player had not opened, and draws the board. The cells are opened
    /// whether or not the drawing succeeds.
    pub fn ending<T, G: WR<T>>(&mut self, g: &mut G) -> (res: Result<(), G::Error>)
        requires
            rect(old(self)@.grid, old(self).w as int, old(self).h as int),
        ensures
            final(self)@ == (Board { grid: shown(old(self)@.grid), ..old(self)@ }),
            old(self)@.wf() && old(self).s != 0 ==> final(self)@.wf(),
            final(self)@.draws(res is Ok, old(g).drawn(), final(g).drawn()),
    {
        let ghost b0 = self@;
        let mut r: u16 = 0;
        while r < self.h
            invariant
                self@ == (Board { grid: self@.grid, ..b0 }),
                rect(b0.grid, b0.w as int, b0.h as int),
                rect(self@.grid, b0.w as int, b0.h as int),
                r <= self.h,
                forall|j: int, i: int|
                    0 <= j < b0.h && 0 <= i < b0.w ==> #[trigger] self@.grid[j][i] == (if j < r {
                        cell_open(b0.grid[j][i], true)
                    } else {
                        b0.grid[j][i]
                    }),
            decreases self.h - r,
        {
            let mut c: u16 = 0;
            while c < self.w
                invariant
                    self@ == (Board { grid: self@.grid, ..b0 }),
                    rect(b0.grid, b0.w as int, b0.h as int),
                    rect(self@.grid, b0.w as int, b0.h as int),
                    r < self.h,
                    c <= self.w,
                    forall|j: int, i: int|
                        0 <= j < b0.h && 0 <= i < b0.w ==> #[trigger] self@.grid[j][i] == (if j < r
                            || (j == r && i < c) {
                            cell_open(b0.grid[j][i], true)
                        } else {
                            b0.grid[j][i]
                        }),
                decreases self.w - c,
            {
                let ghost before = self@.grid;
                proof {
                    lemma_grid_of(self.f);
                    assert(before[r as int].len() == b0.w);
                }
                Self::set_o(&mut self.f[r as usize][c as usize], true);
                assert(self@.grid =~~= with_cell(
                    before,
                    r as int,
                    c as int,
                    cell_open(before[r as int][c as int], true),
                ));
                c += 1;
            }
            r += 1;
        }
        proof {
            assert(self@.grid =~~= shown(b0.grid));
            if b0.wf() && b0.s != 0 {
                lemma_shown_laid(b0);
            }
        }
        self.refresh(g)?;
        Ok(())
    }

    /// Starts the blink period again and draws the board. The counter is set
    /// back whether or not the drawing succeeds.
    pub fn reset_tick<T, G: WR<T>>(&mut self, g: &mut G) -> (res: Result<(), G::Error>)
        requires
            rect(old(self)@.grid, old(self).w as int, old(self).h as int),
        ensures
            final(self)@ == (Board { t: 0, ..old(self)@ }),
            final(self)@.draws(res is Ok, old(g).drawn(), final(g).drawn()),
    {
        self.t = 0;
        self.refresh(g)?;
        Ok(())
    }
}

} // verus!
