//! The reveal at the cursor: placing the mines at the first one, opening
//! cells, and telling when the game is won or lost.

use vstd::prelude::*;
use crate::board::{
    lemma_placed_count, lemma_placed_shape, lemma_status_bits, mined, placed, Board, MineField,
};
use crate::cell::{cell_mine, cell_opened, lemma_cell_value};
use crate::flood::{grows, lemma_grows_mines};
use crate::grid::{count, lemma_count_same, lemma_grid_of};
use crate::mines::is_deal;

verus! {

impl Board {
    /// The board on which the cursor's cell is revealed: the board itself
    /// once its mines are placed, and before that the board with its mines
    /// placed in the order `p`.
    pub open spec fn ready(self, p: Seq<u16>) -> Board {
        if self.s == 0 {
            self.started(p)
        } else {
            self
        }
    }

    /// Whether a reveal at the cursor sets off a mine. The order `p` counts
    /// while the mines are not yet placed.
    pub open spec fn click_hits(self, p: Seq<u16>) -> bool {
        let u = self.ready(p).grid[self.r as int][self.c as int];
        !self.ended() && !cell_opened(u) && cell_mine(u)
    }

    /// The board after a reveal at the cursor. Nothing changes once the game
    /// is over. The first reveal places the mines, in the order `p`. Then an
    /// open cell stays as it is, a mine ends the game as lost, and any other
    /// cell is opened with all that it floods; if that leaves no cell
    /// without a mine closed, the game is won.
    pub open spec fn clicked(self, p: Seq<u16>) -> Board {
        let b1 = self.ready(p);
        let u = b1.grid[self.r as int][self.c as int];
        if self.ended() || cell_opened(u) {
            self
        } else if cell_mine(u) {
            Board { s: b1.s | 0x8000, ..b1 }
        } else {
            let b2 = b1.opened_at(self.r as int, self.c as int);
            if b2.s + b2.m == b2.cells() {
                Board { s: b2.s | 0x4000, ..b2 }
            } else {
                b2
            }
        }
    }
}

/// Setting an end flag leaves the mines placed and the count as it is.
pub proof fn lemma_placed_flag(b: Board, flag: u16)
    requires
        b.laid(),
        flag == 0x8000 || flag == 0x4000,
    ensures
        (Board { s: b.s | flag, ..b }).laid(),
        (Board { s: b.s | flag, ..b }).opened_count() == b.opened_count(),
{
    reveal(placed);
    lemma_status_bits(b.s);
}

impl MineField {
    /// Reveals the cell under the cursor, and says whether the reveal left
    /// the mines alone: `false` means that this reveal set off a mine. The
    /// order `p` of the cells is used if the mines are not placed yet, and
    /// only then. The result is [`Board::clicked`].
    pub fn click_with(&mut self, p: &Vec<u16>) -> (ok: bool)
        requires
            old(self)@.wf(),
            old(self).s == 0 ==> is_deal(p@, old(self)@.cells()),
        ensures
            final(self)@ == old(self)@.clicked(p@),
            ok == !old(self)@.click_hits(p@),
            final(self)@.wf(),
            old(self)@.ended() ==> final(self)@ == old(self)@,
            !old(self)@.ended() ==> final(self)@.laid() && final(self).s != 0 && grows(
                old(self)@.ready(p@).grid,
                final(self)@.grid,
            ),
            old(self).s == 0 && !old(self)@.full() ==> ok && !cell_mine(
                final(self)@.grid[old(self).r as int][old(self).c as int],
            ),
            !old(self)@.ended() ==> count(final(self)@.grid, mined()) == old(self).m,
            final(self)@.exploded() == (old(self)@.exploded() || !ok),
            !ok ==> final(self)@.opened_count() == old(self)@.opened_count(),
            final(self)@.succeeded() == (old(self)@.succeeded() || (ok && !old(self)@.ended()
                && final(self)@.opened_count() > old(self)@.opened_count()
                && final(self)@.opened_count() + final(self).m == final(self)@.cells())),
    {
        let ghost b0 = self@;
        proof {
            lemma_status_bits(self.s);
        }
        if self.is_end() {
            return true;
        }
        if self.s == 0 {
            self.start_with(p);
            proof {
                lemma_cell_value(self@.grid[self.r as int][self.c as int]);
            }
        }
        let ghost b1 = self@;
        proof {
            assert(b1 == b0.ready(p@));
            lemma_placed_shape(b1.grid, b1.w, b1.h, b1.m, b1.s);
            lemma_grid_of(self.f);
            assert(b1.grid[self.r as int].len() == b1.w);
            assert(grows(b1.grid, b1.grid));
            lemma_placed_count(b1.grid, b1.w, b1.h, b1.m, b1.s);
        }
        if !self.is_opened(self.r, self.c) {
            if !self.open(self.r, self.c) {
                self.explosion();
                proof {
                    lemma_placed_flag(b1, 0x8000);
                    lemma_status_bits(b1.s);
                }
                return false;
            } else {
                proof {
                    lemma_grows_mines(b1.grid, self@.grid);
                    lemma_count_same(b1.grid, self@.grid, mined(), mined());
                    lemma_placed_count(self@.grid, self.w, self.h, self.m, self.s);
                    lemma_status_bits(self.s);
                    lemma_status_bits(b1.s);
                    lemma_placed_count(b1.grid, b1.w, b1.h, b1.m, b1.s);
                    assert(self.s == b1.s + (self@.opened_count() - b1.opened_count()));
                }
                let ghost b2 = self@;
                if self.s + self.m == self.w * self.h {
                    self.success();
                    proof {
                        lemma_placed_flag(b2, 0x4000);
                    }
                }
            }
        }
        true
    }

    /// Reveals the cell under the cursor, and says whether the reveal left
    /// the mines alone: `false` means that this reveal set off a mine. At the
    /// first reveal the mines are placed in an order drawn at random; the
    /// result is that of [`MineField::click_with`] for some order of the
    /// cells.
    pub fn click(&mut self) -> (ok: bool)
        requires
            old(self)@.wf(),
        ensures
            exists|p: Seq<u16>|
                (old(self).s == 0 ==> is_deal(p, old(self)@.cells())) && final(self)@ == #[trigger] old(
                    self,
                )@.clicked(p) && ok == !old(self)@.click_hits(p),
            final(self)@.wf(),
            old(self)@.ended() ==> final(self)@ == old(self)@,
            !old(self)@.ended() ==> final(self)@.laid() && final(self).s != 0,
            old(self).s == 0 && !old(self)@.full() ==> ok && !cell_mine(
                final(self)@.grid[old(self).r as int][old(self).c as int],
            ),
            !old(self)@.ended() ==> count(final(self)@.grid, mined()) == old(self).m,
            final(self)@.exploded() == (old(self)@.exploded() || !ok),
            !ok ==> final(self)@.opened_count() == old(self)@.opened_count(),
            final(self)@.succeeded() == (old(self)@.succeeded() || (ok && !old(self)@.ended()
                && final(self)@.opened_count() > old(self)@.opened_count()
                && final(self)@.opened_count() + final(self).m == final(self)@.cells())),
    {
        let p = if self.s == 0 {
            Self::deal(self.w * self.h)
        } else {
            Vec::new()
        };
        self.click_with(&p)
    }
}

} // verus!
