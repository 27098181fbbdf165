//! The packed cell byte: the value in the low nibble, the flags in the high
//! one.
//!
//! | bit  | meaning                                             |
//! |------|-----------------------------------------------------|
//! | 0-3  | 0: no mine around, 1-8: mines around, 15: a mine    |
//! | 4    | opened                                              |
//! | 5, 6 | kept free for question and flag marks; never set    |
//! | 7    | opened by the end-of-game reveal, not by the player |

use vstd::prelude::*;
use crate::board::MineField;

verus! {

/// The value nibble of a cell.
pub open spec fn cell_value(u: u8) -> u8 {
    u & 0x0f
}

/// Whether the opened flag of a cell is set.
pub open spec fn cell_opened(u: u8) -> bool {
    u & 0x10 != 0
}

/// Whether a cell was opened by the end-of-game reveal.
pub open spec fn cell_forced(u: u8) -> bool {
    u & 0x80 != 0
}

/// Whether a cell holds a mine.
pub open spec fn cell_mine(u: u8) -> bool {
    u & 0x0f == 0x0f
}

/// Whether a cell was opened by the player.
pub open spec fn cell_revealed(u: u8) -> bool {
    cell_opened(u) && !cell_forced(u)
}

/// The byte of a cell after it is opened, by the player or, with `e`, by the
/// end-of-game reveal. A cell that is already open keeps its byte.
pub open spec fn cell_open(u: u8, e: bool) -> u8 {
    if e && !cell_opened(u) {
        u | 0x90
    } else {
        u | 0x10
    }
}

/// What opening does to a cell and what it leaves alone.
pub proof fn lemma_cell_open(u: u8, e: bool)
    ensures
        cell_opened(cell_open(u, e)),
        cell_value(cell_open(u, e)) == cell_value(u),
        cell_mine(cell_open(u, e)) == cell_mine(u),
        cell_forced(cell_open(u, e)) == (cell_forced(u) || (e && !cell_opened(u))),
        cell_opened(u) ==> cell_open(u, e) == u,
        cell_open(u, false) == u | 0x10,
{
    assert((u | 0x10) & 0x10 != 0 && (u | 0x90) & 0x10 != 0) by (bit_vector);
    assert((u | 0x10) & 0x0f == u & 0x0f && (u | 0x90) & 0x0f == u & 0x0f) by (bit_vector);
    assert((u | 0x10) & 0x80 == u & 0x80 && (u | 0x90) & 0x80 != 0) by (bit_vector);
    assert(u & 0x10 != 0 ==> u | 0x10 == u) by (bit_vector);
}

/// The value nibble is below 16, and a mine is the value 15.
pub proof fn lemma_cell_value(u: u8)
    ensures
        cell_value(u) < 16,
        cell_mine(u) == (cell_value(u) == 15),
        cell_value(cell_value(u)) == cell_value(u),
        cell_value(0x0f) == 15 && !cell_opened(0x0f) && !cell_forced(0x0f),
        u < 16 ==> cell_value(u) == u && !cell_opened(u) && !cell_forced(u),
{
    assert(u & 0x0f < 16) by (bit_vector);
    assert((u & 0x0f) & 0x0f == u & 0x0f) by (bit_vector);
    assert(0x0fu8 & 0x0f == 15 && 0x0fu8 & 0x10 == 0 && 0x0fu8 & 0x80 == 0) by (bit_vector);
    assert(u < 16 ==> u & 0x0f == u && u & 0x10 == 0 && u & 0x80 == 0) by (bit_vector);
}

impl MineField {
    /// Marks a cell as opened by the end-of-game reveal.
    pub fn set_e(u: &mut u8)
        ensures
            *final(u) == *old(u) | 0x80,
            cell_forced(*final(u)),
            cell_value(*final(u)) == cell_value(*old(u)),
            cell_opened(*final(u)) == cell_opened(*old(u)),
    {
        let ghost a = *u;
        assert((a | 0x80) & 0x80 != 0 && (a | 0x80) & 0x0f == a & 0x0f && (a | 0x80) & 0x10 == a
            & 0x10) by (bit_vector);
        *u |= 0x80;
    }

    /// Whether a cell was opened by the end-of-game reveal.
    pub fn is_e(u: u8) -> (b: bool)
        ensures
            b == cell_forced(u),
    {
        u & 0x80 != 0
    }

    /// Opens a cell. With `e` the cell is opened by the end-of-game reveal,
    /// which is recorded in the cell unless it was open already.
    pub fn set_o(u: &mut u8, e: bool)
        ensures
            *final(u) == cell_open(*old(u), e),
    {
        let ghost a = *u;
        if e && !Self::is_o(*u) {
            Self::set_e(u);
        }
        assert((a | 0x80) | 0x10 == a | 0x90) by (bit_vector);
        *u |= 0x10;
    }

    /// Whether a cell is open.
    pub fn is_o(u: u8) -> (b: bool)
        ensures
            b == cell_opened(u),
    {
        u & 0x10 != 0
    }

    /// Turns a cell into a closed mine.
    pub fn set_m(u: &mut u8)
        ensures
            *final(u) == 0x0f,
            cell_mine(*final(u)),
            !cell_opened(*final(u)),
            !cell_forced(*final(u)),
    {
        assert(0x0fu8 & 0x0f == 0x0f && 0x0fu8 & 0x10 == 0 && 0x0fu8 & 0x80 == 0) by (bit_vector);
        *u = 0x0f;
    }

    /// Whether a value nibble is that of a mine.
    pub fn is_mine(u: u8) -> (b: bool)
        ensures
            b == (u == 0x0f),
            u < 16 ==> b == cell_mine(u),
    {
        assert(u < 16 ==> u & 0x0f == u) by (bit_vector);
        u == 0x0f
    }

    /// The value nibble of a cell.
    pub fn get_v(u: u8) -> (v: u8)
        ensures
            v == cell_value(u),
            v < 16,
            (v == 0x0f) == cell_mine(u),
    {
        assert(u & 0x0f < 16) by (bit_vector);
        u & 0x0f
    }
}

} // verus!
