//! Logic core of a minesweeper board: grid state, mine placement, reveal
//! propagation, win and loss detection, and the mapping of cells to glyphs
//! and colors for a renderer supplied by the caller.
//!
//! The board is [`MineField`]; its mathematical model is [`Board`], over
//! which every contract is stated. A caller makes a board, moves the cursor,
//! reveals cells with [`MineField::click`] and counts ticks; the board draws
//! itself through the renderer, a [`WR`].
//!
//! - `cell`: the packed byte of one cell
//! - `grid`: the grid, the mines around a cell, counting cells
//! - `board`: the board, its model and what makes it valid
//! - `mines`: placing the mines
//! - `flood`: revealing a cell and all that it floods
//! - `game`: the reveal at the cursor, winning and losing
//! - `render`: glyphs, colors, the renderer, the blink timer
//! - `laws`: what holds of every board and every reveal

pub mod board;
pub mod cell;
pub mod flood;
pub mod game;
pub mod grid;
pub mod laws;
pub mod mines;
pub mod render;

pub use board::{Board, MineField};
pub use render::{Draw, WR};
