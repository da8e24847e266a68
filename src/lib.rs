//! A minesweeper-like game on a sparse, chunked grid: coordinate math, the grid of cell
//! handles, cell kinds, playfield generation, the reveal cascade and flagging, each with its
//! contract proved.

use vstd::prelude::*;

pub mod coords;
pub mod grid;
pub mod cell;
pub mod world;
pub mod cascade;
pub mod flag;
pub mod generate;
pub mod overlap;
pub mod env;

verus! {

} // verus!
