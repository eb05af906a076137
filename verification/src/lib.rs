//! Rules of a collection of small puzzle and board games, with their contracts proved.
use vstd::prelude::*;

pub mod tally;
pub mod text;
pub mod xorshift;
pub mod blockblast;
pub mod pipes;
pub mod matchthree;
pub mod solitaire;
pub mod mines;
pub mod sudoku;
pub mod reversi;

verus! {
} // verus!
