//! Othello (reversi) on 64-bit boards, with its rules and its move search proved
//! against a model of the board as a grid of squares.
//!
//! - `bits`: single bit positions of a board and how the bit operators act on them.
//! - `board`: squares, directions, enclosing runs of stones, move names.
//! - `popcount`: counting stones.
//! - `rule`: legal moves, playing a move, judging moves, move text, the board picture.
//! - `laws`: what a move does on the grid, and other facts relating the operations.
//! - `symmetry`: the rules commute with mirroring and rotating the board.
//! - `ai`: evaluation of positions, the negamax search and the move choice.
//! - `search_value`: what the search computes, related to the plain negamax value.
//! - `testplay`: the decisions of a game between two players at one board.
//! - `client`: the decisions of a player talking to a game server.
use vstd::prelude::*;

pub mod bits;
pub mod board;
pub mod popcount;
pub mod rule;
pub mod laws;
pub mod symmetry;
pub mod ai;
pub mod search_value;
pub mod testplay;
pub mod client;

verus! {

} // verus!
