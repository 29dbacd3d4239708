//! A chess engine: board representation with reversible moves, legal move
//! generation, Zobrist hashing and an alpha-beta search driven by a pluggable
//! evaluator.
use vstd::prelude::*;

pub mod attack;
pub mod bimaps;
pub mod board;
pub mod character;
pub mod coord;
pub mod eval;
pub mod fen;
pub mod hashtable;
pub mod materialist;
pub mod lookups;
pub mod minimax;
pub mod mov;
pub mod utils;
pub mod movegen;

verus! {

} // verus!
