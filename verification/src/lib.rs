//! A UCI chess engine library: bitboard board representation, attack
//! generation, pseudo-legal move generation filtered on make, evaluation and
//! an alpha-beta search with a transposition table.
use vstd::prelude::*;

pub mod text;
pub mod types;
pub mod bitboard;
pub mod attacks;
pub mod zobrist;
pub mod position;
pub mod fen;
pub mod movegen;
pub mod eval;
pub mod tt;
pub mod search;
pub mod perft;
pub mod san;
pub mod play;
pub mod server;
pub mod uci;
pub mod symmetry;

verus! {

/// Prepares the shared tables. Attack sets and hash keys are computed where
/// they are needed, so there is nothing left to set up; kept so callers can
/// initialise the engine the same way in every build.
pub fn init() {
    attacks::init();
}

} // verus!
