//! An Othello engine on 64-bit boards: legal-move generation, move
//! application with flips, forced passes and the end of the game, static
//! evaluations, and an alpha-beta search proved to agree with minimax.
use vstd::prelude::*;

pub mod bits;
pub mod board;
pub mod evaluation;

verus! {

} // verus!
