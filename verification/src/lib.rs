//! A chess engine's search machinery: move ordering, transposition-table
//! upkeep, depth rules and PGN handling, each with a contract that says
//! what it does.
use vstd::prelude::*;

pub mod bits;
pub mod types;
pub mod moveiterator;
pub mod iterator_laws;
pub mod iterator_run;
pub mod search;
pub mod pgn;
pub mod log;
pub mod board;

verus! {

/// A scratch entry point with nothing to do.
pub fn test() {
}

} // verus!
