//! A verified solver for the 8-puzzle (3x3 sliding-tile puzzle).
//!
//! The solver runs A* search with the Manhattan-distance heuristic from a
//! given start configuration toward the canonical solved configuration
//! `[1,2,3,4,5,6,7,8,0]`. It returns a sequence of configurations that leads
//! from the start to the solved board by single blank-moves, reconstructed
//! from the search's predecessor records, and it returns nothing exactly
//! when no move sequence solves the start. The heuristic is proved
//! admissible; minimality of the returned path's length is exercised by the
//! test suite, not stated by the contracts.

use vstd::prelude::*;

pub mod frontier;
pub mod search;
pub mod state;
