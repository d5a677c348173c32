//! Generator and solver for "Parks" (star-battle) puzzles: an `n x n` grid is
//! divided into `n` regions, and a solution places one tree in every row,
//! every column and every region, no two trees touching (diagonals included).

use vstd::prelude::*;

pub mod ansi;
pub mod bits;
pub mod connectivity;
pub mod bitset;
pub mod gadget;
pub mod generator;
pub mod counting;
pub mod difficulty;
pub mod grid;
pub mod neighbors;
pub mod play;
pub mod polyomino;
pub mod puzzle;
pub mod rng;
pub mod solver;
pub mod trees;
pub mod unionfind;

verus! {

/// Largest supported board side.
pub const MAX_N: usize = 32;

/// Largest supported number of cells on a board.
pub const MAX_CELLS: usize = MAX_N * MAX_N;

} // verus!

pub use crate::ansi::get_region_ansi;
pub use crate::bitset::BitSet1024;
pub use crate::connectivity::{all_regions_connected, all_regions_connected_fast, is_region_connected, is_region_connected_fast};
pub use crate::gadget::{construct_gadget_regions, construct_gadget_regions_fast};
pub use crate::generator::ParksLevel;
pub use crate::neighbors::build_neighbor_masks;
pub use crate::polyomino::{generate_non_collinear_polyomino, generate_non_collinear_polyomino_fast};
pub use crate::rng::SimpleRng;
pub use crate::solver::{count_solutions_fast, solve_fast, solve_fast_internal};
pub use crate::trees::{generate_tree_solution, generate_tree_solution_fast};
