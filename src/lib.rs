use vstd::prelude::*;

pub mod combos;
pub mod grid;
pub mod laws;
pub mod solver;
pub mod step;
pub mod subsets;
pub mod visited;

pub use grid::{FlatGrid, GridError};
pub use solver::{solve, solve_rows};
pub use step::{Cell, Step};

verus! {

} // verus!
