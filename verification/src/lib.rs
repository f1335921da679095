//! Exact travelling-salesman solver.
//!
//! The solver runs the Held–Karp dynamic program over subsets of visited
//! cities, encoded as bitmasks, and reconstructs the optimal tour from the
//! recorded per-state decisions.

pub mod cost;
pub mod laws;
pub mod masks;
pub mod solver;

pub use solver::TSPResult;
pub use solver::TSPSolver;

pub use cost::complete_cost;
pub use cost::optimal_tour;
pub use cost::path_cost;
pub use cost::matrix_ok;
pub use cost::MAX_CITIES;
pub use cost::MAX_EDGE_COST;
pub use masks::bit_set;
pub use masks::full_mask;
pub use masks::table_index;
pub use masks::unvisited_count;
pub use masks::with_bit;
