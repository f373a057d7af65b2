pub mod constraints;
pub mod grid;
pub mod laws;
pub mod search;

pub use constraints::constraints_for_col;
pub use constraints::constraints_for_part;
pub use constraints::constraints_for_pos;
pub use constraints::constraints_for_quadrant;
pub use constraints::constraints_for_row;
pub use grid::col_for_pos;
pub use grid::quadrant_for_pos;
pub use grid::row_for_pos;
pub use search::solve;
pub use search::solve_impl;
pub use search::Solution;
pub use search::SolveError;
