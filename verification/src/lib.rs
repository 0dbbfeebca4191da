pub mod cand;
pub mod model;
pub mod queue;
pub mod solver;
pub mod sudoku;
pub mod units;
