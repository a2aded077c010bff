pub mod board;
pub mod solver;
