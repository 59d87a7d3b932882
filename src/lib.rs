pub mod bitmanip;
pub mod grid;
pub mod parse;
pub mod solver;
