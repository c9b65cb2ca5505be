pub mod cell;
pub mod grid;
pub mod loader;
pub mod queries;
pub mod render;
pub mod solver;

pub use cell::Cell;
pub use cell::Error;
pub use grid::Sudoku;
