pub mod area;
pub mod cell;
pub mod line;
pub mod sudoku;
pub mod traits;
