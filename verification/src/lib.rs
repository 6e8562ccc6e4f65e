//! A constraint-propagation engine for 9×9 Sudoku grids.
//!
//! The grid is a flat arena of cells; rows, columns and blocks are lists of
//! arena indices. Strategies narrow the candidate sets of the cells, and the
//! solver runs them to a joint fixed point.

pub mod helpers;
pub mod layout;
pub mod objects;
pub mod parsers;
pub mod render;
pub mod rules;
pub mod solver;
pub mod strategies;
pub mod traits;
