//! Generation of complete Sudoku-family grids by constraint propagation and
//! randomised guessing.
pub mod bits;
pub mod deduction;
pub mod random_bit;
pub mod sudoku_iterator;
pub mod sudoku;
pub mod sudoku_pencil_notes;
pub mod sudoku_factory;
