//! A Minesweeper board engine: a rectangular grid of cells, each either a
//! bomb or numbered with its count of adjacent bombs, revealed by a
//! flood-fill that spreads through zero-numbered cells, with flags on
//! hidden cells.

pub mod mine;
