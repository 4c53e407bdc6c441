//! An exact-cover solver for 9-by-9 Sudoku built on the dancing-links
//! technique: the sparse constraint matrix lives in a fixed arena of
//! index-linked nodes, columns are removed and restored by reversible
//! pointer surgery, and an explicit state machine drives the
//! depth-first search one step at a time.

pub mod dlx;
pub mod engine;
pub mod grid;
pub mod layout;
pub mod names;
