//! A sparse, unbounded Conway-style cellular automaton.
//!
//! Only living cells are stored. Each generation step counts live
//! neighbors with a sort/merge technique over the coordinates of all
//! neighbor candidates, then applies the classic birth/survival rules.

pub mod colony;
pub mod coord;
pub mod count;
pub mod life;
pub mod sort;

pub use colony::run_next_generation;
pub use colony::Colony;
pub use coord::Cell;
pub use coord::CellCoord;
