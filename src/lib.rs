//! Interactive grid path finding: an octile-cost A* search over an
//! 8-connected grid, the per-cell visual state it stamps its routes on, and
//! the orchestration that decides when to search again.

pub mod component;
pub mod grid;
pub mod path_finder;
pub mod system;
