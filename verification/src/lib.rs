//! A dense two-dimensional grid together with the traversal algorithms that
//! the puzzle solvers in this crate are built on: breadth-first reachability,
//! cost-aware shortest-path search with a turn penalty, and connected-region
//! extraction with area and perimeter metrics.

pub mod grid;
pub mod locks;
pub mod maze;
pub mod pointset;
pub mod regions;
pub mod reports;
pub mod trails;
