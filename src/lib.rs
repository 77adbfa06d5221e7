//! Grid pathfinding benchmarks: grids that always keep start and end connected,
//! five search algorithms with shared instrumentation, and a coordinator that
//! compares them; besides, the word searches, menu choices and trees that the
//! surrounding application benchmarks.
pub mod grid;
pub mod table;
pub mod paths;
pub mod frontier;
pub mod counter;
pub mod pathfinder;
pub mod generator;
pub mod coordinator;
pub mod error;
pub mod menu_choice;
pub mod config;
pub mod strings;
pub mod search;
pub mod tree_traversal;
