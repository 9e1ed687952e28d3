//! Bounded best-first search for minimal superpermutations: the bounds
//! table, the search candidates, the two-level bucket frontier and the
//! bookkeeping of the spill files.

pub mod math;
pub mod bounds;
pub mod lehmer_code;
pub mod candidate;
pub mod decimal;
pub mod disk;
pub mod tree_node;
pub mod grid;
pub mod pair_set;
pub mod frontier;
pub mod search;
pub mod ui;
