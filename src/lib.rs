//! Reachability analysis over a compilation unit's item tree: which items
//! other compilation units may need to reference, inline or instantiate.
pub mod edges;
pub mod laws;
pub mod reach_set;
pub mod reachable;
pub mod tree;
