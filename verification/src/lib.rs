//! A height-balanced binary search tree of orderable elements that maintains,
//! for every stored value, its rank (the number of strictly smaller elements
//! currently stored) and its duplicate count (how many equal copies are
//! stored, collapsed into one node).
//!
//! Pushing a value reports its rank and prior multiplicity; removal, extremum
//! lookup and the pop variants keep the tree balanced and the per-node counts
//! consistent after every mutation.

pub mod node;
pub mod traits;
pub mod tree;
