//! A verified simulation core for a self-organizing, sharded peer-to-peer
//! address space under churn.
//!
//! Nodes join, leave and rejoin a network whose 64-bit address space is
//! partitioned into sections (a binary trie of prefixes). Sections split when
//! they grow, merge when they shrink, and nodes are relocated between
//! sections by a hash-driven, age-based trigger. The partition invariant,
//! conservation of node counts, age bounds and cascade termination are all
//! stated as contracts and proved.

pub mod params;
pub mod rng;
pub mod tree;
pub mod policy;
pub mod hashing;
pub mod network;
pub mod laws;
