//! An arena-backed tree: nodes live in one append-only vector and refer to
//! each other by position. The tree is built by chained insertions and queried
//! by child lookup, flat search and branch matching.
//!
//! - `model`: the arena as a sequence of node records, and what makes such a
//!   sequence a tree.
//! - `matching`: what a scan over candidate nodes and a walk along a branch
//!   return.
//! - `tree`: `Node` and `Tree`, the executable arena, with contracts over the
//!   two modules above.
//! - `laws`: what holds of every tree.

pub mod laws;
pub mod matching;
pub mod model;
pub mod tree;

pub use tree::{Node, Tree};
