//! An in-memory ordered key-value map backed by a probabilistic skip list.
//!
//! Nodes live in an arena (`Vec`) and forward links are slot indices, so the
//! classic pointer-chasing structure becomes ownership-safe: the map owns the
//! arena, a removal marks its slot free for reuse, and no node is ever shared.

pub mod levels;
mod rng;
pub mod skip_map;
pub mod sorted_seq;

pub use skip_map::{Iter, Node, SkipMap};
pub use sorted_seq::{seq_get, seq_insert, seq_remove, sorted_keys};
