//! An incremental computation engine core: interned keys, a versioned
//! dependency graph, a serialized state machine that assigns versions, and
//! tracking of in-flight computations with cooperative cancellation.

pub mod data;
pub mod key_index;
pub mod error;
pub mod graph;
pub mod tasks;
pub mod state;
pub mod dice;
pub mod ty;
