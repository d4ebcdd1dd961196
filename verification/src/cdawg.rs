//! The compacted automaton.

pub mod model;
pub mod paths;
pub mod compact;
