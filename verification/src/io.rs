//! Taking an automaton out of memory and bringing it back.

pub mod save;
