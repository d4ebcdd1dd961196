//! The suffix automaton of a token stream, built one token at a time.

pub mod model;
pub mod automaton;
pub mod text;
pub mod language;
pub mod counts;
