//! Indexing of a token stream for substring and n-gram queries.
//!
//! The index is the suffix automaton of the stream (`dawg`), built one token
//! at a time, and its compacted form (`cdawg`), whose edges are labelled by
//! spans of the stream. Both are kept in an arena graph (`graph`) whose nodes
//! and edges are addressed by compact handles (`indexing`) and whose nodes keep
//! their outgoing edges in a balanced search tree. What a node carries is a
//! `weight`. `io` and `graph::disk_layout` say how an automaton is taken out
//! of memory; reading and writing files is left to the caller.
//!
//! What is proved of the index: the suffix automaton built from a text
//! follows exactly the strings that occur in the text
//! (`dawg::language::lemma_accepts_exactly_substrings`), the count of the
//! state that a string leads to is the number of times that the string occurs
//! (`dawg::counts::lemma_count_is_occurrences`), and the spans along any path
//! of the compacted automaton spell a string that occurs in the text
//! (`cdawg::paths::lemma_spans_spell_substrings`).

pub mod indexing;
pub mod weight;
pub mod graph;
pub mod dawg;
pub mod cdawg;
pub mod io;
pub mod build_stats;
