//! What is recorded of a build at a point in time.

use vstd::prelude::*;
use crate::dawg::automaton::Dawg;
use crate::cdawg::compact::Cdawg;
use crate::graph::avl_graph::BalanceRatio;
use crate::weight::Weight;

verus! {

/// A snapshot of a build: how much has been read and how large the
/// automaton has become.
#[derive(Clone, Copy, Debug, PartialEq, Eq, Structural)]
pub struct BuildStats {
    pub n_tokens: usize,
    pub n_nodes: usize,
    pub n_edges: usize,
    pub n_bytes: u64,
    /// Balance of the edge tree of the source.
    pub balance: BalanceRatio,
    pub elapsed_millis: u64,
}

impl BuildStats {
    /// The snapshot of `dawg` after `n_tokens` tokens, `n_bytes` bytes and
    /// `elapsed_millis` milliseconds.
    pub fn from_dawg<W: Weight>(dawg: &Dawg<W>, n_tokens: usize, n_bytes: u64, elapsed_millis: u64) -> (s:
        Self)
        requires
            dawg.wf(),
        ensures
            s.n_tokens == n_tokens,
            s.n_nodes == dawg@.len(),
            s.n_edges == dawg.edge_total(),
            s.n_bytes == n_bytes,
            s.elapsed_millis == elapsed_millis,
            s.balance.optimal <= s.balance.observed,
            s.balance == dawg.balance_of(0),
    {
        BuildStats {
            n_tokens,
            n_nodes: dawg.node_count(),
            n_edges: dawg.edge_count(),
            n_bytes,
            balance: dawg.balance_ratio(dawg.get_initial()),
            elapsed_millis,
        }
    }

    /// The snapshot of `cdawg` after `n_tokens` tokens, `n_bytes` bytes and
    /// `elapsed_millis` milliseconds.
    pub fn from_cdawg(cdawg: &Cdawg, n_tokens: usize, n_bytes: u64, elapsed_millis: u64) -> (s: Self)
        requires
            cdawg.wf(),
        ensures
            s.n_tokens == n_tokens,
            s.n_nodes == cdawg@.len(),
            s.n_edges == cdawg.edge_total(),
            s.n_bytes == n_bytes,
            s.elapsed_millis == elapsed_millis,
            s.balance.optimal <= s.balance.observed,
    {
        BuildStats {
            n_tokens,
            n_nodes: cdawg.node_count(),
            n_edges: cdawg.edge_count(),
            n_bytes,
            balance: cdawg.balance_ratio(cdawg.get_initial()),
            elapsed_millis,
        }
    }
}

} // verus!
