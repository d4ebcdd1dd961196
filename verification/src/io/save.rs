//! What is written when an automaton is saved.

use vstd::prelude::*;
use vstd::string::*;
use crate::graph::memory_backing::DiskBacking;

verus! {

/// A node as it is written out.
#[derive(Clone, Copy, Debug, PartialEq, Eq, Structural)]
pub struct NodeRecord {
    pub length: u64,
    /// Number of the state that the suffix link leads to; the largest value
    /// where there is no link.
    pub failure: u32,
    pub count: u64,
}

/// An edge as it is written out.
#[derive(Clone, Copy, Debug, PartialEq, Eq, Structural)]
pub struct EdgeRecord {
    pub source: u32,
    pub token: u64,
    pub target: u32,
}

/// A whole automaton as it is written out: its nodes and its edges, each in
/// the order of their creation.
#[derive(Debug)]
pub struct SavedGraph {
    pub nodes: Vec<NodeRecord>,
    pub edges: Vec<EdgeRecord>,
}

/// Why records are not those of an automaton.
#[derive(Clone, Copy, Debug, PartialEq, Eq, Structural)]
pub enum LoadError {
    /// There are no nodes, or too many; the first node is not a source; or
    /// the suffix link of another node does not lead to a shorter state.
    MalformedNode,
    /// There are too many edges; an edge does not join two nodes, or leads to
    /// the source; or two edges leave one node under one token.
    MalformedEdge,
}

/// The node records are those of an automaton.
pub open spec fn nodes_valid(ns: Seq<NodeRecord>) -> bool {
    &&& 1 <= ns.len() <= u32::MAX
    &&& ns[0].length == 0
    &&& ns[0].failure == u32::MAX
    &&& forall|v: int|
        0 < v < ns.len() ==> (#[trigger] ns[v]).failure < ns.len() && ns[ns[v].failure as int].length
            < ns[v].length
}

/// The edge records are those of an automaton of `n` states.
pub open spec fn edges_valid(n: int, es: Seq<EdgeRecord>) -> bool {
    &&& es.len() <= u32::MAX
    &&& forall|e: int| 0 <= e < es.len() ==> (#[trigger] es[e]).source < n && 0 < es[e].target < n
    &&& forall|e1: int, e2: int|
        0 <= e1 < e2 < es.len() ==> !((#[trigger] es[e1]).source == (#[trigger] es[e2]).source
            && es[e1].token == es[e2].token)
}

/// The reason, if any, for which the records are refused.
pub open spec fn load_error(ns: Seq<NodeRecord>, es: Seq<EdgeRecord>) -> Option<LoadError> {
    if !nodes_valid(ns) {
        Some(LoadError::MalformedNode)
    } else if !edges_valid(ns.len() as int, es) {
        Some(LoadError::MalformedEdge)
    } else {
        None
    }
}

/// What saving comes to.
#[derive(Debug)]
pub enum SavePlan {
    /// The stores are on disk already: there is nothing to write.
    Nothing,
    /// The graph is to be written, whole, to the file at `path`.
    WriteFile { path: String, graph: SavedGraph },
}

/// Something that can be saved under a path.
pub trait Save {
    /// What the value needs to be in order to be saved.
    spec fn can_save(&self) -> bool;

    /// The records to write; `None` where the value is on disk already.
    spec fn saved(&self) -> Option<(Seq<NodeRecord>, Seq<EdgeRecord>)>;

    /// Decides what has to be written to save the value under `save_path`.
    fn save(&self, save_path: &str) -> (plan: SavePlan)
        requires
            self.can_save(),
        ensures
            match plan {
                SavePlan::Nothing => self.saved() is None,
                SavePlan::WriteFile { path, graph } => {
                    &&& path@ == save_path@
                    &&& self.saved() == Some((graph.nodes@, graph.edges@))
                },
            },
    ;
}

/// A graph on disk is already saved.
impl Save for DiskBacking {
    open spec fn can_save(&self) -> bool {
        true
    }

    open spec fn saved(&self) -> Option<(Seq<NodeRecord>, Seq<EdgeRecord>)> {
        None
    }

    fn save(&self, _save_path: &str) -> (plan: SavePlan) {
        SavePlan::Nothing
    }
}

} // verus!
