//! The node and edge container. Every node owns a balanced search tree of its
//! outgoing edges, keyed by the first token of each edge.

use vstd::prelude::*;
use vstd::arithmetic::power2::pow2;
use vstd::arithmetic::power2::lemma2_to64;
use vstd::arithmetic::power2::lemma_pow2_unfold;
use vstd::arithmetic::power2::lemma_pow2_strictly_increases;
use crate::graph::memory_backing::RamBacking;
use crate::indexing::EdgeIndex;
use crate::indexing::NodeIndex;
use crate::indexing::Token;
use crate::indexing::none_ix;
use crate::graph::avl_tree::Edge;
use crate::graph::avl_tree::bst;
use crate::graph::avl_tree::find;
use crate::graph::avl_tree::ht;
use crate::graph::avl_tree::inorder;
use crate::graph::avl_tree::key_top;
use crate::graph::avl_tree::no_edge;
use crate::graph::avl_tree::agree_on;
use crate::graph::avl_tree::same_shape;
use crate::graph::avl_tree::listed_ok;
use crate::graph::avl_tree::lemma_frame;
use crate::graph::avl_tree::lemma_reweigh;
use crate::graph::avl_tree::lemma_find_props;
use crate::graph::avl_tree::lemma_inorder_props;
use crate::graph::avl_tree::lemma_height_bound;
use crate::graph::avl_tree::insert;
use crate::graph::avl_tree::lookup;
use crate::graph::avl_tree::collect;
use crate::graph::avl_tree::height_of;
use crate::graph::avl_tree::span_of_height;

verus! {

/// One record of the node store.
#[derive(Clone, Copy, Debug)]
pub struct Node<N> {
    pub weight: N,
    /// Root of the node's edge tree.
    pub first_edge: EdgeIndex,
}

/// An edge as callers see it.
pub struct EdgeView<E> {
    pub source: int,
    pub key: Token,
    pub target: int,
    pub weight: E,
}

/// A graph as callers see it: the node weights and the edges, each in the
/// order of their creation. A handle is a position in one of the two.
pub struct GraphView<N, E> {
    pub nodes: Seq<N>,
    pub edges: Seq<EdgeView<E>>,
}

/// Edge `e` of `es` leaves node `a` under key `k`.
pub open spec fn is_edge_in<E>(es: Seq<EdgeView<E>>, e: int, a: int, k: Token) -> bool {
    &&& 0 <= e < es.len()
    &&& es[e].source == a
    &&& es[e].key == k
}

impl<N, E> GraphView<N, E> {
    /// Edge `e` leaves node `a` under key `k`.
    pub open spec fn is_edge(self, e: int, a: int, k: Token) -> bool {
        is_edge_in(self.edges, e, a, k)
    }

    /// Some edge leaves node `a` under key `k`.
    pub open spec fn has_edge(self, a: int, k: Token) -> bool {
        exists|e: int| is_edge_in(self.edges, e, a, k)
    }

    /// The edge that leaves node `a` under key `k`.
    pub open spec fn edge_at(self, a: int, k: Token) -> int {
        choose|e: int| is_edge_in(self.edges, e, a, k)
    }

    /// Where each token leads from node `a`.
    pub open spec fn next_map(self, a: int) -> Map<Token, int> {
        Map::new(|k: Token| self.has_edge(a, k), |k: Token| self.edges[self.edge_at(a, k)].target)
    }

    /// The edges that leave node `a`.
    pub open spec fn out_edges(self, a: int) -> Set<int> {
        Set::new(|e: int| 0 <= e < self.edges.len() && self.edges[e].source == a)
    }

    /// Every edge joins two nodes of the graph, and no two edges leave the
    /// same node under the same key.
    pub open spec fn wf(self) -> bool {
        &&& forall|e: int|
            0 <= e < self.edges.len() ==> {
                &&& 0 <= (#[trigger] self.edges[e]).source < self.nodes.len()
                &&& 0 <= self.edges[e].target < self.nodes.len()
            }
        &&& forall|e1: int, e2: int, a: int, k: Token|
            #[trigger] is_edge_in(self.edges, e1, a, k) && #[trigger] is_edge_in(self.edges, e2, a, k)
                ==> e1 == e2
    }

    /// The edge that each token leaves node `a` by.
    pub open spec fn edge_map(self, a: int) -> Map<Token, int> {
        Map::new(|k: Token| self.has_edge(a, k), |k: Token| self.edge_at(a, k))
    }

    /// The edge that leaves a node under a key is the only one, and it does.
    pub proof fn lemma_edge_at(self, e: int, a: int, k: Token)
        requires
            self.wf(),
            is_edge_in(self.edges, e, a, k),
        ensures
            self.has_edge(a, k),
            self.edge_at(a, k) == e,
    {
        assert(is_edge_in(self.edges, self.edge_at(a, k), a, k));
    }

    /// A new edge is found under its key from its source; every other
    /// lookup finds what it found before.
    pub proof fn lemma_edge_map_with_edge(self, from: int, to: int, key: Token, weight: E)
        requires
            self.wf(),
            !self.has_edge(from, key),
        ensures
            self.with_edge(from, to, key, weight).edge_map(from) == self.edge_map(from).insert(
                key,
                self.edges.len() as int,
            ),
            forall|a: int|
                a != from ==> #[trigger] self.with_edge(from, to, key, weight).edge_map(a)
                    == self.edge_map(a),
    {
        let g2 = self.with_edge(from, to, key, weight);
        let n = self.edges.len() as int;
        assert(is_edge_in(g2.edges, n, from, key));
        assert forall|a: int, k: Token| #[trigger] g2.has_edge(a, k) implies {
            &&& self.has_edge(a, k) || (a == from && k == key)
            &&& g2.edge_at(a, k) == if a == from && k == key {
                n
            } else {
                self.edge_at(a, k)
            }
        } by {
            let e2 = g2.edge_at(a, k);
            if e2 < n {
                assert(is_edge_in(self.edges, e2, a, k));
                let e1 = self.edge_at(a, k);
                assert(is_edge_in(self.edges, e1, a, k));
            }
        }
        assert forall|a: int, k: Token| #[trigger] self.has_edge(a, k) implies g2.has_edge(a, k) by {
            let e1 = self.edge_at(a, k);
            assert(is_edge_in(g2.edges, e1, a, k));
        }
        assert(g2.edge_map(from) =~= self.edge_map(from).insert(key, n));
        assert forall|a: int| a != from implies #[trigger] g2.edge_map(a) == self.edge_map(a) by {
            assert(g2.edge_map(a) =~= self.edge_map(a));
        }
    }

    /// A new edge adds its key to the ways out of its source and changes
    /// nothing else.
    pub proof fn lemma_next_with_edge(self, from: int, to: int, key: Token, weight: E)
        requires
            self.wf(),
            !self.has_edge(from, key),
        ensures
            self.with_edge(from, to, key, weight).next_map(from) == self.next_map(from).insert(key, to),
            forall|a: int|
                a != from ==> #[trigger] self.with_edge(from, to, key, weight).next_map(a)
                    == self.next_map(a),
    {
        let g2 = self.with_edge(from, to, key, weight);
        let n = self.edges.len() as int;
        assert(is_edge_in(g2.edges, n, from, key));
        assert forall|a: int, k: Token| #[trigger] g2.has_edge(a, k) implies {
            &&& self.has_edge(a, k) || (a == from && k == key)
            &&& g2.edges[g2.edge_at(a, k)].target == if a == from && k == key {
                to
            } else {
                self.edges[self.edge_at(a, k)].target
            }
        } by {
            let e2 = g2.edge_at(a, k);
            if e2 < n {
                assert(is_edge_in(self.edges, e2, a, k));
                let e1 = self.edge_at(a, k);
                assert(is_edge_in(self.edges, e1, a, k));
            }
        }
        assert forall|a: int, k: Token| #[trigger] self.has_edge(a, k) implies g2.has_edge(a, k) by {
            let e1 = self.edge_at(a, k);
            assert(is_edge_in(g2.edges, e1, a, k));
        }
        assert(g2.next_map(from) =~= self.next_map(from).insert(key, to));
        assert forall|a: int| a != from implies #[trigger] g2.next_map(a) == self.next_map(a) by {
            assert(g2.next_map(a) =~= self.next_map(a));
        }
    }

    /// Sending an edge elsewhere changes where its key leads from its source
    /// and nothing else.
    pub proof fn lemma_next_with_target(self, e: int, t: int)
        requires
            self.wf(),
            0 <= e < self.edges.len(),
        ensures
            self.with_edge_target(e, t).next_map(self.edges[e].source) == self.next_map(
                self.edges[e].source,
            ).insert(self.edges[e].key, t),
            forall|a: int|
                a != self.edges[e].source ==> #[trigger] self.with_edge_target(e, t).next_map(a)
                    == self.next_map(a),
    {
        let g2 = self.with_edge_target(e, t);
        let from = self.edges[e].source;
        let key = self.edges[e].key;
        assert(is_edge_in(self.edges, e, from, key));
        assert(is_edge_in(g2.edges, e, from, key));
        assert forall|a: int, k: Token| #[trigger] g2.has_edge(a, k) implies {
            &&& self.has_edge(a, k)
            &&& g2.edges[g2.edge_at(a, k)].target == if a == from && k == key {
                t
            } else {
                self.edges[self.edge_at(a, k)].target
            }
        } by {
            let e2 = g2.edge_at(a, k);
            assert(is_edge_in(self.edges, e2, a, k));
            let e1 = self.edge_at(a, k);
            assert(is_edge_in(self.edges, e1, a, k));
        }
        assert forall|a: int, k: Token| #[trigger] self.has_edge(a, k) implies g2.has_edge(a, k) by {
            let e1 = self.edge_at(a, k);
            assert(is_edge_in(g2.edges, e1, a, k));
        }
        assert(g2.next_map(from) =~= self.next_map(from).insert(key, t));
        assert forall|a: int| a != from implies #[trigger] g2.next_map(a) == self.next_map(a) by {
            assert(g2.next_map(a) =~= self.next_map(a));
        }
    }

    /// `s` lists the edges that leave node `a`, each once, by ascending key.
    pub open spec fn lists_out_edges(self, a: int, s: Seq<EdgeIndex>) -> bool {
        &&& forall|j: int|
            0 <= j < s.len() ==> (#[trigger] s[j])@ < self.edges.len() && self.edges[s[j]@].source
                == a
        &&& forall|i: int, j: int|
            0 <= i < j < s.len() ==> self.edges[(#[trigger] s[i])@].key < self.edges[(
            #[trigger] s[j])@].key
        &&& forall|e: int|
            0 <= e < self.edges.len() && (#[trigger] self.edges[e]).source == a ==> s.contains(
                EdgeIndex { ix: e as u32 },
            )
    }

    /// A listing of a node's edges is as long as the node has edges.
    pub proof fn lemma_listing_len(self, a: int, s: Seq<EdgeIndex>)
        requires
            self.edges.len() <= none_ix(),
            self.lists_out_edges(a, s),
        ensures
            self.out_edges(a).finite(),
            s.len() == self.out_edges(a).len(),
    {
        let ints = s.map_values(|e: EdgeIndex| e@);
        assert forall|i: int, j: int| 0 <= i < ints.len() && 0 <= j < ints.len() && i != j implies ints[i]
            != ints[j] by {
            if i < j {
                assert(self.edges[s[i]@].key < self.edges[s[j]@].key);
            } else {
                assert(self.edges[s[j]@].key < self.edges[s[i]@].key);
            }
        }
        assert(ints.no_duplicates());
        assert(ints.to_set() =~= self.out_edges(a)) by {
            assert forall|e: int| self.out_edges(a).contains(e) implies ints.to_set().contains(e) by {
                assert(self.edges[e].source == a);
                let h = EdgeIndex { ix: e as u32 };
                assert(s.contains(h));
                let j = choose|j: int| 0 <= j < s.len() && s[j] == h;
                assert(ints[j] == e);
            }
            assert forall|e: int| ints.to_set().contains(e) implies self.out_edges(a).contains(e) by {
                let j = choose|j: int| 0 <= j < ints.len() && ints[j] == e;
                assert(s[j]@ == e);
            }
        }
        ints.unique_seq_to_set();
        vstd::seq_lib::seq_to_set_is_finite(ints);
    }

    /// A listing of a node's edges names every way out of the node once.
    pub proof fn lemma_listing_keys(self, a: int, s: Seq<EdgeIndex>)
        requires
            self.wf(),
            self.edges.len() <= none_ix(),
            self.lists_out_edges(a, s),
        ensures
            self.next_map(a).dom().finite(),
            self.next_map(a).dom().len() == s.len(),
            forall|j: int|
                0 <= j < s.len() ==> self.next_map(a).contains_key(self.edges[(#[trigger] s[j])@].key)
                    && self.next_map(a)[self.edges[s[j]@].key] == self.edges[s[j]@].target,
            forall|k: Token| #[trigger]
                self.next_map(a).contains_key(k) ==> exists|j: int|
                    0 <= j < s.len() && self.edges[(#[trigger] s[j])@].key == k,
    {
        let keys = s.map_values(|e: EdgeIndex| self.edges[e@].key);
        assert forall|i: int, j: int| 0 <= i < keys.len() && 0 <= j < keys.len() && i != j implies keys[i]
            != keys[j] by {
            if i < j {
                assert(self.edges[s[i]@].key < self.edges[s[j]@].key);
            } else {
                assert(self.edges[s[j]@].key < self.edges[s[i]@].key);
            }
        }
        assert forall|j: int| 0 <= j < s.len() implies self.next_map(a).contains_key(
            self.edges[(#[trigger] s[j])@].key,
        ) && self.next_map(a)[self.edges[s[j]@].key] == self.edges[s[j]@].target by {
            let k = self.edges[s[j]@].key;
            assert(is_edge_in(self.edges, s[j]@, a, k));
            assert(is_edge_in(self.edges, self.edge_at(a, k), a, k));
        }
        assert forall|k: Token| #[trigger] self.next_map(a).contains_key(k) implies exists|j: int|
            0 <= j < s.len() && self.edges[(#[trigger] s[j])@].key == k by {
            let e = self.edge_at(a, k);
            assert(is_edge_in(self.edges, e, a, k));
            assert(self.edges[e].source == a);
            let h = EdgeIndex { ix: e as u32 };
            assert(s.contains(h));
            let j = choose|j: int| 0 <= j < s.len() && s[j] == h;
            assert(self.edges[s[j]@].key == k);
        }
        assert(keys.to_set() =~= self.next_map(a).dom()) by {
            assert forall|k: Token| self.next_map(a).dom().contains(k) implies keys.to_set().contains(
                k,
            ) by {
                assert(self.next_map(a).contains_key(k));
                let j = choose|j: int| 0 <= j < s.len() && self.edges[(#[trigger] s[j])@].key == k;
                assert(keys[j] == k);
            }
            assert forall|k: Token| keys.to_set().contains(k) implies self.next_map(a).dom().contains(
                k,
            ) by {
                let j = choose|j: int| 0 <= j < keys.len() && keys[j] == k;
                assert(self.edges[s[j]@].key == k);
            }
        }
        keys.unique_seq_to_set();
        vstd::seq_lib::seq_to_set_is_finite(keys);
    }

    pub open spec fn with_node(self, w: N) -> Self {
        GraphView { nodes: self.nodes.push(w), edges: self.edges }
    }

    pub open spec fn with_edge(self, from: int, to: int, key: Token, weight: E) -> Self {
        GraphView {
            nodes: self.nodes,
            edges: self.edges.push(EdgeView { source: from, key, target: to, weight }),
        }
    }

    pub open spec fn with_node_weight(self, a: int, w: N) -> Self {
        GraphView { nodes: self.nodes.update(a, w), edges: self.edges }
    }

    pub open spec fn with_edge_weight(self, e: int, w: E) -> Self {
        GraphView {
            nodes: self.nodes,
            edges: self.edges.update(
                e,
                EdgeView {
                    source: self.edges[e].source,
                    key: self.edges[e].key,
                    target: self.edges[e].target,
                    weight: w,
                },
            ),
        }
    }

    pub open spec fn with_edge_target(self, e: int, t: int) -> Self {
        GraphView {
            nodes: self.nodes,
            edges: self.edges.update(
                e,
                EdgeView {
                    source: self.edges[e].source,
                    key: self.edges[e].key,
                    target: t,
                    weight: self.edges[e].weight,
                },
            ),
        }
    }
}

/// The graph: two arenas, addressed by handles.
pub struct AvlGraph<N, E> {
    nodes: Vec<Node<N>>,
    edges: Vec<Edge<E>>,
}

pub open spec fn edge_view<E>(e: Edge<E>) -> EdgeView<E> {
    EdgeView { source: e.source@, key: e.key, target: e.target@, weight: e.weight }
}

impl<N, E> View for AvlGraph<N, E> {
    type V = GraphView<N, E>;

    closed spec fn view(&self) -> GraphView<N, E> {
        GraphView {
            nodes: self.nodes@.map_values(|n: Node<N>| n.weight),
            edges: self.edges@.map_values(|e: Edge<E>| edge_view(e)),
        }
    }
}

impl<N: Copy, E: Copy> AvlGraph<N, E> {
    spec fn tree_ok(&self, a: NodeIndex) -> bool {
        bst(self.edges@, a, self.nodes@[a@].first_edge, -1, key_top())
    }

    spec fn edge_ok(&self, i: int) -> bool {
        let e = self.edges@[i];
        &&& e.source@ < self.nodes@.len()
        &&& e.target@ < self.nodes@.len()
        &&& find(self.edges@, self.nodes@[e.source@].first_edge, e.key) == EdgeIndex { ix: i as u32 }
    }

    /// The trees index the store: every node roots a balanced search tree of
    /// its own edges, and every stored edge is found in its source's tree.
    pub closed spec fn inv(&self) -> bool {
        &&& self.nodes@.len() <= none_ix()
        &&& self.edges@.len() <= none_ix()
        &&& forall|a: NodeIndex| a@ < self.nodes@.len() ==> #[trigger] self.tree_ok(a)
        &&& forall|i: int| 0 <= i < self.edges@.len() ==> #[trigger] self.edge_ok(i)
    }

    /// Height of the edge tree of node `a`.
    pub closed spec fn tree_height(&self, a: int) -> nat {
        ht(self.edges@, self.nodes@[a].first_edge)
    }

    /// The graph is well formed.
    pub open spec fn wf(&self) -> bool {
        &&& self.inv()
        &&& self@.wf()
        &&& self@.nodes.len() <= none_ix()
        &&& self@.edges.len() <= none_ix()
    }

    proof fn lemma_inv_view(&self)
        requires
            self.inv(),
        ensures
            self.wf(),
    {
        let v = self@;
        assert forall|e: int| 0 <= e < v.edges.len() implies {
            &&& 0 <= (#[trigger] v.edges[e]).source < v.nodes.len()
            &&& 0 <= v.edges[e].target < v.nodes.len()
        } by {
            assert(self.edge_ok(e));
        }
        assert forall|e1: int, e2: int, a: int, k: Token|
            #[trigger] is_edge_in(v.edges, e1, a, k) && #[trigger] is_edge_in(v.edges, e2, a, k) implies e1
            == e2 by {
            assert(self.edge_ok(e1));
            assert(self.edge_ok(e2));
        }
    }

    /// An empty graph.
    pub fn new() -> (g: Self)
        ensures
            g.wf(),
            g@.nodes.len() == 0,
            g@.edges.len() == 0,
    {
        let backing = RamBacking::new();
        let g = AvlGraph { nodes: backing.new_node_vec(None), edges: backing.new_edge_vec(None) };
        proof {
            g.lemma_inv_view();
        }
        g
    }

    /// An empty graph with room set aside for the given numbers of nodes and
    /// edges.
    pub fn with_capacity(n_nodes: usize, n_edges: usize) -> (g: Self)
        ensures
            g.wf(),
            g@.nodes.len() == 0,
            g@.edges.len() == 0,
    {
        let backing = RamBacking::new();
        let g = AvlGraph {
            nodes: backing.new_node_vec(Some(n_nodes)),
            edges: backing.new_edge_vec(Some(n_edges)),
        };
        proof {
            g.lemma_inv_view();
        }
        g
    }

    pub fn node_count(&self) -> (n: usize)
        ensures
            n == self@.nodes.len(),
    {
        self.nodes.len()
    }

    pub fn edge_count(&self) -> (n: usize)
        ensures
            n == self@.edges.len(),
    {
        self.edges.len()
    }

    /// Appends a node that has no edges.
    pub fn add_node(&mut self, weight: N) -> (a: NodeIndex)
        requires
            old(self).wf(),
            old(self)@.nodes.len() < none_ix(),
        ensures
            final(self).wf(),
            final(self)@ == old(self)@.with_node(weight),
            a@ == old(self)@.nodes.len(),
    {
        let a = NodeIndex::new(self.nodes.len());
        let ghost before = *self;
        self.nodes.push(Node { weight, first_edge: EdgeIndex::end() });
        proof {
            assert(self@.nodes =~= before@.nodes.push(weight));
            assert forall|b: NodeIndex| b@ < self.nodes@.len() implies #[trigger] self.tree_ok(b) by {
                if b@ < before.nodes@.len() {
                    assert(before.tree_ok(b));
                }
            }
            assert forall|i: int| 0 <= i < self.edges@.len() implies #[trigger] self.edge_ok(i) by {
                assert(before.edge_ok(i));
            }
            self.lemma_inv_view();
        }
        a
    }

    /// The edge that leaves `from` under `key`, or the sentinel if there is
    /// none.
    pub fn get_edge_by_token(&self, from: NodeIndex, key: Token) -> (e: EdgeIndex)
        requires
            self.wf(),
            from@ < self@.nodes.len(),
        ensures
            e@ != none_ix() ==> self@.is_edge(e@, from@, key),
            e@ == none_ix() ==> !self@.has_edge(from@, key),
    {
        let root = self.nodes[from.index()].first_edge;
        proof {
            assert(self.tree_ok(from));
            lemma_find_props(self.edges@, from, root, -1, key_top(), key);
            if self@.has_edge(from@, key) {
                let w = self@.edge_at(from@, key);
                assert(self.edge_ok(w));
                assert(self.edges@[w].source == from);
            }
        }
        lookup(&self.edges, root, key, Ghost(from))
    }

    /// Adds an edge from `from` to `to` under `key`. No edge may leave `from`
    /// under that key yet.
    #[verifier::rlimit(40)]
    pub fn add_edge(&mut self, from: NodeIndex, to: NodeIndex, key: Token, weight: E) -> (e: EdgeIndex)
        requires
            old(self).wf(),
            from@ < old(self)@.nodes.len(),
            to@ < old(self)@.nodes.len(),
            !old(self)@.has_edge(from@, key),
            old(self)@.edges.len() < none_ix(),
        ensures
            final(self).wf(),
            final(self)@ == old(self)@.with_edge(from@, to@, key, weight),
            e@ == old(self)@.edges.len(),
    {
        let ghost before = *self;
        let ghost es0 = self.edges@;
        let n = EdgeIndex::new(self.edges.len());
        let root = self.nodes[from.index()].first_edge;
        self.edges.push(
            Edge {
                key,
                weight,
                source: from,
                target: to,
                left: EdgeIndex::end(),
                right: EdgeIndex::end(),
                height: 1,
            },
        );
        let ghost es1 = self.edges@;
        proof {
            assert(before.tree_ok(from));
            lemma_frame(es0, es1, from, root, -1, key_top());
            lemma_find_props(es0, from, root, -1, key_top(), key);
            if find(es0, root, key) != no_edge() {
                assert(before@.is_edge(find(es0, root, key)@, from@, key));
            }
        }
        let nr = insert(&mut self.edges, root, n, Ghost(from), Ghost(-1), Ghost(key_top()));
        let w = self.nodes[from.index()].weight;
        self.nodes.set(from.index(), Node { weight: w, first_edge: nr });
        proof {
            let es2 = self.edges@;
            assert(self@.nodes =~= before@.nodes);
            assert(self@.edges =~= before@.with_edge(from@, to@, key, weight).edges) by {
                assert forall|i: int| 0 <= i < es2.len() implies edge_view(es2[i]) == before@.with_edge(
                    from@,
                    to@,
                    key,
                    weight,
                ).edges[i] by {
                    assert(es2[i].key == es1[i].key);
                }
            }
            assert forall|b: NodeIndex| b@ < self.nodes@.len() implies #[trigger] self.tree_ok(b) by {
                if b != from {
                    assert(before.tree_ok(b));
                    assert(agree_on(es0, es2, b, -1, key_top())) by {
                        assert forall|i: int|
                            0 <= i < es0.len() && es0[i].source == b && -1 < es0[i].key
                                < key_top() implies #[trigger] es2[i] == es0[i] by {
                            assert(es2[i] == es1[i]);
                        }
                    }
                    lemma_frame(es0, es2, b, before.nodes@[b@].first_edge, -1, key_top());
                }
            }
            assert forall|i: int| 0 <= i < self.edges@.len() implies #[trigger] self.edge_ok(i) by {
                assert(es2[i].key == es1[i].key);
                if i < es0.len() {
                    assert(before.edge_ok(i));
                    let b = es0[i].source;
                    if b != from {
                        assert(before.tree_ok(b));
                        assert(agree_on(es0, es2, b, -1, key_top())) by {
                            assert forall|j: int|
                                0 <= j < es0.len() && es0[j].source == b && -1 < es0[j].key
                                    < key_top() implies #[trigger] es2[j] == es0[j] by {
                                assert(es2[j] == es1[j]);
                            }
                        }
                        lemma_frame(es0, es2, b, before.nodes@[b@].first_edge, -1, key_top());
                    } else {
                        if es0[i].key == key {
                            assert(before@.is_edge(i, from@, key));
                        }
                        assert(find(es2, nr, es0[i].key) == find(es1, root, es0[i].key));
                        assert(find(es1, root, es0[i].key) == find(es0, root, es0[i].key));
                    }
                } else {
                    assert(find(es2, nr, key) == n);
                }
            }
            self.lemma_inv_view();
        }
        n
    }

    pub fn node_weight(&self, a: NodeIndex) -> (w: N)
        requires
            self.wf(),
            a@ < self@.nodes.len(),
        ensures
            w == self@.nodes[a@],
    {
        self.nodes[a.index()].weight
    }

    pub fn set_node_weight(&mut self, a: NodeIndex, weight: N)
        requires
            old(self).wf(),
            a@ < old(self)@.nodes.len(),
        ensures
            final(self).wf(),
            final(self)@ == old(self)@.with_node_weight(a@, weight),
    {
        let ghost before = *self;
        let first_edge = self.nodes[a.index()].first_edge;
        self.nodes.set(a.index(), Node { weight, first_edge });
        proof {
            assert(self@.nodes =~= before@.nodes.update(a@, weight));
            assert forall|b: NodeIndex| b@ < self.nodes@.len() implies #[trigger] self.tree_ok(b) by {
                assert(before.tree_ok(b));
            }
            assert forall|i: int| 0 <= i < self.edges@.len() implies #[trigger] self.edge_ok(i) by {
                assert(before.edge_ok(i));
            }
            self.lemma_inv_view();
        }
    }

    pub fn edge_source(&self, e: EdgeIndex) -> (a: NodeIndex)
        requires
            self.wf(),
            e@ < self@.edges.len(),
        ensures
            a@ == self@.edges[e@].source,
            a@ < self@.nodes.len(),
    {
        self.edges[e.index()].source
    }

    pub fn edge_target(&self, e: EdgeIndex) -> (a: NodeIndex)
        requires
            self.wf(),
            e@ < self@.edges.len(),
        ensures
            a@ == self@.edges[e@].target,
            a@ < self@.nodes.len(),
    {
        self.edges[e.index()].target
    }

    pub fn edge_key(&self, e: EdgeIndex) -> (k: Token)
        requires
            self.wf(),
            e@ < self@.edges.len(),
        ensures
            k == self@.edges[e@].key,
    {
        self.edges[e.index()].key
    }

    pub fn edge_weight(&self, e: EdgeIndex) -> (w: E)
        requires
            self.wf(),
            e@ < self@.edges.len(),
        ensures
            w == self@.edges[e@].weight,
    {
        self.edges[e.index()].weight
    }

    proof fn lemma_same_shape_inv(&self, before: &Self)
        requires
            before.inv(),
            self.nodes@ == before.nodes@,
            same_shape(before.edges@, self.edges@),
            forall|i: int|
                0 <= i < self.edges@.len() ==> (#[trigger] self.edges@[i]).target@
                    < self.nodes@.len(),
        ensures
            self.inv(),
            forall|a: int| self.tree_height(a) == before.tree_height(a),
    {
        assert forall|b: NodeIndex| b@ < self.nodes@.len() implies #[trigger] self.tree_ok(b) by {
            assert(before.tree_ok(b));
            lemma_reweigh(before.edges@, self.edges@, b, before.nodes@[b@].first_edge, -1, key_top());
        }
        assert forall|i: int| 0 <= i < self.edges@.len() implies #[trigger] self.edge_ok(i) by {
            assert(before.edge_ok(i));
            let b = before.edges@[i].source;
            assert(self.edges@[i].key == before.edges@[i].key);
            assert(before.tree_ok(b));
            lemma_reweigh(before.edges@, self.edges@, b, before.nodes@[b@].first_edge, -1, key_top());
        }
        assert forall|a: int| self.tree_height(a) == before.tree_height(a) by {
            let r = before.nodes@[a].first_edge;
            if r@ < self.edges@.len() {
                assert(self.edges@[r@].height == before.edges@[r@].height);
            }
        }
    }

    /// Replaces the weight of edge `e`; the edge keeps its key, its end points
    /// and its place in the tree.
    pub fn update_edge(&mut self, e: EdgeIndex, weight: E)
        requires
            old(self).wf(),
            e@ < old(self)@.edges.len(),
        ensures
            final(self).wf(),
            final(self)@ == old(self)@.with_edge_weight(e@, weight),
    {
        let ghost before = *self;
        let r = self.edges[e.index()];
        self.edges.set(
            e.index(),
            Edge {
                key: r.key,
                weight,
                source: r.source,
                target: r.target,
                left: r.left,
                right: r.right,
                height: r.height,
            },
        );
        proof {
            assert(self@.edges =~= before@.with_edge_weight(e@, weight).edges);
            assert forall|i: int| 0 <= i < self.edges@.len() implies (#[trigger] self.edges@[i]).target@
                < self.nodes@.len() by {
                assert(before.edge_ok(i));
            }
            self.lemma_same_shape_inv(&before);
            self.lemma_inv_view();
        }
    }

    /// Makes edge `e` lead to `target`; the edge keeps its key, its source,
    /// its weight and its place in the tree.
    pub fn reroute_edge(&mut self, e: EdgeIndex, target: NodeIndex)
        requires
            old(self).wf(),
            e@ < old(self)@.edges.len(),
            target@ < old(self)@.nodes.len(),
        ensures
            final(self).wf(),
            final(self)@ == old(self)@.with_edge_target(e@, target@),
    {
        let ghost before = *self;
        let r = self.edges[e.index()];
        self.edges.set(
            e.index(),
            Edge {
                key: r.key,
                weight: r.weight,
                source: r.source,
                target,
                left: r.left,
                right: r.right,
                height: r.height,
            },
        );
        proof {
            assert(self@.edges =~= before@.with_edge_target(e@, target@).edges);
            assert forall|i: int| 0 <= i < self.edges@.len() implies (#[trigger] self.edges@[i]).target@
                < self.nodes@.len() by {
                assert(before.edge_ok(i));
            }
            self.lemma_same_shape_inv(&before);
            self.lemma_inv_view();
        }
    }
    /// The edges that leave node `a`, by ascending key.
    pub fn edges(&self, a: NodeIndex) -> (out: Vec<EdgeIndex>)
        requires
            self.wf(),
            a@ < self@.nodes.len(),
        ensures
            self@.lists_out_edges(a@, out@),
            out@.len() == self@.out_edges(a@).len(),
            out@.len() == self@.next_map(a@).dom().len(),
            out@.len() + 1 <= pow2(self.tree_height(a@)),
    {
        let root = self.nodes[a.index()].first_edge;
        let mut out: Vec<EdgeIndex> = Vec::new();
        proof {
            assert(self.tree_ok(a));
        }
        collect(&self.edges, root, &mut out, Ghost(a), Ghost(-1), Ghost(key_top()));
        proof {
            let es = self.edges@;
            assert(out@ =~= inorder(es, root));
            lemma_inorder_props(es, a, root, -1, key_top());
            assert forall|j: int| 0 <= j < out@.len() implies (#[trigger] out@[j])@ < self@.edges.len()
                && self@.edges[out@[j]@].source == a@ by {
                assert(listed_ok(es, a, root, -1, key_top(), out@[j]));
            }
            assert forall|i: int, j: int| 0 <= i < j < out@.len() implies self@.edges[(
            #[trigger] out@[i])@].key < self@.edges[(#[trigger] out@[j])@].key by {
                assert(listed_ok(es, a, root, -1, key_top(), out@[i]));
                assert(listed_ok(es, a, root, -1, key_top(), out@[j]));
            }
            assert forall|e: int|
                0 <= e < self@.edges.len() && (#[trigger] self@.edges[e]).source == a@ implies out@.contains(
                EdgeIndex { ix: e as u32 },
            ) by {
                assert(self.edge_ok(e));
                assert(es[e].source == a);
                assert(find(es, root, es[e].key)@ != none_ix());
            }
            self@.lemma_listing_len(a@, out@);
            self@.lemma_listing_keys(a@, out@);
        }
        out
    }

    /// Number of edges that leave node `a`.
    pub fn n_edges(&self, a: NodeIndex) -> (n: usize)
        requires
            self.wf(),
            a@ < self@.nodes.len(),
        ensures
            n == self@.out_edges(a@).len(),
            n == self@.next_map(a@).dom().len(),
    {
        self.edges(a).len()
    }

    /// Depth of the edge tree of node `a`: the most records that one lookup
    /// among its edges visits.
    pub fn edge_tree_height(&self, a: NodeIndex) -> (h: u8)
        requires
            self.wf(),
            a@ < self@.nodes.len(),
        ensures
            h == self.tree_height(a@),
            h <= 129,
    {
        let root = self.nodes[a.index()].first_edge;
        proof {
            assert(self.tree_ok(a));
            lemma_height_bound(self.edges@, a, root, -1, key_top());
            assert(bst(self.edges@, a, root, -1, key_top()));
        }
        height_of(&self.edges, root)
    }

    /// The balance of the edge tree of node `a`: its depth beside the least
    /// depth that a search tree of as many edges can have.
    pub fn balance_ratio(&self, a: NodeIndex) -> (b: BalanceRatio)
        requires
            self.wf(),
            a@ < self@.nodes.len(),
        ensures
            b.observed == self.tree_height(a@),
            b.optimal == optimal_height(self@.out_edges(a@).len()),
            b.observed >= b.optimal,
    {
        let observed = self.edge_tree_height(a);
        let n = self.n_edges(a);
        let optimal = optimal_height_of(n);
        proof {
            self.lemma_balance(a@);
        }
        BalanceRatio { observed, optimal }
    }

    /// The listing of a node's edge tree lists the edges that leave the node.
    proof fn lemma_inorder_lists(&self, a: int)
        requires
            self.wf(),
            0 <= a < self@.nodes.len(),
        ensures
            self@.lists_out_edges(a, inorder(self.edges@, self.nodes@[a].first_edge)),
            inorder(self.edges@, self.nodes@[a].first_edge).len() == self@.out_edges(a).len(),
            inorder(self.edges@, self.nodes@[a].first_edge).len() == self@.next_map(a).dom().len(),
            self@.out_edges(a).finite(),
            self@.next_map(a).dom().finite(),
    {
        let ai = NodeIndex { ix: a as u32 };
        let es = self.edges@;
        let root = self.nodes@[a].first_edge;
        assert(self.tree_ok(ai));
        lemma_inorder_props(es, ai, root, -1, key_top());
        let s = inorder(es, root);
        assert(self@.lists_out_edges(a, s)) by {
            assert forall|j: int| 0 <= j < s.len() implies (#[trigger] s[j])@ < self@.edges.len()
                && self@.edges[s[j]@].source == a by {
                assert(listed_ok(es, ai, root, -1, key_top(), s[j]));
            }
            assert forall|i: int, j: int| 0 <= i < j < s.len() implies self@.edges[(#[trigger] s[i])@].key
                < self@.edges[(#[trigger] s[j])@].key by {
                assert(listed_ok(es, ai, root, -1, key_top(), s[i]));
                assert(listed_ok(es, ai, root, -1, key_top(), s[j]));
            }
            assert forall|e: int|
                0 <= e < self@.edges.len() && (#[trigger] self@.edges[e]).source == a implies s.contains(
                EdgeIndex { ix: e as u32 },
            ) by {
                assert(self.edge_ok(e));
                assert(es[e].source == ai);
                assert(find(es, root, es[e].key)@ != none_ix());
            }
        }
        self@.lemma_listing_len(a, s);
        self@.lemma_listing_keys(a, s);
    }

    /// The one edge that leaves node `a`, if exactly one does.
    pub fn sole_edge(&self, a: NodeIndex) -> (r: Option<EdgeIndex>)
        requires
            self.wf(),
            a@ < self@.nodes.len(),
        ensures
            match r {
                Some(e) => {
                    &&& e@ < self@.edges.len()
                    &&& self@.edges[e@].source == a@
                    &&& self@.next_map(a@).dom().len() == 1
                    &&& self@.next_map(a@).contains_key(self@.edges[e@].key)
                    &&& self@.next_map(a@)[self@.edges[e@].key] == self@.edges[e@].target
                },
                None => self@.next_map(a@).dom().len() != 1,
            },
    {
        let root = self.nodes[a.index()].first_edge;
        proof {
            self.lemma_inorder_lists(a@);
            assert(self.tree_ok(a));
            let es = self.edges@;
            let s = inorder(es, root);
            self@.lemma_listing_keys(a@, s);
            if root@ < es.len() {
                let l = es[root@].left;
                let g = es[root@].right;
                assert(bst(es, a, l, -1, es[root@].key as int));
                assert(bst(es, a, g, es[root@].key as int, key_top()));
                assert(inorder(es, l).len() > 0 <==> l@ != none_ix());
                assert(inorder(es, g).len() > 0 <==> g@ != none_ix());
                assert(s[inorder(es, l).len() as int] == root);
            }
        }
        if root.is_end() {
            None
        } else {
            let e = &self.edges[root.index()];
            if e.left.is_end() && e.right.is_end() {
                proof {
                    assert(inorder(self.edges@, root)[0] == root);
                }
                Some(root)
            } else {
                None
            }
        }
    }

    /// The depth of an edge tree beside the number of its edges. The tree is
    /// never shallower than the least depth for that number, and exactly that
    /// deep only when the number is at least half of what fits in this depth,
    /// so that no shallower tree could hold the edges. Nor is the tree deeper
    /// than balance allows: the number of its edges grows with its depth as
    /// the Fibonacci numbers do, so that a lookup among `n` edges visits about
    /// one and a half times the binary logarithm of `n` records at most.
    pub proof fn lemma_balance(&self, a: int)
        requires
            self.wf(),
            0 <= a < self@.nodes.len(),
        ensures
            self.tree_height(a) >= optimal_height(self@.out_edges(a).len()),
            self@.out_edges(a).len() < pow2(self.tree_height(a)),
            self@.next_map(a).dom().finite(),
            self@.next_map(a).dom().len() == self@.out_edges(a).len(),
            span_of_height(self.tree_height(a)) <= self@.out_edges(a).len() + 1,
            self.tree_height(a) == optimal_height(self@.out_edges(a).len()) <==> (self.tree_height(a)
                == 0 || pow2((self.tree_height(a) - 1) as nat) <= self@.out_edges(a).len()),
    {
        self.lemma_inorder_lists(a);
        let ai = NodeIndex { ix: a as u32 };
        assert(self.tree_ok(ai));
        lemma_inorder_props(self.edges@, ai, self.nodes@[a].first_edge, -1, key_top());
        let n = self@.out_edges(a).len();
        let h = self.tree_height(a);
        lemma_optimal_height(n);
        lemma_optimal_height_least(n, h);
        if h > 0 && optimal_height(n) < h {
            if optimal_height(n) < h - 1 {
                lemma_pow2_strictly_increases(optimal_height(n), (h - 1) as nat);
            }
        }
    }
}

/// Depth of a node's edge tree beside the least depth possible for its
/// number of edges. The two are equal for a tree that is as shallow as can be.
#[derive(Clone, Copy, Debug, PartialEq, Eq, Structural)]
pub struct BalanceRatio {
    pub observed: u8,
    pub optimal: u8,
}

/// Least depth of a binary tree that holds `n` records: the least `h` with
/// `n` below two to the `h`.
pub open spec fn optimal_height(n: nat) -> nat
    decreases n,
{
    if n == 0 {
        0
    } else {
        1 + optimal_height(n / 2)
    }
}

pub proof fn lemma_optimal_height(n: nat)
    ensures
        n < pow2(optimal_height(n)),
        n > 0 ==> pow2((optimal_height(n) - 1) as nat) <= n,
    decreases n,
{
    lemma2_to64();
    if n > 0 {
        lemma_optimal_height(n / 2);
        lemma_pow2_unfold(optimal_height(n));
        if n / 2 > 0 {
            lemma_pow2_unfold((optimal_height(n) - 1) as nat);
        }
    }
}

pub proof fn lemma_optimal_height_least(n: nat, h: nat)
    requires
        n < pow2(h),
    ensures
        optimal_height(n) <= h,
    decreases n,
{
    lemma2_to64();
    if n > 0 {
        if h == 0 {
            assert(false);
        } else {
            lemma_pow2_unfold(h);
            lemma_optimal_height_least(n / 2, (h - 1) as nat);
        }
    }
}

/// Computes `optimal_height`.
pub fn optimal_height_of(n: usize) -> (h: u8)
    ensures
        h == optimal_height(n as nat),
        h <= 64,
{
    let mut m: usize = n;
    let mut h: u8 = 0;
    proof {
        lemma_optimal_height(n as nat);
        lemma2_to64();
        if optimal_height(n as nat) > 64 {
            lemma_pow2_strictly_increases(64, (optimal_height(n as nat) - 1) as nat);
        }
    }
    while m > 0
        invariant
            optimal_height(n as nat) == h + optimal_height(m as nat),
            optimal_height(n as nat) <= 64,
        decreases m,
    {
        m = m / 2;
        h = h + 1;
    }
    h
}

} // verus!
