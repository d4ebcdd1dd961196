//! The automaton in storage: construction and the queries that read it.

use vstd::prelude::*;
use crate::indexing::EdgeIndex;
use crate::indexing::NodeIndex;
use crate::indexing::Token;
use crate::indexing::none_ix;
use crate::weight::Weight;
use crate::graph::avl_graph::AvlGraph;
use crate::graph::avl_graph::GraphView;
use crate::graph::avl_graph::is_edge_in;
use crate::dawg::model::StateView;
use crate::dawg::model::DawgView;
use crate::dawg::model::with_next;
use crate::dawg::model::with_link;
use crate::dawg::model::link_ok;
use crate::dawg::model::links_below;
use crate::dawg::model::finite_next;
use crate::dawg::model::wf_view;
use crate::dawg::model::up;
use crate::dawg::model::walk;
use crate::dawg::model::walk_steps;
use crate::dawg::model::redirect;
use crate::dawg::model::fresh_state;
use crate::dawg::model::clone_state;
use crate::dawg::model::splits;
use crate::dawg::model::split_view;
use crate::dawg::model::extend_view;
use crate::dawg::model::can_extend;
use crate::dawg::model::same_meta;
use crate::dawg::model::node_demand;
use crate::dawg::model::lemma_extend_facts;
use crate::dawg::model::lemma_extend_wf;
use crate::dawg::model::lemma_fresh_links;
use crate::dawg::model::lemma_extend_by_scan;
use crate::dawg::model::lemma_edges_added_bound;
use crate::dawg::model::edges_added;
use crate::dawg::model::room;
use crate::dawg::model::scan;
use crate::dawg::model::ExtendError;
use crate::dawg::model::extend_error;
use crate::dawg::model::empty_view;
use crate::dawg::model::active;
use crate::dawg::model::build_view;
use crate::dawg::model::build_edges;
use crate::dawg::model::build_error;
use crate::dawg::model::run;
use crate::dawg::model::accepts;
use crate::io::save::NodeRecord;
use crate::io::save::EdgeRecord;
use crate::io::save::SavedGraph;
use crate::io::save::SavePlan;
use crate::io::save::Save;
use crate::io::save::LoadError;
use crate::dawg::text::is_substring;
use crate::dawg::language::lemma_accepts_exactly_substrings;
use crate::dawg::language::lemma_build_stops_only_for_room;
use crate::dawg::counts::occurrences;
use crate::dawg::counts::lemma_count_is_occurrences;
use crate::dawg::model::with_count;
use crate::dawg::model::counted_up;
use crate::dawg::model::bump;
use crate::dawg::model::lemma_bump;
use crate::graph::avl_graph::BalanceRatio;
use crate::graph::avl_graph::optimal_height;
use crate::io::save::nodes_valid;
use crate::io::save::edges_valid;
use crate::io::save::load_error;
use crate::graph::avl_graph::EdgeView;
use vstd::string::*;

verus! {

/// The suffix link that a weight holds, as a state number.
pub open spec fn link_of<W: Weight>(w: W) -> Option<int> {
    match w.failure_spec() {
        Some(f) => Some(f@),
        None => None,
    }
}

/// State `a` of the automaton that the graph `g` stores.
pub open spec fn state_of<W: Weight>(g: GraphView<W, ()>, a: int) -> StateView {
    StateView {
        length: g.nodes[a].length_spec(),
        link: link_of(g.nodes[a]),
        count: g.nodes[a].count_spec(),
        next: g.next_map(a),
    }
}

/// The automaton that the graph `g` stores.
pub open spec fn dawg_view<W: Weight>(g: GraphView<W, ()>) -> DawgView {
    Seq::new(g.nodes.len(), |a: int| state_of(g, a))
}

pub proof fn lemma_view_with_node<W: Weight>(g: GraphView<W, ()>, w: W)
    requires
        g.wf(),
    ensures
        dawg_view(g.with_node(w)) == dawg_view(g).push(
            StateView {
                length: w.length_spec(),
                link: link_of(w),
                count: w.count_spec(),
                next: Map::empty(),
            },
        ),
{
    let g2 = g.with_node(w);
    let n = g.nodes.len() as int;
    assert forall|a: int| 0 <= a < n implies g2.next_map(a) == g.next_map(a) by {
        assert(g2.next_map(a) =~= g.next_map(a));
    }
    assert(g2.next_map(n) =~= Map::empty()) by {
        assert forall|k: Token| !g2.has_edge(n, k) by {
            if g2.has_edge(n, k) {
                let e = g2.edge_at(n, k);
                assert(is_edge_in(g.edges, e, n, k));
            }
        }
    }
    assert(dawg_view(g2) =~= dawg_view(g).push(
        StateView {
            length: w.length_spec(),
            link: link_of(w),
            count: w.count_spec(),
            next: Map::empty(),
        },
    ));
}

pub proof fn lemma_view_with_weight<W: Weight>(g: GraphView<W, ()>, a: int, w: W)
    requires
        g.wf(),
        0 <= a < g.nodes.len(),
    ensures
        dawg_view(g.with_node_weight(a, w)) == dawg_view(g).update(
            a,
            StateView {
                length: w.length_spec(),
                link: link_of(w),
                count: w.count_spec(),
                next: dawg_view(g)[a].next,
            },
        ),
{
    let g2 = g.with_node_weight(a, w);
    assert forall|b: int| 0 <= b < g.nodes.len() implies g2.next_map(b) == g.next_map(b) by {
        assert(g2.next_map(b) =~= g.next_map(b));
    }
    assert(dawg_view(g2) =~= dawg_view(g).update(
        a,
        StateView {
            length: w.length_spec(),
            link: link_of(w),
            count: w.count_spec(),
            next: dawg_view(g)[a].next,
        },
    ));
}

pub proof fn lemma_view_with_edge<W: Weight>(g: GraphView<W, ()>, from: int, to: int, key: Token)
    requires
        g.wf(),
        0 <= from < g.nodes.len(),
        !g.has_edge(from, key),
    ensures
        dawg_view(g.with_edge(from, to, key, ())) == dawg_view(g).update(
            from,
            with_next(dawg_view(g)[from], key, to),
        ),
{
    g.lemma_next_with_edge(from, to, key, ());
    let g2 = g.with_edge(from, to, key, ());
    assert forall|a: int| 0 <= a < g.nodes.len() && a != from implies g2.next_map(a) == g.next_map(a) by {}
    assert(dawg_view(g2) =~= dawg_view(g).update(from, with_next(dawg_view(g)[from], key, to)));
}

pub proof fn lemma_view_with_target<W: Weight>(g: GraphView<W, ()>, e: int, t: int)
    requires
        g.wf(),
        0 <= e < g.edges.len(),
    ensures
        dawg_view(g.with_edge_target(e, t)) == dawg_view(g).update(
            g.edges[e].source,
            with_next(dawg_view(g)[g.edges[e].source], g.edges[e].key, t),
        ),
{
    g.lemma_next_with_target(e, t);
    let g2 = g.with_edge_target(e, t);
    let from = g.edges[e].source;
    assert forall|a: int| 0 <= a < g.nodes.len() && a != from implies g2.next_map(a) == g.next_map(a) by {}
    assert(dawg_view(g2) =~= dawg_view(g).update(
        from,
        with_next(dawg_view(g)[from], g.edges[e].key, t),
    ));
}

/// A node's weight as it is written out.
pub open spec fn node_record_of<W: Weight>(w: W) -> NodeRecord {
    NodeRecord {
        length: w.length_spec() as u64,
        failure: match w.failure_spec() {
            Some(f) => f.ix,
            None => u32::MAX,
        },
        count: w.count_spec() as u64,
    }
}

/// An edge as it is written out.
pub open spec fn edge_record_of(e: EdgeView<()>) -> EdgeRecord {
    EdgeRecord { source: e.source as u32, token: e.key, target: e.target as u32 }
}

/// Key of the `j`-th edge of a listing.
pub open spec fn key_at<N, E>(g: GraphView<N, E>, es: Seq<EdgeIndex>, j: int) -> Token {
    g.edges[es[j]@].key
}

/// One of the first `i` edges of the listing has key `k`.
pub open spec fn covered<N, E>(g: GraphView<N, E>, es: Seq<EdgeIndex>, i: int, k: Token) -> bool {
    exists|j: int| 0 <= j < i && j < es.len() && #[trigger] key_at(g, es, j) == k
}

/// A suffix automaton held in a graph. State 0 is the source.
pub struct Dawg<W> {
    graph: AvlGraph<W, ()>,
    initial: NodeIndex,
}

impl<W: Weight> View for Dawg<W> {
    type V = DawgView;

    closed spec fn view(&self) -> DawgView {
        dawg_view(self.graph@)
    }
}

impl<W: Weight> Dawg<W> {
    /// Number of edges in storage.
    pub closed spec fn edge_total(&self) -> nat {
        self.graph@.edges.len()
    }

    /// The storage is in order.
    pub closed spec fn inv(&self) -> bool {
        &&& self.graph.wf()
        &&& self.initial@ == 0
    }

    /// The automaton is well formed: its storage is in order, it has the
    /// shape of an automaton, and its states and edges have handles.
    pub open spec fn wf(&self) -> bool {
        &&& self.inv()
        &&& wf_view(self@)
        &&& self@.len() <= none_ix()
        &&& self.edge_total() <= none_ix()
    }

    /// The handle space and the length counter leave room for extending by
    /// `token` from `last`.
    pub open spec fn has_room(&self, token: Token, last: int) -> bool {
        room(self@, self.edge_total(), token, last)
    }

    /// The automaton of the empty string: the source alone.
    pub fn new() -> (d: Self)
        ensures
            d.wf(),
            d@ == empty_view(),
            d.edge_total() == 0,
    {
        let mut graph: AvlGraph<W, ()> = AvlGraph::new();
        let ghost g0 = graph@;
        let w = W::new(0, None, 0);
        let initial = graph.add_node(w);
        proof {
            lemma_view_with_node(g0, w);
            assert(dawg_view(g0) =~= Seq::empty());
        }
        let d = Dawg { graph, initial };
        proof {
            assert(finite_next(d@, 0));
            assert(d@ =~= empty_view());
        }
        d
    }

    /// The automaton of the empty string, with room set aside for the given
    /// numbers of states and transitions.
    pub fn with_capacity(n_nodes: usize, n_edges: usize) -> (d: Self)
        ensures
            d.wf(),
            d@ == empty_view(),
            d.edge_total() == 0,
    {
        let mut graph: AvlGraph<W, ()> = AvlGraph::with_capacity(n_nodes, n_edges);
        let ghost g0 = graph@;
        let w = W::new(0, None, 0);
        let initial = graph.add_node(w);
        proof {
            lemma_view_with_node(g0, w);
            assert(dawg_view(g0) =~= Seq::empty());
        }
        let d = Dawg { graph, initial };
        proof {
            assert(finite_next(d@, 0));
            assert(d@ =~= empty_view());
        }
        d
    }

    /// The source.
    pub fn get_initial(&self) -> (a: NodeIndex)
        requires
            self.wf(),
        ensures
            a@ == 0,
    {
        self.initial
    }

    pub fn node_count(&self) -> (n: usize)
        requires
            self.wf(),
        ensures
            n == self@.len(),
    {
        self.graph.node_count()
    }

    pub fn edge_count(&self) -> (n: usize)
        requires
            self.wf(),
        ensures
            n == self.edge_total(),
    {
        self.graph.edge_count()
    }

    /// The state that `token` leads to from `state`, if any.
    pub fn transition(&self, state: NodeIndex, token: Token) -> (r: Option<NodeIndex>)
        requires
            self.wf(),
            state@ < self@.len(),
        ensures
            match r {
                Some(t) => self@[state@].next.contains_key(token) && self@[state@].next[token] == t@,
                None => !self@[state@].next.contains_key(token),
            },
    {
        let e = self.graph.get_edge_by_token(state, token);
        if e.is_end() {
            None
        } else {
            proof {
                let g = self.graph@;
                assert(is_edge_in(g.edges, e@, state@, token));
                assert(is_edge_in(g.edges, g.edge_at(state@, token), state@, token));
            }
            Some(self.graph.edge_target(e))
        }
    }

    /// Length of the longest string that reaches `state`.
    pub fn get_length(&self, state: NodeIndex) -> (r: u64)
        requires
            self.wf(),
            state@ < self@.len(),
        ensures
            r == self@[state@].length,
    {
        self.graph.node_weight(state).get_length()
    }

    /// The state that the suffix link of `state` leads to.
    pub fn get_failure(&self, state: NodeIndex) -> (r: Option<NodeIndex>)
        requires
            self.wf(),
            state@ < self@.len(),
        ensures
            match r {
                Some(t) => self@[state@].link == Some(t@),
                None => self@[state@].link is None,
            },
    {
        self.graph.node_weight(state).get_failure()
    }

    /// The occurrences recorded for `state`.
    pub fn get_count(&self, state: NodeIndex) -> (r: u64)
        requires
            self.wf(),
            state@ < self@.len(),
        ensures
            r == self@[state@].count,
    {
        self.graph.node_weight(state).get_count()
    }

    fn set_link(&mut self, v: NodeIndex, t: NodeIndex)
        requires
            old(self).inv(),
            v@ < old(self)@.len(),
            t@ < old(self)@.len(),
            old(self)@.len() <= none_ix(),
        ensures
            final(self).inv(),
            final(self)@ == old(self)@.update(v@, with_link(old(self)@[v@], t@)),
            final(self).edge_total() == old(self).edge_total(),
    {
        let ghost g = self.graph@;
        let mut w = self.graph.node_weight(v);
        w.set_failure(Some(t));
        self.graph.set_node_weight(v, w);
        proof {
            lemma_view_with_weight(g, v@, w);
        }
    }

    fn walk_links(&mut self, token: Token, start: NodeIndex, cur: NodeIndex, Ghost(n): Ghost<int>) -> (stop:
        Option<NodeIndex>)
        requires
            old(self).inv(),
            links_below(old(self)@, n),
            start@ < n,
            cur@ < old(self)@.len(),
            old(self).edge_total() + walk_steps(old(self)@, start@, token, cur@) <= none_ix(),
        ensures
            final(self).inv(),
            final(self)@ == walk(old(self)@, start@, token, cur@).0,
            match stop {
                Some(s) => walk(old(self)@, start@, token, cur@).1 == Some(s@),
                None => walk(old(self)@, start@, token, cur@).1 is None,
            },
            final(self).edge_total() == old(self).edge_total() + walk_steps(
                old(self)@,
                start@,
                token,
                cur@,
            ),
    {
        let ghost d_in = self@;
        let ghost e_in = self.graph@.edges.len();
        let mut p = start;
        let mut stop: Option<NodeIndex> = None;
        let mut walking = true;
        while walking
            invariant
                self.inv(),
                links_below(d_in, n),
                same_meta(d_in, self@),
                p@ < n,
                cur@ < self@.len(),
                walking ==> walk(self@, p@, token, cur@) == walk(d_in, start@, token, cur@),
                walking ==> self.graph@.edges.len() + walk_steps(self@, p@, token, cur@) == e_in
                    + walk_steps(d_in, start@, token, cur@),
                !walking ==> self@ == walk(d_in, start@, token, cur@).0,
                !walking ==> match stop {
                    Some(s) => walk(d_in, start@, token, cur@).1 == Some(s@),
                    None => walk(d_in, start@, token, cur@).1 is None,
                },
                !walking ==> self.graph@.edges.len() == e_in + walk_steps(d_in, start@, token, cur@),
                e_in + walk_steps(d_in, start@, token, cur@) <= none_ix(),
            decreases
                    (if walking {
                        self@[p@].length + 1
                    } else {
                        0
                    }),
        {
            let ghost dv = self@;
            let ghost g = self.graph@;
            let e = self.graph.get_edge_by_token(p, token);
            if !e.is_end() {
                proof {
                    assert(is_edge_in(g.edges, e@, p@, token));
                    assert(g.has_edge(p@, token));
                    assert(dv[p@].next.contains_key(token));
                }
                stop = Some(p);
                walking = false;
            } else {
                proof {
                    assert(!dv[p@].next.contains_key(token));
                }
                self.graph.add_edge(p, cur, token, ());
                proof {
                    lemma_view_with_edge(g, p@, cur@, token);
                    if p@ > 0 {
                        assert(link_ok(d_in, p@));
                    }
                }
                let wp = self.graph.node_weight(p);
                match wp.get_failure() {
                    None => {
                        stop = None;
                        walking = false;
                    },
                    Some(l) => {
                        p = l;
                    },
                }
            }
        }
        stop
    }

    fn redirect_links(
        &mut self,
        token: Token,
        start: NodeIndex,
        q: NodeIndex,
        clone: NodeIndex,
        Ghost(n): Ghost<int>,
    )
        requires
            old(self).inv(),
            links_below(old(self)@, n),
            start@ < n,
            clone@ < old(self)@.len(),
        ensures
            final(self).inv(),
            final(self)@ == redirect(old(self)@, start@, token, q@, clone@),
            final(self).edge_total() == old(self).edge_total(),
    {
        let ghost d_in = self@;
        let ghost e_in = self.graph@.edges.len();
        let mut p = start;
        let mut walking = true;
        while walking
            invariant
                self.inv(),
                links_below(d_in, n),
                same_meta(d_in, self@),
                p@ < n,
                clone@ < self@.len(),
                self.graph@.edges.len() == e_in,
                walking ==> redirect(self@, p@, token, q@, clone@) == redirect(
                    d_in,
                    start@,
                    token,
                    q@,
                    clone@,
                ),
                !walking ==> self@ == redirect(d_in, start@, token, q@, clone@),
            decreases
                    (if walking {
                        self@[p@].length + 1
                    } else {
                        0
                    }),
        {
            let ghost dv = self@;
            let ghost g = self.graph@;
            let e = self.graph.get_edge_by_token(p, token);
            if e.is_end() {
                proof {
                    assert(!dv[p@].next.contains_key(token));
                }
                walking = false;
            } else {
                proof {
                    assert(is_edge_in(g.edges, e@, p@, token));
                    assert(is_edge_in(g.edges, g.edge_at(p@, token), p@, token));
                    assert(dv[p@].next.contains_key(token));
                }
                let t = self.graph.edge_target(e);
                if t.index() != q.index() {
                    walking = false;
                } else {
                    self.graph.reroute_edge(e, clone);
                    proof {
                        lemma_view_with_target(g, e@, clone@);
                        if p@ > 0 {
                            assert(link_ok(d_in, p@));
                        }
                    }
                    let wp = self.graph.node_weight(p);
                    match wp.get_failure() {
                        None => {
                            walking = false;
                        },
                        Some(l) => {
                            p = l;
                        },
                    }
                }
            }
        }
    }

    #[verifier::rlimit(40)]
    fn copy_edges(&mut self, q: NodeIndex, clone: NodeIndex)
        requires
            old(self).inv(),
            q@ < old(self)@.len(),
            clone@ < old(self)@.len(),
            q@ != clone@,
            old(self)@[clone@].next == Map::<Token, int>::empty(),
            old(self).edge_total() + old(self)@[q@].next.dom().len() <= none_ix(),
        ensures
            final(self).inv(),
            final(self)@ == old(self)@.update(
                clone@,
                StateView {
                    length: old(self)@[clone@].length,
                    link: old(self)@[clone@].link,
                    count: old(self)@[clone@].count,
                    next: old(self)@[q@].next,
                },
            ),
            final(self).edge_total() == old(self).edge_total() + old(self)@[q@].next.dom().len(),
    {
        let es = self.graph.edges(q);
        let ghost g_in = self.graph@;
        let ghost d_in = self@;
        proof {
            g_in.lemma_listing_keys(q@, es@);
        }
        let mut i: usize = 0;
        while i < es.len()
            invariant
                self.inv(),
                g_in.wf(),
                g_in.edges.len() <= none_ix(),
                g_in.lists_out_edges(q@, es@),
                d_in == dawg_view(g_in),
                q@ < d_in.len(),
                clone@ < d_in.len(),
                q@ != clone@,
                es@.len() == d_in[q@].next.dom().len(),
                g_in.edges.len() + es@.len() <= none_ix(),
                i <= es@.len(),
                self.graph@.nodes == g_in.nodes,
                self.graph@.edges.len() == g_in.edges.len() + i,
                forall|e: int| 0 <= e < g_in.edges.len() ==> #[trigger] self.graph@.edges[e] == g_in.edges[e],
                same_meta(d_in, self@),
                forall|v: int| 0 <= v < d_in.len() && v != clone@ ==> #[trigger] self@[v] == d_in[v],
                forall|k: Token| #[trigger]
                    self@[clone@ as int].next.contains_key(k) <==> covered(g_in, es@, i as int, k),
                forall|k: Token| #[trigger]
                    self@[clone@ as int].next.contains_key(k) ==> self@[clone@ as int].next[k]
                        == d_in[q@].next[k],
            decreases es@.len() - i,
        {
            let e = es[i];
            let ghost g = self.graph@;
            let ghost dv = self@;
            let t = self.graph.edge_target(e);
            let k = self.graph.edge_key(e);
            proof {
                assert(k == key_at(g_in, es@, i as int));
                if dv[clone@ as int].next.contains_key(k) {
                    assert(covered(g_in, es@, i as int, k));
                    let j = choose|j: int| 0 <= j < i && j < es@.len() && #[trigger] key_at(g_in, es@, j) == k;
                    assert(g_in.edges[es@[j]@].key < g_in.edges[es@[i as int]@].key);
                }
                assert(!g.has_edge(clone@, k));
            }
            self.graph.add_edge(clone, t, k, ());
            proof {
                lemma_view_with_edge(g, clone@, t@, k);
                g_in.lemma_listing_keys(q@, es@);
                let dn = self@;
                assert(dn[clone@ as int].next == dv[clone@ as int].next.insert(k, t@));
                assert forall|k2: Token| #[trigger]
                    dn[clone@ as int].next.contains_key(k2) <==> covered(g_in, es@, i + 1, k2) by {
                    if covered(g_in, es@, i + 1, k2) {
                        let j = choose|j: int| 0 <= j < i + 1 && j < es@.len() && #[trigger] key_at(g_in, es@, j) == k2;
                        if j < i {
                            assert(covered(g_in, es@, i as int, k2));
                            assert(dv[clone@ as int].next.contains_key(k2));
                        }
                    }
                    if dn[clone@ as int].next.contains_key(k2) {
                        if k2 == k {
                            assert(key_at(g_in, es@, i as int) == k2);
                        } else {
                            assert(dv[clone@ as int].next.contains_key(k2));
                            let j = choose|j: int| 0 <= j < i && j < es@.len() && #[trigger] key_at(g_in, es@, j) == k2;
                            assert(key_at(g_in, es@, j) == k2);
                        }
                    }
                }
                assert forall|k2: Token| #[trigger]
                    dn[clone@ as int].next.contains_key(k2) implies dn[clone@ as int].next[k2]
                    == d_in[q@].next[k2] by {
                    if k2 == k {
                        assert(g_in.next_map(q@)[g_in.edges[es@[i as int]@].key]
                            == g_in.edges[es@[i as int]@].target);
                    } else {
                        assert(dv[clone@ as int].next.contains_key(k2));
                    }
                }
                assert forall|e2: int| 0 <= e2 < g_in.edges.len() implies #[trigger] self.graph@.edges[e2]
                    == g_in.edges[e2] by {
                    assert(g.edges[e2] == g_in.edges[e2]);
                }
            }
            i = i + 1;
        }
        proof {
            let dn = self@;
            g_in.lemma_listing_keys(q@, es@);
            assert(dn[clone@ as int].next =~= d_in[q@].next) by {
                assert forall|k: Token| dn[clone@ as int].next.contains_key(k) implies d_in[q@].next.contains_key(
                    k,
                ) by {
                    assert(covered(g_in, es@, i as int, k));
                    let j = choose|j: int| 0 <= j < i && j < es@.len() && #[trigger] key_at(g_in, es@, j) == k;
                    assert(g_in.next_map(q@).contains_key(g_in.edges[es@[j]@].key));
                }
                assert forall|k: Token| d_in[q@].next.contains_key(k) implies dn[clone@ as int].next.contains_key(
                    k,
                ) by {
                    assert(g_in.next_map(q@).contains_key(k));
                    let j = choose|j: int| 0 <= j < es@.len() && g_in.edges[(#[trigger] es@[j])@].key == k;
                    assert(key_at(g_in, es@, j) == k);
                    assert(covered(g_in, es@, i as int, k));
                }
            }
            assert(dn =~= d_in.update(
                clone@,
                StateView {
                    length: d_in[clone@ as int].length,
                    link: d_in[clone@ as int].link,
                    count: d_in[clone@ as int].count,
                    next: d_in[q@].next,
                },
            ));
        }
    }

    /// Appends `token` to the string whose state is `last`, and returns the
    /// state of the longer string.
    #[verifier::rlimit(40)]
    pub fn extend(&mut self, token: Token, last: NodeIndex) -> (cur: NodeIndex)
        requires
            old(self).wf(),
            can_extend(old(self)@, token, last@),
            old(self).has_room(token, last@),
        ensures
            final(self).wf(),
            final(self)@ == extend_view(old(self)@, token, last@),
            cur@ == old(self)@.len(),
            final(self)@.len() == old(self)@.len() + node_demand(old(self)@, token, last@),
            final(self).edge_total() == old(self).edge_total() + edges_added(old(self)@, token, last@),
    {
        let ghost d0 = self@;
        let ghost g0 = self.graph@;
        proof {
            lemma_extend_facts(d0, token, last@);
            lemma_extend_wf(d0, token, last@);
            lemma_edges_added_bound(d0, token, last@);
        }
        let wl = self.graph.node_weight(last);
        let len_last: u64 = wl.get_length();
        let w = W::new(len_last + 1, None, 0);
        let cur = self.graph.add_node(w);
        proof {
            lemma_view_with_node(g0, w);
        }
        let ghost d1 = self@;
        proof {
            assert(d1 == d0.push(fresh_state(d0, last@)));
            lemma_fresh_links(d0, last@ as int);
        }
        let stop = self.walk_links(token, last, cur, Ghost(d0.len() as int));
        let ghost d2 = self@;
        let init = self.initial;
        match stop {
            None => {
                self.set_link(cur, init);
            },
            Some(p) => {
                let ghost g2 = self.graph@;
                let e = self.graph.get_edge_by_token(p, token);
                proof {
                    assert(g2.has_edge(p@, token));
                    assert(is_edge_in(g2.edges, e@, p@, token));
                    assert(is_edge_in(g2.edges, g2.edge_at(p@, token), p@, token));
                }
                let q = self.graph.edge_target(e);
                let lp: u64 = self.graph.node_weight(p).get_length();
                let wq = self.graph.node_weight(q);
                if wq.get_length() == lp + 1 {
                    self.set_link(cur, q);
                } else {
                    proof {
                        assert(splits(d0, token, last@));
                        assert(link_ok(d0, q@));
                        assert(finite_next(d0, q@));
                    }
                    let wc = W::new(lp + 1, wq.get_failure(), wq.get_count());
                    let clone = self.graph.add_node(wc);
                    proof {
                        lemma_view_with_node(g2, wc);
                    }
                    self.copy_edges(q, clone);
                    proof {
                        assert(self@ =~= d2.push(clone_state(d2, p@, q@)));
                    }
                    self.set_link(q, clone);
                    self.set_link(cur, clone);
                    proof {
                        assert(self@ == split_view(d0, token, last@));
                    }
                    self.redirect_links(token, p, q, clone, Ghost(d0.len() as int + 2));
                }
            },
        }
        cur
    }
    /// Number of transitions that leave `state`.
    pub fn n_edges(&self, state: NodeIndex) -> (n: usize)
        requires
            self.wf(),
            state@ < self@.len(),
        ensures
            n == self@[state@].next.dom().len(),
    {
        self.graph.n_edges(state)
    }

    /// Reads the walk of an extension off the automaton: the number of states
    /// from `last` upwards that lack a transition under `token`, and the first
    /// state that has one.
    fn probe(&self, token: Token, last: NodeIndex) -> (r: (u128, Option<NodeIndex>))
        requires
            self.wf(),
            last@ < self@.len(),
        ensures
            r.0 == scan(self@, last@, token).0,
            r.0 <= u64::MAX + 1,
            match r.1 {
                Some(s) => scan(self@, last@, token).1 == Some(s@),
                None => scan(self@, last@, token).1 is None,
            },
    {
        let ghost d = self@;
        proof {
            self.lemma_bounded();
        }
        let mut p = last;
        let mut steps: u128 = 0;
        let mut stop: Option<NodeIndex> = None;
        let mut scanning = true;
        while scanning
            invariant
                self.wf(),
                d == self@,
                p@ < d.len(),
                last@ < d.len(),
                steps + d[p@ as int].length <= d[last@ as int].length + 1,
                d[last@ as int].length <= u64::MAX,
                scanning ==> steps + d[p@ as int].length <= d[last@ as int].length,
                scanning ==> steps + scan(d, p@, token).0 == scan(d, last@, token).0,
                scanning ==> scan(d, p@, token).1 == scan(d, last@, token).1,
                !scanning ==> steps == scan(d, last@, token).0,
                !scanning ==> match stop {
                    Some(s) => scan(d, last@, token).1 == Some(s@),
                    None => scan(d, last@, token).1 is None,
                },
            decreases
                    (if scanning {
                        d[p@ as int].length + 1
                    } else {
                        0
                    }),
        {
            match self.transition(p, token) {
                Some(_t) => {
                    stop = Some(p);
                    scanning = false;
                },
                None => {
                    proof {
                        if p@ > 0 {
                            assert(link_ok(d, p@));
                        }
                    }
                    steps = steps + 1;
                    match self.get_failure(p) {
                        Some(l) => {
                            p = l;
                        },
                        None => {
                            stop = None;
                            scanning = false;
                        },
                    }
                },
            }
        }
        (steps, stop)
    }

    /// Appends `token` to the string whose state is `last` if that can be
    /// done, and returns the state of the longer string; otherwise leaves the
    /// automaton as it is and says why.
    #[verifier::rlimit(40)]
    pub fn try_extend(&mut self, token: Token, last: NodeIndex) -> (r: Result<NodeIndex, ExtendError>)
        requires
            old(self).wf(),
        ensures
            final(self).wf(),
            match r {
                Ok(cur) => {
                    &&& extend_error(old(self)@, old(self).edge_total(), token, last@) is None
                    &&& final(self)@ == extend_view(old(self)@, token, last@)
                    &&& cur@ == old(self)@.len()
                    &&& final(self).edge_total() == old(self).edge_total() + edges_added(
                        old(self)@,
                        token,
                        last@,
                    )
                },
                Err(e) => {
                    &&& extend_error(old(self)@, old(self).edge_total(), token, last@) == Some(e)
                    &&& final(self)@ == old(self)@
                    &&& final(self).edge_total() == old(self).edge_total()
                },
            },
    {
        let n_nodes: usize = self.graph.node_count();
        if last.index() >= n_nodes {
            return Err(ExtendError::UnknownState);
        }
        let ghost d = self@;
        proof {
            lemma_extend_by_scan(d, token, last@);
        }
        if self.transition(last, token).is_some() {
            return Err(ExtendError::NotExtendable);
        }
        let (steps, stop) = self.probe(token, last);
        let len_last: u64 = self.get_length(last);
        let mut split = false;
        let mut degree: usize = 0;
        match stop {
            Some(p) => {
                let q = self.transition(p, token).unwrap();
                let lp: u64 = self.get_length(p);
                let lq: u64 = self.get_length(q);
                proof {
                    assert(link_ok(d, q@));
                }
                if lq <= lp {
                    return Err(ExtendError::NotExtendable);
                }
                if lq != lp + 1 {
                    match self.get_failure(q) {
                        Some(l) => {
                            if self.get_length(l) > lp {
                                return Err(ExtendError::NotExtendable);
                            }
                        },
                        None => {
                            return Err(ExtendError::NotExtendable);
                        },
                    }
                    split = true;
                    degree = self.n_edges(q);
                }
            },
            None => {},
        }
        let n_edges: usize = self.graph.edge_count();
        let new_nodes: u128 = if split {
            2
        } else {
            1
        };
        let new_edges: u128 = if split {
            steps + degree as u128 + 1
        } else {
            steps
        };
        if n_nodes as u128 + new_nodes > 0xffff_ffff || n_edges as u128 + new_edges > 0xffff_ffff
            || len_last == u64::MAX {
            return Err(ExtendError::OutOfRoom);
        }
        Ok(self.extend(token, last))
    }

    /// The automaton of `tokens`, with the state that stands for the whole of
    /// them. It accepts exactly the strings that occur in `tokens`. Building
    /// fails only where the handles or the length counter run out.
    pub fn build(tokens: &Vec<Token>) -> (r: Result<(Self, NodeIndex), ExtendError>)
        ensures
            match r {
                Ok((d, last)) => {
                    &&& build_error(tokens@) is None
                    &&& d.wf()
                    &&& d@ == build_view(tokens@)
                    &&& last@ == active(tokens@)
                    &&& d.edge_total() == build_edges(tokens@)
                    &&& forall|t: Seq<Token>| #[trigger] accepts(d@, t) == is_substring(t, tokens@)
                    &&& forall|t: Seq<Token>|
                        (#[trigger] run(d@, t)) matches Some(v) ==> d@[v].count == occurrences(t, tokens@)
                },
                Err(e) => build_error(tokens@) == Some(e) && e == ExtendError::OutOfRoom,
            },
    {
        // the text is no longer than a `usize` can tell
        let n_tokens: usize = tokens.len();
        proof {
            assert(tokens@.len() <= u64::MAX);
            lemma_build_stops_only_for_room(tokens@);
            assert forall|t: Seq<Token>| #[trigger] accepts(build_view(tokens@), t) == is_substring(t, tokens@) by {
                lemma_accepts_exactly_substrings(tokens@, t);
            }
            assert forall|t: Seq<Token>|
                (#[trigger] run(build_view(tokens@), t)) matches Some(v) ==> build_view(tokens@)[v].count
                    == occurrences(t, tokens@) by {
                lemma_count_is_occurrences(tokens@, t);
            }
        }
        let mut d: Self = Self::new();
        let mut last = d.get_initial();
        let mut i: usize = 0;
        while i < tokens.len()
            invariant
                i <= tokens@.len(),
                d.wf(),
                d@ == build_view(tokens@.take(i as int)),
                last@ == active(tokens@.take(i as int)),
                d.edge_total() == build_edges(tokens@.take(i as int)),
                build_error(tokens@.take(i as int)) is None,
            decreases tokens@.len() - i,
        {
            let ghost before = tokens@.take(i as int);
            let ghost after = tokens@.take(i + 1);
            let ghost before_view = d@;
            proof {
                assert(after.drop_last() =~= before);
                assert(after.last() == tokens@[i as int]);
            }
            match d.try_extend(tokens[i], last) {
                Ok(cur) => {
                    last = cur;
                    proof {
                        lemma_extend_wf(before_view, tokens@[i as int], active(before));
                    }
                    d.count_suffixes(cur);
                },
                Err(e) => {
                    proof {
                        lemma_build_error_stays(tokens@, i + 1);
                        lemma_build_stops_only_for_room(tokens@);
                    }
                    return Err(e);
                },
            }
            i = i + 1;
        }
        proof {
            assert(tokens@.take(i as int) =~= tokens@);
        }
        Ok((d, last))
    }

    /// The state that `tokens` lead to from the source, if the automaton can
    /// follow all of them.
    pub fn state_after(&self, tokens: &Vec<Token>) -> (r: Option<NodeIndex>)
        requires
            self.wf(),
        ensures
            match r {
                Some(t) => run(self@, tokens@) == Some(t@),
                None => run(self@, tokens@) is None,
            },
    {
        let mut state = self.get_initial();
        let mut i: usize = 0;
        while i < tokens.len()
            invariant
                self.wf(),
                i <= tokens@.len(),
                state@ < self@.len(),
                run(self@, tokens@.take(i as int)) == Some(state@),
            decreases tokens@.len() - i,
        {
            proof {
                assert(tokens@.take(i + 1).drop_last() =~= tokens@.take(i as int));
            }
            match self.transition(state, tokens[i]) {
                Some(t) => {
                    state = t;
                },
                None => {
                    proof {
                        lemma_run_stays_none(self@, tokens@, i + 1);
                    }
                    return None;
                },
            }
            i = i + 1;
        }
        proof {
            assert(tokens@.take(i as int) =~= tokens@);
        }
        Some(state)
    }

    /// The count of the state that `tokens` lead to; 0 where they lead
    /// nowhere. In an automaton that was built from a text, this is the
    /// number of times that `tokens` occur in the text.
    pub fn count_of(&self, tokens: &Vec<Token>) -> (r: u64)
        requires
            self.wf(),
        ensures
            r == match run(self@, tokens@) {
                Some(v) => self@[v].count,
                None => 0,
            },
    {
        match self.state_after(tokens) {
            Some(state) => {
                proof {
                    assert(wf_view(self@));
                    lemma_run_in_range(self@, tokens@);
                }
                self.get_count(state)
            },
            None => 0,
        }
    }

    /// Whether the automaton can follow all of `tokens` from the source.
    pub fn accepts(&self, tokens: &Vec<Token>) -> (r: bool)
        requires
            self.wf(),
        ensures
            r == accepts(self@, tokens@),
    {
        self.state_after(tokens).is_some()
    }

    /// The node records that saving writes.
    pub closed spec fn saved_nodes(&self) -> Seq<NodeRecord> {
        self.graph@.nodes.map_values(|w: W| node_record_of(w))
    }

    /// The edge records that saving writes.
    pub closed spec fn saved_edges(&self) -> Seq<EdgeRecord> {
        self.graph@.edges.map_values(|e: EdgeView<()>| edge_record_of(e))
    }

    /// The automaton as plain records: every node and every edge, in the
    /// order of their creation.
    pub fn to_parts(&self) -> (parts: SavedGraph)
        requires
            self.wf(),
        ensures
            parts.nodes@ == self.saved_nodes(),
            parts.edges@ == self.saved_edges(),
    {
        let n: usize = self.graph.node_count();
        let m: usize = self.graph.edge_count();
        let mut nodes: Vec<NodeRecord> = Vec::with_capacity(n);
        let mut edges: Vec<EdgeRecord> = Vec::with_capacity(m);
        let mut i: usize = 0;
        while i < n
            invariant
                self.wf(),
                n == self.graph@.nodes.len(),
                i <= n,
                nodes@ == self.saved_nodes().take(i as int),
            decreases n - i,
        {
            let w = self.graph.node_weight(NodeIndex::new(i));
            let failure: u32 = match w.get_failure() {
                Some(f) => f.ix,
                None => u32::MAX,
            };
            nodes.push(NodeRecord { length: w.get_length(), failure, count: w.get_count() });
            proof {
                assert(nodes@ =~= self.saved_nodes().take(i + 1));
            }
            i = i + 1;
        }
        let mut j: usize = 0;
        while j < m
            invariant
                self.wf(),
                m == self.graph@.edges.len(),
                j <= m,
                edges@ == self.saved_edges().take(j as int),
            decreases m - j,
        {
            let e = EdgeIndex::new(j);
            let source = self.graph.edge_source(e);
            let target = self.graph.edge_target(e);
            edges.push(EdgeRecord { source: source.ix, token: self.graph.edge_key(e), target: target.ix });
            proof {
                assert(edges@ =~= self.saved_edges().take(j + 1));
            }
            j = j + 1;
        }
        proof {
            assert(nodes@ =~= self.saved_nodes());
            assert(edges@ =~= self.saved_edges());
        }
        SavedGraph { nodes, edges }
    }

    /// The automaton that the records describe, if they describe one.
    pub fn from_parts(parts: &SavedGraph) -> (r: Result<Self, LoadError>)
        ensures
            match r {
                Ok(d) => {
                    &&& load_error(parts.nodes@, parts.edges@) is None
                    &&& d.wf()
                    &&& d.saved_nodes() == parts.nodes@
                    &&& d.saved_edges() == parts.edges@
                },
                Err(e) => load_error(parts.nodes@, parts.edges@) == Some(e),
            },
    {
        let mut graph: AvlGraph<W, ()> = match load_nodes(&parts.nodes, parts.edges.len()) {
            Ok(graph) => graph,
            Err(e) => {
                return Err(e);
            },
        };
        match load_edges(&mut graph, &parts.edges) {
            Ok(()) => {},
            Err(e) => {
                return Err(e);
            },
        }
        let d = Dawg { graph, initial: NodeIndex { ix: 0 } };
        proof {
            assert forall|v: int| 0 <= v < d.graph@.nodes.len() implies #[trigger] d.graph@.next_map(
                v,
            ).dom().finite() by {
                d.graph.lemma_balance(v);
            }
            lemma_loaded(d.graph@, parts.nodes@, parts.edges@);
            assert(d.saved_nodes() =~= parts.nodes@);
            assert(d.saved_edges() =~= parts.edges@);
        }
        Ok(d)
    }

    /// What is saved of a well-formed automaton can be loaded again.
    pub proof fn lemma_saved_is_valid(&self)
        requires
            self.wf(),
        ensures
            load_error(self.saved_nodes(), self.saved_edges()) is None,
    {
        let g = self.graph@;
        let dv = self@;
        let ns = self.saved_nodes();
        let es = self.saved_edges();
        g.nodes[0].lemma_bounded();
        assert forall|v: int| 0 < v < ns.len() implies (#[trigger] ns[v]).failure < ns.len()
            && ns[ns[v].failure as int].length < ns[v].length by {
            assert(link_ok(dv, v));
            g.nodes[v].lemma_bounded();
            let u = dv[v].link->0;
            g.nodes[u].lemma_bounded();
            assert(ns[v] == node_record_of(g.nodes[v]));
            assert(ns[u] == node_record_of(g.nodes[u]));
        }
        assert(nodes_valid(ns));
        assert forall|e: int| 0 <= e < es.len() implies (#[trigger] es[e]).source < ns.len() && 0
            < es[e].target < ns.len() by {
            let a = g.edges[e].source;
            let k = g.edges[e].key;
            assert(is_edge_in(g.edges, e, a, k));
            assert(is_edge_in(g.edges, g.edge_at(a, k), a, k));
            assert(dv[a].next.contains_key(k));
            assert(dv[a].next[k] == g.edges[e].target);
        }
        assert forall|e1: int, e2: int| 0 <= e1 < e2 < es.len() implies !((#[trigger] es[e1]).source
            == (#[trigger] es[e2]).source && es[e1].token == es[e2].token) by {
            if es[e1].source == es[e2].source && es[e1].token == es[e2].token {
                let a = g.edges[e1].source;
                let k = g.edges[e1].key;
                assert(g.edges[e2].source == a);
                assert(is_edge_in(g.edges, e1, a, k));
                assert(is_edge_in(g.edges, e2, a, k));
            }
        }
    }

    /// An automaton that is loaded from what was saved of another goes on as
    /// the other would: every extension is made or refused alike and gives
    /// the same automaton, and the same strings are followed.
    pub proof fn lemma_resumes_alike(&self, other: &Self, token: Token, last: int, t: Seq<Token>)
        requires
            self.wf(),
            other.wf(),
            self.saved_nodes() == other.saved_nodes(),
            self.saved_edges() == other.saved_edges(),
        ensures
            extend_error(self@, self.edge_total(), token, last) == extend_error(
                other@,
                other.edge_total(),
                token,
                last,
            ),
            extend_view(self@, token, last) == extend_view(other@, token, last),
            run(self@, t) == run(other@, t),
    {
        self.lemma_saved_determines(other);
    }

    /// Two automata that are saved as the same records are the same
    /// automaton: they have the same states, transitions, links, counts and
    /// number of edges.
    pub proof fn lemma_saved_determines(&self, other: &Self)
        requires
            self.wf(),
            other.wf(),
            self.saved_nodes() == other.saved_nodes(),
            self.saved_edges() == other.saved_edges(),
        ensures
            self@ == other@,
            self.edge_total() == other.edge_total(),
    {
        let g = self.graph@;
        let h = other.graph@;
        assert(g.nodes.len() == self.saved_nodes().len());
        assert(h.nodes.len() == other.saved_nodes().len());
        assert(g.edges.len() == self.saved_edges().len());
        assert(h.edges.len() == other.saved_edges().len());
        assert forall|e: int| 0 <= e < g.edges.len() implies g.edges[e] == h.edges[e] by {
            assert(self.saved_edges()[e] == edge_record_of(g.edges[e]));
            assert(other.saved_edges()[e] == edge_record_of(h.edges[e]));
            assert(g.edges[e].source == h.edges[e].source);
            assert(g.edges[e].target == h.edges[e].target);
            assert(g.edges[e].key == h.edges[e].key);
            assert(g.edges[e].weight == h.edges[e].weight);
        }
        assert(g.edges =~= h.edges);
        assert forall|v: int| 0 <= v < g.nodes.len() implies state_of(g, v) == state_of(h, v) by {
            assert(self.saved_nodes()[v] == node_record_of(g.nodes[v]));
            assert(other.saved_nodes()[v] == node_record_of(h.nodes[v]));
            g.nodes[v].lemma_bounded();
            h.nodes[v].lemma_bounded();
            assert(g.next_map(v) =~= h.next_map(v));
            let a = g.nodes[v].failure_spec();
            let b = h.nodes[v].failure_spec();
            if a is Some && b is Some {
                assert(a->0.ix == b->0.ix);
            }
        }
        assert(self@ =~= other@);
    }

    /// The balance of the edge tree of `state`.
    pub closed spec fn balance_of(&self, state: int) -> BalanceRatio {
        BalanceRatio {
            observed: self.graph.tree_height(state) as u8,
            optimal: optimal_height(self.graph@.out_edges(state).len()) as u8,
        }
    }

    /// The balance of the edge tree of `state`: its depth beside the least
    /// depth for the number of transitions of the state.
    pub fn balance_ratio(&self, state: NodeIndex) -> (b: BalanceRatio)
        requires
            self.wf(),
            state@ < self@.len(),
        ensures
            b == self.balance_of(state@),
            b.optimal == optimal_height(self@[state@].next.dom().len()),
            b.optimal <= b.observed,
    {
        proof {
            self.graph.lemma_balance(state@);
        }
        self.graph.balance_ratio(state)
    }

    /// Records one more occurrence for `state` and for every state up its
    /// suffix links.
    pub fn count_suffixes(&mut self, state: NodeIndex)
        requires
            old(self).wf(),
            state@ < old(self)@.len(),
        ensures
            final(self).wf(),
            final(self)@ == bump(old(self)@, state@),
            final(self).edge_total() == old(self).edge_total(),
    {
        let ghost d_in = self@;
        let mut p = state;
        let mut walking = true;
        proof {
            lemma_bump(d_in, state@);
        }
        while walking
            invariant
                self.inv(),
                wf_view(d_in),
                self@.len() == d_in.len(),
                self@.len() <= none_ix(),
                self.edge_total() == old(self).edge_total(),
                forall|v: int|
                    0 <= v < d_in.len() ==> (#[trigger] self@[v]).length == d_in[v].length && self@[v].link
                        == d_in[v].link,
                p@ < d_in.len(),
                walking ==> bump(self@, p@) == bump(d_in, state@),
                !walking ==> self@ == bump(d_in, state@),
            decreases
                    (if walking {
                        self@[p@ as int].length + 1
                    } else {
                        0
                    }),
        {
            let ghost dv = self@;
            let ghost g = self.graph@;
            let mut w = self.graph.node_weight(p);
            w.increment_count();
            self.graph.set_node_weight(p, w);
            proof {
                lemma_view_with_weight(g, p@ as int, w);
                assert(self@ =~= dv.update(p@ as int, with_count(dv[p@ as int], counted_up(dv[p@ as int].count))));
                if p@ > 0 {
                    assert(link_ok(d_in, p@ as int));
                }
            }
            match w.get_failure() {
                Some(l) => {
                    p = l;
                },
                None => {
                    walking = false;
                },
            }
        }
    }

    /// The transition that leaves `state`, if exactly one does.
    pub fn sole_transition(&self, state: NodeIndex) -> (r: Option<(Token, NodeIndex)>)
        requires
            self.wf(),
            state@ < self@.len(),
        ensures
            match r {
                Some((k, t)) => {
                    &&& self@[state@].next.dom().len() == 1
                    &&& self@[state@].next.contains_key(k)
                    &&& self@[state@].next[k] == t@
                },
                None => self@[state@].next.dom().len() != 1,
            },
    {
        match self.graph.sole_edge(state) {
            Some(e) => Some((self.graph.edge_key(e), self.graph.edge_target(e))),
            None => None,
        }
    }

    /// The transitions that leave `state`, by ascending token.
    pub fn transitions(&self, state: NodeIndex) -> (r: Vec<(Token, NodeIndex)>)
        requires
            self.wf(),
            state@ < self@.len(),
        ensures
            r@.len() == self@[state@].next.dom().len(),
            forall|j: int|
                0 <= j < r@.len() ==> self@[state@].next.contains_key((#[trigger] r@[j]).0)
                    && self@[state@].next[r@[j].0] == r@[j].1@,
            forall|i: int, j: int| 0 <= i < j < r@.len() ==> (#[trigger] r@[i]).0 < (#[trigger] r@[j]).0,
            forall|k: Token| #[trigger]
                self@[state@].next.contains_key(k) ==> exists|j: int|
                    0 <= j < r@.len() && (#[trigger] r@[j]).0 == k,
    {
        let es = self.graph.edges(state);
        let ghost g = self.graph@;
        let mut out: Vec<(Token, NodeIndex)> = Vec::with_capacity(es.len());
        let mut i: usize = 0;
        proof {
            g.lemma_listing_keys(state@, es@);
        }
        while i < es.len()
            invariant
                self.wf(),
                g == self.graph@,
                g.lists_out_edges(state@, es@),
                i <= es@.len(),
                out@.len() == i,
                forall|j: int|
                    0 <= j < i ==> (#[trigger] out@[j]).0 == g.edges[es@[j]@].key && out@[j].1@
                        == g.edges[es@[j]@].target,
            decreases es@.len() - i,
        {
            let e = es[i];
            out.push((self.graph.edge_key(e), self.graph.edge_target(e)));
            i = i + 1;
        }
        proof {
            assert forall|j: int| 0 <= j < out@.len() implies self@[state@].next.contains_key(
                (#[trigger] out@[j]).0,
            ) && self@[state@].next[out@[j].0] == out@[j].1@ by {
                assert(g.next_map(state@).contains_key(g.edges[es@[j]@].key));
            }
            assert forall|i: int, j: int| 0 <= i < j < out@.len() implies (#[trigger] out@[i]).0 < (
            #[trigger] out@[j]).0 by {
                assert(g.edges[es@[i]@].key < g.edges[es@[j]@].key);
            }
            assert forall|k: Token| #[trigger] self@[state@].next.contains_key(k) implies exists|j: int|
                0 <= j < out@.len() && (#[trigger] out@[j]).0 == k by {
                assert(g.next_map(state@).contains_key(k));
                let j = choose|j: int| 0 <= j < es@.len() && g.edges[(#[trigger] es@[j])@].key == k;
                assert(out@[j].0 == k);
            }
        }
        out
    }

    /// The lengths and counts of the states fit the machine words that they
    /// are read into.
    pub proof fn lemma_bounded(&self)
        requires
            self.wf(),
        ensures
            forall|v: int|
                0 <= v < self@.len() ==> (#[trigger] self@[v]).length <= u64::MAX && self@[v].count
                    <= u64::MAX,
    {
        assert forall|v: int| 0 <= v < self@.len() implies (#[trigger] self@[v]).length <= u64::MAX
            && self@[v].count <= u64::MAX by {
            self.graph@.nodes[v].lemma_bounded();
        }
    }

    /// The edge that holds the transition of `state` under `token`.
    pub closed spec fn edge_id(&self, state: int, token: Token) -> int {
        self.graph@.edge_at(state, token)
    }

    /// Every transition is held by an edge of its own.
    pub proof fn lemma_edge_ids(&self)
        requires
            self.wf(),
        ensures
            forall|v: int, k: Token|
                0 <= v < self@.len() && #[trigger] self@[v].next.contains_key(k) ==> 0 <= self.edge_id(
                    v,
                    k,
                ) < self.edge_total(),
            forall|u: int, a: Token, v: int, k: Token|
                0 <= u < self@.len() && 0 <= v < self@.len() && self@[u].next.contains_key(a)
                    && self@[v].next.contains_key(k) && #[trigger] self.edge_id(u, a)
                    == #[trigger] self.edge_id(v, k) ==> u == v && a == k,
    {
        let g = self.graph@;
        assert forall|v: int, k: Token|
            0 <= v < self@.len() && #[trigger] self@[v].next.contains_key(k) implies 0 <= self.edge_id(v, k)
            < self.edge_total() by {
            assert(is_edge_in(g.edges, g.edge_at(v, k), v, k));
        }
        assert forall|u: int, a: Token, v: int, k: Token|
            0 <= u < self@.len() && 0 <= v < self@.len() && self@[u].next.contains_key(a)
                && self@[v].next.contains_key(k) && #[trigger] self.edge_id(u, a)
                == #[trigger] self.edge_id(v, k) implies u == v && a == k by {
            assert(is_edge_in(g.edges, g.edge_at(u, a), u, a));
            assert(is_edge_in(g.edges, g.edge_at(v, k), v, k));
        }
    }
}

/// The node records `ns` are in `g`, one node for each.
pub open spec fn nodes_loaded<W: Weight>(g: GraphView<W, ()>, ns: Seq<NodeRecord>) -> bool {
    &&& g.nodes.len() == ns.len()
    &&& forall|v: int| 0 <= v < ns.len() ==> node_record_of(#[trigger] g.nodes[v]) == ns[v]
}

/// The edge records `es` are in `g`, one edge for each.
pub open spec fn edges_loaded<W: Weight>(g: GraphView<W, ()>, es: Seq<EdgeRecord>) -> bool {
    &&& g.edges.len() == es.len()
    &&& forall|e: int|
        0 <= e < es.len() ==> edge_record_of(#[trigger] g.edges[e]) == es[e] && 0 < g.edges[e].target
}

/// Makes a node for each record, after checking the records.
#[verifier::rlimit(40)]
fn load_nodes<W: Weight>(ns: &Vec<NodeRecord>, n_edges: usize) -> (r: Result<AvlGraph<W, ()>, LoadError>)
    ensures
        match r {
            Ok(graph) => {
                &&& nodes_valid(ns@)
                &&& graph.wf()
                &&& graph@.edges.len() == 0
                &&& nodes_loaded(graph@, ns@)
            },
            Err(e) => !nodes_valid(ns@) && e == LoadError::MalformedNode,
        },
{
    let n: usize = ns.len();
    if n == 0 || n > 0xffff_ffff {
        return Err(LoadError::MalformedNode);
    }
    if ns[0].length != 0 || ns[0].failure != u32::MAX {
        return Err(LoadError::MalformedNode);
    }
    let mut graph: AvlGraph<W, ()> = AvlGraph::with_capacity(n, n_edges);
    let mut i: usize = 0;
    while i < n
        invariant
            n == ns@.len(),
            1 <= n <= u32::MAX,
            i <= n,
            graph.wf(),
            graph@.nodes.len() == i,
            graph@.edges.len() == 0,
            ns@[0].length == 0,
            ns@[0].failure == u32::MAX,
            forall|v: int| 0 <= v < i ==> node_record_of(#[trigger] graph@.nodes[v]) == ns@[v],
            forall|v: int|
                0 < v < i ==> (#[trigger] ns@[v]).failure < n && ns@[ns@[v].failure as int].length
                    < ns@[v].length,
        decreases n - i,
    {
        let rec = ns[i];
        if i > 0 {
            if rec.failure as usize >= n {
                assert(!(ns@[i as int].failure < ns@.len()));
                return Err(LoadError::MalformedNode);
            }
            if ns[rec.failure as usize].length >= rec.length {
                assert(!(ns@[ns@[i as int].failure as int].length < ns@[i as int].length));
                return Err(LoadError::MalformedNode);
            }
        }
        let failure = if rec.failure == u32::MAX {
            None
        } else {
            Some(NodeIndex { ix: rec.failure })
        };
        let w = W::new(rec.length, failure, rec.count);
        let ghost g = graph@;
        graph.add_node(w);
        proof {
            assert forall|v: int| 0 <= v < i + 1 implies node_record_of(#[trigger] graph@.nodes[v]) == ns@[v] by {
                if v < i {
                    assert(graph@.nodes[v] == g.nodes[v]);
                }
            }
        }
        i = i + 1;
    }
    Ok(graph)
}

/// Makes an edge for each record, after checking the records.
#[verifier::rlimit(40)]
fn load_edges<W: Weight>(graph: &mut AvlGraph<W, ()>, es: &Vec<EdgeRecord>) -> (r: Result<(), LoadError>)
    requires
        old(graph).wf(),
        old(graph)@.edges.len() == 0,
        1 <= old(graph)@.nodes.len() <= u32::MAX,
    ensures
        final(graph).wf(),
        final(graph)@.nodes == old(graph)@.nodes,
        match r {
            Ok(()) => edges_valid(old(graph)@.nodes.len() as int, es@) && edges_loaded(final(graph)@, es@),
            Err(e) => !edges_valid(old(graph)@.nodes.len() as int, es@) && e == LoadError::MalformedEdge,
        },
{
    let ghost nodes0 = graph@.nodes;
    let n: usize = graph.node_count();
    let m: usize = es.len();
    if m > 0xffff_ffff {
        return Err(LoadError::MalformedEdge);
    }
    let mut j: usize = 0;
    while j < m
        invariant
            nodes0 == old(graph)@.nodes,
            n == nodes0.len(),
            m == es@.len(),
            m <= u32::MAX,
            1 <= n <= u32::MAX,
            j <= m,
            graph.wf(),
            graph@.nodes == nodes0,
            graph@.edges.len() == j,
            forall|e: int|
                0 <= e < j ==> edge_record_of(#[trigger] graph@.edges[e]) == es@[e] && 0
                    < graph@.edges[e].target,
            forall|e: int| 0 <= e < j ==> (#[trigger] es@[e]).source < n && 0 < es@[e].target < n,
            forall|e1: int, e2: int|
                0 <= e1 < e2 < j ==> !((#[trigger] es@[e1]).source == (#[trigger] es@[e2]).source
                    && es@[e1].token == es@[e2].token),
        decreases m - j,
    {
        let rec = es[j];
        if rec.source as usize >= n || rec.target as usize >= n || rec.target == 0 {
            assert(!(es@[j as int].source < n && 0 < es@[j as int].target < n));
            return Err(LoadError::MalformedEdge);
        }
        let from = NodeIndex { ix: rec.source };
        let to = NodeIndex { ix: rec.target };
        let ghost g = graph@;
        let found = graph.get_edge_by_token(from, rec.token);
        if !found.is_end() {
            proof {
                assert(is_edge_in(g.edges, found@, from@, rec.token));
                assert(edge_record_of(g.edges[found@]) == es@[found@]);
                assert(es@[found@].source == es@[j as int].source);
                assert(es@[found@].token == es@[j as int].token);
                assert(!edges_valid(n as int, es@));
            }
            return Err(LoadError::MalformedEdge);
        }
        graph.add_edge(from, to, rec.token, ());
        proof {
            assert forall|e: int| 0 <= e < j + 1 implies edge_record_of(#[trigger] graph@.edges[e]) == es@[e]
                && 0 < graph@.edges[e].target by {
                if e < j {
                    assert(graph@.edges[e] == g.edges[e]);
                }
            }
            assert forall|e1: int, e2: int| 0 <= e1 < e2 < j + 1 implies !((#[trigger] es@[e1]).source == (
            #[trigger] es@[e2]).source && es@[e1].token == es@[e2].token) by {
                if e2 == j && es@[e1].source == es@[e2].source && es@[e1].token == es@[e2].token {
                    assert(edge_record_of(g.edges[e1]) == es@[e1]);
                    assert(is_edge_in(g.edges, e1, from@, rec.token));
                }
            }
        }
        j = j + 1;
    }
    Ok(())
}

/// A graph that holds valid records is an automaton.
proof fn lemma_loaded<W: Weight>(g: GraphView<W, ()>, ns: Seq<NodeRecord>, es: Seq<EdgeRecord>)
    requires
        g.wf(),
        nodes_valid(ns),
        nodes_loaded(g, ns),
        edges_loaded(g, es),
        forall|v: int| 0 <= v < g.nodes.len() ==> #[trigger] g.next_map(v).dom().finite(),
    ensures
        wf_view(dawg_view(g)),
{
    let dv = dawg_view(g);
    assert forall|v: int| 0 < v < dv.len() implies #[trigger] link_ok(dv, v) by {
        g.nodes[v].lemma_bounded();
        let u = ns[v].failure as int;
        g.nodes[u].lemma_bounded();
        assert(node_record_of(g.nodes[v]) == ns[v]);
        assert(node_record_of(g.nodes[u]) == ns[u]);
    }
    assert(dv[0].length == 0 && dv[0].link is None) by {
        g.nodes[0].lemma_bounded();
        assert(node_record_of(g.nodes[0]) == ns[0]);
    }
    assert forall|v: int, k: Token| 0 <= v < dv.len() && #[trigger] dv[v].next.contains_key(k) implies 0
        < dv[v].next[k] < dv.len() by {
        let e = g.edge_at(v, k);
        assert(is_edge_in(g.edges, e, v, k));
        assert(0 < g.edges[e].target);
    }
    assert forall|v: int| 0 <= v < dv.len() implies #[trigger] finite_next(dv, v) by {
        assert(g.next_map(v).dom().finite());
    }
}

/// An automaton in memory is saved by writing all of it.
impl<W: Weight> Save for Dawg<W> {
    open spec fn can_save(&self) -> bool {
        self.wf()
    }

    open spec fn saved(&self) -> Option<(Seq<NodeRecord>, Seq<EdgeRecord>)> {
        Some((self.saved_nodes(), self.saved_edges()))
    }

    fn save(&self, save_path: &str) -> (plan: SavePlan) {
        SavePlan::WriteFile { path: String::from_str(save_path), graph: self.to_parts() }
    }
}

/// Once a prefix cannot be built, no longer string can.
pub proof fn lemma_build_error_stays(s: Seq<Token>, i: int)
    requires
        0 <= i <= s.len(),
        build_error(s.take(i)) is Some,
    ensures
        build_error(s) == build_error(s.take(i)),
    decreases s.len() - i,
{
    if i < s.len() {
        assert(s.take(i + 1).drop_last() =~= s.take(i));
        lemma_build_error_stays(s, i + 1);
    } else {
        assert(s.take(i) =~= s);
    }
}

/// A string leads to a state of the automaton.
pub proof fn lemma_run_in_range(d: DawgView, s: Seq<Token>)
    requires
        wf_view(d),
    ensures
        run(d, s) matches Some(v) ==> 0 <= v < d.len(),
    decreases s.len(),
{
    if s.len() > 0 {
        lemma_run_in_range(d, s.drop_last());
    }
}

/// Once a prefix cannot be followed, no longer string can.
pub proof fn lemma_run_stays_none(d: DawgView, s: Seq<Token>, i: int)
    requires
        0 <= i <= s.len(),
        run(d, s.take(i)) is None,
    ensures
        run(d, s) is None,
    decreases s.len() - i,
{
    if i < s.len() {
        assert(s.take(i + 1).drop_last() =~= s.take(i));
        lemma_run_stays_none(d, s, i + 1);
    } else {
        assert(s.take(i) =~= s);
    }
}

} // verus!
