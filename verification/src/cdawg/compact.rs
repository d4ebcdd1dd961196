//! Building the compacted automaton of a text.

use vstd::prelude::*;
use crate::indexing::NodeIndex;
use crate::indexing::Token;
use crate::indexing::none_ix;
use crate::weight::BasicWeight;
use crate::weight::Weight;
use crate::graph::avl_graph::AvlGraph;
use crate::graph::avl_graph::GraphView;
use crate::graph::avl_graph::EdgeView;
use crate::graph::avl_graph::is_edge_in;
use crate::dawg::automaton::Dawg;
use crate::dawg::model::DawgView;
use crate::dawg::model::ExtendError;
use crate::dawg::model::active;
use crate::dawg::model::build_view;
use crate::dawg::model::build_edges;
use crate::dawg::model::build_error;
use crate::dawg::model::lemma_extend_wf;
use crate::dawg::model::lemma_bump;
use crate::dawg::model::extend_view;
use crate::dawg::automaton::lemma_build_error_stays;
use crate::dawg::language::build_ends;
use crate::dawg::language::is_automaton_of;
use crate::dawg::language::edge_fits;
use crate::dawg::language::len_of;
use crate::dawg::language::lemma_built_ends;
use crate::dawg::language::lemma_build_stops_only_for_room;
use crate::dawg::language::lemma_node_count_linear;
use crate::cdawg::model::Arc;
use crate::cdawg::model::CdawgNode;
use crate::cdawg::model::CdawgView;
use crate::cdawg::model::explicit;
use crate::cdawg::model::chain_step;
use crate::cdawg::model::chain_end;
use crate::cdawg::model::chain_len;
use crate::cdawg::model::arc_fits;
use crate::cdawg::model::node_fits;
use crate::cdawg::model::is_compaction;
use crate::cdawg::paths::lemma_sole;
use crate::cdawg::paths::lemma_chain;
use crate::cdawg::paths::lemma_spans_in_text;
use crate::cdawg::paths::lemma_spans_spell_substrings;
use crate::cdawg::paths::lemma_source_first;
use crate::cdawg::paths::lemma_traces_exactly_substrings;
use crate::cdawg::model::Place;
use crate::cdawg::model::step;
use crate::cdawg::model::trace;
use crate::cdawg::model::place_ok;
use crate::cdawg::model::follow;
use crate::dawg::model::link_ok;
use crate::dawg::model::wf_view;
use crate::dawg::text::is_substring;
use crate::graph::avl_graph::BalanceRatio;
use crate::graph::avl_graph::optimal_height;

verus! {

/// What an edge of the compacted automaton carries: the half-open span of
/// the text that labels it.
#[derive(Clone, Copy, Debug, PartialEq, Eq, Structural)]
pub struct CdawgEdgeWeight {
    pub start: u64,
    pub end: u64,
}

/// What a node of the compacted automaton carries.
#[derive(Clone, Copy, Debug, PartialEq, Eq, Structural)]
pub struct CdawgWeight {
    pub length: u64,
    pub count: u64,
}

pub open spec fn arc_of(e: EdgeView<CdawgEdgeWeight>) -> Arc {
    Arc { start: e.weight.start as int, end: e.weight.end as int, target: e.target }
}

/// The edges that leave node `i`, by the first token of their labels.
pub open spec fn arc_map(g: GraphView<CdawgWeight, CdawgEdgeWeight>, i: int) -> Map<Token, Arc> {
    Map::new(|k: Token| g.has_edge(i, k), |k: Token| arc_of(g.edges[g.edge_at(i, k)]))
}

/// The compacted automaton that the graph `g` stores, where `states` tells
/// the state that each node stands for.
pub open spec fn cdawg_view(g: GraphView<CdawgWeight, CdawgEdgeWeight>, states: Seq<int>) -> CdawgView {
    Seq::new(
        g.nodes.len(),
        |i: int|
            CdawgNode {
                state: states[i],
                length: g.nodes[i].length as nat,
                count: g.nodes[i].count as nat,
                next: arc_map(g, i),
            },
    )
}

pub proof fn lemma_arcs_with_edge(
    g: GraphView<CdawgWeight, CdawgEdgeWeight>,
    from: int,
    to: int,
    key: Token,
    span: CdawgEdgeWeight,
)
    requires
        g.wf(),
        !g.has_edge(from, key),
    ensures
        arc_map(g.with_edge(from, to, key, span), from) == arc_map(g, from).insert(
            key,
            Arc { start: span.start as int, end: span.end as int, target: to },
        ),
        forall|i: int| i != from ==> #[trigger] arc_map(g.with_edge(from, to, key, span), i) == arc_map(g, i),
{
    let g2 = g.with_edge(from, to, key, span);
    g.lemma_edge_map_with_edge(from, to, key, span);
    let arc = Arc { start: span.start as int, end: span.end as int, target: to };
    assert forall|i: int, k: Token| #[trigger] g2.has_edge(i, k) implies g2.edge_at(i, k) == g2.edge_map(
        i,
    )[k] by {}
    assert forall|i: int, k: Token| #[trigger] g.has_edge(i, k) implies g.edge_at(i, k) == g.edge_map(i)[k] by {}
    assert forall|i: int, k: Token| g2.has_edge(i, k) <==> g2.edge_map(i).contains_key(k) by {}
    assert forall|i: int, k: Token| g.has_edge(i, k) <==> g.edge_map(i).contains_key(k) by {}
    assert(arc_map(g2, from) =~= arc_map(g, from).insert(key, arc)) by {
        assert forall|k: Token| arc_map(g2, from).contains_key(k) implies arc_map(g2, from)[k] == arc_map(
            g,
            from,
        ).insert(key, arc)[k] by {
            assert(g2.has_edge(from, k));
            if k != key {
                assert(g.edge_map(from).contains_key(k));
                let e = g.edge_at(from, k);
                assert(is_edge_in(g.edges, e, from, k));
                assert(g2.edges[e] == g.edges[e]);
            }
        }
    }
    assert forall|i: int| i != from implies #[trigger] arc_map(g2, i) == arc_map(g, i) by {
        assert forall|k: Token| arc_map(g2, i).contains_key(k) implies arc_map(g2, i)[k] == arc_map(g, i)[k] by {
            assert(g2.has_edge(i, k));
            assert(g.edge_map(i).contains_key(k));
            let e = g.edge_at(i, k);
            assert(is_edge_in(g.edges, e, i, k));
            assert(g2.edges[e] == g.edges[e]);
        }
        assert(arc_map(g2, i) =~= arc_map(g, i));
    }
}

/// Places as the proofs count them.
pub open spec fn places(ends: Seq<u64>) -> Seq<int> {
    ends.map_values(|e: u64| e as int)
}

/// Handles as the proofs count them.
pub open spec fn numbers(hs: Seq<NodeIndex>) -> Seq<int> {
    hs.map_values(|h: NodeIndex| h@)
}

/// The nodes of the compacted automaton are the kept states of `d`, in their
/// order; `ids` tells the node of each kept state, `states` the state of
/// each node.
pub open spec fn numbered(
    d: DawgView,
    g: GraphView<CdawgWeight, CdawgEdgeWeight>,
    ids: Seq<NodeIndex>,
    states: Seq<int>,
    upto: int,
) -> bool {
    &&& ids.len() == upto
    &&& states.len() == g.nodes.len()
    &&& forall|v: int|
        0 <= v < upto ==> if explicit(d, v) {
            (#[trigger] ids[v])@ < g.nodes.len() && states[ids[v]@] == v
        } else {
            ids[v]@ == none_ix()
        }
    &&& forall|i: int|
        0 <= i < states.len() ==> {
            &&& 0 <= #[trigger] states[i] < upto
            &&& explicit(d, states[i])
            &&& ids[states[i]]@ == i
            &&& g.nodes[i].length == d[states[i]].length
            &&& g.nodes[i].count == d[states[i]].count
        }
    &&& forall|i: int, j: int| 0 <= i < j < states.len() ==> #[trigger] states[i] < #[trigger] states[j]
}

/// Makes a node for each kept state of `d`.
#[verifier::rlimit(40)]
fn number_states<W: Weight>(d: &Dawg<W>, graph: &mut AvlGraph<CdawgWeight, CdawgEdgeWeight>) -> (r: (
    Vec<NodeIndex>,
    Vec<NodeIndex>,
))
    requires
        d.wf(),
        old(graph).wf(),
        old(graph)@.nodes.len() == 0,
        old(graph)@.edges.len() == 0,
    ensures
        final(graph).wf(),
        final(graph)@.edges.len() == 0,
        numbered(d@, final(graph)@, r.0@, numbers(r.1@), d@.len() as int),
{
    let n: usize = d.node_count();
    let mut ids: Vec<NodeIndex> = Vec::with_capacity(n);
    let mut kept: Vec<NodeIndex> = Vec::new();
    let ghost mut states: Seq<int> = Seq::empty();
    let mut v: usize = 0;
    while v < n
        invariant
            d.wf(),
            n == d@.len(),
            n <= none_ix(),
            v <= n,
            graph.wf(),
            graph@.edges.len() == 0,
            graph@.nodes.len() <= v,
            numbered(d@, graph@, ids@, states, v as int),
            states == numbers(kept@),
        decreases n - v,
    {
        let state = NodeIndex::new(v);
        let keep = v == 0 || d.sole_transition(state).is_none();
        let ghost g0 = graph@;
        let ghost ids0 = ids@;
        let ghost states0 = states;
        if keep {
            let w = CdawgWeight { length: d.get_length(state), count: d.get_count(state) };
            let id = graph.add_node(w);
            ids.push(id);
            kept.push(state);
            proof {
                states = states.push(v as int);
                assert(states =~= numbers(kept@));
                assert forall|u: int| 0 <= u < v + 1 implies if explicit(d@, u) {
                    (#[trigger] ids@[u])@ < graph@.nodes.len() && states[ids@[u]@] == u
                } else {
                    ids@[u]@ == none_ix()
                } by {
                    if u < v {
                        assert(ids@[u] == ids0[u]);
                    }
                }
                assert forall|i: int| 0 <= i < states.len() implies {
                    &&& 0 <= #[trigger] states[i] < v + 1
                    &&& explicit(d@, states[i])
                    &&& ids@[states[i]]@ == i
                    &&& graph@.nodes[i].length == d@[states[i]].length
                    &&& graph@.nodes[i].count == d@[states[i]].count
                } by {
                    if i < states0.len() {
                        assert(states[i] == states0[i]);
                        assert(ids@[states0[i]] == ids0[states0[i]]);
                    }
                }
                assert forall|i: int, j: int| 0 <= i < j < states.len() implies #[trigger] states[i]
                    < #[trigger] states[j] by {
                    assert(states[i] == states0[i]);
                    if j < states0.len() {
                        assert(states[j] == states0[j]);
                    }
                }
            }
        } else {
            ids.push(NodeIndex::end());
            proof {
                assert forall|u: int| 0 <= u < v + 1 implies if explicit(d@, u) {
                    (#[trigger] ids@[u])@ < graph@.nodes.len() && states[ids@[u]@] == u
                } else {
                    ids@[u]@ == none_ix()
                } by {
                    if u < v {
                        assert(ids@[u] == ids0[u]);
                    }
                }
                assert forall|i: int| 0 <= i < states.len() implies {
                    &&& 0 <= #[trigger] states[i] < v + 1
                    &&& explicit(d@, states[i])
                    &&& ids@[states[i]]@ == i
                    &&& graph@.nodes[i].length == d@[states[i]].length
                    &&& graph@.nodes[i].count == d@[states[i]].count
                } by {
                    assert(ids@[states0[i]] == ids0[states0[i]]);
                }
            }
        }
        v = v + 1;
    }
    (ids, kept)
}

/// Follows the chain from `y` to the kept state at its end. Returns that
/// state and the number of transitions from the state before `y` to it.
fn chase<W: Weight>(
    d: &Dawg<W>,
    y: NodeIndex,
    Ghost(w): Ghost<Seq<Token>>,
    Ghost(ends): Ghost<Seq<int>>,
    Ghost(wit): Ghost<Seq<int>>,
    Ghost(last): Ghost<int>,
) -> (r: (NodeIndex, u64))
    requires
        d.wf(),
        is_automaton_of(d@, w, ends, wit, last),
        0 < y@ < d@.len(),
    ensures
        r.0@ == chain_end(d@, w.len() as int, y@),
        r.1 == 1 + chain_len(d@, w.len() as int, y@),
        0 < r.0@ < d@.len(),
        explicit(d@, r.0@),
{
    let ghost n = w.len() as int;
    let mut z = y;
    let mut k: u64 = 1;
    let mut going = true;
    proof {
        assert(link_ok(d@, y@ as int));
        assert(len_of(d@, y@ as int) <= ends[y@ as int] <= w.len());
        d.lemma_bounded();
    }
    while going
        invariant
            d.wf(),
            is_automaton_of(d@, w, ends, wit, last),
            n == w.len(),
            0 < y@ < d@.len(),
            0 < z@ < d@.len(),
            chain_end(d@, n, z@ as int) == chain_end(d@, n, y@ as int),
            k + chain_len(d@, n, z@ as int) == 1 + chain_len(d@, n, y@ as int),
            1 <= k <= len_of(d@, z@ as int) <= u64::MAX,
            len_of(d@, z@ as int) <= n,
            !going ==> explicit(d@, z@ as int) && chain_len(d@, n, z@ as int) == 0,
        decreases
                (if going {
                    n - len_of(d@, z@ as int) + 1
                } else {
                    0
                }),
    {
        match d.sole_transition(z) {
            Some((key, nx)) => {
                proof {
                    lemma_sole(d@, z@ as int);
                    assert(edge_fits(d@, w, ends, z@ as int, key));
                    assert(len_of(d@, nx@ as int) <= ends[nx@ as int] <= n);
                    assert(chain_step(d@, n, z@ as int));
                    d.lemma_bounded();
                }
                z = nx;
                k = k + 1;
            },
            None => {
                going = false;
            },
        }
    }
    (z, k)
}

/// It was the turn of the edge of node `j` under `a` before that of the
/// edge of node `i` whose token is `kb`.
pub open spec fn turn(d: DawgView, states: Seq<int>, i: int, kb: int, j: int, a: Token) -> bool {
    d[states[j]].next.contains_key(a) && (j < i || (j == i && (a as int) < kb))
}

/// The compacted automaton has the edges whose turn it was, and each of
/// them fits.
pub open spec fn partly(
    cd: CdawgView,
    d: DawgView,
    states: Seq<int>,
    ends: Seq<int>,
    n: int,
    i: int,
    kb: int,
) -> bool {
    &&& forall|j: int, a: Token|
        0 <= j < cd.len() ==> (#[trigger] cd[j].next.contains_key(a) <==> turn(d, states, i, kb, j, a))
    &&& forall|j: int, a: Token|
        0 <= j < cd.len() && #[trigger] cd[j].next.contains_key(a) ==> arc_fits(cd, d, ends, n, j, a)
}

/// Edge `e` of the suffix automaton holds a transition whose turn it was.
pub open spec fn id_turn(
    idf: spec_fn(int, Token) -> int,
    d: DawgView,
    states: Seq<int>,
    i: int,
    kb: int,
    e: int,
) -> bool {
    exists|j: int, a: Token|
        (#[trigger] idf(states[j], a)) == e && 0 <= j < states.len() && turn(d, states, i, kb, j, a)
}

/// The edges of the suffix automaton that have been seen are as many as the
/// compacted automaton has edges, and each holds a transition whose turn it
/// was.
pub open spec fn tally(
    idf: spec_fn(int, Token) -> int,
    total: nat,
    d: DawgView,
    states: Seq<int>,
    i: int,
    kb: int,
    seen: Set<int>,
    edges: nat,
) -> bool {
    &&& seen.finite()
    &&& seen.len() == edges
    &&& forall|e: int| #[trigger] seen.contains(e) ==> 0 <= e < total && id_turn(idf, d, states, i, kb, e)
}

proof fn lemma_tally_room(total: nat, seen: Set<int>, e: int)
    requires
        seen.finite(),
        forall|x: int| #[trigger] seen.contains(x) ==> 0 <= x < total,
        0 <= e < total,
        !seen.contains(e),
    ensures
        seen.len() < total,
{
    let more = seen.insert(e);
    let all = vstd::set_lib::set_int_range(0, total as int);
    vstd::set_lib::lemma_int_range(0, total as int);
    assert(more.subset_of(all));
    vstd::set_lib::lemma_len_subset(more, all);
}

proof fn lemma_tally_later(
    idf: spec_fn(int, Token) -> int,
    total: nat,
    d: DawgView,
    states: Seq<int>,
    i: int,
    kb: int,
    i2: int,
    kb2: int,
    seen: Set<int>,
    edges: nat,
)
    requires
        tally(idf, total, d, states, i, kb, seen, edges),
        forall|j: int, a: Token| #[trigger] turn(d, states, i, kb, j, a) ==> turn(d, states, i2, kb2, j, a),
    ensures
        tally(idf, total, d, states, i2, kb2, seen, edges),
{
    assert forall|e: int| #[trigger] seen.contains(e) implies 0 <= e < total && id_turn(
        idf,
        d,
        states,
        i2,
        kb2,
        e,
    ) by {
        assert(id_turn(idf, d, states, i, kb, e));
        let (j, a) = choose|j: int, a: Token|
            (#[trigger] idf(states[j], a)) == e && 0 <= j < states.len() && turn(d, states, i, kb, j, a);
        assert(idf(states[j], a) == e && turn(d, states, i2, kb2, j, a));
    }
}

/// Gives every node of the compacted automaton its edges.
#[verifier::rlimit(40)]
fn add_arcs<W: Weight>(
    d: &Dawg<W>,
    ends: &Vec<u64>,
    ids: &Vec<NodeIndex>,
    kept: &Vec<NodeIndex>,
    graph: &mut AvlGraph<CdawgWeight, CdawgEdgeWeight>,
    Ghost(w): Ghost<Seq<Token>>,
    Ghost(wit): Ghost<Seq<int>>,
    Ghost(last): Ghost<int>,
)
    requires
        d.wf(),
        is_automaton_of(d@, w, places(ends@), wit, last),
        old(graph).wf(),
        old(graph)@.edges.len() == 0,
        numbered(d@, old(graph)@, ids@, numbers(kept@), d@.len() as int),
    ensures
        final(graph).wf(),
        final(graph)@.nodes == old(graph)@.nodes,
        is_compaction(cdawg_view(final(graph)@, numbers(kept@)), d@, places(ends@), w.len() as int),
{
    let ghost n = w.len() as int;
    let ghost states = numbers(kept@);
    let ghost pl = places(ends@);
    let ghost nodes0 = graph@.nodes;
    let ghost mut seen: Set<int> = Set::empty();
    let ghost idf = |u: int, a: Token| d.edge_id(u, a);
    let ghost total = d.edge_total();
    let m: usize = kept.len();
    let mut i: usize = 0;
    proof {
        d.lemma_edge_ids();
        let cd = cdawg_view(graph@, states);
        assert forall|j: int, a: Token| 0 <= j < cd.len() implies !(#[trigger] cd[j].next.contains_key(a)) by {
            if graph@.has_edge(j, a) {
                assert(is_edge_in(graph@.edges, graph@.edge_at(j, a), j, a));
            }
        }
    }
    while i < m
        invariant
            d.wf(),
            is_automaton_of(d@, w, pl, wit, last),
            pl == places(ends@),
            states == numbers(kept@),
            n == w.len(),
            m == kept@.len(),
            i <= m,
            graph.wf(),
            graph@.nodes == nodes0,
            numbered(d@, graph@, ids@, states, d@.len() as int),
            partly(cdawg_view(graph@, states), d@, states, pl, n, i as int, -1),
            tally(idf, total, d@, states, i as int, -1, seen, graph@.edges.len()),
            idf == |u: int, a: Token| d.edge_id(u, a),
            total == d.edge_total(),
            total <= none_ix(),
        decreases m - i,
    {
        let v = kept[i];
        let node = NodeIndex::new(i);
        proof {
            assert(states[i as int] == v@);
        }
        let ts = d.transitions(v);
        let mut j: usize = 0;
        proof {
            let kb0 = if ts@.len() > 0 {
                ts@[0].0 as int
            } else {
                0x1_0000_0000_0000_0000int
            };
            let cd = cdawg_view(graph@, states);
            assert forall|j2: int, a: Token| #[trigger]
                turn(d@, states, i as int, kb0, j2, a) implies turn(d@, states, i as int, -1, j2, a) by {
                if j2 == i && d@[v@ as int].next.contains_key(a) {
                    let x = choose|x: int| 0 <= x < ts@.len() && (#[trigger] ts@[x]).0 == a;
                    if x > 0 {
                        assert(ts@[0].0 < ts@[x].0);
                    }
                }
            }
            assert(partly(cd, d@, states, pl, n, i as int, kb0));
            lemma_tally_later(idf, total, d@, states, i as int, -1, i as int, kb0, seen, graph@.edges.len());
        }
        while j < ts.len()
            invariant
                d.wf(),
                is_automaton_of(d@, w, pl, wit, last),
                pl == places(ends@),
                states == numbers(kept@),
                n == w.len(),
                m == kept@.len(),
                i < m,
                v == kept@[i as int],
                node@ == i,
                states[i as int] == v@,
                v@ < d@.len(),
                j <= ts@.len(),
                ts@.len() == d@[v@ as int].next.dom().len(),
                forall|x: int|
                    0 <= x < ts@.len() ==> d@[v@ as int].next.contains_key((#[trigger] ts@[x]).0)
                        && d@[v@ as int].next[ts@[x].0] == ts@[x].1@,
                forall|x: int, y: int| 0 <= x < y < ts@.len() ==> (#[trigger] ts@[x]).0 < (#[trigger] ts@[y]).0,
                forall|k: Token| #[trigger]
                    d@[v@ as int].next.contains_key(k) ==> exists|x: int|
                        0 <= x < ts@.len() && (#[trigger] ts@[x]).0 == k,
                graph.wf(),
                graph@.nodes == nodes0,
                numbered(d@, graph@, ids@, states, d@.len() as int),
                partly(
                    cdawg_view(graph@, states),
                    d@,
                    states,
                    pl,
                    n,
                    i as int,
                    if j < ts@.len() {
                        ts@[j as int].0 as int
                    } else {
                        0x1_0000_0000_0000_0000int
                    },
                ),
                tally(
                    idf,
                    total,
                    d@,
                    states,
                    i as int,
                    if j < ts@.len() {
                        ts@[j as int].0 as int
                    } else {
                        0x1_0000_0000_0000_0000int
                    },
                    seen,
                    graph@.edges.len(),
                ),
                idf == |u: int, a: Token| d.edge_id(u, a),
                total == d.edge_total(),
                total <= none_ix(),
            decreases ts@.len() - j,
        {
            let a: Token = ts[j].0;
            let y = ts[j].1;
            let ghost kb = a as int;
            let ghost kb2 = if j + 1 < ts@.len() {
                ts@[j + 1].0 as int
            } else {
                0x1_0000_0000_0000_0000int
            };
            let ghost g = graph@;
            let ghost cd = cdawg_view(g, states);
            proof {
                assert(d@[v@ as int].next.contains_key(ts@[j as int].0));
                assert(wf_view(d@));
                assert(0 < y@ < d@.len());
                lemma_chain(d@, w, pl, wit, last, y@ as int);
            }
            let (z, k) = chase(d, y, Ghost(w), Ghost(pl), Ghost(wit), Ghost(last));
            let target = ids[z.index()];
            let end: u64 = ends[z.index()];
            proof {
                assert(pl[z@ as int] == end);
                assert(explicit(d@, z@ as int));
                assert(target@ < g.nodes.len() && states[target@ as int] == z@);
                // the edge is new, and there is room for it
                assert(!cd[i as int].next.contains_key(a));
                assert(!g.has_edge(i as int, a));
                let id = d.edge_id(v@ as int, a);
                d.lemma_edge_ids();
                if seen.contains(id) {
                    assert(id_turn(idf, d@, states, i as int, kb, id));
                    let (j2, a2) = choose|j2: int, a2: Token|
                        (#[trigger] idf(states[j2], a2)) == id && 0 <= j2 < states.len() && turn(
                            d@,
                            states,
                            i as int,
                            kb,
                            j2,
                            a2,
                        );
                    assert(d.edge_id(states[j2], a2) == id);
                    assert(0 <= states[j2] < d@.len());
                    assert(states[j2] == v@ && a2 == a);
                    if j2 != i {
                        if j2 < i {
                            assert(states[j2] < states[i as int]);
                        } else {
                            assert(states[i as int] < states[j2]);
                        }
                    }
                }
                lemma_tally_room(total, seen, id);
            }
            let span = CdawgEdgeWeight { start: end - k, end };
            graph.add_edge(node, target, a, span);
            proof {
                let g2 = graph@;
                let cd2 = cdawg_view(g2, states);
                let arc = Arc { start: span.start as int, end: span.end as int, target: target@ as int };
                lemma_arcs_with_edge(g, i as int, target@ as int, a, span);
                assert(cd2[i as int].next == cd[i as int].next.insert(a, arc));
                assert forall|j2: int| 0 <= j2 < cd.len() && j2 != i implies #[trigger] cd2[j2] == cd[j2] by {
                    assert(arc_map(g2, j2) == arc_map(g, j2));
                }
                assert forall|j2: int| 0 <= j2 < cd.len() implies (#[trigger] cd2[j2]).state == cd[j2].state by {}
                assert forall|j2: int, a2: Token| 0 <= j2 < cd2.len() implies (#[trigger] cd2[j2].next.contains_key(
                    a2,
                ) <==> turn(d@, states, i as int, kb2, j2, a2)) by {
                    if j2 == i {
                        if d@[v@ as int].next.contains_key(a2) {
                            let x = choose|x: int| 0 <= x < ts@.len() && (#[trigger] ts@[x]).0 == a2;
                            if x < j {
                                assert(ts@[x].0 < ts@[j as int].0);
                            } else if x > j {
                                assert(ts@[j as int].0 < ts@[x].0);
                                if x > j + 1 {
                                    assert(ts@[j + 1].0 < ts@[x].0);
                                }
                            }
                        }
                        if j + 1 < ts@.len() {
                            assert(ts@[j as int].0 < ts@[j + 1].0);
                        }
                        assert(cd[j2].next.contains_key(a2) <==> turn(d@, states, i as int, kb, j2, a2));
                    } else {
                        assert(cd2[j2] == cd[j2]);
                        assert(cd[j2].next.contains_key(a2) <==> turn(d@, states, i as int, kb, j2, a2));
                    }
                }
                assert forall|j2: int, a2: Token|
                    0 <= j2 < cd2.len() && #[trigger] cd2[j2].next.contains_key(a2) implies arc_fits(
                    cd2,
                    d@,
                    pl,
                    n,
                    j2,
                    a2,
                ) by {
                    if j2 == i && a2 == a {
                        assert(cd2[target@ as int].state == cd[target@ as int].state);
                    } else {
                        if j2 != i {
                            assert(cd2[j2] == cd[j2]);
                        }
                        assert(cd[j2].next.contains_key(a2));
                        assert(arc_fits(cd, d@, pl, n, j2, a2));
                        let t = cd[j2].next[a2].target;
                        assert(cd2[t].state == cd[t].state);
                    }
                }
                let id = d.edge_id(v@ as int, a);
                let seen2 = seen.insert(id);
                assert forall|e: int| #[trigger] seen2.contains(e) implies 0 <= e < total && id_turn(
                    idf,
                    d@,
                    states,
                    i as int,
                    kb2,
                    e,
                ) by {
                    if e == id {
                        if j + 1 < ts@.len() {
                            assert(ts@[j as int].0 < ts@[j + 1].0);
                        }
                        assert(idf(states[i as int], a) == e && turn(d@, states, i as int, kb2, i as int, a));
                    } else {
                        assert(id_turn(idf, d@, states, i as int, kb, e));
                        let (j3, a3) = choose|j3: int, a3: Token|
                            (#[trigger] idf(states[j3], a3)) == e && 0 <= j3 < states.len() && turn(
                                d@,
                                states,
                                i as int,
                                kb,
                                j3,
                                a3,
                            );
                        if j + 1 < ts@.len() {
                            assert(ts@[j as int].0 < ts@[j + 1].0);
                        }
                        assert(idf(states[j3], a3) == e && turn(d@, states, i as int, kb2, j3, a3));
                    }
                }
                seen = seen2;
            }
            j = j + 1;
        }
        proof {
            let top = 0x1_0000_0000_0000_0000int;
            let cd = cdawg_view(graph@, states);
            assert forall|j2: int, a: Token| #[trigger]
                turn(d@, states, i as int, top, j2, a) <==> turn(d@, states, i + 1, -1, j2, a) by {}
            assert(partly(cd, d@, states, pl, n, i + 1, -1));
            lemma_tally_later(idf, total, d@, states, i as int, top, i + 1, -1, seen, graph@.edges.len());
        }
        i = i + 1;
    }
    proof {
        let cd = cdawg_view(graph@, states);
        assert forall|j: int| 0 <= j < cd.len() implies #[trigger] node_fits(cd, d@, j) by {
            assert(0 <= states[j] < d@.len());
        }
        assert forall|x: int, y: int| 0 <= x < y < cd.len() implies (#[trigger] cd[x]).state < (
        #[trigger] cd[y]).state by {
            assert(states[x] < states[y]);
        }
        assert forall|v: int| 0 <= v < d@.len() && #[trigger] explicit(d@, v) implies exists|j: int|
            0 <= j < cd.len() && (#[trigger] cd[j]).state == v by {
            let j = ids@[v]@ as int;
            assert(cd[j].state == v);
        }
        assert forall|j: int, a: Token| 0 <= j < cd.len() implies (#[trigger] cd[j].next.contains_key(a)
            <==> d@[cd[j].state].next.contains_key(a)) by {
            assert(cd[j].next.contains_key(a) <==> turn(d@, states, m as int, -1, j, a));
        }
    }
}

/// Takes the tokens of a text one at a time. It keeps the suffix automaton
/// of the tokens so far; the compacted automaton of them can be had of it at
/// any point.
pub struct CdawgBuilder<W> {
    dawg: Dawg<W>,
    last: NodeIndex,
    ends: Vec<u64>,
    tokens: Vec<Token>,
}

impl<W: Weight> CdawgBuilder<W> {
    /// The tokens taken so far.
    pub closed spec fn text(&self) -> Seq<Token> {
        self.tokens@
    }

    /// The builder holds the automaton of its text.
    pub closed spec fn wf(&self) -> bool {
        &&& self.dawg.wf()
        &&& self.dawg@ == build_view(self.tokens@)
        &&& self.last@ == active(self.tokens@)
        &&& self.dawg.edge_total() == build_edges(self.tokens@)
        &&& places(self.ends@) == build_ends(self.tokens@)
        &&& build_error(self.tokens@) is None
    }

    /// A builder that has taken no token yet.
    pub fn new() -> (b: Self)
        ensures
            b.wf(),
            b.text() == Seq::<Token>::empty(),
    {
        let dawg: Dawg<W> = Dawg::new();
        let last = dawg.get_initial();
        let mut ends: Vec<u64> = Vec::new();
        ends.push(0);
        let b = CdawgBuilder { dawg, last, ends, tokens: Vec::new() };
        proof {
            assert(places(b.ends@) =~= build_ends(b.tokens@));
        }
        b
    }

    /// Takes one more token. Where the handles or the length counter have
    /// run out, the builder stays as it is.
    pub fn extend(&mut self, token: Token) -> (r: Result<(), ExtendError>)
        requires
            old(self).wf(),
        ensures
            final(self).wf(),
            match r {
                Ok(()) => final(self).text() == old(self).text().push(token),
                Err(e) => {
                    &&& final(self).text() == old(self).text()
                    &&& build_error(old(self).text().push(token)) == Some(e)
                    &&& e == ExtendError::OutOfRoom
                },
            },
    {
        let ghost before = self.tokens@;
        let ghost after = before.push(token);
        let ghost d0 = self.dawg@;
        let ghost e0 = self.ends@;
        proof {
            assert(after.drop_last() =~= before);
            lemma_build_stops_only_for_room(after);
            lemma_node_count_linear(before);
        }
        let n0: usize = self.dawg.node_count();
        match self.dawg.try_extend(token, self.last) {
            Ok(cur) => {
                proof {
                    lemma_extend_wf(d0, token, active(before));
                }
                self.dawg.count_suffixes(cur);
                proof {
                    lemma_bump(extend_view(d0, token, active(before)), d0.len() as int);
                }
                self.last = cur;
                let n1: usize = self.dawg.node_count();
                let here: u64 = (self.tokens.len() + 1) as u64;
                self.tokens.push(token);
                self.ends.push(here);
                if n1 - n0 == 2 {
                    self.ends.push(here);
                    proof {
                        assert(places(self.ends@) =~= places(e0).push(here as int).push(here as int));
                    }
                } else {
                    proof {
                        assert(places(self.ends@) =~= places(e0).push(here as int));
                    }
                }
                Ok(())
            },
            Err(e) => Err(e),
        }
    }

    /// Number of states of the automaton that the builder keeps.
    pub fn node_count(&self) -> (n: usize)
        requires
            self.wf(),
        ensures
            n == build_view(self.text()).len(),
    {
        self.dawg.node_count()
    }

    /// The compacted automaton of the tokens taken so far.
    pub fn compact(&self) -> (cd: Cdawg)
        requires
            self.wf(),
        ensures
            cd.wf(),
            cd.corpus() == self.text(),
    {
        let ghost mut wit: Seq<int> = Seq::empty();
        proof {
            wit = lemma_built_ends(self.tokens@);
        }
        let mut graph: AvlGraph<CdawgWeight, CdawgEdgeWeight> = AvlGraph::new();
        let (ids, kept) = number_states(&self.dawg, &mut graph);
        add_arcs(
            &self.dawg,
            &self.ends,
            &ids,
            &kept,
            &mut graph,
            Ghost(self.tokens@),
            Ghost(wit),
            Ghost(active(self.tokens@)),
        );
        let mut copy: Vec<Token> = Vec::with_capacity(self.tokens.len());
        let mut i: usize = 0;
        while i < self.tokens.len()
            invariant
                i <= self.tokens@.len(),
                copy@ == self.tokens@.take(i as int),
            decreases self.tokens@.len() - i,
        {
            copy.push(self.tokens[i]);
            proof {
                assert(copy@ =~= self.tokens@.take(i + 1));
            }
            i = i + 1;
        }
        proof {
            assert(copy@ =~= self.tokens@);
        }
        Cdawg { graph, tokens: copy, states: Ghost(numbers(kept@)) }
    }
}

/// A place in the compacted automaton while a string is matched: on the way
/// to the node `target`, with the tokens from `start` up to `end` of the
/// text still to pass. At a node itself, `start` is `end`.
#[derive(Clone, Copy, Debug, PartialEq, Eq, Structural)]
pub struct CdawgState {
    pub target: NodeIndex,
    pub start: u64,
    pub end: u64,
}

impl View for CdawgState {
    type V = Place;

    open spec fn view(&self) -> Place {
        Place { target: self.target@, start: self.start as int, end: self.end as int }
    }
}

impl CdawgState {
    /// Number of tokens of the span that are still to pass.
    pub fn remaining(&self) -> (r: u64)
        requires
            self.start <= self.end,
        ensures
            r == self.end - self.start,
    {
        self.end - self.start
    }
}

/// The compacted automaton of a text, with the text that its spans refer to.
pub struct Cdawg {
    graph: AvlGraph<CdawgWeight, CdawgEdgeWeight>,
    tokens: Vec<Token>,
    states: Ghost<Seq<int>>,
}

impl View for Cdawg {
    type V = CdawgView;

    closed spec fn view(&self) -> CdawgView {
        cdawg_view(self.graph@, self.states@)
    }
}

impl Cdawg {
    /// The text that the automaton was built from.
    pub closed spec fn corpus(&self) -> Seq<Token> {
        self.tokens@
    }

    /// Number of edges in storage.
    pub closed spec fn edge_total(&self) -> nat {
        self.graph@.edges.len()
    }

    /// The storage is in order.
    pub closed spec fn inv(&self) -> bool {
        self.graph.wf()
    }

    /// The automaton is well formed: its storage is in order, and it is the
    /// suffix automaton of its text, compacted.
    pub open spec fn wf(&self) -> bool {
        &&& self.inv()
        &&& is_compaction(
            self@,
            build_view(self.corpus()),
            build_ends(self.corpus()),
            self.corpus().len() as int,
        )
    }

    /// The compacted automaton of `tokens`. Building fails only where the
    /// handles or the length counter run out.
    pub fn build(tokens: &Vec<Token>) -> (r: Result<Self, ExtendError>)
        ensures
            match r {
                Ok(cd) => {
                    &&& build_error(tokens@) is None
                    &&& cd.wf()
                    &&& cd.corpus() == tokens@
                },
                Err(e) => build_error(tokens@) == Some(e) && e == ExtendError::OutOfRoom,
            },
    {
        let mut builder: CdawgBuilder<BasicWeight> = CdawgBuilder::new();
        let mut i: usize = 0;
        while i < tokens.len()
            invariant
                i <= tokens@.len(),
                builder.wf(),
                builder.text() == tokens@.take(i as int),
            decreases tokens@.len() - i,
        {
            proof {
                assert(tokens@.take(i as int).push(tokens@[i as int]) =~= tokens@.take(i + 1));
            }
            match builder.extend(tokens[i]) {
                Ok(()) => {},
                Err(e) => {
                    proof {
                        lemma_build_error_stays(tokens@, i + 1);
                    }
                    return Err(e);
                },
            }
            i = i + 1;
        }
        proof {
            assert(tokens@.take(i as int) =~= tokens@);
        }
        Ok(builder.compact())
    }

    /// The source.
    pub fn get_initial(&self) -> (a: NodeIndex)
        requires
            self.wf(),
        ensures
            a@ == 0,
            0 < self@.len(),
            self@[0].state == 0,
    {
        proof {
            let wit = lemma_built_ends(self.corpus());
            lemma_source_first(
                self@,
                build_view(self.corpus()),
                build_ends(self.corpus()),
                self.corpus().len() as int,
            );
        }
        NodeIndex::new(0)
    }

    pub fn node_count(&self) -> (n: usize)
        requires
            self.wf(),
        ensures
            n == self@.len(),
    {
        self.graph.node_count()
    }

    pub fn edge_count(&self) -> (n: usize)
        requires
            self.wf(),
        ensures
            n == self.edge_total(),
    {
        self.graph.edge_count()
    }

    /// Length of the longest string that reaches `node`.
    pub fn get_length(&self, node: NodeIndex) -> (r: u64)
        requires
            self.wf(),
            node@ < self@.len(),
        ensures
            r == self@[node@].length,
    {
        self.graph.node_weight(node).length
    }

    /// The occurrences recorded for `node`.
    pub fn get_count(&self, node: NodeIndex) -> (r: u64)
        requires
            self.wf(),
            node@ < self@.len(),
        ensures
            r == self@[node@].count,
    {
        self.graph.node_weight(node).count
    }

    /// The edge that leaves `node` with a label that begins with `token`: its
    /// span and the node that it leads to.
    pub fn get_edge_by_token(&self, node: NodeIndex, token: Token) -> (r: Option<(CdawgEdgeWeight, NodeIndex)>)
        requires
            self.wf(),
            node@ < self@.len(),
        ensures
            match r {
                Some((span, target)) => {
                    &&& self@[node@].next.contains_key(token)
                    &&& self@[node@].next[token] == (Arc {
                        start: span.start as int,
                        end: span.end as int,
                        target: target@,
                    })
                    &&& span.start < span.end <= self.corpus().len()
                    &&& self.corpus()[span.start as int] == token
                    &&& target@ < self@.len()
                },
                None => !self@[node@].next.contains_key(token),
            },
    {
        let e = self.graph.get_edge_by_token(node, token);
        if e.is_end() {
            None
        } else {
            proof {
                let g = self.graph@;
                g.lemma_edge_at(e@, node@, token);
                lemma_spans_in_text(self.corpus(), self@, node@, token);
            }
            Some((self.graph.edge_weight(e), self.graph.edge_target(e)))
        }
    }

    /// Follows, from the source, the edges whose labels begin with the
    /// tokens `keys`, one after the other. Returns the node reached and the
    /// texts of the edges, joined: a string that occurs in the text.
    pub fn path_text(&self, keys: &Vec<Token>) -> (r: Option<(NodeIndex, Vec<Token>)>)
        requires
            self.wf(),
        ensures
            match r {
                Some((node, text)) => {
                    &&& follow(self@, self.corpus(), keys@) == Some((node@, text@))
                    &&& is_substring(text@, self.corpus())
                },
                None => follow(self@, self.corpus(), keys@) is None,
            },
    {
        let mut node = self.get_initial();
        let mut text: Vec<Token> = Vec::new();
        let mut i: usize = 0;
        while i < keys.len()
            invariant
                self.wf(),
                i <= keys@.len(),
                node@ < self@.len(),
                follow(self@, self.corpus(), keys@.take(i as int)) == Some((node@, text@)),
            decreases keys@.len() - i,
        {
            proof {
                assert(keys@.take(i + 1).drop_last() =~= keys@.take(i as int));
            }
            match self.get_edge_by_token(node, keys[i]) {
                None => {
                    proof {
                        lemma_follow_stays_none(self@, self.corpus(), keys@, i + 1);
                    }
                    return None;
                },
                Some((span, target)) => {
                    let ghost before = text@;
                    // the text is no longer than a `usize` can tell
                    let n_tokens: usize = self.tokens.len();
                    assert(span.end <= n_tokens);
                    let mut p: usize = span.start as usize;
                    let stop: usize = span.end as usize;
                    proof {
                        assert(before + self.tokens@.subrange(span.start as int, span.start as int) =~= before);
                    }
                    while p < stop
                        invariant
                            span.start <= p <= stop,
                            stop == span.end,
                            stop <= self.tokens@.len(),
                            text@ == before + self.tokens@.subrange(span.start as int, p as int),
                        decreases stop - p,
                    {
                        text.push(self.tokens[p]);
                        proof {
                            assert(text@ =~= before + self.tokens@.subrange(span.start as int, p + 1));
                        }
                        p = p + 1;
                    }
                    proof {
                        assert(before + self.tokens@.subrange(span.start as int, span.start as int) =~= before);
                    }
                    node = target;
                },
            }
            i = i + 1;
        }
        proof {
            assert(keys@.take(i as int) =~= keys@);
            lemma_spans_spell_substrings(self.corpus(), self@, keys@);
        }
        Some((node, text))
    }

    /// The place that the empty string leads to: the source.
    pub fn get_initial_state(&self) -> (at: CdawgState)
        requires
            self.wf(),
        ensures
            Some(at@) == trace(self@, self.corpus(), Seq::empty()),
            place_ok(self@, self.corpus(), at@),
    {
        let source = self.get_initial();
        CdawgState { target: source, start: 0, end: 0 }
    }

    /// The place that `token` leads to from `at`, if it leads anywhere.
    pub fn transition(&self, at: CdawgState, token: Token) -> (r: Option<CdawgState>)
        requires
            self.wf(),
            place_ok(self@, self.corpus(), at@),
        ensures
            match r {
                Some(to) => step(self@, self.corpus(), at@, token) == Some(to@) && place_ok(
                    self@,
                    self.corpus(),
                    to@,
                ),
                None => step(self@, self.corpus(), at@, token) is None,
            },
    {
        if at.start < at.end {
            // the text is no longer than a `usize` can tell
            let n_tokens: usize = self.tokens.len();
            if self.tokens[at.start as usize] == token {
                Some(CdawgState { target: at.target, start: at.start + 1, end: at.end })
            } else {
                None
            }
        } else {
            match self.get_edge_by_token(at.target, token) {
                Some((span, target)) => Some(CdawgState { target, start: span.start + 1, end: span.end }),
                None => None,
            }
        }
    }

    /// The place that `tokens` lead to from the source, if the automaton can
    /// follow all of them; it can exactly if they occur in the text.
    pub fn state_after(&self, tokens: &Vec<Token>) -> (r: Option<CdawgState>)
        requires
            self.wf(),
        ensures
            match r {
                Some(at) => trace(self@, self.corpus(), tokens@) == Some(at@) && place_ok(
                    self@,
                    self.corpus(),
                    at@,
                ),
                None => trace(self@, self.corpus(), tokens@) is None,
            },
            r is Some <==> is_substring(tokens@, self.corpus()),
    {
        let mut at = self.get_initial_state();
        let mut i: usize = 0;
        proof {
            assert(tokens@.take(0) =~= Seq::empty());
        }
        while i < tokens.len()
            invariant
                self.wf(),
                i <= tokens@.len(),
                place_ok(self@, self.corpus(), at@),
                trace(self@, self.corpus(), tokens@.take(i as int)) == Some(at@),
            decreases tokens@.len() - i,
        {
            proof {
                assert(tokens@.take(i + 1).drop_last() =~= tokens@.take(i as int));
            }
            match self.transition(at, tokens[i]) {
                Some(to) => {
                    at = to;
                },
                None => {
                    proof {
                        lemma_trace_stays_none(self@, self.corpus(), tokens@, i + 1);
                        lemma_traces_exactly_substrings(self.corpus(), self@, tokens@);
                    }
                    return None;
                },
            }
            i = i + 1;
        }
        proof {
            assert(tokens@.take(i as int) =~= tokens@);
            lemma_traces_exactly_substrings(self.corpus(), self@, tokens@);
        }
        Some(at)
    }

    /// Whether `tokens` occur in the text.
    pub fn accepts(&self, tokens: &Vec<Token>) -> (r: bool)
        requires
            self.wf(),
        ensures
            r == is_substring(tokens@, self.corpus()),
    {
        self.state_after(tokens).is_some()
    }

    /// The balance of the edge tree of `node`.
    pub fn balance_ratio(&self, node: NodeIndex) -> (b: BalanceRatio)
        requires
            self.wf(),
            node@ < self@.len(),
        ensures
            b.optimal <= b.observed,
            b.optimal == optimal_height(self@[node@].next.dom().len()),
    {
        proof {
            self.graph.lemma_balance(node@);
            assert(self@[node@].next.dom() =~= self.graph@.next_map(node@).dom());
        }
        self.graph.balance_ratio(node)
    }
}

/// Once a string cannot be followed, no longer one can.
pub proof fn lemma_trace_stays_none(cd: CdawgView, corpus: Seq<Token>, t: Seq<Token>, i: int)
    requires
        0 <= i <= t.len(),
        trace(cd, corpus, t.take(i)) is None,
    ensures
        trace(cd, corpus, t) is None,
    decreases t.len() - i,
{
    if i < t.len() {
        assert(t.take(i + 1).drop_last() =~= t.take(i));
        lemma_trace_stays_none(cd, corpus, t, i + 1);
    } else {
        assert(t.take(i) =~= t);
    }
}

/// Once a path cannot be followed, no longer one can.
pub proof fn lemma_follow_stays_none(cd: CdawgView, corpus: Seq<Token>, keys: Seq<Token>, i: int)
    requires
        0 <= i <= keys.len(),
        follow(cd, corpus, keys.take(i)) is None,
    ensures
        follow(cd, corpus, keys) is None,
    decreases keys.len() - i,
{
    if i < keys.len() {
        assert(keys.take(i + 1).drop_last() =~= keys.take(i));
        lemma_follow_stays_none(cd, corpus, keys, i + 1);
    } else {
        assert(keys.take(i) =~= keys);
    }
}

} // verus!
