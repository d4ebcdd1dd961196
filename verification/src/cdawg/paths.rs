//! Why the spans along a path of the compacted automaton spell a string that
//! occurs in the text.

use vstd::prelude::*;
use crate::indexing::Token;
use crate::dawg::model::DawgView;
use crate::dawg::model::wf_view;
use crate::dawg::model::finite_next;
use crate::dawg::model::run;
use crate::dawg::model::active;
use crate::dawg::model::build_view;
use crate::dawg::text::same;
use crate::dawg::text::is_substring;
use crate::dawg::text::lemma_same_refl;
use crate::dawg::text::lemma_same_via;
use crate::dawg::text::lemma_same_shorter;
use crate::dawg::text::lemma_same_step;
use crate::dawg::language::is_automaton_of;
use crate::dawg::language::edge_fits;
use crate::dawg::language::len_of;
use crate::dawg::language::build_ends;
use crate::dawg::language::lemma_built_ends;
use crate::dawg::language::lemma_language;
use crate::dawg::counts::occurrences;
use crate::dawg::counts::lemma_count_is_occurrences;
use crate::cdawg::model::CdawgView;
use crate::cdawg::model::explicit;
use crate::cdawg::model::sole_key;
use crate::cdawg::model::sole_next;
use crate::cdawg::model::chain_step;
use crate::cdawg::model::chain_end;
use crate::cdawg::model::chain_len;
use crate::cdawg::model::arc_fits;
use crate::cdawg::model::node_fits;
use crate::cdawg::model::is_compaction;
use crate::cdawg::model::arc_text;
use crate::cdawg::model::follow;
use crate::cdawg::model::Place;
use crate::cdawg::model::step;
use crate::cdawg::model::trace;
use crate::cdawg::model::place_ok;

verus! {

/// A state with exactly one transition has the transition under `sole_key`.
pub proof fn lemma_sole(d: DawgView, v: int)
    requires
        wf_view(d),
        0 <= v < d.len(),
        d[v].next.dom().len() == 1,
    ensures
        d[v].next.contains_key(sole_key(d, v)),
        forall|k: Token| d[v].next.contains_key(k) ==> k == sole_key(d, v),
{
    assert(finite_next(d, v));
    let s = d[v].next.dom();
    if forall|k: Token| !s.contains(k) {
        assert(s =~= Set::empty());
    }
    let k0 = choose|k: Token| s.contains(k);
    assert(d[v].next.contains_key(k0));
    assert forall|k: Token| d[v].next.contains_key(k) implies k == sole_key(d, v) by {
        if k != sole_key(d, v) {
            let two = Set::<Token>::empty().insert(k).insert(sole_key(d, v));
            assert(two.subset_of(s));
            vstd::set_lib::lemma_len_subset(two, s);
        }
    }
}

/// State `t` run one token further.
pub proof fn lemma_run_push(d: DawgView, t: Seq<Token>, v: int, a: Token)
    requires
        run(d, t) == Some(v),
        0 <= v < d.len(),
        d[v].next.contains_key(a),
    ensures
        run(d, t.push(a)) == Some(d[v].next[a]),
{
    assert(t.push(a).drop_last() =~= t);
}

/// What lies on the chain from `y`: the kept state at its end, and the
/// tokens on the way, which stand in the text just before the place where
/// the longest string of that state ends.
pub proof fn lemma_chain(d: DawgView, w: Seq<Token>, ends: Seq<int>, wit: Seq<int>, last: int, y: int)
    requires
        is_automaton_of(d, w, ends, wit, last),
        0 <= y < d.len(),
    ensures
        ({
            let n = w.len() as int;
            let z = chain_end(d, n, y);
            let m = chain_len(d, n, y) as int;
            &&& 0 <= z < d.len()
            &&& explicit(d, z)
            &&& 0 <= len_of(d, y) <= ends[z] - m
            &&& ends[z] <= n
            &&& same(w, ends[z] - m, ends[y], len_of(d, y))
            &&& forall|t: Seq<Token>| #[trigger]
                run(d, t) == Some(y) ==> run(d, t + w.subrange(ends[z] - m, ends[z])) == Some(z)
            &&& !explicit(d, y) ==> {
                &&& chain_step(d, n, y)
                &&& m >= 1
                &&& w[ends[z] - m] == sole_key(d, y)
                &&& d[y].next.contains_key(sole_key(d, y))
                &&& 0 < sole_next(d, y) < d.len()
            }
            &&& explicit(d, y) ==> z == y && m == 0
        }),
    decreases w.len() - d[y].length,
{
    let n = w.len() as int;
    let z = chain_end(d, n, y);
    let m = chain_len(d, n, y) as int;
    let ly = len_of(d, y);
    assert(ly <= ends[y] <= n);
    if !explicit(d, y) {
        lemma_sole(d, y);
        let k0 = sole_key(d, y);
        let y1 = sole_next(d, y);
        assert(edge_fits(d, w, ends, y, k0));
        assert(0 < y1 < d.len());
        assert(len_of(d, y1) <= ends[y1] <= n);
        assert(chain_step(d, n, y));
        lemma_chain(d, w, ends, wit, last, y1);
        let e = ends[z];
        let m1 = m - 1;
        lemma_same_shorter(w, e - m1, ends[y1], len_of(d, y1), ly + 1);
        lemma_same_step(w, e - m1 - 1, ends[y1] - 1, ly);
        lemma_same_via(w, e - m, ends[y1] - 1, ends[y], ly, ly, ly);
        assert(w[e - m] == k0);
        assert forall|t: Seq<Token>| #[trigger] run(d, t) == Some(y) implies run(
            d,
            t + w.subrange(e - m, e),
        ) == Some(z) by {
            lemma_run_push(d, t, y, k0);
            let t1 = t.push(k0);
            assert(run(d, t1) == Some(y1));
            assert(t + w.subrange(e - m, e) =~= t1 + w.subrange(e - m1, e));
        }
    } else {
        lemma_same_refl(w, ends[y], ly);
        assert forall|t: Seq<Token>| #[trigger] run(d, t) == Some(y) implies run(
            d,
            t + w.subrange(ends[z] - m, ends[z]),
        ) == Some(z) by {
            assert(t + w.subrange(ends[z] - m, ends[z]) =~= t);
        }
    }
}

/// An edge of the compacted automaton is labelled by a span of the text
/// that is not empty and begins with the edge's token; and the text of the
/// edge leads, in the suffix automaton, from the state of the edge's source
/// to the state of its target.
pub proof fn lemma_arc(
    cd: CdawgView,
    d: DawgView,
    w: Seq<Token>,
    ends: Seq<int>,
    wit: Seq<int>,
    last: int,
    i: int,
    a: Token,
)
    requires
        is_automaton_of(d, w, ends, wit, last),
        is_compaction(cd, d, ends, w.len() as int),
        0 <= i < cd.len(),
        cd[i].next.contains_key(a),
    ensures
        0 <= cd[i].next[a].start < cd[i].next[a].end <= w.len(),
        w[cd[i].next[a].start] == a,
        0 <= cd[i].next[a].target < cd.len(),
        forall|t: Seq<Token>| #[trigger]
            run(d, t) == Some(cd[i].state) ==> run(d, t + arc_text(w, cd[i].next[a])) == Some(
                cd[cd[i].next[a].target].state,
            ),
{
    let n = w.len() as int;
    let v = cd[i].state;
    let arc = cd[i].next[a];
    assert(node_fits(cd, d, i));
    assert(arc_fits(cd, d, ends, n, i, a));
    assert(d[v].next.contains_key(a));
    let y = d[v].next[a];
    assert(edge_fits(d, w, ends, v, a));
    assert(0 < y < d.len());
    lemma_chain(d, w, ends, wit, last, y);
    let z = chain_end(d, n, y);
    let m = chain_len(d, n, y) as int;
    let e = ends[z];
    let ly = len_of(d, y);
    lemma_same_shorter(w, e - m, ends[y], ly, 1);
    lemma_same_step(w, e - m - 1, ends[y] - 1, 0);
    assert(w[e - m - 1] == a);
    assert forall|t: Seq<Token>| #[trigger] run(d, t) == Some(v) implies run(d, t + arc_text(w, arc))
        == Some(cd[arc.target].state) by {
        lemma_run_push(d, t, v, a);
        let t1 = t.push(a);
        assert(run(d, t1) == Some(y));
        assert(t + arc_text(w, arc) =~= t1 + w.subrange(e - m, e));
    }
}

/// The first node of a compacted automaton stands for the source.
pub proof fn lemma_source_first(cd: CdawgView, d: DawgView, ends: Seq<int>, n: int)
    requires
        wf_view(d),
        is_compaction(cd, d, ends, n),
    ensures
        cd.len() > 0,
        cd[0].state == 0,
{
    assert(explicit(d, 0));
    let i = choose|i: int| 0 <= i < cd.len() && (#[trigger] cd[i]).state == 0;
    if i > 0 {
        assert(node_fits(cd, d, 0));
        assert(cd[0].state < cd[i].state);
    }
}

/// The texts of the edges along a path from the source, joined, lead in the
/// suffix automaton to the state of the node that the path ends at; so they
/// spell a string that occurs in the text.
pub proof fn lemma_follow(
    cd: CdawgView,
    d: DawgView,
    w: Seq<Token>,
    ends: Seq<int>,
    wit: Seq<int>,
    last: int,
    keys: Seq<Token>,
)
    requires
        is_automaton_of(d, w, ends, wit, last),
        is_compaction(cd, d, ends, w.len() as int),
    ensures
        follow(cd, w, keys) matches Some((i, text)) ==> {
            &&& 0 <= i < cd.len()
            &&& run(d, text) == Some(cd[i].state)
            &&& is_substring(text, w)
        },
    decreases keys.len(),
{
    lemma_source_first(cd, d, ends, w.len() as int);
    if keys.len() == 0 {
        let text = Seq::<Token>::empty();
        lemma_language(d, w, ends, wit, last, text);
    } else {
        lemma_follow(cd, d, w, ends, wit, last, keys.drop_last());
        if follow(cd, w, keys) is Some {
            let (i, text) = follow(cd, w, keys.drop_last())->0;
            let a = keys.last();
            lemma_arc(cd, d, w, ends, wit, last, i, a);
            let arc = cd[i].next[a];
            let text2 = text + arc_text(w, arc);
            assert(run(d, text2) == Some(cd[arc.target].state));
            lemma_language(d, w, ends, wit, last, text2);
        }
    }
}

/// The spans along any path of the compacted automaton of a text, joined,
/// spell a string that occurs in the text.
pub proof fn lemma_spans_spell_substrings(tokens: Seq<Token>, cd: CdawgView, keys: Seq<Token>)
    requires
        is_compaction(cd, build_view(tokens), build_ends(tokens), tokens.len() as int),
    ensures
        follow(cd, tokens, keys) matches Some((i, text)) ==> is_substring(text, tokens),
{
    let wit = lemma_built_ends(tokens);
    lemma_follow(cd, build_view(tokens), tokens, build_ends(tokens), wit, active(tokens), keys);
}

/// Every span of the compacted automaton of a text lies within the text, is
/// not empty, and begins with the token that it is found under.
pub proof fn lemma_spans_in_text(tokens: Seq<Token>, cd: CdawgView, i: int, a: Token)
    requires
        is_compaction(cd, build_view(tokens), build_ends(tokens), tokens.len() as int),
        0 <= i < cd.len(),
        cd[i].next.contains_key(a),
    ensures
        0 <= cd[i].next[a].start < cd[i].next[a].end <= tokens.len(),
        tokens[cd[i].next[a].start] == a,
        0 <= cd[i].next[a].target < cd.len(),
{
    let wit = lemma_built_ends(tokens);
    lemma_arc(cd, build_view(tokens), tokens, build_ends(tokens), wit, active(tokens), i, a);
}

/// The place `at` of the compacted automaton stands for the state `x` of the
/// suffix automaton: at a node, `x` is the node's state; inside an edge, `x`
/// lies on the chain behind the edge, as many transitions before its end as
/// tokens of the span remain.
pub open spec fn stands_for(cd: CdawgView, d: DawgView, ends: Seq<int>, n: int, at: Place, x: int) -> bool {
    &&& 0 <= at.target < cd.len()
    &&& 0 <= x < d.len()
    &&& chain_end(d, n, x) == cd[at.target].state
    &&& chain_len(d, n, x) == at.end - at.start
    &&& at.start < at.end ==> at.end == ends[cd[at.target].state]
    &&& 0 <= at.start <= at.end <= n
}

/// One token leads on in the compacted automaton exactly if it leads on in
/// the suffix automaton, and to the place that stands for the state that it
/// leads to there.
pub proof fn lemma_step(
    cd: CdawgView,
    d: DawgView,
    w: Seq<Token>,
    ends: Seq<int>,
    wit: Seq<int>,
    last: int,
    at: Place,
    x: int,
    a: Token,
)
    requires
        is_automaton_of(d, w, ends, wit, last),
        is_compaction(cd, d, ends, w.len() as int),
        stands_for(cd, d, ends, w.len() as int, at, x),
    ensures
        step(cd, w, at, a) is Some <==> d[x].next.contains_key(a),
        step(cd, w, at, a) matches Some(to) ==> stands_for(cd, d, ends, w.len() as int, to, d[x].next[a]),
{
    let n = w.len() as int;
    lemma_chain(d, w, ends, wit, last, x);
    if at.start < at.end {
        // inside an edge: x has one transition, under the next token of the span
        lemma_sole(d, x);
        let x1 = sole_next(d, x);
        if d[x].next.contains_key(a) {
            lemma_chain(d, w, ends, wit, last, x1);
        }
    } else {
        // at a node
        let i = at.target;
        assert(node_fits(cd, d, i));
        assert(x == cd[i].state);
        if cd[i].next.contains_key(a) {
            assert(arc_fits(cd, d, ends, n, i, a));
            let y = d[x].next[a];
            assert(edge_fits(d, w, ends, x, a));
            lemma_chain(d, w, ends, wit, last, y);
            let arc = cd[i].next[a];
            let z = chain_end(d, n, y);
            assert(node_fits(cd, d, arc.target));
        }
    }
}

/// A string leads somewhere in the compacted automaton exactly if it leads
/// somewhere in the suffix automaton, and to the place that stands for the
/// state that it leads to there.
pub proof fn lemma_trace(
    cd: CdawgView,
    d: DawgView,
    w: Seq<Token>,
    ends: Seq<int>,
    wit: Seq<int>,
    last: int,
    t: Seq<Token>,
)
    requires
        is_automaton_of(d, w, ends, wit, last),
        is_compaction(cd, d, ends, w.len() as int),
    ensures
        trace(cd, w, t) is Some <==> run(d, t) is Some,
        trace(cd, w, t) matches Some(at) ==> stands_for(cd, d, ends, w.len() as int, at, run(d, t)->0),
    decreases t.len(),
{
    let n = w.len() as int;
    lemma_source_first(cd, d, ends, n);
    if t.len() == 0 {
        assert(explicit(d, 0));
        lemma_chain(d, w, ends, wit, last, 0);
    } else {
        lemma_trace(cd, d, w, ends, wit, last, t.drop_last());
        if trace(cd, w, t.drop_last()) is Some {
            let at = trace(cd, w, t.drop_last())->0;
            let x = run(d, t.drop_last())->0;
            lemma_step(cd, d, w, ends, wit, last, at, x, t.last());
        }
    }
}

/// The compacted automaton of a text can follow exactly the strings that
/// occur in the text.
pub proof fn lemma_traces_exactly_substrings(tokens: Seq<Token>, cd: CdawgView, t: Seq<Token>)
    requires
        is_compaction(cd, build_view(tokens), build_ends(tokens), tokens.len() as int),
    ensures
        trace(cd, tokens, t) is Some <==> is_substring(t, tokens),
        trace(cd, tokens, t) matches Some(at) ==> place_ok(cd, tokens, at),
{
    let wit = lemma_built_ends(tokens);
    let d = build_view(tokens);
    lemma_trace(cd, d, tokens, build_ends(tokens), wit, active(tokens), t);
    lemma_language(d, tokens, build_ends(tokens), wit, active(tokens), t);
}

/// Where a string leads to a node of the compacted automaton of a text, the
/// count of the node is the number of times that the string occurs in the
/// text.
pub proof fn lemma_node_count_is_occurrences(tokens: Seq<Token>, cd: CdawgView, t: Seq<Token>)
    requires
        tokens.len() <= u64::MAX,
        is_compaction(cd, build_view(tokens), build_ends(tokens), tokens.len() as int),
    ensures
        trace(cd, tokens, t) matches Some(at) ==> (at.start == at.end ==> cd[at.target].count
            == occurrences(t, tokens)),
{
    let wit = lemma_built_ends(tokens);
    let d = build_view(tokens);
    lemma_trace(cd, d, tokens, build_ends(tokens), wit, active(tokens), t);
    lemma_count_is_occurrences(tokens, t);
    if trace(cd, tokens, t) is Some {
        let at = trace(cd, tokens, t)->0;
        assert(node_fits(cd, d, at.target));
    }
}

} // verus!
