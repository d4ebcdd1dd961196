//! The compacted automaton as a mathematical object.

use vstd::prelude::*;
use crate::indexing::Token;
use crate::dawg::model::DawgView;

verus! {

/// An edge of the compacted automaton: the half-open span of the text that
/// labels it, and the node that it leads to.
pub struct Arc {
    pub start: int,
    pub end: int,
    pub target: int,
}

/// A node of the compacted automaton.
pub struct CdawgNode {
    /// The state of the suffix automaton that the node stands for.
    pub state: int,
    pub length: nat,
    pub count: nat,
    /// The edges that leave the node, by the first token of their labels.
    pub next: Map<Token, Arc>,
}

/// A compacted automaton: its nodes, the source first.
pub type CdawgView = Seq<CdawgNode>;

/// State `v` is kept when the automaton is compacted: it is the source, or
/// it does not have exactly one transition.
pub open spec fn explicit(d: DawgView, v: int) -> bool {
    v == 0 || d[v].next.dom().len() != 1
}

/// The token of the one transition of `v`.
pub open spec fn sole_key(d: DawgView, v: int) -> Token {
    choose|k: Token| d[v].next.contains_key(k)
}

/// The state that the one transition of `v` leads to.
pub open spec fn sole_next(d: DawgView, v: int) -> int {
    d[v].next[sole_key(d, v)]
}

/// State `v` lies inside a chain: it is not kept, and its one transition
/// leads to a longer state. `n` is the length of the text.
pub open spec fn chain_step(d: DawgView, n: int, v: int) -> bool {
    &&& 0 <= v < d.len()
    &&& !explicit(d, v)
    &&& 0 <= sole_next(d, v) < d.len()
    &&& d[v].length < d[sole_next(d, v)].length <= n
}

/// The kept state at the end of the chain that starts at `v`.
pub open spec fn chain_end(d: DawgView, n: int, v: int) -> int
    decreases n - d[v].length,
{
    if chain_step(d, n, v) {
        chain_end(d, n, sole_next(d, v))
    } else {
        v
    }
}

/// Number of transitions from `v` to the end of its chain.
pub open spec fn chain_len(d: DawgView, n: int, v: int) -> nat
    decreases n - d[v].length,
{
    if chain_step(d, n, v) {
        1 + chain_len(d, n, sole_next(d, v))
    } else {
        0
    }
}

/// The edge of node `i` under `a` stands for the transition of the node's
/// state under `a` and the chain behind it: it leads to the node of the
/// state at the end of the chain, and its span ends where the longest string
/// of that state ends and has one place for each transition.
pub open spec fn arc_fits(cd: CdawgView, d: DawgView, ends: Seq<int>, n: int, i: int, a: Token) -> bool {
    let y = d[cd[i].state].next[a];
    let z = chain_end(d, n, y);
    let arc = cd[i].next[a];
    &&& 0 <= arc.target < cd.len()
    &&& cd[arc.target].state == z
    &&& arc.end == ends[z]
    &&& arc.start == ends[z] - 1 - chain_len(d, n, y)
}

/// Node `i` stands for a kept state and has its length and count.
pub open spec fn node_fits(cd: CdawgView, d: DawgView, i: int) -> bool {
    &&& 0 <= cd[i].state < d.len()
    &&& explicit(d, cd[i].state)
    &&& cd[i].length == d[cd[i].state].length
    &&& cd[i].count == d[cd[i].state].count
}

/// `cd` is the automaton `d` compacted, where `ends` tells for each state of
/// `d` a place in the text of length `n` where its longest string ends. The
/// nodes of `cd` are the kept states of `d`, in their order; a node has an
/// edge under a token exactly if its state has a transition under it.
pub open spec fn is_compaction(cd: CdawgView, d: DawgView, ends: Seq<int>, n: int) -> bool {
    &&& forall|i: int| 0 <= i < cd.len() ==> #[trigger] node_fits(cd, d, i)
    &&& forall|i: int, j: int| 0 <= i < j < cd.len() ==> (#[trigger] cd[i]).state < (#[trigger] cd[j]).state
    &&& forall|v: int|
        0 <= v < d.len() && #[trigger] explicit(d, v) ==> exists|i: int|
            0 <= i < cd.len() && (#[trigger] cd[i]).state == v
    &&& forall|i: int, a: Token|
        0 <= i < cd.len() ==> (#[trigger] cd[i].next.contains_key(a) <==> d[cd[i].state].next.contains_key(a))
    &&& forall|i: int, a: Token|
        0 <= i < cd.len() && #[trigger] cd[i].next.contains_key(a) ==> arc_fits(cd, d, ends, n, i, a)
}

/// The text of an edge.
pub open spec fn arc_text(corpus: Seq<Token>, arc: Arc) -> Seq<Token> {
    corpus.subrange(arc.start, arc.end)
}

/// Follows, from the source, the edges whose labels begin with the tokens
/// `keys`, one after the other. Returns the node reached and the texts of
/// the edges, joined.
pub open spec fn follow(cd: CdawgView, corpus: Seq<Token>, keys: Seq<Token>) -> Option<(int, Seq<Token>)>
    decreases keys.len(),
{
    if keys.len() == 0 {
        Some((0, Seq::empty()))
    } else {
        match follow(cd, corpus, keys.drop_last()) {
            Some((i, text)) => if 0 <= i < cd.len() && cd[i].next.contains_key(keys.last()) {
                let arc = cd[i].next[keys.last()];
                Some((arc.target, text + arc_text(corpus, arc)))
            } else {
                None
            },
            None => None,
        }
    }
}

/// A place in the compacted automaton: on the way to the node `target`,
/// with the tokens from `start` up to `end` of the text still to pass. At
/// a node itself, `start` is `end`.
pub struct Place {
    pub target: int,
    pub start: int,
    pub end: int,
}

/// The place that the token `a` leads to from `at`, if it leads anywhere:
/// inside an edge the next token of the span has to be `a`; at a node an
/// edge under `a` has to leave.
pub open spec fn step(cd: CdawgView, corpus: Seq<Token>, at: Place, a: Token) -> Option<Place> {
    if at.start < at.end {
        if 0 <= at.start < corpus.len() && corpus[at.start] == a {
            Some(Place { target: at.target, start: at.start + 1, end: at.end })
        } else {
            None
        }
    } else if 0 <= at.target < cd.len() && cd[at.target].next.contains_key(a) {
        let arc = cd[at.target].next[a];
        Some(Place { target: arc.target, start: arc.start + 1, end: arc.end })
    } else {
        None
    }
}

/// The place that the string `t` leads to from the source.
pub open spec fn trace(cd: CdawgView, corpus: Seq<Token>, t: Seq<Token>) -> Option<Place>
    decreases t.len(),
{
    if t.len() == 0 {
        Some(Place { target: 0, start: 0, end: 0 })
    } else {
        match trace(cd, corpus, t.drop_last()) {
            Some(at) => step(cd, corpus, at, t.last()),
            None => None,
        }
    }
}

/// The place `at` is one of the automaton: it leads to a node, over a span
/// of the text.
pub open spec fn place_ok(cd: CdawgView, corpus: Seq<Token>, at: Place) -> bool {
    &&& 0 <= at.target < cd.len()
    &&& 0 <= at.start <= at.end <= corpus.len()
}

} // verus!
