//! The automaton as a mathematical object, and the extension step on it.

use vstd::prelude::*;
use crate::indexing::Token;
use crate::indexing::none_ix;

verus! {

/// One state of the automaton.
pub struct StateView {
    /// Length of the longest string that reaches the state.
    pub length: nat,
    /// The suffix link; only the source has none.
    pub link: Option<int>,
    /// Occurrences recorded for the state.
    pub count: nat,
    /// The transitions that leave the state.
    pub next: Map<Token, int>,
}

/// An automaton: its states, the source first.
pub type DawgView = Seq<StateView>;

pub open spec fn with_next(s: StateView, k: Token, t: int) -> StateView {
    StateView { length: s.length, link: s.link, count: s.count, next: s.next.insert(k, t) }
}

pub open spec fn with_link(s: StateView, l: int) -> StateView {
    StateView { length: s.length, link: Some(l), count: s.count, next: s.next }
}

pub open spec fn with_count(s: StateView, c: nat) -> StateView {
    StateView { length: s.length, link: s.link, count: c, next: s.next }
}

/// The suffix link of `v` leads to a state of the automaton with a shorter
/// longest string.
pub open spec fn link_ok(d: DawgView, v: int) -> bool {
    match d[v].link {
        Some(u) => 0 <= u < d.len() && d[u].length < d[v].length,
        None => false,
    }
}

/// The shape that every automaton has: state 0 is the source, with length 0
/// and no suffix link; every other state has a suffix link to a state with a
/// shorter longest string, so that the links form a tree rooted at the source;
/// every transition leads to a state other than the source.
pub open spec fn wf_view(d: DawgView) -> bool {
    &&& d.len() >= 1
    &&& d[0].length == 0
    &&& d[0].link is None
    &&& forall|v: int| 0 < v < d.len() ==> #[trigger] link_ok(d, v)
    &&& forall|v: int, k: Token|
        0 <= v < d.len() && #[trigger] d[v].next.contains_key(k) ==> 0 < d[v].next[k] < d.len()
    &&& forall|v: int| 0 <= v < d.len() ==> #[trigger] finite_next(d, v)
}

/// State `v` has finitely many transitions.
pub open spec fn finite_next(d: DawgView, v: int) -> bool {
    d[v].next.dom().finite()
}

/// Every state below `n` but the source has a suffix link to a state below
/// `n` with a shorter longest string.
pub open spec fn links_below(d: DawgView, n: int) -> bool {
    &&& 1 <= n <= d.len()
    &&& d[0].link is None
    &&& forall|v: int|
        0 < v < n ==> #[trigger] link_ok(d, v) && d[v].link->0 < n
}

/// The link of `p`, where it leads to a state with a shorter longest string.
pub open spec fn up(d: DawgView, p: int) -> Option<int> {
    match d[p].link {
        Some(l) => if 0 <= l < d.len() && d[l].length < d[p].length {
            Some(l)
        } else {
            None
        },
        None => None,
    }
}

pub open spec fn len_at(d: DawgView, p: int) -> nat {
    if 0 <= p < d.len() {
        d[p].length
    } else {
        0
    }
}

/// Walks the suffix links from `p` and gives every state that has no
/// transition under `c` one to `cur`. Stops at the first state that has such
/// a transition, which it returns, or after the source.
pub open spec fn walk(d: DawgView, p: int, c: Token, cur: int) -> (DawgView, Option<int>)
    decreases len_at(d, p),
{
    if !(0 <= p < d.len()) {
        (d, None)
    } else if d[p].next.contains_key(c) {
        (d, Some(p))
    } else {
        let d1 = d.update(p, with_next(d[p], c, cur));
        match up(d, p) {
            Some(l) => walk(d1, l, c, cur),
            None => (d1, None),
        }
    }
}

/// Number of transitions that `walk` adds.
pub open spec fn walk_steps(d: DawgView, p: int, c: Token, cur: int) -> nat
    decreases len_at(d, p),
{
    if !(0 <= p < d.len()) {
        0
    } else if d[p].next.contains_key(c) {
        0
    } else {
        let d1 = d.update(p, with_next(d[p], c, cur));
        match up(d, p) {
            Some(l) => 1 + walk_steps(d1, l, c, cur),
            None => 1,
        }
    }
}

/// Walks the suffix links from `p` and sends every transition under `c` that
/// leads to `q` to `clone` instead, up to the first state whose transition
/// under `c` does not lead to `q`.
pub open spec fn redirect(d: DawgView, p: int, c: Token, q: int, clone: int) -> DawgView
    decreases len_at(d, p),
{
    if !(0 <= p < d.len()) {
        d
    } else if !(d[p].next.contains_key(c) && d[p].next[c] == q) {
        d
    } else {
        let d1 = d.update(p, with_next(d[p], c, clone));
        match up(d, p) {
            Some(l) => redirect(d1, l, c, q, clone),
            None => d1,
        }
    }
}

/// The state that a new token adds: one longer than `last`, with no link yet.
pub open spec fn fresh_state(d: DawgView, last: int) -> StateView {
    StateView { length: d[last].length + 1, link: None, count: 0, next: Map::empty() }
}

/// The copy of `q` that is made when `q` is split below `p`.
pub open spec fn clone_state(d: DawgView, p: int, q: int) -> StateView {
    StateView { length: d[p].length + 1, link: d[q].link, count: d[q].count, next: d[q].next }
}

/// Whether extending by `c` from `last` has to split a state.
pub open spec fn splits(d: DawgView, c: Token, last: int) -> bool {
    let cur = d.len() as int;
    let (d2, stop) = walk(d.push(fresh_state(d, last)), last, c, cur);
    match stop {
        Some(p) => d2[d2[p].next[c]].length != d2[p].length + 1,
        None => false,
    }
}

/// The automaton in the middle of a split: the copy of the state to split is
/// in place and the three links are set, but no transition leads to the copy
/// yet.
pub open spec fn split_view(d: DawgView, c: Token, last: int) -> DawgView {
    let cur = d.len() as int;
    let (d2, stop) = walk(d.push(fresh_state(d, last)), last, c, cur);
    let p = stop->0;
    let q = d2[p].next[c];
    let clone = d2.len() as int;
    let d3 = d2.push(clone_state(d2, p, q));
    d3.update(q, with_link(d3[q], clone)).update(cur, with_link(d3[cur], clone))
}

/// The automaton after the token `c` is appended to the string whose state
/// is `last`. The new state, which stands for the whole longer string, is the
/// one numbered `d.len()`.
pub open spec fn extend_view(d: DawgView, c: Token, last: int) -> DawgView {
    let cur = d.len() as int;
    let (d2, stop) = walk(d.push(fresh_state(d, last)), last, c, cur);
    match stop {
        None => d2.update(cur, with_link(d2[cur], 0)),
        Some(p) => {
            let q = d2[p].next[c];
            if d2[q].length == d2[p].length + 1 {
                d2.update(cur, with_link(d2[cur], q))
            } else {
                redirect(split_view(d, c, last), p, c, q, d2.len() as int)
            }
        },
    }
}

/// Number of states that an extension adds.
pub open spec fn node_demand(d: DawgView, c: Token, last: int) -> nat {
    if splits(d, c, last) {
        2
    } else {
        1
    }
}

/// Number of edges that an extension is given room for: one for each step of
/// the walk and, where a state is split, one for each transition of that
/// state and one more.
pub open spec fn edge_demand(d: DawgView, c: Token, last: int) -> nat {
    let cur = d.len() as int;
    let d1 = d.push(fresh_state(d, last));
    let (d2, stop) = walk(d1, last, c, cur);
    walk_steps(d1, last, c, cur) + if splits(d, c, last) {
        d[d2[stop->0].next[c]].next.dom().len() + 1
    } else {
        0
    }
}

/// What an extension needs of the automaton beyond its shape: `last` has no
/// transition under `c` yet, and where the walk stops before a transition
/// into a state `q` that does not fit, `q` can be split, that is, the new
/// length lies strictly between those of `q`'s link and of `q`. Every
/// automaton built from the empty one by extending from the newest state
/// meets this.
pub open spec fn can_extend(d: DawgView, c: Token, last: int) -> bool {
    let cur = d.len() as int;
    let (d2, stop) = walk(d.push(fresh_state(d, last)), last, c, cur);
    &&& 0 <= last < d.len()
    &&& !d[last].next.contains_key(c)
    &&& match stop {
        None => true,
        Some(p) => {
            let q = d2[p].next[c];
            ||| d2[q].length == d2[p].length + 1
            ||| (d2[q].length > d2[p].length + 1 && match d2[q].link {
                Some(l) => len_at(d2, l) <= d2[p].length,
                None => false,
            })
        },
    }
}

/// `d2` has the states of `d` with the same lengths, links and counts.
pub open spec fn same_meta(d: DawgView, d2: DawgView) -> bool {
    &&& d2.len() == d.len()
    &&& forall|v: int|
        0 <= v < d.len() ==> {
            &&& (#[trigger] d2[v]).length == d[v].length
            &&& d2[v].link == d[v].link
            &&& d2[v].count == d[v].count
        }
}

/// What `walk` changes: it gives some states that are no longer than `p` and
/// had no transition under `c` one to `cur`. It stops at a state that has
/// such a transition and that it has left alone.
pub proof fn lemma_walk(d: DawgView, p: int, c: Token, cur: int)
    ensures
        same_meta(d, walk(d, p, c, cur).0),
        forall|v: int|
            0 <= v < d.len() ==> {
                ||| (#[trigger] walk(d, p, c, cur).0[v]) == d[v]
                ||| (d[v].length <= len_at(d, p) && !d[v].next.contains_key(c) && walk(
                    d,
                    p,
                    c,
                    cur,
                ).0[v] == with_next(d[v], c, cur))
            },
        walk(d, p, c, cur).1 matches Some(s) ==> {
            &&& 0 <= s < d.len()
            &&& d[s].length <= len_at(d, p)
            &&& d[s].next.contains_key(c)
            &&& walk(d, p, c, cur).0[s] == d[s]
        },
    decreases len_at(d, p),
{
    if 0 <= p < d.len() && !d[p].next.contains_key(c) {
        let d1 = d.update(p, with_next(d[p], c, cur));
        match up(d, p) {
            Some(l) => {
                lemma_walk(d1, l, c, cur);
                let r = walk(d1, l, c, cur);
                assert(walk(d, p, c, cur) == r);
                assert forall|v: int| 0 <= v < d.len() implies {
                    ||| (#[trigger] r.0[v]) == d[v]
                    ||| (d[v].length <= len_at(d, p) && !d[v].next.contains_key(c) && r.0[v]
                        == with_next(d[v], c, cur))
                } by {
                    if v == p {
                        assert(d1[p].length > len_at(d1, l));
                    }
                }
            },
            None => {},
        }
    }
}

/// What `redirect` changes: it sends to `clone` the transition under `c` of
/// some states that led to `q`.
pub proof fn lemma_redirect(d: DawgView, p: int, c: Token, q: int, clone: int)
    ensures
        same_meta(d, redirect(d, p, c, q, clone)),
        forall|v: int|
            0 <= v < d.len() ==> {
                ||| (#[trigger] redirect(d, p, c, q, clone)[v]) == d[v]
                ||| (d[v].next.contains_key(c) && d[v].next[c] == q && redirect(d, p, c, q, clone)[v]
                    == with_next(d[v], c, clone))
            },
    decreases len_at(d, p),
{
    if 0 <= p < d.len() && d[p].next.contains_key(c) && d[p].next[c] == q {
        let d1 = d.update(p, with_next(d[p], c, clone));
        match up(d, p) {
            Some(l) => {
                lemma_redirect(d1, l, c, q, clone);
                let r = redirect(d1, l, c, q, clone);
                assert(redirect(d, p, c, q, clone) == r);
                assert forall|v: int| 0 <= v < d.len() implies {
                    ||| (#[trigger] r[v]) == d[v]
                    ||| (d[v].next.contains_key(c) && d[v].next[c] == q && r[v] == with_next(
                        d[v],
                        c,
                        clone,
                    ))
                } by {
                    if v == p {
                        if r[v] != d1[v] {
                            assert(d1[v].next[c] == clone);
                            assert(r[v] == with_next(d1[v], c, clone));
                            assert(r[v].next =~= with_next(d[v], c, clone).next);
                        }
                    }
                }
            },
            None => {},
        }
    }
}

/// With the new state in place, the links of the old states are as they
/// were.
pub proof fn lemma_fresh_links(d: DawgView, last: int)
    requires
        wf_view(d),
    ensures
        links_below(d.push(fresh_state(d, last)), d.len() as int),
{
    let d1 = d.push(fresh_state(d, last));
    assert(d1[0] == d[0]);
    assert forall|v: int| 0 < v < d.len() implies #[trigger] link_ok(d1, v) && d1[v].link->0 < d.len() by {
        assert(link_ok(d, v));
        assert(d1[v] == d[v]);
        let u = d[v].link->0;
        assert(d1[u] == d[u]);
    }
}

/// What holds half way through an extension, after the walk: the walk has
/// only added transitions to the new state; it stopped, if at all, at an old
/// state shorter than `last`, which it left alone; and where a state is then
/// split, the links are in order again before any transition is redirected.
pub proof fn lemma_extend_facts(d: DawgView, c: Token, last: int)
    requires
        wf_view(d),
        can_extend(d, c, last),
    ensures
        ({
            let cur = d.len() as int;
            let d1 = d.push(fresh_state(d, last));
            let (d2, stop) = walk(d1, last, c, cur);
            &&& same_meta(d1, d2)
            &&& d2[cur] == d1[cur]
            &&& walk_steps(d1, last, c, cur) >= 1
            &&& forall|v: int|
                0 <= v < d.len() ==> {
                    ||| (#[trigger] d2[v]) == d[v]
                    ||| (!d[v].next.contains_key(c) && d2[v] == with_next(d[v], c, cur))
                }
            &&& stop matches Some(p) ==> {
                &&& 0 <= p < d.len()
                &&& d[p].length < d[last].length
                &&& d2[p] == d[p]
                &&& d[p].next.contains_key(c)
                &&& 0 < d[p].next[c] < d.len()
            }
            &&& splits(d, c, last) ==> {
                &&& links_below(split_view(d, c, last), d.len() as int + 2)
                &&& split_view(d, c, last).len() == d.len() + 2
            }
        }),
{
    let cur = d.len() as int;
    let d1 = d.push(fresh_state(d, last));
    let (d2, stop) = walk(d1, last, c, cur);
    lemma_walk(d1, last, c, cur);
    assert forall|v: int| 0 <= v < d.len() implies {
        ||| (#[trigger] d2[v]) == d[v]
        ||| (!d[v].next.contains_key(c) && d2[v] == with_next(d[v], c, cur))
    } by {
        assert(d1[v] == d[v]);
    }
    if last == 0 {
        assert(up(d1, last) is None);
    } else {
        assert(link_ok(d, last));
        assert(up(d1, last) is Some);
    }
    match stop {
        None => {},
        Some(p) => {
            assert(p != last);
            let dl = d1.update(last, with_next(d1[last], c, cur));
            let l = up(d1, last)->0;
            lemma_walk(dl, l, c, cur);
            assert(d1[p].length < d1[last].length);
            assert(p < d.len());
            let q = d2[p].next[c];
            assert(d1[p] == d[p]);
            if splits(d, c, last) {
                let d4 = split_view(d, c, last);
                let clone = d2.len() as int;
                assert(link_ok(d, q));
                assert forall|v: int| 0 < v < d.len() + 2 implies #[trigger] link_ok(d4, v) && d4[v].link->0
                    < d.len() + 2 by {
                    if v < d.len() {
                        assert(link_ok(d, v));
                    }
                }
            }
        },
    }
}

/// An extension keeps the shape of the automaton, adds one state or two, and
/// leaves the lengths and counts of the old states as they were.
pub proof fn lemma_extend_wf(d: DawgView, c: Token, last: int)
    requires
        wf_view(d),
        can_extend(d, c, last),
    ensures
        wf_view(extend_view(d, c, last)),
        extend_view(d, c, last).len() == d.len() + node_demand(d, c, last),
        forall|v: int|
            0 <= v < d.len() ==> (#[trigger] extend_view(d, c, last)[v]).length == d[v].length
                && extend_view(d, c, last)[v].count == d[v].count,
        extend_view(d, c, last)[d.len() as int].length == d[last].length + 1,
{
    let cur = d.len() as int;
    let d1 = d.push(fresh_state(d, last));
    let (d2, stop) = walk(d1, last, c, cur);
    lemma_extend_facts(d, c, last);
    let r = extend_view(d, c, last);
    assert forall|v: int, k: Token|
        0 <= v < d2.len() && #[trigger] d2[v].next.contains_key(k) implies 0 < d2[v].next[k]
        < d2.len() by {
        if v < d.len() {
            if d[v].next.contains_key(k) {
            }
        }
    }
    assert forall|v: int| 0 <= v < d2.len() implies #[trigger] finite_next(d2, v) by {
        if v < d.len() {
            assert(finite_next(d, v));
        }
    }
    match stop {
        None => {
            assert forall|v: int| 0 < v < r.len() implies #[trigger] link_ok(r, v) by {
                if v < d.len() {
                    assert(link_ok(d, v));
                }
            }
            assert forall|v: int| 0 <= v < r.len() implies #[trigger] finite_next(r, v) by {
                assert(finite_next(d2, v));
            }
        },
        Some(p) => {
            let q = d2[p].next[c];
            if d2[q].length == d2[p].length + 1 {
                assert forall|v: int| 0 < v < r.len() implies #[trigger] link_ok(r, v) by {
                    if v < d.len() {
                        assert(link_ok(d, v));
                    }
                }
                assert forall|v: int| 0 <= v < r.len() implies #[trigger] finite_next(r, v) by {
                    assert(finite_next(d2, v));
                }
            } else {
                let clone = d2.len() as int;
                let d4 = split_view(d, c, last);
                lemma_redirect(d4, p, c, q, clone);
                assert forall|v: int| 0 < v < r.len() implies #[trigger] link_ok(r, v) by {
                    assert(link_ok(d4, v));
                }
                assert forall|v: int, k: Token|
                    0 <= v < r.len() && #[trigger] r[v].next.contains_key(k) implies 0 < r[v].next[k]
                    < r.len() by {
                    if v == clone {
                        assert(d4[v].next == d2[q].next);
                    } else {
                        assert(d4[v].next == d2[v].next);
                    }
                    if r[v] != d4[v] {
                        assert(r[v] == with_next(d4[v], c, clone));
                    }
                    if d4[v].next.contains_key(k) {
                        if v == clone {
                            assert(d2[q].next.contains_key(k));
                        } else {
                            assert(d2[v].next.contains_key(k));
                        }
                    }
                }
                assert forall|v: int| 0 <= v < r.len() implies #[trigger] finite_next(r, v) by {
                    if v == clone {
                        assert(finite_next(d2, q));
                        assert(d4[v].next == d2[q].next);
                    } else {
                        assert(finite_next(d2, v));
                        assert(d4[v].next == d2[v].next);
                    }
                }
            }
        },
    }
}

/// Number of edges that an extension adds: one for each step of the walk
/// and, where a state is split, one for each transition of that state.
pub open spec fn edges_added(d: DawgView, c: Token, last: int) -> nat {
    let cur = d.len() as int;
    let d1 = d.push(fresh_state(d, last));
    let (d2, stop) = walk(d1, last, c, cur);
    walk_steps(d1, last, c, cur) + if splits(d, c, last) {
        d2[d2[stop->0].next[c]].next.dom().len()
    } else {
        0
    }
}

/// An automaton with `edges` edges in storage has handles left for extending
/// by `c` from `last`, and the length of `last` can still be counted up.
pub open spec fn room(d: DawgView, edges: nat, c: Token, last: int) -> bool {
    &&& d.len() + node_demand(d, c, last) <= none_ix()
    &&& edges + edge_demand(d, c, last) <= none_ix()
    &&& d[last].length < u64::MAX
}

/// Why an extension cannot be made.
#[derive(Clone, Copy, Debug, PartialEq, Eq, Structural)]
pub enum ExtendError {
    /// The handle given for the last state names no state.
    UnknownState,
    /// The last state already has a transition under the token, or the walk
    /// ends before a state that cannot be split: the graph is no automaton
    /// that was built by extending from its newest state.
    NotExtendable,
    /// The handles, or the length counter, are used up.
    OutOfRoom,
}

/// The reason, if any, for which extending by `c` from `last` is refused.
pub open spec fn extend_error(d: DawgView, edges: nat, c: Token, last: int) -> Option<ExtendError> {
    if !(0 <= last < d.len()) {
        Some(ExtendError::UnknownState)
    } else if !can_extend(d, c, last) {
        Some(ExtendError::NotExtendable)
    } else if !room(d, edges, c, last) {
        Some(ExtendError::OutOfRoom)
    } else {
        None
    }
}

/// The walk of an extension, read off the automaton without changing it: how
/// many states from `p` up the suffix links have no transition under `c`, and
/// the first state that has one.
pub open spec fn scan(d: DawgView, p: int, c: Token) -> (nat, Option<int>)
    decreases len_at(d, p),
{
    if !(0 <= p < d.len()) {
        (0, None)
    } else if d[p].next.contains_key(c) {
        (0, Some(p))
    } else {
        match up(d, p) {
            Some(l) => (1 + scan(d, l, c).0, scan(d, l, c).1),
            None => (1, None),
        }
    }
}

/// `dx` has the states of `d` that are no longer than `bound` unchanged.
pub open spec fn agree_upto(d: DawgView, dx: DawgView, bound: nat) -> bool {
    &&& d.len() <= dx.len()
    &&& forall|v: int| 0 <= v < d.len() && d[v].length <= bound ==> #[trigger] dx[v] == d[v]
}

proof fn lemma_walk_scan(d: DawgView, dx: DawgView, p: int, c: Token, cur: int)
    requires
        links_below(d, d.len() as int),
        0 <= p < d.len(),
        agree_upto(d, dx, d[p].length),
    ensures
        walk(dx, p, c, cur).1 == scan(d, p, c).1,
        walk_steps(dx, p, c, cur) == scan(d, p, c).0,
    decreases d[p].length,
{
    assert(dx[p] == d[p]);
    if p > 0 {
        assert(link_ok(d, p));
        assert(dx[d[p].link->0] == d[d[p].link->0]);
    }
    assert(up(dx, p) == up(d, p));
    if !d[p].next.contains_key(c) {
        match up(d, p) {
            Some(l) => {
                let dx1 = dx.update(p, with_next(dx[p], c, cur));
                assert(agree_upto(d, dx1, d[l].length));
                lemma_walk_scan(d, dx1, l, c, cur);
            },
            None => {},
        }
    }
}

/// Whether the state `q` that the walk stops before can take the new state's
/// link: either as it is, or after a split.
pub open spec fn fits_or_splits(d: DawgView, p: int, q: int) -> bool {
    ||| d[q].length == d[p].length + 1
    ||| (d[q].length > d[p].length + 1 && d[q].link is Some && len_at(d, d[q].link->0)
        <= d[p].length)
}

/// What an extension needs and adds, read off the automaton as it stands.
pub proof fn lemma_extend_by_scan(d: DawgView, c: Token, last: int)
    requires
        wf_view(d),
        0 <= last < d.len(),
    ensures
        walk(d.push(fresh_state(d, last)), last, c, d.len() as int).1 == scan(d, last, c).1,
        walk_steps(d.push(fresh_state(d, last)), last, c, d.len() as int) == scan(d, last, c).0,
        scan(d, last, c).1 matches Some(p) ==> 0 <= p < d.len() && d[p].length <= d[last].length
            && d[p].next.contains_key(c) && 0 < d[p].next[c] < d.len(),
        can_extend(d, c, last) <==> (!d[last].next.contains_key(c) && (scan(d, last, c).1 matches Some(
            p,
        ) ==> fits_or_splits(d, p, d[p].next[c]))),
        splits(d, c, last) <==> (scan(d, last, c).1 matches Some(p) && d[d[p].next[c]].length
            != d[p].length + 1),
        edge_demand(d, c, last) == scan(d, last, c).0 + if splits(d, c, last) {
            d[d[scan(d, last, c).1->0].next[c]].next.dom().len() + 1
        } else {
            0
        },
{
    let cur = d.len() as int;
    let d1 = d.push(fresh_state(d, last));
    assert forall|v: int| 0 < v < d.len() implies #[trigger] link_ok(d, v) && d[v].link->0
        < d.len() by {
        assert(link_ok(d, v));
    }
    assert(links_below(d, d.len() as int));
    assert(agree_upto(d, d1, d[last].length));
    lemma_walk_scan(d, d1, last, c, cur);
    lemma_walk(d1, last, c, cur);
    let (d2, stop) = walk(d1, last, c, cur);
    match stop {
        Some(p) => {
            assert(d1[p].next.contains_key(c));
            assert(p < d.len());
            assert(d1[p] == d[p]);
            let q = d[p].next[c];
            assert(0 < q < d.len());
            assert(link_ok(d, q));
            assert(d1[q] == d[q]);
            let l = d[q].link->0;
            assert(d1[l] == d[l]);
        },
        None => {},
    }
}

/// An extension adds no more edges than it is given room for.
pub proof fn lemma_edges_added_bound(d: DawgView, c: Token, last: int)
    requires
        wf_view(d),
        can_extend(d, c, last),
    ensures
        edges_added(d, c, last) <= edge_demand(d, c, last),
{
    lemma_extend_facts(d, c, last);
    let cur = d.len() as int;
    let d1 = d.push(fresh_state(d, last));
    let (d2, stop) = walk(d1, last, c, cur);
    if splits(d, c, last) {
        let p = stop->0;
        let q = d2[p].next[c];
        assert(finite_next(d, q));
        if d2[q] != d[q] {
            assert(d2[q].next.dom() =~= d[q].next.dom().insert(c));
        }
    }
}

/// The automaton of the empty string.
pub open spec fn empty_view() -> DawgView {
    seq![StateView { length: 0, link: None, count: 0, next: Map::empty() }]
}

/// The state that stands for the whole of `s` in `build_view(s)`.
pub open spec fn active(s: Seq<Token>) -> int
    decreases s.len(),
{
    if s.len() == 0 {
        0
    } else {
        build_view(s.drop_last()).len() as int
    }
}

/// The automaton built from `s`, token by token: each token extends the
/// automaton from the state of the string so far, and an occurrence is then
/// recorded for the new state and for every state up its suffix links.
pub open spec fn build_view(s: Seq<Token>) -> DawgView
    decreases s.len(), 1int,
{
    if s.len() == 0 {
        empty_view()
    } else {
        bump(
            extend_view(build_view(s.drop_last()), s.last(), active(s.drop_last())),
            build_view(s.drop_last()).len() as int,
        )
    }
}

/// Number of edges of `build_view(s)`.
pub open spec fn build_edges(s: Seq<Token>) -> nat
    decreases s.len(),
{
    if s.len() == 0 {
        0
    } else {
        build_edges(s.drop_last()) + edges_added(
            build_view(s.drop_last()),
            s.last(),
            active(s.drop_last()),
        )
    }
}

/// The reason, if any, for which building from `s` stops early: that of the
/// first extension that is refused.
pub open spec fn build_error(s: Seq<Token>) -> Option<ExtendError>
    decreases s.len(),
{
    if s.len() == 0 {
        None
    } else {
        match build_error(s.drop_last()) {
            Some(e) => Some(e),
            None => extend_error(
                build_view(s.drop_last()),
                build_edges(s.drop_last()),
                s.last(),
                active(s.drop_last()),
            ),
        }
    }
}

/// The state that `s` leads to from the source, if the automaton can follow
/// all of `s`.
pub open spec fn run(d: DawgView, s: Seq<Token>) -> Option<int>
    decreases s.len(),
{
    if s.len() == 0 {
        Some(0)
    } else {
        match run(d, s.drop_last()) {
            Some(v) => if 0 <= v < d.len() && d[v].next.contains_key(s.last()) {
                Some(d[v].next[s.last()])
            } else {
                None
            },
            None => None,
        }
    }
}

/// The automaton can follow all of `s` from the source.
pub open spec fn accepts(d: DawgView, s: Seq<Token>) -> bool {
    run(d, s) is Some
}

/// One more occurrence, as far as it can be counted.
pub open spec fn counted_up(n: nat) -> nat {
    if n < u64::MAX {
        n + 1
    } else {
        n
    }
}

/// Records one more occurrence for `p` and for every state up its suffix
/// links.
pub open spec fn bump(d: DawgView, p: int) -> DawgView
    decreases len_at(d, p),
{
    if !(0 <= p < d.len()) {
        d
    } else {
        let d1 = d.update(p, with_count(d[p], counted_up(d[p].count)));
        match up(d, p) {
            Some(l) => bump(d1, l),
            None => d1,
        }
    }
}

/// Recording occurrences changes counts only.
pub proof fn lemma_bump(d: DawgView, p: int)
    ensures
        bump(d, p).len() == d.len(),
        forall|v: int|
            0 <= v < d.len() ==> {
                &&& (#[trigger] bump(d, p)[v]).length == d[v].length
                &&& bump(d, p)[v].link == d[v].link
                &&& bump(d, p)[v].next == d[v].next
                &&& bump(d, p)[v].count >= d[v].count
            },
        wf_view(d) ==> wf_view(bump(d, p)),
    decreases len_at(d, p),
{
    if 0 <= p < d.len() {
        let d1 = d.update(p, with_count(d[p], counted_up(d[p].count)));
        match up(d, p) {
            Some(l) => {
                lemma_bump(d1, l);
            },
            None => {},
        }
        if wf_view(d) {
            let r = bump(d, p);
            assert forall|v: int| 0 < v < r.len() implies #[trigger] link_ok(r, v) by {
                assert(link_ok(d, v));
                assert(r[d[v].link->0].length == d[d[v].link->0].length);
            }
            assert forall|v: int, k: Token|
                0 <= v < r.len() && #[trigger] r[v].next.contains_key(k) implies 0 < r[v].next[k]
                < r.len() by {
                assert(d[v].next.contains_key(k));
            }
            assert forall|v: int| 0 <= v < r.len() implies #[trigger] finite_next(r, v) by {
                assert(finite_next(d, v));
            }
        }
    }
}

} // verus!
