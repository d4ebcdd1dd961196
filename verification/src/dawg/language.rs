//! Why the automaton that is built from a text follows exactly the strings
//! that occur in the text.

use vstd::prelude::*;
use crate::indexing::Token;
use crate::dawg::model::StateView;
use crate::dawg::model::DawgView;
use crate::dawg::model::wf_view;
use crate::dawg::model::link_ok;
use crate::dawg::model::with_next;
use crate::dawg::model::with_link;
use crate::dawg::model::up;
use crate::dawg::model::walk;
use crate::dawg::model::redirect;
use crate::dawg::model::fresh_state;
use crate::dawg::model::clone_state;
use crate::dawg::model::split_view;
use crate::dawg::model::extend_view;
use crate::dawg::model::can_extend;
use crate::dawg::model::splits;
use crate::dawg::model::len_at;
use crate::dawg::model::lemma_extend_wf;
use crate::dawg::model::finite_next;
use crate::dawg::model::bump;
use crate::dawg::model::lemma_bump;
use crate::dawg::model::empty_view;
use crate::dawg::model::active;
use crate::dawg::model::build_view;
use crate::dawg::model::build_error;
use crate::dawg::model::ExtendError;
use crate::dawg::model::run;
use crate::dawg::model::accepts;
use crate::dawg::text::ends_at;
use crate::dawg::text::is_substring;
use crate::dawg::text::lemma_same_ends;
use crate::dawg::text::lemma_ends_drop_last;
use crate::dawg::text::same;
use crate::dawg::text::lemma_same_bounds;
use crate::dawg::text::lemma_same_refl;
use crate::dawg::text::lemma_same_zero;
use crate::dawg::text::lemma_same_sym;
use crate::dawg::text::lemma_same_via;
use crate::dawg::text::lemma_same_shorter;
use crate::dawg::text::lemma_same_push;
use crate::dawg::text::lemma_same_step;

verus! {

/// Length of the longest string of state `v`.
pub open spec fn len_of(d: DawgView, v: int) -> int {
    d[v].length as int
}

/// The state that the suffix link of `v` leads to.
pub open spec fn link(d: DawgView, v: int) -> int {
    d[v].link->0
}

/// Length of the shortest string of state `v`, which is not the source.
pub open spec fn min_len(d: DawgView, v: int) -> int {
    d[link(d, v)].length as int + 1
}

/// The longest string of `v` occurs ending at `i`.
pub open spec fn rep_at(d: DawgView, w: Seq<Token>, pos: Seq<int>, v: int, i: int) -> bool {
    same(w, i, pos[v], len_of(d, v))
}

/// The shortest string of `v` occurs ending at `i`.
pub open spec fn min_at(d: DawgView, w: Seq<Token>, pos: Seq<int>, v: int, i: int) -> bool {
    same(w, i, pos[v], min_len(d, v))
}

/// The longest string of `u` ends the longest string of `v`.
pub open spec fn suffix_of(d: DawgView, w: Seq<Token>, pos: Seq<int>, u: int, v: int) -> bool {
    len_of(d, u) <= len_of(d, v) && same(w, pos[v], pos[u], len_of(d, u))
}

/// The longest string of `v` occurs ending at `i`, and the token `a` follows.
pub open spec fn follows_at(d: DawgView, w: Seq<Token>, pos: Seq<int>, v: int, a: Token, i: int) -> bool {
    0 <= i < w.len() && w[i] == a && rep_at(d, w, pos, v, i)
}

/// Somewhere in the text the token `a` follows the longest string of `v`.
pub open spec fn can_follow(d: DawgView, w: Seq<Token>, pos: Seq<int>, v: int, a: Token) -> bool {
    exists|i: int| #[trigger] follows_at(d, w, pos, v, a, i)
}

/// The transition of `v` under `a` leads to the state of the longest string
/// of `v` with `a` after it.
pub open spec fn edge_fits(d: DawgView, w: Seq<Token>, pos: Seq<int>, v: int, a: Token) -> bool {
    let u = d[v].next[a];
    &&& len_of(d, link(d, u)) < len_of(d, v) + 1 <= len_of(d, u)
    &&& 0 < pos[u] <= w.len()
    &&& w[pos[u] - 1] == a
    &&& same(w, pos[u] - 1, pos[v], len_of(d, v))
}

/// The string just too short for `v` occurs at `wit[v]` where the shortest
/// string of `v` does not.
pub open spec fn strict_at(d: DawgView, w: Seq<Token>, pos: Seq<int>, wit: Seq<int>, v: int) -> bool {
    rep_at(d, w, pos, link(d, v), wit[v]) && !min_at(d, w, pos, v, wit[v])
}

/// Each state has an occurrence of its longest string.
pub open spec fn inv_pos(d: DawgView, w: Seq<Token>, pos: Seq<int>) -> bool {
    &&& pos.len() == d.len()
    &&& forall|v: int| 0 <= v < d.len() ==> d[v].length <= #[trigger] pos[v] <= w.len()
}

/// The longest string of a state's link ends the longest string of the state.
pub open spec fn inv_link(d: DawgView, w: Seq<Token>, pos: Seq<int>) -> bool {
    forall|v: int| 0 < v < d.len() ==> #[trigger] suffix_of(d, w, pos, link(d, v), v)
}

/// Wherever the shortest string of a state occurs, its longest does.
pub open spec fn inv_closed(d: DawgView, w: Seq<Token>, pos: Seq<int>) -> bool {
    forall|v: int, i: int|
        0 < v < d.len() && #[trigger] min_at(d, w, pos, v, i) ==> rep_at(d, w, pos, v, i)
}

/// The strings of a state's link occur where those of the state do not.
pub open spec fn inv_strict(d: DawgView, w: Seq<Token>, pos: Seq<int>, wit: Seq<int>) -> bool {
    &&& wit.len() == d.len()
    &&& forall|v: int| 0 < v < d.len() ==> #[trigger] strict_at(d, w, pos, wit, v)
}

/// A state whose longest string ends that of another lies at or beyond the
/// other's link.
pub open spec fn inv_unique(d: DawgView, w: Seq<Token>, pos: Seq<int>) -> bool {
    forall|u: int, v: int|
        0 <= u < d.len() && 0 <= v < d.len() && u != v && #[trigger] suffix_of(d, w, pos, u, v) ==> v
            != 0 && len_of(d, u) <= len_of(d, link(d, v))
}

/// A state has a transition under a token exactly if the token follows its
/// longest string somewhere.
pub open spec fn inv_next(d: DawgView, w: Seq<Token>, pos: Seq<int>) -> bool {
    forall|v: int, a: Token|
        0 <= v < d.len() ==> (#[trigger] d[v].next.contains_key(a) <==> can_follow(d, w, pos, v, a))
}

/// Every transition leads to the right state.
pub open spec fn inv_edges(d: DawgView, w: Seq<Token>, pos: Seq<int>) -> bool {
    forall|v: int, a: Token|
        0 <= v < d.len() && #[trigger] d[v].next.contains_key(a) ==> edge_fits(d, w, pos, v, a)
}

/// `d` is the suffix automaton of `w`, `last` its state for the whole of `w`.
/// `pos` and `wit` hold, for each state, where its longest string ends in
/// the text and where the string just too short for it occurs alone.
pub open spec fn is_automaton_of(
    d: DawgView,
    w: Seq<Token>,
    pos: Seq<int>,
    wit: Seq<int>,
    last: int,
) -> bool {
    &&& wf_view(d)
    &&& inv_pos(d, w, pos)
    &&& inv_link(d, w, pos)
    &&& inv_closed(d, w, pos)
    &&& inv_strict(d, w, pos, wit)
    &&& inv_unique(d, w, pos)
    &&& inv_next(d, w, pos)
    &&& inv_edges(d, w, pos)
    &&& 0 <= last < d.len()
    &&& pos[last] == w.len()
    &&& len_of(d, last) == w.len()
}

/// The longest string of `v` ends the text.
pub open spec fn ends_text(d: DawgView, w: Seq<Token>, pos: Seq<int>, v: int) -> bool {
    rep_at(d, w, pos, v, w.len() as int)
}

/// The link of a state other than the source is a state with a shorter
/// longest string, which ends that of the state.
pub proof fn lemma_link(d: DawgView, w: Seq<Token>, pos: Seq<int>, v: int)
    requires
        wf_view(d),
        inv_pos(d, w, pos),
        inv_link(d, w, pos),
        0 < v < d.len(),
    ensures
        0 <= link(d, v) < d.len(),
        0 <= len_of(d, link(d, v)) < len_of(d, v),
        same(w, pos[v], pos[link(d, v)], len_of(d, link(d, v))),
        1 <= min_len(d, v) <= len_of(d, v),
{
    assert(link_ok(d, v));
    assert(suffix_of(d, w, pos, link(d, v), v));
}

/// Wherever a string of a state occurs, the longest string of the state
/// occurs.
pub proof fn lemma_closed(d: DawgView, w: Seq<Token>, pos: Seq<int>, v: int, i: int, len: int)
    requires
        wf_view(d),
        inv_pos(d, w, pos),
        inv_link(d, w, pos),
        inv_closed(d, w, pos),
        0 <= v < d.len(),
        same(w, i, pos[v], len),
        v != 0 ==> min_len(d, v) <= len,
    ensures
        rep_at(d, w, pos, v, i),
{
    lemma_same_bounds(w, i, pos[v], len);
    if v == 0 {
        lemma_same_zero(w, i, pos[v]);
    } else {
        lemma_link(d, w, pos, v);
        lemma_same_shorter(w, i, pos[v], len, min_len(d, v));
        assert(min_at(d, w, pos, v, i));
    }
}

/// No string belongs to two states.
pub proof fn lemma_one_state(d: DawgView, w: Seq<Token>, pos: Seq<int>, u: int, v: int, i: int, len: int)
    requires
        wf_view(d),
        inv_pos(d, w, pos),
        inv_link(d, w, pos),
        inv_closed(d, w, pos),
        inv_unique(d, w, pos),
        0 <= u < d.len(),
        0 <= v < d.len(),
        same(w, i, pos[u], len),
        same(w, i, pos[v], len),
        len <= len_of(d, u),
        len <= len_of(d, v),
        u != 0 ==> min_len(d, u) <= len,
        v != 0 ==> min_len(d, v) <= len,
    ensures
        u == v,
{
    {
        lemma_same_bounds(w, i, pos[u], len);
        if len_of(d, u) <= len_of(d, v) {
            lemma_one_state_ordered(d, w, pos, u, v, i, len);
        } else {
            lemma_one_state_ordered(d, w, pos, v, u, i, len);
        }
    }
}

proof fn lemma_one_state_ordered(d: DawgView, w: Seq<Token>, pos: Seq<int>, u: int, v: int, i: int, len: int)
    requires
        wf_view(d),
        inv_pos(d, w, pos),
        inv_link(d, w, pos),
        inv_closed(d, w, pos),
        inv_unique(d, w, pos),
        0 <= u < d.len(),
        0 <= v < d.len(),
        same(w, i, pos[u], len),
        same(w, i, pos[v], len),
        len <= len_of(d, u) <= len_of(d, v),
        u != 0 ==> min_len(d, u) <= len,
        v != 0 ==> min_len(d, v) <= len,
    ensures
        u == v,
{
    if u != v {
        // the string occurs at the place of v, so the longest string of u does
        lemma_same_sym(w, i, pos[v], len);
        lemma_same_via(w, pos[v], i, pos[u], len, len, len);
        lemma_closed(d, w, pos, u, pos[v], len);
        assert(suffix_of(d, w, pos, u, v));
        if v != 0 {
            lemma_link(d, w, pos, v);
        }
    }
}

/// What the proofs about one text and one automaton share.
pub open spec fn sound(d: DawgView, w: Seq<Token>, pos: Seq<int>) -> bool {
    &&& wf_view(d)
    &&& inv_pos(d, w, pos)
    &&& inv_link(d, w, pos)
    &&& inv_closed(d, w, pos)
    &&& inv_unique(d, w, pos)
}

pub proof fn lemma_suffix_trans(d: DawgView, w: Seq<Token>, pos: Seq<int>, u: int, v: int, x: int)
    requires
        suffix_of(d, w, pos, u, v),
        suffix_of(d, w, pos, v, x),
    ensures
        suffix_of(d, w, pos, u, x),
{
    lemma_same_bounds(w, pos[v], pos[u], len_of(d, u));
    lemma_same_via(w, pos[x], pos[v], pos[u], len_of(d, v), len_of(d, u), len_of(d, u));
}

/// Where the longest string of a state occurs, the longest string of every
/// state that it ends with occurs.
pub proof fn lemma_rep_down(d: DawgView, w: Seq<Token>, pos: Seq<int>, u: int, v: int, i: int)
    requires
        suffix_of(d, w, pos, u, v),
        rep_at(d, w, pos, v, i),
    ensures
        rep_at(d, w, pos, u, i),
{
    lemma_same_bounds(w, pos[v], pos[u], len_of(d, u));
    lemma_same_via(w, i, pos[v], pos[u], len_of(d, v), len_of(d, u), len_of(d, u));
}

/// Of two states whose longest strings occur ending at one place, the
/// shorter ends the longer.
pub proof fn lemma_comparable(d: DawgView, w: Seq<Token>, pos: Seq<int>, u: int, v: int, i: int)
    requires
        rep_at(d, w, pos, u, i),
        rep_at(d, w, pos, v, i),
        len_of(d, u) <= len_of(d, v),
    ensures
        suffix_of(d, w, pos, u, v),
{
    lemma_same_bounds(w, i, pos[u], len_of(d, u));
    lemma_same_sym(w, i, pos[v], len_of(d, v));
    lemma_same_via(w, pos[v], i, pos[u], len_of(d, v), len_of(d, u), len_of(d, u));
}

/// A token that follows the longest string of a state follows the longest
/// string of every state that it ends with.
pub proof fn lemma_follow_down(d: DawgView, w: Seq<Token>, pos: Seq<int>, u: int, v: int, a: Token)
    requires
        inv_next(d, w, pos),
        0 <= u < d.len(),
        0 <= v < d.len(),
        suffix_of(d, w, pos, u, v),
        d[v].next.contains_key(a),
    ensures
        d[u].next.contains_key(a),
{
    assert(can_follow(d, w, pos, v, a));
    let i = choose|i: int| #[trigger] follows_at(d, w, pos, v, a, i);
    lemma_rep_down(d, w, pos, u, v, i);
    assert(follows_at(d, w, pos, u, a, i));
    assert(can_follow(d, w, pos, u, a));
}

/// The state, on the suffix links from `v0`, that the string of length `len`
/// at the end of the longest string of `v0` belongs to.
pub proof fn lemma_cover(d: DawgView, w: Seq<Token>, pos: Seq<int>, v0: int, len: int) -> (v: int)
    requires
        sound(d, w, pos),
        0 <= v0 < d.len(),
        0 <= len <= len_of(d, v0),
    ensures
        0 <= v < d.len(),
        suffix_of(d, w, pos, v, v0),
        len <= len_of(d, v),
        v != 0 ==> min_len(d, v) <= len,
        v == 0 ==> len == 0,
    decreases len_of(d, v0),
{
    assert(0 <= pos[v0] <= w.len());
    if v0 == 0 {
        lemma_same_refl(w, pos[v0], len_of(d, v0));
        v0
    } else {
        lemma_link(d, w, pos, v0);
        if min_len(d, v0) <= len {
            lemma_same_refl(w, pos[v0], len_of(d, v0));
            v0
        } else {
            let l = link(d, v0);
            let v = lemma_cover(d, w, pos, l, len);
            assert(suffix_of(d, w, pos, l, v0));
            lemma_suffix_trans(d, w, pos, v, l, v0);
            v
        }
    }
}

/// The longest string of `v` ends the text and no transition under `c`
/// leaves `v`.
pub open spec fn lacks(d: DawgView, w: Seq<Token>, pos: Seq<int>, c: Token, v: int) -> bool {
    ends_text(d, w, pos, v) && !d[v].next.contains_key(c)
}

/// State `v` after the walk of an extension.
pub open spec fn walked_state(d: DawgView, w: Seq<Token>, pos: Seq<int>, c: Token, v: int) -> StateView {
    if lacks(d, w, pos, c, v) {
        with_next(d[v], c, d.len() as int)
    } else {
        d[v]
    }
}

/// State `v` in the middle of the walk, when the states longer than `t` have
/// been seen to.
pub open spec fn half_walked(d: DawgView, w: Seq<Token>, pos: Seq<int>, c: Token, t: int, v: int) -> StateView {
    if lacks(d, w, pos, c, v) && len_of(d, v) > t {
        with_next(d[v], c, d.len() as int)
    } else {
        d[v]
    }
}

/// Every state longer than `t` whose longest string ends the text lacks a
/// transition under `c`.
pub open spec fn none_above(d: DawgView, w: Seq<Token>, pos: Seq<int>, c: Token, t: int) -> bool {
    forall|v: int|
        0 <= v < d.len() && #[trigger] ends_text(d, w, pos, v) && len_of(d, v) > t
            ==> !d[v].next.contains_key(c)
}

/// The walk stops at the longest state that ends the text and has a
/// transition under `c`.
pub open spec fn stop_ok(d: DawgView, w: Seq<Token>, pos: Seq<int>, c: Token, stop: Option<int>) -> bool {
    match stop {
        Some(p) => {
            &&& 0 <= p < d.len()
            &&& ends_text(d, w, pos, p)
            &&& d[p].next.contains_key(c)
            &&& none_above(d, w, pos, c, len_of(d, p))
        },
        None => none_above(d, w, pos, c, -1),
    }
}

/// What the walk comes to: it gives a transition to the new state to
/// exactly the states that end the text and lack one.
pub proof fn lemma_walk_sem(d: DawgView, w: Seq<Token>, pos: Seq<int>, c: Token, dx: DawgView, p0: int)
    requires
        sound(d, w, pos),
        inv_next(d, w, pos),
        dx.len() == d.len() + 1,
        0 <= p0 < d.len(),
        ends_text(d, w, pos, p0),
        forall|v: int| 0 <= v < d.len() ==> #[trigger] dx[v] == half_walked(d, w, pos, c, len_of(d, p0), v),
        none_above(d, w, pos, c, len_of(d, p0)),
    ensures
        walk(dx, p0, c, d.len() as int).0.len() == dx.len(),
        walk(dx, p0, c, d.len() as int).0[d.len() as int] == dx[d.len() as int],
        forall|v: int|
            0 <= v < d.len() ==> #[trigger] walk(dx, p0, c, d.len() as int).0[v] == walked_state(
                d,
                w,
                pos,
                c,
                v,
            ),
        stop_ok(d, w, pos, c, walk(dx, p0, c, d.len() as int).1),
    decreases len_of(d, p0),
{
    let cur = d.len() as int;
    let n = w.len() as int;
    assert(dx[p0] == d[p0]);
    if d[p0].next.contains_key(c) {
        assert forall|v: int| 0 <= v < d.len() implies #[trigger] dx[v] == walked_state(d, w, pos, c, v) by {
            if lacks(d, w, pos, c, v) && len_of(d, v) <= len_of(d, p0) {
                lemma_comparable(d, w, pos, v, p0, n);
                lemma_follow_down(d, w, pos, v, p0, c);
            }
        }
    } else {
        let dx1 = dx.update(p0, with_next(dx[p0], c, cur));
        if p0 == 0 {
            assert(up(dx, p0) is None);
            assert forall|v: int| 0 <= v < d.len() implies #[trigger] dx1[v] == walked_state(d, w, pos, c, v) by {
                if v != 0 {
                    assert(link_ok(d, v));
                }
            }
            assert(none_above(d, w, pos, c, -1)) by {
                assert forall|v: int|
                    0 <= v < d.len() && #[trigger] ends_text(d, w, pos, v) && len_of(d, v)
                        > -1 implies !d[v].next.contains_key(c) by {
                    if v != 0 {
                        assert(link_ok(d, v));
                    }
                }
            }
        } else {
            lemma_link(d, w, pos, p0);
            let l = link(d, p0);
            assert(dx[l].length == d[l].length);
            assert(link_ok(d, p0));
            assert(up(dx, p0) == Some(l));
            assert(suffix_of(d, w, pos, l, p0));
            lemma_rep_down(d, w, pos, l, p0, n);
            assert forall|v: int| 0 <= v < d.len() implies #[trigger] dx1[v] == half_walked(
                d,
                w,
                pos,
                c,
                len_of(d, l),
                v,
            ) by {
                if ends_text(d, w, pos, v) && len_of(d, l) < len_of(d, v) <= len_of(d, p0) && v != p0 {
                    lemma_comparable(d, w, pos, v, p0, n);
                }
            }
            assert(none_above(d, w, pos, c, len_of(d, l))) by {
                assert forall|v: int|
                    0 <= v < d.len() && #[trigger] ends_text(d, w, pos, v) && len_of(d, v) > len_of(
                        d,
                        l,
                    ) implies !d[v].next.contains_key(c) by {
                    if len_of(d, v) <= len_of(d, p0) && v != p0 {
                        lemma_comparable(d, w, pos, v, p0, n);
                    }
                }
            }
            lemma_walk_sem(d, w, pos, c, dx1, l);
            assert(walk(dx, p0, c, cur) == walk(dx1, l, c, cur));
        }
    }
}

/// A string that ends the text and occurs earlier with `c` after it is no
/// longer than the state at which the walk stops.
pub proof fn lemma_old_suffix(
    d: DawgView,
    w: Seq<Token>,
    pos: Seq<int>,
    c: Token,
    last: int,
    stop: Option<int>,
    len: int,
    i: int,
)
    requires
        sound(d, w, pos),
        inv_next(d, w, pos),
        0 <= last < d.len(),
        pos[last] == w.len(),
        len_of(d, last) == w.len(),
        stop_ok(d, w, pos, c, stop),
        0 <= i < w.len(),
        w[i] == c,
        same(w, i, w.len() as int, len),
    ensures
        stop is Some,
        len <= len_of(d, stop->0),
{
    let n = w.len() as int;
    lemma_same_bounds(w, i, n, len);
    let v = lemma_cover(d, w, pos, last, len);
    // v ends the text
    lemma_same_sym(w, pos[last], pos[v], len_of(d, v));
    lemma_same_sym(w, pos[v], n, len_of(d, v));
    assert(ends_text(d, w, pos, v));
    lemma_same_via(w, i, n, pos[v], len, len_of(d, v), len);
    lemma_closed(d, w, pos, v, i, len);
    assert(follows_at(d, w, pos, v, c, i));
    assert(can_follow(d, w, pos, v, c));
    assert(d[v].next.contains_key(c));
}

/// The state that the transition under `c` leads to from the state at which
/// the walk stopped.
pub open spec fn target_of(d: DawgView, c: Token, stop: Option<int>) -> int {
    d[stop->0].next[c]
}

/// The extension has to split `target_of`.
pub open spec fn must_split(d: DawgView, c: Token, stop: Option<int>) -> bool {
    stop is Some && len_of(d, target_of(d, c, stop)) != len_of(d, stop->0) + 1
}

/// What is known of the state at which the walk stopped: it is shorter than
/// the text, and its transition under `c` leads to the state of its longest
/// string with `c` after it.
pub proof fn lemma_stop_facts(
    d: DawgView,
    w: Seq<Token>,
    pos: Seq<int>,
    wit: Seq<int>,
    last: int,
    c: Token,
    stop: Option<int>,
)
    requires
        is_automaton_of(d, w, pos, wit, last),
        stop_ok(d, w, pos, c, stop),
    ensures
        ends_text(d, w, pos, last),
        !d[last].next.contains_key(c),
        stop matches Some(p) ==> {
            &&& len_of(d, p) < w.len()
            &&& 0 < target_of(d, c, stop) < d.len()
            &&& edge_fits(d, w, pos, p, c)
            &&& target_of(d, c, stop) != p
            &&& link_ok(d, target_of(d, c, stop))
        },
{
    let n = w.len() as int;
    lemma_same_refl(w, n, n);
    assert(ends_text(d, w, pos, last));
    if d[last].next.contains_key(c) {
        assert(can_follow(d, w, pos, last, c));
        let i = choose|i: int| #[trigger] follows_at(d, w, pos, last, c, i);
        lemma_same_bounds(w, i, pos[last], len_of(d, last));
    }
    match stop {
        Some(p) => {
            assert(pos[p] <= n);
            if len_of(d, p) == n {
                lemma_comparable(d, w, pos, last, p, n);
                lemma_comparable(d, w, pos, p, last, n);
                if last != 0 {
                    lemma_link(d, w, pos, last);
                }
            }
            let q = d[p].next[c];
            assert(0 < q < d.len());
            assert(link_ok(d, q));
        },
        None => {},
    }
}

/// Number of the copy that a split makes.
pub open spec fn clone_of(d: DawgView) -> int {
    d.len() as int + 1
}

/// The transition of `v` under `c` has to be sent to the copy of `q`.
pub open spec fn redirected(d: DawgView, c: Token, p: int, q: int, v: int) -> bool {
    d[v].next.contains_key(c) && d[v].next[c] == q && len_of(d, v) <= len_of(d, p)
}

/// State `v` in the middle of a split, before any transition is redirected.
pub open spec fn base_state(d: DawgView, w: Seq<Token>, pos: Seq<int>, c: Token, q: int, v: int) -> StateView {
    if v == q {
        with_link(walked_state(d, w, pos, c, v), clone_of(d))
    } else {
        walked_state(d, w, pos, c, v)
    }
}

/// State `v` in the middle of a split, when the transitions of the states
/// longer than `t` have been redirected.
pub open spec fn part_redirected(
    d: DawgView,
    w: Seq<Token>,
    pos: Seq<int>,
    c: Token,
    p: int,
    q: int,
    t: int,
    v: int,
) -> StateView {
    if redirected(d, c, p, q, v) && len_of(d, v) > t {
        with_next(base_state(d, w, pos, c, q, v), c, clone_of(d))
    } else {
        base_state(d, w, pos, c, q, v)
    }
}

/// The new state, with its link to `l`.
pub open spec fn new_state(w: Seq<Token>, l: int) -> StateView {
    StateView { length: w.len() + 1, link: Some(l), count: 0, next: Map::empty() }
}

/// The copy of `q`, one longer than `p`.
pub open spec fn copy_state(d: DawgView, w: Seq<Token>, pos: Seq<int>, c: Token, p: int, q: int) -> StateView {
    StateView {
        length: d[p].length + 1,
        link: d[q].link,
        count: d[q].count,
        next: walked_state(d, w, pos, c, q).next,
    }
}

/// The automaton after an extension, state by state.
pub open spec fn stepped(d: DawgView, w: Seq<Token>, pos: Seq<int>, c: Token, stop: Option<int>) -> DawgView {
    let cur = d.len() as int;
    match stop {
        None => Seq::new(
            d.len() + 1,
            |v: int|
                if v < cur {
                    walked_state(d, w, pos, c, v)
                } else {
                    new_state(w, 0)
                },
        ),
        Some(p) => {
            let q = d[p].next[c];
            if len_of(d, q) == len_of(d, p) + 1 {
                Seq::new(
                    d.len() + 1,
                    |v: int|
                        if v < cur {
                            walked_state(d, w, pos, c, v)
                        } else {
                            new_state(w, q)
                        },
                )
            } else {
                Seq::new(
                    d.len() + 2,
                    |v: int|
                        if v < cur {
                            part_redirected(d, w, pos, c, p, q, -1, v)
                        } else if v == cur {
                            new_state(w, cur + 1)
                        } else {
                            copy_state(d, w, pos, c, p, q)
                        },
                )
            }
        },
    }
}

/// A state whose transition under `c` leads where that of `p` leads, and
/// which is no longer than `p`, ends `p`.
pub proof fn lemma_into_same(d: DawgView, w: Seq<Token>, pos: Seq<int>, c: Token, p: int, v: int)
    requires
        sound(d, w, pos),
        inv_edges(d, w, pos),
        0 <= p < d.len(),
        0 <= v < d.len(),
        d[p].next.contains_key(c),
        redirected(d, c, p, d[p].next[c], v),
    ensures
        suffix_of(d, w, pos, v, p),
{
    let q = d[p].next[c];
    assert(edge_fits(d, w, pos, p, c));
    assert(edge_fits(d, w, pos, v, c));
    lemma_same_sym(w, pos[q] - 1, pos[p], len_of(d, p));
    lemma_same_via(w, pos[p], pos[q] - 1, pos[v], len_of(d, p), len_of(d, v), len_of(d, v));
}

/// What redirecting comes to: it sends to the copy the transitions under
/// `c` of exactly the states that led to `q` and are no longer than `p`.
pub proof fn lemma_redirect_sem(
    d: DawgView,
    w: Seq<Token>,
    pos: Seq<int>,
    c: Token,
    p: int,
    dy: DawgView,
    x: int,
)
    requires
        sound(d, w, pos),
        inv_next(d, w, pos),
        inv_edges(d, w, pos),
        0 <= p < d.len(),
        d[p].next.contains_key(c),
        len_of(d, p) + 1 < len_of(d, d[p].next[c]),
        dy.len() == d.len() + 2,
        0 <= x < d.len(),
        suffix_of(d, w, pos, x, p),
        forall|v: int|
            0 <= v < d.len() ==> #[trigger] dy[v] == part_redirected(
                d,
                w,
                pos,
                c,
                p,
                d[p].next[c],
                len_of(d, x),
                v,
            ),
    ensures
        redirect(dy, x, c, d[p].next[c], clone_of(d)).len() == dy.len(),
        redirect(dy, x, c, d[p].next[c], clone_of(d))[d.len() as int] == dy[d.len() as int],
        redirect(dy, x, c, d[p].next[c], clone_of(d))[clone_of(d)] == dy[clone_of(d)],
        forall|v: int|
            0 <= v < d.len() ==> #[trigger] redirect(dy, x, c, d[p].next[c], clone_of(d))[v]
                == part_redirected(d, w, pos, c, p, d[p].next[c], -1, v),
    decreases len_of(d, x),
{
    let q = d[p].next[c];
    let clone = clone_of(d);
    let n = w.len() as int;
    assert(0 < q < d.len());
    lemma_follow_down(d, w, pos, x, p, c);
    assert(x != q);
    assert(dy[x] == d[x]);
    if d[x].next[c] == q {
        let dy1 = dy.update(x, with_next(dy[x], c, clone));
        if x == 0 {
            assert(up(dy, x) is None);
            assert forall|v: int| 0 <= v < d.len() implies #[trigger] dy1[v] == part_redirected(
                d,
                w,
                pos,
                c,
                p,
                q,
                -1,
                v,
            ) by {
                if v != 0 {
                    assert(link_ok(d, v));
                }
            }
        } else {
            lemma_link(d, w, pos, x);
            assert(link_ok(d, x));
            let l = link(d, x);
            assert(l != q);
            assert(dy[l].length == d[l].length);
            assert(up(dy, x) == Some(l));
            assert(suffix_of(d, w, pos, l, x));
            lemma_suffix_trans(d, w, pos, l, x, p);
            assert forall|v: int| 0 <= v < d.len() implies #[trigger] dy1[v] == part_redirected(
                d,
                w,
                pos,
                c,
                p,
                q,
                len_of(d, l),
                v,
            ) by {
                if redirected(d, c, p, q, v) && len_of(d, l) < len_of(d, v) <= len_of(d, x) && v != x {
                    lemma_into_same(d, w, pos, c, p, v);
                    lemma_comparable(d, w, pos, v, x, pos[p]);
                }
            }
            lemma_redirect_sem(d, w, pos, c, p, dy1, l);
            assert(redirect(dy, x, c, q, clone) == redirect(dy1, l, c, q, clone));
        }
    } else {
        let u = d[x].next[c];
        assert forall|v: int| 0 <= v < d.len() implies #[trigger] dy[v] == part_redirected(
            d,
            w,
            pos,
            c,
            p,
            q,
            -1,
            v,
        ) by {
            if redirected(d, c, p, q, v) && len_of(d, v) <= len_of(d, x) {
                // then the longest string of x with c after it would belong
                // both to u and to q
                assert(edge_fits(d, w, pos, p, c));
                assert(edge_fits(d, w, pos, v, c));
                assert(edge_fits(d, w, pos, x, c));
                assert(0 < u < d.len());
                let lx = len_of(d, x);
                lemma_same_via(w, pos[q] - 1, pos[p], pos[x], len_of(d, p), lx, lx);
                lemma_same_sym(w, pos[q] - 1, pos[x], lx);
                lemma_same_via(w, pos[u] - 1, pos[x], pos[q] - 1, lx, lx, lx);
                lemma_same_step(w, pos[u] - 1, pos[q] - 1, lx);
                lemma_same_refl(w, pos[u], lx + 1);
                assert(link_ok(d, u));
                assert(link_ok(d, q));
                lemma_one_state(d, w, pos, u, q, pos[u], lx + 1);
            }
        }
    }
}

/// The automaton after an extension is `stepped`, and the extension can be
/// made.
pub proof fn lemma_stepped(d: DawgView, w: Seq<Token>, pos: Seq<int>, wit: Seq<int>, last: int, c: Token)
    requires
        is_automaton_of(d, w, pos, wit, last),
    ensures
        stop_ok(d, w, pos, c, walk(d.push(fresh_state(d, last)), last, c, d.len() as int).1),
        can_extend(d, c, last),
        extend_view(d, c, last) == stepped(
            d,
            w,
            pos,
            c,
            walk(d.push(fresh_state(d, last)), last, c, d.len() as int).1,
        ),
        splits(d, c, last) == must_split(
            d,
            c,
            walk(d.push(fresh_state(d, last)), last, c, d.len() as int).1,
        ),
{
    let cur = d.len() as int;
    let n = w.len() as int;
    let d1 = d.push(fresh_state(d, last));
    lemma_same_refl(w, n, n);
    assert(ends_text(d, w, pos, last));
    assert forall|v: int| 0 <= v < d.len() implies #[trigger] d1[v] == half_walked(
        d,
        w,
        pos,
        c,
        len_of(d, last),
        v,
    ) by {
        assert(pos[v] <= n);
    }
    assert(none_above(d, w, pos, c, len_of(d, last))) by {
        assert forall|v: int|
            0 <= v < d.len() && #[trigger] ends_text(d, w, pos, v) && len_of(d, v) > len_of(
                d,
                last,
            ) implies !d[v].next.contains_key(c) by {
            assert(pos[v] <= n);
        }
    }
    lemma_walk_sem(d, w, pos, c, d1, last);
    let (d2, stop) = walk(d1, last, c, cur);
    lemma_stop_facts(d, w, pos, wit, last, c, stop);
    let r = extend_view(d, c, last);
    let s = stepped(d, w, pos, c, stop);
    match stop {
        None => {
            assert(r =~= s);
        },
        Some(p) => {
            let q = d[p].next[c];
            assert(d2[p] == d[p]);
            assert(d2[q].length == d[q].length);
            assert(edge_fits(d, w, pos, p, c));
            assert(d2[q].link == d[q].link);
            assert(len_at(d2, d2[q].link->0) == len_of(d, link(d, q)));
            if len_of(d, q) == len_of(d, p) + 1 {
                assert(r =~= s);
            } else {
                let clone = cur + 1;
                let d4 = split_view(d, c, last);
                assert(d4.len() == d.len() + 2);
                assert(clone_state(d2, p, q) == copy_state(d, w, pos, c, p, q));
                assert forall|v: int| 0 <= v < d.len() implies #[trigger] d4[v] == part_redirected(
                    d,
                    w,
                    pos,
                    c,
                    p,
                    q,
                    len_of(d, p),
                    v,
                ) by {}
                lemma_same_refl(w, pos[p], len_of(d, p));
                assert(suffix_of(d, w, pos, p, p));
                lemma_redirect_sem(d, w, pos, c, p, d4, p);
                assert(r == redirect(d4, p, c, q, clone));
                assert(r =~= s);
            }
        },
    }
}

/// What the proofs about one extension share: the automaton of the text so
/// far, and the state at which the walk stops.
pub open spec fn ctx(
    d: DawgView,
    w: Seq<Token>,
    pos: Seq<int>,
    wit: Seq<int>,
    last: int,
    c: Token,
    stop: Option<int>,
) -> bool {
    &&& is_automaton_of(d, w, pos, wit, last)
    &&& stop_ok(d, w, pos, c, stop)
    &&& wf_view(stepped(d, w, pos, c, stop))
}

/// Where the longest strings of the states end after the extension.
pub open spec fn next_pos(d: DawgView, w: Seq<Token>, pos: Seq<int>, c: Token, stop: Option<int>) -> Seq<int> {
    if must_split(d, c, stop) {
        pos.push(w.len() as int + 1).push(pos[target_of(d, c, stop)])
    } else {
        pos.push(w.len() as int + 1)
    }
}

/// Where the strings just too short for the states occur alone after the
/// extension.
pub open spec fn next_wit(
    d: DawgView,
    w: Seq<Token>,
    pos: Seq<int>,
    wit: Seq<int>,
    c: Token,
    stop: Option<int>,
) -> Seq<int> {
    match stop {
        None => wit.push(0),
        Some(p) => {
            let q = target_of(d, c, stop);
            if must_split(d, c, stop) {
                wit.update(q, w.len() as int + 1).push(pos[q]).push(wit[q])
            } else {
                wit.push(pos[q])
            }
        },
    }
}

/// The longest string of the stop state with `c` after it ends the longer
/// text, and it ends the longest string of the state that the transition
/// leads to.
pub proof fn lemma_new_suffix(
    d: DawgView,
    w: Seq<Token>,
    pos: Seq<int>,
    wit: Seq<int>,
    last: int,
    c: Token,
    stop: Option<int>,
)
    requires
        ctx(d, w, pos, wit, last, c, stop),
        stop is Some,
    ensures
        same(
            w.push(c),
            w.len() as int + 1,
            pos[target_of(d, c, stop)],
            len_of(d, stop->0) + 1,
        ),
        0 < target_of(d, c, stop) < d.len(),
        0 <= stop->0 < d.len(),
        len_of(d, link(d, target_of(d, c, stop))) < len_of(d, stop->0) + 1 <= len_of(
            d,
            target_of(d, c, stop),
        ),
        len_of(d, stop->0) < w.len(),
        0 < pos[target_of(d, c, stop)] <= w.len(),
        link_ok(d, target_of(d, c, stop)),
{
    let n = w.len() as int;
    let w2 = w.push(c);
    let p = stop->0;
    let q = target_of(d, c, stop);
    lemma_stop_facts(d, w, pos, wit, last, c, stop);
    let lp = len_of(d, p);
    // the longest string of p ends the text and ends just before the place of q
    lemma_same_sym(w, pos[q] - 1, pos[p], lp);
    lemma_same_via(w, n, pos[p], pos[q] - 1, lp, lp, lp);
    lemma_same_push(w, c, n, pos[q] - 1, lp);
    assert(w2[n] == c);
    assert(w2[pos[q] - 1] == c);
    lemma_same_step(w2, n, pos[q] - 1, lp);
}

/// A string that ends the longer text and occurs in the text so far is no
/// longer than the longest string of the stop state with `c` after it.
pub proof fn lemma_occurs_before(
    d: DawgView,
    w: Seq<Token>,
    pos: Seq<int>,
    wit: Seq<int>,
    last: int,
    c: Token,
    stop: Option<int>,
    j: int,
    len: int,
)
    requires
        ctx(d, w, pos, wit, last, c, stop),
        j <= w.len(),
        1 <= len,
        same(w.push(c), j, w.len() as int + 1, len),
    ensures
        stop is Some,
        len <= len_of(d, stop->0) + 1,
{
    let n = w.len() as int;
    let w2 = w.push(c);
    lemma_same_bounds(w2, j, n + 1, len);
    lemma_same_step(w2, j - 1, n, len - 1);
    lemma_same_push(w, c, j - 1, n, len - 1);
    assert(w2[j - 1] == w[j - 1]);
    assert(w2[n] == c);
    lemma_old_suffix(d, w, pos, c, last, stop, len - 1, j - 1);
}

/// The shape of the automaton after the extension, state by state.
pub proof fn lemma_shape(
    d: DawgView,
    w: Seq<Token>,
    pos: Seq<int>,
    wit: Seq<int>,
    last: int,
    c: Token,
    stop: Option<int>,
)
    requires
        ctx(d, w, pos, wit, last, c, stop),
    ensures
        ({
            let d2 = stepped(d, w, pos, c, stop);
            let np = next_pos(d, w, pos, c, stop);
            let cur = d.len() as int;
            &&& np.len() == d2.len()
            &&& next_wit(d, w, pos, wit, c, stop).len() == d2.len()
            &&& d2.len() == d.len() + if must_split(d, c, stop) {
                2int
            } else {
                1int
            }
            &&& forall|v: int|
                0 <= v < d.len() ==> {
                    &&& len_of(d2, v) == len_of(d, v)
                    &&& #[trigger] np[v] == pos[v]
                    &&& 0 <= pos[v] <= w.len()
                    &&& len_of(d, v) <= pos[v]
                }
            &&& forall|v: int|
                0 <= v < d.len() && !(must_split(d, c, stop) && v == target_of(d, c, stop))
                    ==> #[trigger] link(d2, v) == link(d, v)
            &&& len_of(d2, cur) == w.len() as int + 1
            &&& np[cur] == w.len() as int + 1
            &&& stop is None ==> link(d2, cur) == 0
            &&& stop is Some && !must_split(d, c, stop) ==> link(d2, cur) == target_of(d, c, stop)
            &&& must_split(d, c, stop) ==> {
                &&& link(d2, cur) == cur + 1
                &&& link(d2, target_of(d, c, stop)) == cur + 1
                &&& link(d2, cur + 1) == link(d, target_of(d, c, stop))
                &&& len_of(d2, cur + 1) == len_of(d, stop->0) + 1
                &&& np[cur + 1] == pos[target_of(d, c, stop)]
            }
        }),
{
    let d2 = stepped(d, w, pos, c, stop);
    let np = next_pos(d, w, pos, c, stop);
    assert forall|v: int| 0 <= v < d.len() implies {
        &&& len_of(d2, v) == len_of(d, v)
        &&& #[trigger] np[v] == pos[v]
        &&& 0 <= pos[v] <= w.len()
        &&& len_of(d, v) <= pos[v]
    } by {
        assert(d[v].length <= pos[v] <= w.len());
    }
}

/// After the extension each state still has an occurrence of its longest
/// string, and the longest string of its link ends it.
pub proof fn lemma_step_link(
    d: DawgView,
    w: Seq<Token>,
    pos: Seq<int>,
    wit: Seq<int>,
    last: int,
    c: Token,
    stop: Option<int>,
)
    requires
        ctx(d, w, pos, wit, last, c, stop),
    ensures
        inv_pos(stepped(d, w, pos, c, stop), w.push(c), next_pos(d, w, pos, c, stop)),
        inv_link(stepped(d, w, pos, c, stop), w.push(c), next_pos(d, w, pos, c, stop)),
{
    let n = w.len() as int;
    let w2 = w.push(c);
    let d2 = stepped(d, w, pos, c, stop);
    let np = next_pos(d, w, pos, c, stop);
    let cur = d.len() as int;
    lemma_shape(d, w, pos, wit, last, c, stop);
    if stop is Some {
        lemma_new_suffix(d, w, pos, wit, last, c, stop);
    }
    assert forall|v: int| 0 <= v < d2.len() implies d2[v].length <= #[trigger] np[v] <= w2.len() by {
        if v < d.len() {
            assert(np[v] == pos[v]);
        }
    }
    assert forall|v: int| 0 < v < d2.len() implies #[trigger] suffix_of(d2, w2, np, link(d2, v), v) by {
        assert(link_ok(d2, v));
        if v < d.len() {
            assert(np[v] == pos[v]);
            if must_split(d, c, stop) && v == target_of(d, c, stop) {
                lemma_same_refl(w2, pos[v], len_of(d, stop->0) + 1);
            } else {
                lemma_link(d, w, pos, v);
                let l = link(d, v);
                assert(np[l] == pos[l]);
                lemma_same_push(w, c, pos[v], pos[l], len_of(d, l));
            }
        } else if v == cur {
            if stop is None {
                assert(np[0] == pos[0]);
                lemma_same_zero(w2, n + 1, pos[0]);
            } else {
                let q = target_of(d, c, stop);
                assert(np[q] == pos[q]);
            }
        } else {
            let q = target_of(d, c, stop);
            lemma_link(d, w, pos, q);
            let l = link(d, q);
            assert(np[l] == pos[l]);
            lemma_same_push(w, c, pos[q], pos[l], len_of(d, l));
        }
    }
}

/// After the extension, the longest string of an old state still occurs
/// wherever its shortest does.
proof fn lemma_closed_old(
    d: DawgView,
    w: Seq<Token>,
    pos: Seq<int>,
    wit: Seq<int>,
    last: int,
    c: Token,
    stop: Option<int>,
    v: int,
    i: int,
)
    requires
        ctx(d, w, pos, wit, last, c, stop),
        0 < v < d.len(),
        !(must_split(d, c, stop) && v == target_of(d, c, stop)),
        same(w.push(c), i, pos[v], min_len(d, v)),
    ensures
        same(w.push(c), i, pos[v], len_of(d, v)),
{
    let n = w.len() as int;
    let w2 = w.push(c);
    let m = min_len(d, v);
    lemma_link(d, w, pos, v);
    lemma_same_bounds(w2, i, pos[v], m);
    assert(pos[v] <= n);
    if i <= n {
        lemma_same_push(w, c, i, pos[v], m);
        assert(min_at(d, w, pos, v, i));
        assert(rep_at(d, w, pos, v, i));
        lemma_same_push(w, c, i, pos[v], len_of(d, v));
    } else {
        lemma_same_sym(w2, i, pos[v], m);
        lemma_occurs_before(d, w, pos, wit, last, c, stop, pos[v], m);
        lemma_new_suffix(d, w, pos, wit, last, c, stop);
        let p = stop->0;
        let q = target_of(d, c, stop);
        let lp = len_of(d, p);
        lemma_same_sym(w2, n + 1, pos[q], lp + 1);
        lemma_same_via(w2, pos[q], n + 1, pos[v], lp + 1, m, m);
        lemma_same_push(w, c, pos[q], pos[v], m);
        let y = lemma_cover(d, w, pos, q, m);
        lemma_same_shorter(w, pos[q], pos[y], len_of(d, y), m);
        lemma_one_state(d, w, pos, y, v, pos[q], m);
        assert(suffix_of(d, w, pos, v, q));
        lemma_same_push(w, c, pos[q], pos[v], len_of(d, v));
        lemma_same_sym(w2, pos[q], n + 1, lp + 1);
        lemma_same_via(w2, n + 1, pos[q], pos[v], lp + 1, len_of(d, v), len_of(d, v));
    }
}

/// After a split, the longest string of the split state occurs wherever its
/// new shortest string does.
proof fn lemma_closed_split(
    d: DawgView,
    w: Seq<Token>,
    pos: Seq<int>,
    wit: Seq<int>,
    last: int,
    c: Token,
    stop: Option<int>,
    i: int,
)
    requires
        ctx(d, w, pos, wit, last, c, stop),
        must_split(d, c, stop),
        same(w.push(c), i, pos[target_of(d, c, stop)], len_of(d, stop->0) + 2),
    ensures
        same(w.push(c), i, pos[target_of(d, c, stop)], len_of(d, target_of(d, c, stop))),
{
    let n = w.len() as int;
    let w2 = w.push(c);
    let p = stop->0;
    let q = target_of(d, c, stop);
    let lp = len_of(d, p);
    lemma_new_suffix(d, w, pos, wit, last, c, stop);
    lemma_same_bounds(w2, i, pos[q], lp + 2);
    if i <= n {
        lemma_same_push(w, c, i, pos[q], lp + 2);
        lemma_closed(d, w, pos, q, i, lp + 2);
        lemma_same_push(w, c, i, pos[q], len_of(d, q));
    } else {
        lemma_same_sym(w2, i, pos[q], lp + 2);
        lemma_occurs_before(d, w, pos, wit, last, c, stop, pos[q], lp + 2);
    }
}

/// After the extension, the shortest string of the new state occurs only at
/// the end of the text.
proof fn lemma_closed_new(
    d: DawgView,
    w: Seq<Token>,
    pos: Seq<int>,
    wit: Seq<int>,
    last: int,
    c: Token,
    stop: Option<int>,
    i: int,
    len: int,
)
    requires
        ctx(d, w, pos, wit, last, c, stop),
        stop is None ==> len == 1,
        stop is Some ==> len == len_of(d, stop->0) + 2,
        same(w.push(c), i, w.len() as int + 1, len),
    ensures
        i == w.len() + 1,
{
    let n = w.len() as int;
    let w2 = w.push(c);
    lemma_same_bounds(w2, i, n + 1, len);
    if i <= n {
        lemma_occurs_before(d, w, pos, wit, last, c, stop, i, len);
    }
}

/// After a split, the longest string of the copy occurs wherever its
/// shortest does.
proof fn lemma_closed_copy(
    d: DawgView,
    w: Seq<Token>,
    pos: Seq<int>,
    wit: Seq<int>,
    last: int,
    c: Token,
    stop: Option<int>,
    i: int,
)
    requires
        ctx(d, w, pos, wit, last, c, stop),
        must_split(d, c, stop),
        same(w.push(c), i, pos[target_of(d, c, stop)], min_len(d, target_of(d, c, stop))),
    ensures
        same(w.push(c), i, pos[target_of(d, c, stop)], len_of(d, stop->0) + 1),
{
    let n = w.len() as int;
    let w2 = w.push(c);
    let p = stop->0;
    let q = target_of(d, c, stop);
    let lp = len_of(d, p);
    lemma_new_suffix(d, w, pos, wit, last, c, stop);
    lemma_same_bounds(w2, i, pos[q], min_len(d, q));
    if i <= n {
        lemma_same_push(w, c, i, pos[q], min_len(d, q));
        assert(min_at(d, w, pos, q, i));
        assert(rep_at(d, w, pos, q, i));
        lemma_same_shorter(w, i, pos[q], len_of(d, q), lp + 1);
        lemma_same_push(w, c, i, pos[q], lp + 1);
    }
}

/// After the extension, the longest string of every state occurs wherever
/// its shortest does.
pub proof fn lemma_step_closed(
    d: DawgView,
    w: Seq<Token>,
    pos: Seq<int>,
    wit: Seq<int>,
    last: int,
    c: Token,
    stop: Option<int>,
)
    requires
        ctx(d, w, pos, wit, last, c, stop),
    ensures
        inv_closed(stepped(d, w, pos, c, stop), w.push(c), next_pos(d, w, pos, c, stop)),
{
    let n = w.len() as int;
    let w2 = w.push(c);
    let d2 = stepped(d, w, pos, c, stop);
    let np = next_pos(d, w, pos, c, stop);
    let cur = d.len() as int;
    lemma_shape(d, w, pos, wit, last, c, stop);
    if stop is Some {
        lemma_new_suffix(d, w, pos, wit, last, c, stop);
    }
    assert forall|v: int, i: int| 0 < v < d2.len() && #[trigger] min_at(d2, w2, np, v, i) implies rep_at(
        d2,
        w2,
        np,
        v,
        i,
    ) by {
        assert(link_ok(d2, v));
        if v < d.len() {
            assert(np[v] == pos[v]);
            if must_split(d, c, stop) && v == target_of(d, c, stop) {
                lemma_closed_split(d, w, pos, wit, last, c, stop, i);
            } else {
                assert(link(d2, v) == link(d, v));
                lemma_link(d, w, pos, v);
                assert(np[link(d, v)] == pos[link(d, v)]);
                lemma_closed_old(d, w, pos, wit, last, c, stop, v, i);
            }
        } else if v == cur {
            if stop is Some {
                let q = target_of(d, c, stop);
                assert(np[q] == pos[q]);
            }
            lemma_closed_new(d, w, pos, wit, last, c, stop, i, min_len(d2, v));
            lemma_same_refl(w2, n + 1, n + 1);
        } else {
            let q = target_of(d, c, stop);
            lemma_link(d, w, pos, q);
            assert(np[link(d, q)] == pos[link(d, q)]);
            lemma_closed_copy(d, w, pos, wit, last, c, stop, i);
        }
    }
}

/// After the extension, the strings of every state's link still occur where
/// those of the state do not.
pub proof fn lemma_step_strict(
    d: DawgView,
    w: Seq<Token>,
    pos: Seq<int>,
    wit: Seq<int>,
    last: int,
    c: Token,
    stop: Option<int>,
)
    requires
        ctx(d, w, pos, wit, last, c, stop),
    ensures
        inv_strict(
            stepped(d, w, pos, c, stop),
            w.push(c),
            next_pos(d, w, pos, c, stop),
            next_wit(d, w, pos, wit, c, stop),
        ),
{
    let n = w.len() as int;
    let w2 = w.push(c);
    let d2 = stepped(d, w, pos, c, stop);
    let np = next_pos(d, w, pos, c, stop);
    let t2 = next_wit(d, w, pos, wit, c, stop);
    let cur = d.len() as int;
    lemma_shape(d, w, pos, wit, last, c, stop);
    if stop is Some {
        lemma_new_suffix(d, w, pos, wit, last, c, stop);
    }
    assert forall|v: int| 0 < v < d2.len() implies #[trigger] strict_at(d2, w2, np, t2, v) by {
        assert(link_ok(d2, v));
        if v < d.len() {
            assert(np[v] == pos[v]);
            if must_split(d, c, stop) && v == target_of(d, c, stop) {
                let lp = len_of(d, stop->0);
                assert(t2[v] == n + 1);
                if same(w2, n + 1, pos[v], lp + 2) {
                    lemma_same_sym(w2, n + 1, pos[v], lp + 2);
                    lemma_occurs_before(d, w, pos, wit, last, c, stop, pos[v], lp + 2);
                }
            } else {
                assert(t2[v] == wit[v]);
                lemma_link(d, w, pos, v);
                let l = link(d, v);
                assert(np[l] == pos[l]);
                assert(strict_at(d, w, pos, wit, v));
                lemma_same_bounds(w, wit[v], pos[l], len_of(d, l));
                lemma_same_push(w, c, wit[v], pos[l], len_of(d, l));
                lemma_same_push(w, c, wit[v], pos[v], min_len(d, v));
            }
        } else if v == cur {
            if stop is None {
                assert(np[0] == pos[0]);
                lemma_same_zero(w2, 0, pos[0]);
                if same(w2, 0, n + 1, 1) {
                    lemma_same_bounds(w2, 0, n + 1, 1);
                }
            } else {
                let q = target_of(d, c, stop);
                let lp = len_of(d, stop->0);
                assert(np[q] == pos[q]);
                assert(t2[v] == pos[q]);
                lemma_same_refl(w2, pos[q], lp + 1);
                if same(w2, pos[q], n + 1, lp + 2) {
                    lemma_occurs_before(d, w, pos, wit, last, c, stop, pos[q], lp + 2);
                }
            }
        } else {
            let q = target_of(d, c, stop);
            lemma_link(d, w, pos, q);
            let l = link(d, q);
            assert(np[l] == pos[l]);
            assert(t2[v] == wit[q]);
            assert(strict_at(d, w, pos, wit, q));
            lemma_same_bounds(w, wit[q], pos[l], len_of(d, l));
            lemma_same_push(w, c, wit[q], pos[l], len_of(d, l));
            lemma_same_push(w, c, wit[q], pos[q], min_len(d, q));
        }
    }
}

/// After the extension, a state whose longest string ends that of another
/// still lies at or beyond the other's link.
pub proof fn lemma_step_unique(
    d: DawgView,
    w: Seq<Token>,
    pos: Seq<int>,
    wit: Seq<int>,
    last: int,
    c: Token,
    stop: Option<int>,
)
    requires
        ctx(d, w, pos, wit, last, c, stop),
    ensures
        inv_unique(stepped(d, w, pos, c, stop), w.push(c), next_pos(d, w, pos, c, stop)),
{
    let n = w.len() as int;
    let w2 = w.push(c);
    let d2 = stepped(d, w, pos, c, stop);
    let np = next_pos(d, w, pos, c, stop);
    let cur = d.len() as int;
    lemma_shape(d, w, pos, wit, last, c, stop);
    if stop is Some {
        lemma_new_suffix(d, w, pos, wit, last, c, stop);
    }
    assert forall|u: int, v: int|
        0 <= u < d2.len() && 0 <= v < d2.len() && u != v && #[trigger] suffix_of(
            d2,
            w2,
            np,
            u,
            v,
        ) implies v != 0 && len_of(d2, u) <= len_of(d2, link(d2, v)) by {
        if v != 0 {
            assert(link_ok(d2, v));
        }
        if u < d.len() {
            assert(np[u] == pos[u]);
        }
        if v < d.len() {
            assert(np[v] == pos[v]);
        }
        if u < d.len() && v < d.len() {
            lemma_same_push(w, c, pos[v], pos[u], len_of(d, u));
            assert(suffix_of(d, w, pos, u, v));
            lemma_link(d, w, pos, v);
        } else if v == cur && u < d.len() {
            if u != 0 {
                assert(link_ok(d, u));
                lemma_same_sym(w2, n + 1, pos[u], len_of(d, u));
                lemma_occurs_before(d, w, pos, wit, last, c, stop, pos[u], len_of(d, u));
            }
        } else if u == cur {
            // the new state is longer than every other
        } else if v == cur + 1 && u < d.len() {
            let q = target_of(d, c, stop);
            lemma_same_push(w, c, pos[q], pos[u], len_of(d, u));
            assert(suffix_of(d, w, pos, u, q));
        } else if u == cur + 1 && v < d.len() {
            let q = target_of(d, c, stop);
            let lp = len_of(d, stop->0);
            if v != q {
                assert(d[0].length == 0);
                assert(v != 0);
                lemma_link(d, w, pos, v);
                if len_of(d, link(d, v)) < lp + 1 {
                    lemma_same_push(w, c, pos[v], pos[q], lp + 1);
                    lemma_same_sym(w, pos[v], pos[q], lp + 1);
                    lemma_same_refl(w, pos[q], lp + 1);
                    lemma_one_state(d, w, pos, v, q, pos[q], lp + 1);
                }
            }
        } else {
        }
    }
}

/// The transitions of the automaton after the extension, state by state.
pub proof fn lemma_shape_next(
    d: DawgView,
    w: Seq<Token>,
    pos: Seq<int>,
    wit: Seq<int>,
    last: int,
    c: Token,
    stop: Option<int>,
)
    requires
        ctx(d, w, pos, wit, last, c, stop),
    ensures
        ({
            let d2 = stepped(d, w, pos, c, stop);
            let cur = d.len() as int;
            &&& forall|v: int, a: Token|
                0 <= v < d.len() ==> (#[trigger] d2[v].next.contains_key(a) <==> (d[v].next.contains_key(a)
                    || (lacks(d, w, pos, c, v) && a == c)))
            &&& forall|v: int, a: Token|
                0 <= v < d.len() && #[trigger] d2[v].next.contains_key(a) ==> d2[v].next[a] == if lacks(
                    d,
                    w,
                    pos,
                    c,
                    v,
                ) && a == c {
                    cur
                } else if must_split(d, c, stop) && a == c && redirected(
                    d,
                    c,
                    stop->0,
                    target_of(d, c, stop),
                    v,
                ) {
                    cur + 1
                } else {
                    d[v].next[a]
                }
            &&& forall|a: Token| !(#[trigger] d2[cur].next.contains_key(a))
            &&& must_split(d, c, stop) ==> {
                &&& forall|a: Token| #[trigger]
                    d2[cur + 1].next.contains_key(a) <==> (d[target_of(d, c, stop)].next.contains_key(a)
                        || (lacks(d, w, pos, c, target_of(d, c, stop)) && a == c))
                &&& forall|a: Token| #[trigger]
                    d2[cur + 1].next.contains_key(a) ==> d2[cur + 1].next[a] == if lacks(
                        d,
                        w,
                        pos,
                        c,
                        target_of(d, c, stop),
                    ) && a == c {
                        cur
                    } else {
                        d[target_of(d, c, stop)].next[a]
                    }
            }
        }),
{
}

/// After the extension, a state has a transition under a token exactly if
/// the token follows its longest string somewhere in the longer text.
pub proof fn lemma_step_next(
    d: DawgView,
    w: Seq<Token>,
    pos: Seq<int>,
    wit: Seq<int>,
    last: int,
    c: Token,
    stop: Option<int>,
)
    requires
        ctx(d, w, pos, wit, last, c, stop),
    ensures
        inv_next(stepped(d, w, pos, c, stop), w.push(c), next_pos(d, w, pos, c, stop)),
{
    let n = w.len() as int;
    let w2 = w.push(c);
    let d2 = stepped(d, w, pos, c, stop);
    let np = next_pos(d, w, pos, c, stop);
    let cur = d.len() as int;
    lemma_shape(d, w, pos, wit, last, c, stop);
    lemma_shape_next(d, w, pos, wit, last, c, stop);
    if stop is Some {
        lemma_new_suffix(d, w, pos, wit, last, c, stop);
    }
    assert forall|v: int, a: Token| 0 <= v < d2.len() implies (#[trigger] d2[v].next.contains_key(a)
        <==> can_follow(d2, w2, np, v, a)) by {
        // the old state whose transitions v has, and the length of v
        let o = if v < d.len() {
            v
        } else {
            target_of(d, c, stop)
        };
        let lv = len_of(d2, v);
        if v != cur {
            assert(np[o] == pos[o]);
            assert(np[v] == pos[o]);
            assert(lv <= len_of(d, o));
            assert(o != 0 ==> min_len(d, o) <= lv) by {
                if o != 0 {
                    lemma_link(d, w, pos, o);
                }
            }
            assert(d2[v].next.contains_key(a) <==> (d[o].next.contains_key(a) || (lacks(d, w, pos, c, o)
                && a == c)));
            if d2[v].next.contains_key(a) {
                if d[o].next.contains_key(a) {
                    assert(can_follow(d, w, pos, o, a));
                    let i = choose|i: int| #[trigger] follows_at(d, w, pos, o, a, i);
                    lemma_same_shorter(w, i, pos[o], len_of(d, o), lv);
                    lemma_same_push(w, c, i, pos[o], lv);
                    assert(follows_at(d2, w2, np, v, a, i));
                } else {
                    lemma_same_shorter(w, n, pos[o], len_of(d, o), lv);
                    lemma_same_push(w, c, n, pos[o], lv);
                    assert(follows_at(d2, w2, np, v, a, n));
                }
            }
            if can_follow(d2, w2, np, v, a) {
                let i = choose|i: int| #[trigger] follows_at(d2, w2, np, v, a, i);
                lemma_same_push(w, c, i, pos[o], lv);
                lemma_closed(d, w, pos, o, i, lv);
                if i < n {
                    assert(follows_at(d, w, pos, o, a, i));
                    assert(can_follow(d, w, pos, o, a));
                } else {
                    assert(ends_text(d, w, pos, o));
                }
            }
        } else {
            if can_follow(d2, w2, np, v, a) {
                let i = choose|i: int| #[trigger] follows_at(d2, w2, np, v, a, i);
                lemma_same_bounds(w2, i, n + 1, n + 1);
            }
        }
    }
}

/// Every string of a state, with the token of one of its transitions after
/// it, belongs to the state that the transition leads to.
pub proof fn lemma_edge_member(
    d: DawgView,
    w: Seq<Token>,
    pos: Seq<int>,
    wit: Seq<int>,
    last: int,
    v: int,
    a: Token,
    len: int,
)
    requires
        is_automaton_of(d, w, pos, wit, last),
        0 <= v < d.len(),
        d[v].next.contains_key(a),
        0 <= len <= len_of(d, v),
        v != 0 ==> min_len(d, v) <= len,
    ensures
        len_of(d, link(d, d[v].next[a])) < len + 1,
{
    let u = d[v].next[a];
    let lv = len_of(d, v);
    assert(edge_fits(d, w, pos, v, a));
    assert(0 < u < d.len());
    lemma_link(d, w, pos, u);
    let z = link(d, u);
    if len_of(d, z) >= len + 1 {
        let i0 = wit[u];
        assert(strict_at(d, w, pos, wit, u));
        lemma_same_sym(w, pos[u], pos[z], len_of(d, z));
        lemma_same_via(w, i0, pos[z], pos[u], len_of(d, z), len_of(d, z), len + 1);
        lemma_same_bounds(w, i0, pos[u], len + 1);
        lemma_same_step(w, i0 - 1, pos[u] - 1, len);
        lemma_same_via(w, i0 - 1, pos[u] - 1, pos[v], len, lv, len);
        lemma_closed(d, w, pos, v, i0 - 1, len);
        lemma_same_sym(w, pos[u] - 1, pos[v], lv);
        lemma_same_via(w, i0 - 1, pos[v], pos[u] - 1, lv, lv, lv);
        lemma_same_step(w, i0 - 1, pos[u] - 1, lv);
        lemma_closed(d, w, pos, u, i0, lv + 1);
        lemma_same_shorter(w, i0, pos[u], len_of(d, u), min_len(d, u));
    }
}

/// After the extension every transition leads to the right state.
pub proof fn lemma_step_edges(
    d: DawgView,
    w: Seq<Token>,
    pos: Seq<int>,
    wit: Seq<int>,
    last: int,
    c: Token,
    stop: Option<int>,
)
    requires
        ctx(d, w, pos, wit, last, c, stop),
    ensures
        inv_edges(stepped(d, w, pos, c, stop), w.push(c), next_pos(d, w, pos, c, stop)),
{
    let n = w.len() as int;
    let w2 = w.push(c);
    let d2 = stepped(d, w, pos, c, stop);
    let np = next_pos(d, w, pos, c, stop);
    let cur = d.len() as int;
    lemma_shape(d, w, pos, wit, last, c, stop);
    lemma_shape_next(d, w, pos, wit, last, c, stop);
    if stop is Some {
        lemma_new_suffix(d, w, pos, wit, last, c, stop);
    }
    assert forall|v: int, a: Token| 0 <= v < d2.len() && #[trigger] d2[v].next.contains_key(a) implies edge_fits(
        d2,
        w2,
        np,
        v,
        a,
    ) by {
        let o = if v < d.len() {
            v
        } else {
            target_of(d, c, stop)
        };
        let lv = len_of(d2, v);
        let u2 = d2[v].next[a];
        assert(v != cur);
        assert(np[o] == pos[o]);
        assert(np[v] == pos[o]);
        assert(lv <= len_of(d, o));
        assert(o != 0 ==> min_len(d, o) <= lv) by {
            if o != 0 {
                lemma_link(d, w, pos, o);
            }
        }
        assert(0 < u2 < d2.len());
        assert(link_ok(d2, u2));
        if lacks(d, w, pos, c, o) && a == c {
            // a new transition, to the new state
            assert(u2 == cur);
            assert(w2[n] == c);
            assert(np[0] == pos[0]);
            if stop is Some {
                assert(np[target_of(d, c, stop)] == pos[target_of(d, c, stop)]);
            }
            lemma_same_shorter(w, n, pos[o], len_of(d, o), lv);
            lemma_same_push(w, c, n, pos[o], lv);
            if stop is Some {
                let p = stop->0;
                if len_of(d, o) <= len_of(d, p) {
                    lemma_comparable(d, w, pos, o, p, n);
                    lemma_follow_down(d, w, pos, o, p, c);
                }
            }
        } else {
            let u = d[o].next[a];
            assert(edge_fits(d, w, pos, o, a));
            assert(0 < u < d.len());
            assert(np[u] == pos[u]);
            assert(w2[pos[u] - 1] == w[pos[u] - 1]);
            lemma_same_shorter(w, pos[u] - 1, pos[o], len_of(d, o), lv);
            lemma_same_push(w, c, pos[u] - 1, pos[o], lv);
            lemma_edge_member(d, w, pos, wit, last, o, a, lv);
            lemma_link(d, w, pos, u);
            assert(np[link(d, u)] == pos[link(d, u)]);
            if must_split(d, c, stop) {
                let p = stop->0;
                let q = target_of(d, c, stop);
                assert(edge_fits(d, w, pos, p, c));
                assert(np[cur + 1] == pos[q]);
                if u == q {
                    assert(a == c);
                    if v < d.len() && redirected(d, c, p, q, v) {
                        assert(u2 == cur + 1);
                    } else {
                        assert(u2 == q);
                    }
                } else {
                    assert(u2 == u);
                    assert(link(d2, u) == link(d, u));
                }
            } else {
                assert(u2 == u);
                assert(link(d2, u) == link(d, u));
            }
        }
    }
}

/// Extending the automaton of a text by a token gives the automaton of the
/// text with the token appended. Returns where the longest strings of the
/// states end in the longer text, and where the strings just too short for
/// them occur alone.
pub proof fn lemma_extend_automaton(
    d: DawgView,
    w: Seq<Token>,
    pos: Seq<int>,
    wit: Seq<int>,
    last: int,
    c: Token,
) -> (r: (Seq<int>, Seq<int>))
    requires
        is_automaton_of(d, w, pos, wit, last),
    ensures
        can_extend(d, c, last),
        is_automaton_of(extend_view(d, c, last), w.push(c), r.0, r.1, d.len() as int),
        r.0 == next_pos(d, w, pos, c, walk(d.push(fresh_state(d, last)), last, c, d.len() as int).1),
{
    lemma_stepped(d, w, pos, wit, last, c);
    lemma_extend_wf(d, c, last);
    let stop = walk(d.push(fresh_state(d, last)), last, c, d.len() as int).1;
    assert(ctx(d, w, pos, wit, last, c, stop));
    lemma_shape(d, w, pos, wit, last, c, stop);
    lemma_step_link(d, w, pos, wit, last, c, stop);
    lemma_step_closed(d, w, pos, wit, last, c, stop);
    lemma_step_strict(d, w, pos, wit, last, c, stop);
    lemma_step_unique(d, w, pos, wit, last, c, stop);
    lemma_step_next(d, w, pos, wit, last, c, stop);
    lemma_step_edges(d, w, pos, wit, last, c, stop);
    (next_pos(d, w, pos, c, stop), next_wit(d, w, pos, wit, c, stop))
}

/// The state that a string leads to holds the string: its longest string
/// ends with it and occurs wherever it occurs. And every string that occurs
/// in the text leads to a state.
pub proof fn lemma_run(d: DawgView, w: Seq<Token>, pos: Seq<int>, wit: Seq<int>, last: int, t: Seq<Token>)
    requires
        is_automaton_of(d, w, pos, wit, last),
    ensures
        run(d, t) matches Some(v) ==> {
            &&& 0 <= v < d.len()
            &&& t.len() <= len_of(d, v)
            &&& ends_at(w, t, pos[v])
            &&& forall|i: int| #[trigger] ends_at(w, t, i) ==> rep_at(d, w, pos, v, i)
        },
        is_substring(t, w) ==> run(d, t) is Some,
    decreases t.len(),
{
    if t.len() == 0 {
        assert(0 <= pos[0] <= w.len());
        assert(w.subrange(pos[0] - 0, pos[0]) =~= t);
        assert forall|i: int| #[trigger] ends_at(w, t, i) implies rep_at(d, w, pos, 0, i) by {
            lemma_same_zero(w, i, pos[0]);
        }
    } else {
        let t0 = t.drop_last();
        let a = t.last();
        lemma_run(d, w, pos, wit, last, t0);
        if run(d, t) is Some {
            let v = run(d, t0)->0;
            let u = d[v].next[a];
            let lv = len_of(d, v);
            assert(run(d, t) == Some(u));
            assert(edge_fits(d, w, pos, v, a));
            assert(0 < u < d.len());
            lemma_same_shorter(w, pos[u] - 1, pos[v], lv, t0.len() as int);
            lemma_same_ends(w, t0, pos[v], pos[u] - 1);
            lemma_ends_drop_last(w, t, pos[u]);
            assert forall|i: int| #[trigger] ends_at(w, t, i) implies rep_at(d, w, pos, u, i) by {
                lemma_ends_drop_last(w, t, i);
                assert(rep_at(d, w, pos, v, i - 1));
                lemma_same_sym(w, pos[u] - 1, pos[v], lv);
                lemma_same_via(w, i - 1, pos[v], pos[u] - 1, lv, lv, lv);
                lemma_same_step(w, i - 1, pos[u] - 1, lv);
                lemma_closed(d, w, pos, u, i, lv + 1);
            }
        }
        if is_substring(t, w) {
            let i = choose|i: int| ends_at(w, t, i);
            lemma_ends_drop_last(w, t, i);
            assert(is_substring(t0, w));
            let v = run(d, t0)->0;
            assert(rep_at(d, w, pos, v, i - 1));
            assert(follows_at(d, w, pos, v, a, i - 1));
            assert(can_follow(d, w, pos, v, a));
        }
    }
}

/// The automaton of a text can follow exactly the strings that occur in the
/// text.
pub proof fn lemma_language(d: DawgView, w: Seq<Token>, pos: Seq<int>, wit: Seq<int>, last: int, t: Seq<Token>)
    requires
        is_automaton_of(d, w, pos, wit, last),
    ensures
        accepts(d, t) == is_substring(t, w),
{
    lemma_run(d, w, pos, wit, last, t);
}

/// Whether a graph is the automaton of a text does not depend on the counts
/// of its states.
pub proof fn lemma_recount(
    d: DawgView,
    d2: DawgView,
    w: Seq<Token>,
    pos: Seq<int>,
    wit: Seq<int>,
    last: int,
)
    requires
        is_automaton_of(d, w, pos, wit, last),
        wf_view(d2),
        d2.len() == d.len(),
        forall|v: int|
            0 <= v < d.len() ==> (#[trigger] d2[v]).length == d[v].length && d2[v].link == d[v].link
                && d2[v].next == d[v].next,
    ensures
        is_automaton_of(d2, w, pos, wit, last),
{
    assert forall|v: int| 0 <= v < d2.len() implies d2[v].length <= #[trigger] pos[v] <= w.len() by {
        assert(d2[v].length == d[v].length);
    }
    assert forall|v: int| 0 < v < d2.len() implies #[trigger] suffix_of(d2, w, pos, link(d2, v), v) by {
        lemma_link(d, w, pos, v);
        assert(d2[v].length == d[v].length);
        assert(d2[link(d, v)].length == d[link(d, v)].length);
        assert(suffix_of(d, w, pos, link(d, v), v));
    }
    assert forall|v: int, i: int| 0 < v < d2.len() && #[trigger] min_at(d2, w, pos, v, i) implies rep_at(
        d2,
        w,
        pos,
        v,
        i,
    ) by {
        lemma_link(d, w, pos, v);
        assert(d2[v].length == d[v].length);
        assert(d2[link(d, v)].length == d[link(d, v)].length);
        assert(min_at(d, w, pos, v, i));
        assert(rep_at(d, w, pos, v, i));
    }
    assert forall|v: int| 0 < v < d2.len() implies #[trigger] strict_at(d2, w, pos, wit, v) by {
        lemma_link(d, w, pos, v);
        assert(d2[v].length == d[v].length);
        assert(d2[link(d, v)].length == d[link(d, v)].length);
        let l = link(d, v);
        if l != 0 {
            lemma_link(d, w, pos, l);
        }
        assert(strict_at(d, w, pos, wit, v));
    }
    assert forall|u: int, v: int|
        0 <= u < d2.len() && 0 <= v < d2.len() && u != v && #[trigger] suffix_of(
            d2,
            w,
            pos,
            u,
            v,
        ) implies v != 0 && len_of(d2, u) <= len_of(d2, link(d2, v)) by {
        assert(d2[u].length == d[u].length);
        assert(d2[v].length == d[v].length);
        assert(suffix_of(d, w, pos, u, v));
        lemma_link(d, w, pos, v);
        assert(d2[link(d, v)].length == d[link(d, v)].length);
    }
    assert forall|v: int, a: Token| 0 <= v < d2.len() implies (#[trigger] d2[v].next.contains_key(a)
        <==> can_follow(d2, w, pos, v, a)) by {
        assert(d2[v].length == d[v].length);
        assert(d[v].next.contains_key(a) <==> can_follow(d, w, pos, v, a));
        if can_follow(d2, w, pos, v, a) {
            let i = choose|i: int| #[trigger] follows_at(d2, w, pos, v, a, i);
            assert(follows_at(d, w, pos, v, a, i));
        }
        if can_follow(d, w, pos, v, a) {
            let i = choose|i: int| #[trigger] follows_at(d, w, pos, v, a, i);
            assert(follows_at(d2, w, pos, v, a, i));
        }
    }
    assert forall|v: int, a: Token| 0 <= v < d2.len() && #[trigger] d2[v].next.contains_key(a) implies edge_fits(
        d2,
        w,
        pos,
        v,
        a,
    ) by {
        assert(d2[v].length == d[v].length);
        assert(d[v].next.contains_key(a));
        assert(edge_fits(d, w, pos, v, a));
        let u = d[v].next[a];
        assert(0 < u < d.len());
        assert(d2[u].length == d[u].length);
        lemma_link(d, w, pos, u);
        assert(d2[link(d, u)].length == d[link(d, u)].length);
    }
    assert(d2[last].length == d[last].length);
}

/// An extension followed by the recording of an occurrence gives the
/// automaton of the longer text.
pub proof fn lemma_extend_and_count(
    d: DawgView,
    w: Seq<Token>,
    pos: Seq<int>,
    wit: Seq<int>,
    last: int,
    c: Token,
) -> (r: (Seq<int>, Seq<int>))
    requires
        is_automaton_of(d, w, pos, wit, last),
    ensures
        can_extend(d, c, last),
        is_automaton_of(bump(extend_view(d, c, last), d.len() as int), w.push(c), r.0, r.1, d.len() as int),
        bump(extend_view(d, c, last), d.len() as int).len() == extend_view(d, c, last).len(),
        r.0 == next_pos(d, w, pos, c, walk(d.push(fresh_state(d, last)), last, c, d.len() as int).1),
{
    let r = lemma_extend_automaton(d, w, pos, wit, last, c);
    let ev = extend_view(d, c, last);
    lemma_bump(ev, d.len() as int);
    lemma_recount(ev, bump(ev, d.len() as int), w.push(c), r.0, r.1, d.len() as int);
    r
}

/// What is built from a text, token by token, is the automaton of the text.
/// Returns where the longest strings of the states end, and where the
/// strings just too short for them occur alone.
pub proof fn lemma_built(s: Seq<Token>) -> (r: (Seq<int>, Seq<int>))
    ensures
        is_automaton_of(build_view(s), s, r.0, r.1, active(s)),
    decreases s.len(),
{
    if s.len() == 0 {
        let d = empty_view();
        let pos = seq![0int];
        assert(finite_next(d, 0));
        assert(inv_next(d, s, pos)) by {
            assert forall|v: int, a: Token| 0 <= v < d.len() implies (#[trigger] d[v].next.contains_key(a)
                <==> can_follow(d, s, pos, v, a)) by {
                if can_follow(d, s, pos, v, a) {
                    let i = choose|i: int| #[trigger] follows_at(d, s, pos, v, a, i);
                }
            }
        }
        (pos, seq![0int])
    } else {
        let s0 = s.drop_last();
        let (pos, wit) = lemma_built(s0);
        assert(s0.push(s.last()) =~= s);
        lemma_extend_and_count(build_view(s0), s0, pos, wit, active(s0), s.last())
    }
}

/// The automaton built from a text accepts exactly the substrings of the
/// text: it can follow a string from the source exactly if the string
/// occurs in the text.
pub proof fn lemma_accepts_exactly_substrings(s: Seq<Token>, t: Seq<Token>)
    ensures
        accepts(build_view(s), t) == is_substring(t, s),
{
    let (pos, wit) = lemma_built(s);
    lemma_language(build_view(s), s, pos, wit, active(s), t);
}

/// Building never stops because of the automaton's shape: only when the
/// handles or the length counter run out.
pub proof fn lemma_build_stops_only_for_room(s: Seq<Token>)
    ensures
        build_error(s) is None || build_error(s) == Some(ExtendError::OutOfRoom),
    decreases s.len(),
{
    if s.len() > 0 {
        let s0 = s.drop_last();
        lemma_build_stops_only_for_room(s0);
        let (pos, wit) = lemma_built(s0);
        let (pos2, wit2) = lemma_extend_automaton(build_view(s0), s0, pos, wit, active(s0), s.last());
    }
}

/// The automaton of a text has at most two states for each token, and the
/// source; it has no fewer states than the automaton of any shorter text.
pub proof fn lemma_node_count_linear(s: Seq<Token>)
    ensures
        s.len() + 1 <= build_view(s).len() <= 2 * s.len() + 1,
        s.len() > 0 ==> build_view(s.drop_last()).len() < build_view(s).len(),
    decreases s.len(),
{
    if s.len() > 0 {
        let s0 = s.drop_last();
        lemma_node_count_linear(s0);
        let (pos, wit) = lemma_built(s0);
        let (pos2, wit2) = lemma_extend_and_count(build_view(s0), s0, pos, wit, active(s0), s.last());
        lemma_extend_wf(build_view(s0), s.last(), active(s0));
    }
}

/// Where the longest string of each state of `build_view(s)` ends in `s`:
/// at the place where the text ended when the state was made.
pub open spec fn build_ends(s: Seq<Token>) -> Seq<int>
    decreases s.len(),
{
    if s.len() == 0 {
        seq![0int]
    } else {
        let before = build_ends(s.drop_last());
        if splits(build_view(s.drop_last()), s.last(), active(s.drop_last())) {
            before.push(s.len() as int).push(s.len() as int)
        } else {
            before.push(s.len() as int)
        }
    }
}

/// The automaton of a text stays the automaton of the text when other
/// occurrences of the longest strings of its states are taken for their
/// places.
pub proof fn lemma_reposition(
    d: DawgView,
    w: Seq<Token>,
    pos: Seq<int>,
    wit: Seq<int>,
    last: int,
    pos2: Seq<int>,
)
    requires
        is_automaton_of(d, w, pos, wit, last),
        pos2.len() == pos.len(),
        forall|v: int| 0 <= v < d.len() ==> same(w, #[trigger] pos2[v], pos[v], len_of(d, v)),
        pos2[last] == w.len(),
    ensures
        is_automaton_of(d, w, pos2, wit, last),
{
    assert forall|v: int| 0 <= v < d.len() implies d[v].length <= #[trigger] pos2[v] <= w.len() by {
        lemma_same_bounds(w, pos2[v], pos[v], len_of(d, v));
    }
    assert forall|v: int| 0 < v < d.len() implies #[trigger] suffix_of(d, w, pos2, link(d, v), v) by {
        lemma_link(d, w, pos, v);
        let l = link(d, v);
        assert(same(w, pos2[l], pos[l], len_of(d, l)));
        lemma_same_via(w, pos2[v], pos[v], pos[l], len_of(d, v), len_of(d, l), len_of(d, l));
        lemma_same_sym(w, pos2[l], pos[l], len_of(d, l));
        lemma_same_via(w, pos2[v], pos[l], pos2[l], len_of(d, l), len_of(d, l), len_of(d, l));
    }
    assert forall|v: int, i: int| 0 < v < d.len() && #[trigger] min_at(d, w, pos2, v, i) implies rep_at(
        d,
        w,
        pos2,
        v,
        i,
    ) by {
        lemma_link(d, w, pos, v);
        lemma_same_via(w, i, pos2[v], pos[v], min_len(d, v), len_of(d, v), min_len(d, v));
        assert(min_at(d, w, pos, v, i));
        assert(rep_at(d, w, pos, v, i));
        lemma_same_sym(w, pos2[v], pos[v], len_of(d, v));
        lemma_same_via(w, i, pos[v], pos2[v], len_of(d, v), len_of(d, v), len_of(d, v));
    }
    assert forall|v: int| 0 < v < d.len() implies #[trigger] strict_at(d, w, pos2, wit, v) by {
        lemma_link(d, w, pos, v);
        let l = link(d, v);
        assert(strict_at(d, w, pos, wit, v));
        assert(same(w, pos2[l], pos[l], len_of(d, l)));
        lemma_same_sym(w, pos2[l], pos[l], len_of(d, l));
        lemma_same_via(w, wit[v], pos[l], pos2[l], len_of(d, l), len_of(d, l), len_of(d, l));
        if min_at(d, w, pos2, v, wit[v]) {
            lemma_same_via(w, wit[v], pos2[v], pos[v], min_len(d, v), len_of(d, v), min_len(d, v));
        }
    }
    assert forall|u: int, v: int|
        0 <= u < d.len() && 0 <= v < d.len() && u != v && #[trigger] suffix_of(
            d,
            w,
            pos2,
            u,
            v,
        ) implies v != 0 && len_of(d, u) <= len_of(d, link(d, v)) by {
        assert(same(w, pos2[u], pos[u], len_of(d, u)));
        assert(same(w, pos2[v], pos[v], len_of(d, v)));
        lemma_same_sym(w, pos2[v], pos[v], len_of(d, v));
        lemma_same_via(w, pos[v], pos2[v], pos2[u], len_of(d, v), len_of(d, u), len_of(d, u));
        lemma_same_via(w, pos[v], pos2[u], pos[u], len_of(d, u), len_of(d, u), len_of(d, u));
        assert(suffix_of(d, w, pos, u, v));
    }
    assert forall|v: int, a: Token| 0 <= v < d.len() implies (#[trigger] d[v].next.contains_key(a)
        <==> can_follow(d, w, pos2, v, a)) by {
        assert(same(w, pos2[v], pos[v], len_of(d, v)));
        if can_follow(d, w, pos2, v, a) {
            let i = choose|i: int| #[trigger] follows_at(d, w, pos2, v, a, i);
            lemma_same_via(w, i, pos2[v], pos[v], len_of(d, v), len_of(d, v), len_of(d, v));
            assert(follows_at(d, w, pos, v, a, i));
            assert(can_follow(d, w, pos, v, a));
        }
        if d[v].next.contains_key(a) {
            assert(can_follow(d, w, pos, v, a));
            let i = choose|i: int| #[trigger] follows_at(d, w, pos, v, a, i);
            lemma_same_sym(w, pos2[v], pos[v], len_of(d, v));
            lemma_same_via(w, i, pos[v], pos2[v], len_of(d, v), len_of(d, v), len_of(d, v));
            assert(follows_at(d, w, pos2, v, a, i));
        }
    }
    assert forall|v: int, a: Token| 0 <= v < d.len() && #[trigger] d[v].next.contains_key(a) implies edge_fits(
        d,
        w,
        pos2,
        v,
        a,
    ) by {
        let u = d[v].next[a];
        let lv = len_of(d, v);
        assert(edge_fits(d, w, pos, v, a));
        assert(0 < u < d.len());
        assert(same(w, pos2[u], pos[u], len_of(d, u)));
        assert(same(w, pos2[v], pos[v], lv));
        lemma_same_shorter(w, pos2[u], pos[u], len_of(d, u), lv + 1);
        lemma_same_bounds(w, pos2[u], pos[u], lv + 1);
        lemma_same_step(w, pos2[u] - 1, pos[u] - 1, lv);
        lemma_same_via(w, pos2[u] - 1, pos[u] - 1, pos[v], lv, lv, lv);
        lemma_same_sym(w, pos2[v], pos[v], lv);
        lemma_same_via(w, pos2[u] - 1, pos[v], pos2[v], lv, lv, lv);
    }
}

/// The automaton built from a text is the automaton of the text, with the
/// longest string of each state ending where the text ended when the state
/// was made. Returns where the strings just too short for the states occur
/// alone.
pub proof fn lemma_built_ends(s: Seq<Token>) -> (wit: Seq<int>)
    ensures
        is_automaton_of(build_view(s), s, build_ends(s), wit, active(s)),
    decreases s.len(),
{
    if s.len() == 0 {
        let r = lemma_built(s);
        let d = build_view(s);
        assert forall|v: int| 0 <= v < d.len() implies same(s, #[trigger] build_ends(s)[v], r.0[v], len_of(d, v)) by {
            assert(0 <= r.0[v] <= s.len());
            lemma_same_zero(s, build_ends(s)[v], r.0[v]);
        }
        lemma_reposition(d, s, r.0, r.1, active(s), build_ends(s));
        r.1
    } else {
        let s0 = s.drop_last();
        let c = s.last();
        let n = s0.len() as int;
        let d0 = build_view(s0);
        let wit0 = lemma_built_ends(s0);
        let pos0 = build_ends(s0);
        let last = active(s0);
        assert(s0.push(c) =~= s);
        let r = lemma_extend_automaton(d0, s0, pos0, wit0, last, c);
        lemma_stepped(d0, s0, pos0, wit0, last, c);
        lemma_extend_wf(d0, c, last);
        let stop = walk(d0.push(fresh_state(d0, last)), last, c, d0.len() as int).1;
        assert(ctx(d0, s0, pos0, wit0, last, c, stop));
        lemma_shape(d0, s0, pos0, wit0, last, c, stop);
        let d = extend_view(d0, c, last);
        let fp = next_pos(d0, s0, pos0, c, stop);
        let w1 = next_wit(d0, s0, pos0, wit0, c, stop);
        let np = build_ends(s);
        // taking up the proof that lemma_extend_automaton made
        lemma_step_link(d0, s0, pos0, wit0, last, c, stop);
        lemma_step_closed(d0, s0, pos0, wit0, last, c, stop);
        lemma_step_strict(d0, s0, pos0, wit0, last, c, stop);
        lemma_step_unique(d0, s0, pos0, wit0, last, c, stop);
        lemma_step_next(d0, s0, pos0, wit0, last, c, stop);
        lemma_step_edges(d0, s0, pos0, wit0, last, c, stop);
        assert(is_automaton_of(d, s, fp, w1, d0.len() as int));
        assert forall|v: int| 0 <= v < d.len() implies same(s, #[trigger] np[v], fp[v], len_of(d, v)) by {
            if v < d0.len() {
                assert(fp[v] == pos0[v]);
                assert(np[v] == pos0[v]);
                assert(len_of(d, v) <= fp[v] <= s.len());
                lemma_same_refl(s, fp[v], len_of(d, v));
            } else if v == d0.len() {
                lemma_same_refl(s, n + 1, n + 1);
            } else {
                lemma_new_suffix(d0, s0, pos0, wit0, last, c, stop);
            }
        }
        lemma_bump(d, d0.len() as int);
        lemma_reposition(d, s, fp, w1, d0.len() as int, np);
        lemma_recount(d, build_view(s), s, np, w1, d0.len() as int);
        w1
    }
}

} // verus!
