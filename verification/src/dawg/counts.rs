//! Why the count of a state, in an automaton that was built from a text, is
//! the number of times that the strings of the state occur in the text.

use vstd::prelude::*;
use crate::indexing::Token;
use crate::dawg::model::StateView;
use crate::dawg::model::DawgView;
use crate::dawg::model::link_ok;
use crate::dawg::model::with_count;
use crate::dawg::model::counted_up;
use crate::dawg::model::up;
use crate::dawg::model::walk;
use crate::dawg::model::bump;
use crate::dawg::model::lemma_bump;
use crate::dawg::model::fresh_state;
use crate::dawg::model::extend_view;
use crate::dawg::model::lemma_extend_wf;
use crate::dawg::model::active;
use crate::dawg::model::build_view;
use crate::dawg::model::run;
use crate::dawg::text::same;
use crate::dawg::text::ends_at;
use crate::dawg::text::lemma_same_bounds;
use crate::dawg::text::lemma_same_refl;
use crate::dawg::text::lemma_same_shorter;
use crate::dawg::text::lemma_same_push;
use crate::dawg::text::lemma_same_ends;
use crate::dawg::language::is_automaton_of;
use crate::dawg::language::sound;
use crate::dawg::language::len_of;
use crate::dawg::language::link;
use crate::dawg::language::rep_at;
use crate::dawg::language::suffix_of;
use crate::dawg::language::ends_text;
use crate::dawg::language::ctx;
use crate::dawg::language::next_pos;
use crate::dawg::language::target_of;
use crate::dawg::language::lemma_link;
use crate::dawg::language::lemma_closed;
use crate::dawg::language::lemma_rep_down;
use crate::dawg::language::lemma_comparable;
use crate::dawg::language::lemma_stepped;
use crate::dawg::language::lemma_shape;
use crate::dawg::language::lemma_new_suffix;
use crate::dawg::language::lemma_extend_automaton;
use crate::dawg::language::lemma_recount;
use crate::dawg::language::lemma_run;

verus! {

/// Number of places from 1 up to `k` where the longest string of `v` ends.
pub open spec fn seen(d: DawgView, w: Seq<Token>, pos: Seq<int>, v: int, k: int) -> nat
    decreases k,
{
    if k <= 0 {
        0
    } else {
        seen(d, w, pos, v, k - 1) + if rep_at(d, w, pos, v, k) {
            1nat
        } else {
            0nat
        }
    }
}

/// The count of `v` is the number of places where its longest string ends.
pub open spec fn count_fits(d: DawgView, w: Seq<Token>, pos: Seq<int>, v: int) -> bool {
    d[v].count == seen(d, w, pos, v, w.len() as int)
}

/// Every state has been counted right.
pub open spec fn counted(d: DawgView, w: Seq<Token>, pos: Seq<int>) -> bool {
    forall|v: int| 0 <= v < d.len() ==> #[trigger] count_fits(d, w, pos, v)
}

/// Number of places from 1 up to `k` where the string `t` ends in `w`.
pub open spec fn times(w: Seq<Token>, t: Seq<Token>, k: int) -> nat
    decreases k,
{
    if k <= 0 {
        0
    } else {
        times(w, t, k - 1) + if ends_at(w, t, k) {
            1nat
        } else {
            0nat
        }
    }
}

/// Number of times that `t` occurs in `w`; for the empty string, the number
/// of tokens of `w`.
pub open spec fn occurrences(t: Seq<Token>, w: Seq<Token>) -> nat {
    times(w, t, w.len() as int)
}

pub proof fn lemma_seen_bound(d: DawgView, w: Seq<Token>, pos: Seq<int>, v: int, k: int)
    ensures
        seen(d, w, pos, v, k) <= if k >= 0 {
            k
        } else {
            0
        },
    decreases k,
{
    if k > 0 {
        lemma_seen_bound(d, w, pos, v, k - 1);
    }
}

/// Two states whose longest strings end at the same places up to `k` are
/// seen as often.
pub proof fn lemma_seen_same(
    d: DawgView,
    w: Seq<Token>,
    pos: Seq<int>,
    v: int,
    d2: DawgView,
    w2: Seq<Token>,
    pos2: Seq<int>,
    v2: int,
    k: int,
)
    requires
        forall|i: int| 1 <= i <= k ==> #[trigger] rep_at(d, w, pos, v, i) == rep_at(d2, w2, pos2, v2, i),
    ensures
        seen(d, w, pos, v, k) == seen(d2, w2, pos2, v2, k),
    decreases k,
{
    if k > 0 {
        lemma_seen_same(d, w, pos, v, d2, w2, pos2, v2, k - 1);
        assert(rep_at(d, w, pos, v, k) == rep_at(d2, w2, pos2, v2, k));
    }
}

/// A state whose longest string ends nowhere up to `k` has not been seen.
pub proof fn lemma_seen_none(d: DawgView, w: Seq<Token>, pos: Seq<int>, v: int, k: int)
    requires
        forall|i: int| 1 <= i <= k ==> !#[trigger] rep_at(d, w, pos, v, i),
    ensures
        seen(d, w, pos, v, k) == 0,
    decreases k,
{
    if k > 0 {
        lemma_seen_none(d, w, pos, v, k - 1);
        assert(!rep_at(d, w, pos, v, k));
    }
}

/// A state whose longest string ends at the same places as a string is seen
/// as often as the string occurs.
pub proof fn lemma_seen_times(d: DawgView, w: Seq<Token>, pos: Seq<int>, v: int, t: Seq<Token>, k: int)
    requires
        forall|i: int| 1 <= i <= k ==> #[trigger] rep_at(d, w, pos, v, i) == ends_at(w, t, i),
    ensures
        seen(d, w, pos, v, k) == times(w, t, k),
    decreases k,
{
    if k > 0 {
        lemma_seen_times(d, w, pos, v, t, k - 1);
        assert(rep_at(d, w, pos, v, k) == ends_at(w, t, k));
    }
}

/// A state with one more occurrence recorded.
pub open spec fn bumped(s: StateView) -> StateView {
    with_count(s, counted_up(s.count))
}

/// State `v` while occurrences are recorded, when the states longer than `t`
/// have been seen to.
pub open spec fn half_bumped(d: DawgView, w: Seq<Token>, pos: Seq<int>, t: int, v: int) -> StateView {
    if ends_text(d, w, pos, v) && len_of(d, v) > t {
        bumped(d[v])
    } else {
        d[v]
    }
}

/// What recording an occurrence comes to: it counts one more for exactly
/// the states whose longest strings end the text.
pub proof fn lemma_bump_sem(d: DawgView, w: Seq<Token>, pos: Seq<int>, dx: DawgView, p0: int)
    requires
        sound(d, w, pos),
        dx.len() == d.len(),
        0 <= p0 < d.len(),
        ends_text(d, w, pos, p0),
        forall|v: int| 0 <= v < d.len() ==> #[trigger] dx[v] == half_bumped(d, w, pos, len_of(d, p0), v),
    ensures
        bump(dx, p0).len() == d.len(),
        forall|v: int| 0 <= v < d.len() ==> #[trigger] bump(dx, p0)[v] == half_bumped(d, w, pos, -1, v),
    decreases len_of(d, p0),
{
    let n = w.len() as int;
    assert(dx[p0] == d[p0]);
    let d1 = dx.update(p0, with_count(dx[p0], counted_up(dx[p0].count)));
    if p0 == 0 {
        assert(up(dx, p0) is None);
        assert forall|v: int| 0 <= v < d.len() implies #[trigger] d1[v] == half_bumped(d, w, pos, -1, v) by {
            if v != 0 {
                assert(link_ok(d, v));
            }
        }
    } else {
        lemma_link(d, w, pos, p0);
        assert(link_ok(d, p0));
        let l = link(d, p0);
        assert(dx[l].length == d[l].length);
        assert(up(dx, p0) == Some(l));
        assert(suffix_of(d, w, pos, l, p0));
        lemma_rep_down(d, w, pos, l, p0, n);
        assert forall|v: int| 0 <= v < d.len() implies #[trigger] d1[v] == half_bumped(
            d,
            w,
            pos,
            len_of(d, l),
            v,
        ) by {
            if ends_text(d, w, pos, v) && len_of(d, l) < len_of(d, v) <= len_of(d, p0) && v != p0 {
                lemma_comparable(d, w, pos, v, p0, n);
            }
        }
        lemma_bump_sem(d, w, pos, d1, l);
        assert(bump(dx, p0) == bump(d1, l));
    }
}

/// An extension, with the occurrence recorded after it, keeps the counts
/// right.
pub proof fn lemma_count_step(d: DawgView, w: Seq<Token>, pos: Seq<int>, wit: Seq<int>, last: int, c: Token)
    requires
        is_automaton_of(d, w, pos, wit, last),
        counted(d, w, pos),
        w.len() < u64::MAX,
    ensures
        counted(
            bump(extend_view(d, c, last), d.len() as int),
            w.push(c),
            next_pos(d, w, pos, c, walk(d.push(fresh_state(d, last)), last, c, d.len() as int).1),
        ),
{
    let n = w.len() as int;
    let cur = d.len() as int;
    let w2 = w.push(c);
    let stop = walk(d.push(fresh_state(d, last)), last, c, cur).1;
    let r = lemma_extend_automaton(d, w, pos, wit, last, c);
    lemma_stepped(d, w, pos, wit, last, c);
    lemma_extend_wf(d, c, last);
    let ev = extend_view(d, c, last);
    let np = next_pos(d, w, pos, c, stop);
    assert(ctx(d, w, pos, wit, last, c, stop));
    lemma_shape(d, w, pos, wit, last, c, stop);
    lemma_same_refl(w2, n + 1, n + 1);
    assert(ends_text(ev, w2, np, cur));
    assert forall|v: int| 0 <= v < ev.len() implies #[trigger] ev[v] == half_bumped(
        ev,
        w2,
        np,
        len_of(ev, cur),
        v,
    ) by {
        assert(len_of(ev, v) <= np[v] <= w2.len());
    }
    lemma_bump_sem(ev, w2, np, ev, cur);
    let f = bump(ev, cur);
    lemma_bump(ev, cur);
    assert forall|v: int| 0 <= v < f.len() implies #[trigger] count_fits(f, w2, np, v) by {
        assert(f[v] == half_bumped(ev, w2, np, -1, v));
        assert(len_of(f, v) == len_of(ev, v));
        // counts do not matter to what is seen
        assert forall|i: int| 1 <= i <= n + 1 implies #[trigger] rep_at(f, w2, np, v, i) == rep_at(
            ev,
            w2,
            np,
            v,
            i,
        ) by {}
        lemma_seen_same(f, w2, np, v, ev, w2, np, v, n + 1);
        // what was seen of v before the new token
        if v < d.len() {
            assert(np[v] == pos[v]);
            assert(count_fits(d, w, pos, v));
            assert forall|i: int| 1 <= i <= n implies #[trigger] rep_at(ev, w2, np, v, i) == rep_at(
                d,
                w,
                pos,
                v,
                i,
            ) by {
                lemma_same_push(w, c, i, pos[v], len_of(d, v));
            }
            lemma_seen_same(ev, w2, np, v, d, w, pos, v, n);
        } else if v == cur {
            assert(ev[v].count == 0);
            assert forall|i: int| 1 <= i <= n implies !#[trigger] rep_at(ev, w2, np, v, i) by {
                if rep_at(ev, w2, np, v, i) {
                    lemma_same_bounds(w2, i, np[v], len_of(ev, v));
                }
            }
            lemma_seen_none(ev, w2, np, v, n);
        } else {
            let q = target_of(d, c, stop);
            let lp = len_of(d, stop->0);
            lemma_new_suffix(d, w, pos, wit, last, c, stop);
            assert(count_fits(d, w, pos, q));
            assert forall|i: int| 1 <= i <= n implies #[trigger] rep_at(ev, w2, np, v, i) == rep_at(
                d,
                w,
                pos,
                q,
                i,
            ) by {
                lemma_same_push(w, c, i, pos[q], lp + 1);
                if rep_at(d, w, pos, q, i) {
                    lemma_same_shorter(w, i, pos[q], len_of(d, q), lp + 1);
                }
                if same(w, i, pos[q], lp + 1) {
                    lemma_closed(d, w, pos, q, i, lp + 1);
                }
            }
            lemma_seen_same(ev, w2, np, v, d, w, pos, q, n);
            assert(ev[v].count == d[q].count);
        }
        lemma_seen_bound(ev, w2, np, v, n);
        assert(ev[v].count == seen(ev, w2, np, v, n));
        assert(rep_at(ev, w2, np, v, n + 1) == ends_text(ev, w2, np, v));
    }
}

/// The automaton built from a text, with where the longest strings of its
/// states end and where the strings just too short for them occur alone;
/// the count of every state is right.
pub proof fn lemma_built_counted(s: Seq<Token>) -> (r: (Seq<int>, Seq<int>))
    requires
        s.len() <= u64::MAX,
    ensures
        is_automaton_of(build_view(s), s, r.0, r.1, active(s)),
        counted(build_view(s), s, r.0),
    decreases s.len(),
{
    if s.len() == 0 {
        let r = crate::dawg::language::lemma_built(s);
        let d = build_view(s);
        assert forall|v: int| 0 <= v < d.len() implies #[trigger] count_fits(d, s, r.0, v) by {}
        r
    } else {
        let s0 = s.drop_last();
        let c = s.last();
        let d0 = build_view(s0);
        let (pos, wit) = lemma_built_counted(s0);
        assert(s0.push(c) =~= s);
        let r = lemma_extend_automaton(d0, s0, pos, wit, active(s0), c);
        lemma_count_step(d0, s0, pos, wit, active(s0), c);
        let ev = extend_view(d0, c, active(s0));
        lemma_bump(ev, d0.len() as int);
        lemma_recount(ev, build_view(s), s, r.0, r.1, d0.len() as int);
        r
    }
}

/// In the automaton built from a text, the count of the state that a string
/// leads to is the number of times that the string occurs in the text.
pub proof fn lemma_count_is_occurrences(s: Seq<Token>, t: Seq<Token>)
    requires
        s.len() <= u64::MAX,
    ensures
        run(build_view(s), t) matches Some(v) ==> build_view(s)[v].count == occurrences(t, s),
{
    let (pos, wit) = lemma_built_counted(s);
    let d = build_view(s);
    lemma_run(d, s, pos, wit, active(s), t);
    if run(d, t) is Some {
        let v = run(d, t)->0;
        assert(count_fits(d, s, pos, v));
        assert forall|i: int| 1 <= i <= s.len() implies #[trigger] rep_at(d, s, pos, v, i) == ends_at(
            s,
            t,
            i,
        ) by {
            if rep_at(d, s, pos, v, i) {
                lemma_same_shorter(s, i, pos[v], len_of(d, v), t.len() as int);
                lemma_same_ends(s, t, pos[v], i);
            }
        }
        lemma_seen_times(d, s, pos, v, t, s.len() as int);
    }
}

} // verus!
