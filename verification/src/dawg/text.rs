//! Occurrences of strings in a text, told by where they end.

use vstd::prelude::*;
use crate::indexing::Token;

verus! {

/// The token `k` places before the end position `i`.
pub open spec fn back(w: Seq<Token>, i: int, k: int) -> Token {
    w[i - 1 - k]
}

/// The `len` tokens that end at position `i` of `w` are the `len` tokens that
/// end at position `j`.
#[verifier::opaque]
pub open spec fn same(w: Seq<Token>, i: int, j: int, len: int) -> bool {
    &&& 0 <= len <= i <= w.len()
    &&& len <= j <= w.len()
    &&& forall|k: int| 0 <= k < len ==> #[trigger] back(w, i, k) == back(w, j, k)
}

pub proof fn lemma_same_bounds(w: Seq<Token>, i: int, j: int, len: int)
    requires
        same(w, i, j, len),
    ensures
        0 <= len <= i <= w.len(),
        len <= j <= w.len(),
{
    reveal(same);
}

pub proof fn lemma_same_refl(w: Seq<Token>, i: int, len: int)
    requires
        0 <= len <= i <= w.len(),
    ensures
        same(w, i, i, len),
{
    reveal(same);
}

pub proof fn lemma_same_zero(w: Seq<Token>, i: int, j: int)
    requires
        0 <= i <= w.len(),
        0 <= j <= w.len(),
    ensures
        same(w, i, j, 0),
{
    reveal(same);
}

pub proof fn lemma_same_sym(w: Seq<Token>, i: int, j: int, len: int)
    requires
        same(w, i, j, len),
    ensures
        same(w, j, i, len),
{
    reveal(same);
    assert forall|k: int| 0 <= k < len implies #[trigger] back(w, j, k) == back(w, i, k) by {
        assert(back(w, i, k) == back(w, j, k));
    }
}

/// Two strings that end alike at `i` and `j`, and at `j` and `l`, end alike
/// at `i` and `l`, as far as the shorter of the two goes.
pub proof fn lemma_same_via(w: Seq<Token>, i: int, j: int, l: int, len1: int, len2: int, len: int)
    requires
        same(w, i, j, len1),
        same(w, j, l, len2),
        0 <= len <= len1,
        len <= len2,
    ensures
        same(w, i, l, len),
{
    reveal(same);
    assert forall|k: int| 0 <= k < len implies #[trigger] back(w, i, k) == back(w, l, k) by {
        assert(back(w, i, k) == back(w, j, k));
        assert(back(w, j, k) == back(w, l, k));
    }
}

pub proof fn lemma_same_shorter(w: Seq<Token>, i: int, j: int, len: int, len2: int)
    requires
        same(w, i, j, len),
        0 <= len2 <= len,
    ensures
        same(w, i, j, len2),
{
    reveal(same);
}

/// Appending a token to the text changes nothing about what ends where.
pub proof fn lemma_same_push(w: Seq<Token>, c: Token, i: int, j: int, len: int)
    requires
        i <= w.len(),
        j <= w.len(),
    ensures
        same(w.push(c), i, j, len) == same(w, i, j, len),
{
    reveal(same);
    let w2 = w.push(c);
    if same(w, i, j, len) {
        assert forall|k: int| 0 <= k < len implies #[trigger] back(w2, i, k) == back(w2, j, k) by {
            assert(back(w, i, k) == back(w, j, k));
        }
    }
    if same(w2, i, j, len) {
        assert forall|k: int| 0 <= k < len implies #[trigger] back(w, i, k) == back(w, j, k) by {
            assert(back(w2, i, k) == back(w2, j, k));
        }
    }
}

/// Two strings end alike one place further on exactly if they end alike here
/// and the same token follows both.
pub proof fn lemma_same_step(w: Seq<Token>, i: int, j: int, len: int)
    requires
        0 <= i < w.len(),
        0 <= j < w.len(),
        0 <= len,
    ensures
        same(w, i + 1, j + 1, len + 1) == (same(w, i, j, len) && w[i] == w[j]),
{
    reveal(same);
    if same(w, i, j, len) && w[i] == w[j] {
        assert forall|k: int| 0 <= k < len + 1 implies #[trigger] back(w, i + 1, k) == back(w, j + 1, k) by {
            if k > 0 {
                assert(back(w, i, k - 1) == back(w, j, k - 1));
            }
        }
    }
    if same(w, i + 1, j + 1, len + 1) {
        assert(back(w, i + 1, 0) == back(w, j + 1, 0));
        assert forall|k: int| 0 <= k < len implies #[trigger] back(w, i, k) == back(w, j, k) by {
            assert(back(w, i + 1, k + 1) == back(w, j + 1, k + 1));
        }
    }
}

/// The string `t` occurs in `w` ending at position `i`.
pub open spec fn ends_at(w: Seq<Token>, t: Seq<Token>, i: int) -> bool {
    &&& t.len() <= i <= w.len()
    &&& w.subrange(i - t.len(), i) == t
}

/// The string `t` occurs in `w`.
pub open spec fn is_substring(t: Seq<Token>, w: Seq<Token>) -> bool {
    exists|i: int| ends_at(w, t, i)
}

/// Two occurrences of one string end alike.
pub proof fn lemma_ends_same(w: Seq<Token>, t: Seq<Token>, i: int, j: int)
    requires
        ends_at(w, t, i),
        ends_at(w, t, j),
    ensures
        same(w, i, j, t.len() as int),
{
    reveal(same);
    let len = t.len() as int;
    assert forall|k: int| 0 <= k < len implies #[trigger] back(w, i, k) == back(w, j, k) by {
        assert(w.subrange(i - len, i)[len - 1 - k] == t[len - 1 - k]);
        assert(w.subrange(j - len, j)[len - 1 - k] == t[len - 1 - k]);
    }
}

/// What ends like an occurrence of a string is an occurrence of it.
pub proof fn lemma_same_ends(w: Seq<Token>, t: Seq<Token>, i: int, j: int)
    requires
        ends_at(w, t, i),
        same(w, j, i, t.len() as int),
    ensures
        ends_at(w, t, j),
{
    reveal(same);
    let len = t.len() as int;
    assert forall|k: int| 0 <= k < len implies w.subrange(j - len, j)[k] == t[k] by {
        assert(back(w, j, len - 1 - k) == back(w, i, len - 1 - k));
        assert(w.subrange(i - len, i)[k] == t[k]);
    }
    assert(w.subrange(j - len, j) =~= t);
}

/// A string without its last token ends one place before the string, and the
/// last token stands there.
pub proof fn lemma_ends_drop_last(w: Seq<Token>, t: Seq<Token>, i: int)
    requires
        t.len() > 0,
    ensures
        ends_at(w, t, i) == (0 < i <= w.len() && ends_at(w, t.drop_last(), i - 1) && w[i - 1]
            == t.last()),
{
    let len = t.len() as int;
    if ends_at(w, t, i) {
        assert(w.subrange(i - len, i)[len - 1] == t[len - 1]);
        assert forall|k: int| 0 <= k < len - 1 implies w.subrange(i - len, i - 1)[k] == t.drop_last()[k] by {
            assert(w.subrange(i - len, i)[k] == t[k]);
        }
        assert(w.subrange(i - 1 - (len - 1), i - 1) =~= t.drop_last());
    }
    if 0 < i <= w.len() && ends_at(w, t.drop_last(), i - 1) && w[i - 1] == t.last() {
        assert forall|k: int| 0 <= k < len implies w.subrange(i - len, i)[k] == t[k] by {
            if k < len - 1 {
                assert(w.subrange(i - 1 - (len - 1), i - 1)[k] == t.drop_last()[k]);
            }
        }
        assert(w.subrange(i - len, i) =~= t);
    }
}

} // verus!
