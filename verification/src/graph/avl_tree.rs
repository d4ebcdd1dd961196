//! The balanced search tree in which a node keeps its outgoing edges.
//!
//! All trees of a graph live in one edge store. An edge record names its
//! children by handle and carries the height of its subtree, so the shape of
//! a tree can be read off the store alone.

use vstd::prelude::*;
use vstd::arithmetic::power2::pow2;
use vstd::arithmetic::power2::lemma2_to64;
use vstd::arithmetic::power2::lemma_pow2_unfold;
use vstd::arithmetic::power2::lemma_pow2_strictly_increases;
use crate::indexing::EdgeIndex;
use crate::indexing::NodeIndex;
use crate::indexing::Token;
use crate::indexing::none_ix;

verus! {

/// One record of the edge store.
#[derive(Clone, Copy, Debug)]
pub struct Edge<E> {
    /// First token of the edge's label: the key of the search tree.
    pub key: Token,
    pub weight: E,
    pub source: NodeIndex,
    pub target: NodeIndex,
    pub left: EdgeIndex,
    pub right: EdgeIndex,
    /// Height of the subtree rooted here; a leaf has height 1.
    pub height: u8,
}

/// One more than the largest key.
pub open spec fn key_top() -> int {
    0x1_0000_0000_0000_0000
}

/// Stored height of the subtree at `r`; 0 where `r` names no record.
pub open spec fn ht<E>(es: Seq<Edge<E>>, r: EdgeIndex) -> nat {
    if r@ < es.len() {
        es[r@].height as nat
    } else {
        0
    }
}

pub open spec fn max_nat(x: nat, y: nat) -> nat {
    if x >= y {
        x
    } else {
        y
    }
}

/// What the record at `r` must satisfy on its own to root a tree of node `a`
/// with keys strictly between `lo` and `hi`; the heights of its two subtrees
/// may differ by at most `slack`.
pub open spec fn local_ok<E>(
    es: Seq<Edge<E>>,
    a: NodeIndex,
    r: EdgeIndex,
    lo: int,
    hi: int,
    slack: nat,
) -> bool {
    &&& r@ < es.len()
    &&& es[r@].source == a
    &&& lo < es[r@].key < hi
    &&& es[r@].height == 1 + max_nat(ht(es, es[r@].left), ht(es, es[r@].right))
    &&& ht(es, es[r@].left) <= ht(es, es[r@].right) + slack
    &&& ht(es, es[r@].right) <= ht(es, es[r@].left) + slack
}

/// The records reachable from `r` form a height-balanced search tree owned by
/// node `a`, with every key strictly between `lo` and `hi`.
pub open spec fn bst<E>(es: Seq<Edge<E>>, a: NodeIndex, r: EdgeIndex, lo: int, hi: int) -> bool
    decreases ht(es, r),
{
    if r@ == none_ix() {
        true
    } else {
        &&& local_ok(es, a, r, lo, hi, 1)
        &&& bst(es, a, es[r@].left, lo, es[r@].key as int)
        &&& bst(es, a, es[r@].right, es[r@].key as int, hi)
    }
}

/// Like `bst`, but the root's two subtrees may differ in height by two.
pub open spec fn near<E>(es: Seq<Edge<E>>, a: NodeIndex, r: EdgeIndex, lo: int, hi: int) -> bool {
    &&& local_ok(es, a, r, lo, hi, 2)
    &&& bst(es, a, es[r@].left, lo, es[r@].key as int)
    &&& bst(es, a, es[r@].right, es[r@].key as int, hi)
}

/// The handle that names no edge.
pub open spec fn no_edge() -> EdgeIndex {
    EdgeIndex { ix: u32::MAX }
}

/// The record with key `k` in the tree at `r`, found by descending from `r`;
/// the sentinel where there is none.
pub open spec fn find<E>(es: Seq<Edge<E>>, r: EdgeIndex, k: Token) -> EdgeIndex
    decreases ht(es, r),
{
    if r@ >= es.len() {
        no_edge()
    } else if k == es[r@].key {
        r
    } else if k < es[r@].key {
        if ht(es, es[r@].left) < ht(es, r) {
            find(es, es[r@].left, k)
        } else {
            no_edge()
        }
    } else {
        if ht(es, es[r@].right) < ht(es, r) {
            find(es, es[r@].right, k)
        } else {
            no_edge()
        }
    }
}

/// The records of the tree at `r`, by ascending key.
pub open spec fn inorder<E>(es: Seq<Edge<E>>, r: EdgeIndex) -> Seq<EdgeIndex>
    decreases ht(es, r),
{
    if r@ >= es.len() {
        Seq::empty()
    } else {
        let l = es[r@].left;
        let g = es[r@].right;
        let before = if ht(es, l) < ht(es, r) {
            inorder(es, l)
        } else {
            Seq::empty()
        };
        let after = if ht(es, g) < ht(es, r) {
            inorder(es, g)
        } else {
            Seq::empty()
        };
        before.push(r) + after
    }
}

/// `es2` extends `es` and leaves alone every record of node `a` whose key lies
/// strictly between `lo` and `hi`.
pub open spec fn agree_on<E>(
    es: Seq<Edge<E>>,
    es2: Seq<Edge<E>>,
    a: NodeIndex,
    lo: int,
    hi: int,
) -> bool {
    &&& es.len() <= es2.len() <= none_ix()
    &&& forall|i: int|
        0 <= i < es.len() && es[i].source == a && lo < es[i].key < hi ==> #[trigger] es2[i]
            == es[i]
}

/// `es2` has the records of `es` with the same keys, weights and end points,
/// and differs from `es` only in the tree links of records of node `a` whose
/// key lies strictly between `lo` and `hi`.
pub open spec fn confined<E>(
    es: Seq<Edge<E>>,
    es2: Seq<Edge<E>>,
    a: NodeIndex,
    lo: int,
    hi: int,
) -> bool {
    &&& es2.len() == es.len()
    &&& forall|i: int|
        0 <= i < es.len() ==> {
            &&& (#[trigger] es2[i]).key == es[i].key
            &&& es2[i].weight == es[i].weight
            &&& es2[i].source == es[i].source
            &&& es2[i].target == es[i].target
        }
    &&& forall|i: int|
        0 <= i < es.len() && !(es[i].source == a && lo < es[i].key < hi) ==> #[trigger] es2[i]
            == es[i]
}

/// A tree is untouched by changes to records outside its node and key range.
pub proof fn lemma_frame<E>(
    es: Seq<Edge<E>>,
    es2: Seq<Edge<E>>,
    a: NodeIndex,
    r: EdgeIndex,
    lo: int,
    hi: int,
)
    requires
        bst(es, a, r, lo, hi),
        agree_on(es, es2, a, lo, hi),
    ensures
        bst(es2, a, r, lo, hi),
        ht(es2, r) == ht(es, r),
        forall|k: Token| #[trigger] find(es2, r, k) == find(es, r, k),
        inorder(es2, r) == inorder(es, r),
    decreases ht(es, r),
{
    if r@ != none_ix() {
        let e = es[r@];
        assert(es2[r@] == e);
        lemma_frame(es, es2, a, e.left, lo, e.key as int);
        lemma_frame(es, es2, a, e.right, e.key as int, hi);
        assert forall|k: Token| #[trigger] find(es2, r, k) == find(es, r, k) by {
            if k < e.key {
                assert(find(es2, e.left, k) == find(es, e.left, k));
            } else if k > e.key {
                assert(find(es2, e.right, k) == find(es, e.right, k));
            }
        }
    }
}

/// A record found in a tree lies in the store, belongs to the tree's node and
/// carries the key that was looked for.
pub proof fn lemma_find_props<E>(
    es: Seq<Edge<E>>,
    a: NodeIndex,
    r: EdgeIndex,
    lo: int,
    hi: int,
    k: Token,
)
    requires
        es.len() <= none_ix(),
        bst(es, a, r, lo, hi),
    ensures
        find(es, r, k)@ != none_ix() ==> {
            &&& find(es, r, k)@ < es.len()
            &&& es[find(es, r, k)@].source == a
            &&& es[find(es, r, k)@].key == k
            &&& lo < k < hi
        },
    decreases ht(es, r),
{
    if r@ != none_ix() {
        let e = es[r@];
        if k < e.key {
            lemma_find_props(es, a, e.left, lo, e.key as int, k);
        } else if k > e.key {
            lemma_find_props(es, a, e.right, e.key as int, hi, k);
        }
    }
}

/// Fewest records, plus one, that a balanced tree of height `h` holds: the
/// numbers 1, 2, 3, 5, 8, ..., which double with every two levels.
pub open spec fn span_of_height(h: nat) -> nat
    decreases h,
{
    if h == 0 {
        1
    } else if h == 1 {
        2
    } else {
        span_of_height((h - 1) as nat) + span_of_height((h - 2) as nat)
    }
}

pub proof fn lemma_span_monotone(x: nat, y: nat)
    requires
        x <= y,
    ensures
        span_of_height(x) <= span_of_height(y),
    decreases y,
{
    if x < y {
        lemma_span_monotone(x, (y - 1) as nat);
    }
}

pub proof fn lemma_span_doubles(h: nat)
    ensures
        span_of_height(h) >= pow2(h / 2),
    decreases h,
{
    lemma2_to64();
    if h >= 2 {
        lemma_span_doubles((h - 2) as nat);
        lemma_span_monotone((h - 2) as nat, (h - 1) as nat);
        lemma_pow2_unfold(h / 2);
        assert((h - 2) / 2 == h / 2 - 1);
    }
}

proof fn lemma_range_spans<E>(es: Seq<Edge<E>>, a: NodeIndex, r: EdgeIndex, lo: int, hi: int)
    requires
        es.len() <= none_ix(),
        bst(es, a, r, lo, hi),
        lo < hi,
    ensures
        hi - lo >= span_of_height(ht(es, r)),
    decreases ht(es, r),
{
    if r@ != none_ix() {
        let e = es[r@];
        let hl = ht(es, e.left);
        let hr = ht(es, e.right);
        lemma_range_spans(es, a, e.left, lo, e.key as int);
        lemma_range_spans(es, a, e.right, e.key as int, hi);
        let h = ht(es, r);
        if h >= 2 {
            if hl >= hr {
                lemma_span_monotone((h - 2) as nat, hr);
            } else {
                lemma_span_monotone((h - 2) as nat, hl);
            }
        }
    }
}

/// A balanced tree over 64-bit keys is never taller than 129.
pub proof fn lemma_height_bound<E>(es: Seq<Edge<E>>, a: NodeIndex, r: EdgeIndex, lo: int, hi: int)
    requires
        es.len() <= none_ix(),
        bst(es, a, r, lo, hi),
        -1 <= lo < hi <= key_top(),
    ensures
        ht(es, r) <= 129,
{
    if ht(es, r) >= 130 {
        lemma_range_spans(es, a, r, lo, hi);
        lemma_span_monotone(130, ht(es, r));
        lemma_span_doubles(130);
        lemma2_to64();
        lemma_pow2_unfold(65);
        assert(false);
    }
}

/// Chaining two rounds of link changes, the first within a narrower range.
pub proof fn lemma_confined_chain<E>(
    es0: Seq<Edge<E>>,
    es1: Seq<Edge<E>>,
    es2: Seq<Edge<E>>,
    a: NodeIndex,
    lo1: int,
    hi1: int,
    lo: int,
    hi: int,
)
    requires
        confined(es0, es1, a, lo1, hi1),
        confined(es1, es2, a, lo, hi),
        lo <= lo1,
        hi1 <= hi,
    ensures
        confined(es0, es2, a, lo, hi),
{
    assert forall|i: int| 0 <= i < es0.len() implies {
        &&& (#[trigger] es2[i]).key == es0[i].key
        &&& es2[i].weight == es0[i].weight
        &&& es2[i].source == es0[i].source
        &&& es2[i].target == es0[i].target
    } by {
        assert(es1[i].key == es0[i].key);
    }
    assert forall|i: int|
        0 <= i < es0.len() && !(es0[i].source == a && lo < es0[i].key < hi) implies #[trigger] es2[i]
        == es0[i] by {
        assert(es1[i] == es0[i]);
    }
}

/// Height of the subtree at `r`, read from the store.
pub fn height_of<E>(edges: &Vec<Edge<E>>, r: EdgeIndex) -> (h: u8)
    requires
        edges@.len() <= none_ix(),
        r@ == none_ix() || r@ < edges@.len(),
    ensures
        h == ht(edges@, r),
{
    if r.is_end() {
        0
    } else {
        edges[r.index()].height
    }
}

fn relink<E: Copy>(edges: &mut Vec<Edge<E>>, i: usize, left: EdgeIndex, right: EdgeIndex, height: u8)
    requires
        i < old(edges)@.len(),
    ensures
        final(edges)@ == old(edges)@.update(
            i as int,
            (Edge {
                key: old(edges)@[i as int].key,
                weight: old(edges)@[i as int].weight,
                source: old(edges)@[i as int].source,
                target: old(edges)@[i as int].target,
                left,
                right,
                height,
            }),
        ),
{
    let e = edges[i];
    edges.set(
        i,
        Edge { key: e.key, weight: e.weight, source: e.source, target: e.target, left, right, height },
    );
}

fn max_height(x: u8, y: u8) -> (m: u8)
    ensures
        m == max_nat(x as nat, y as nat),
{
    if x >= y {
        x
    } else {
        y
    }
}

/// Restores balance at `r` when its left subtree is two levels taller than
/// its right one. Returns the new root of the subtree.
#[verifier::rlimit(40)]
fn rotate_right<E: Copy>(
    edges: &mut Vec<Edge<E>>,
    r: EdgeIndex,
    Ghost(a): Ghost<NodeIndex>,
    Ghost(lo): Ghost<int>,
    Ghost(hi): Ghost<int>,
) -> (nr: EdgeIndex)
    requires
        -1 <= lo < hi <= key_top(),
        old(edges)@.len() <= none_ix(),
        near(old(edges)@, a, r, lo, hi),
        ht(old(edges)@, old(edges)@[r@].left) == ht(old(edges)@, old(edges)@[r@].right) + 2,
    ensures
        bst(final(edges)@, a, nr, lo, hi),
        nr@ != none_ix(),
        ht(final(edges)@, nr) == ht(old(edges)@, r) || ht(final(edges)@, nr) + 1 == ht(
            old(edges)@,
            r,
        ),
        forall|k: Token| #[trigger] find(final(edges)@, nr, k) == find(old(edges)@, r, k),
        confined(old(edges)@, final(edges)@, a, lo, hi),
{
    let ghost es0 = edges@;
    let ri: usize = r.index();
    let er = edges[ri];
    let y = er.left;
    let c = er.right;
    let yi: usize = y.index();
    let ey = edges[yi];
    let ghost kr: int = er.key as int;
    let ghost ky: int = ey.key as int;
    proof {
        assert(bst(es0, a, y, lo, kr));
        assert(bst(es0, a, ey.left, lo, ky));
        assert(bst(es0, a, ey.right, ky, kr));
        assert(bst(es0, a, c, kr, hi));
        lemma_height_bound(es0, a, y, lo, kr);
    }
    let hc: u8 = height_of(edges, c);
    let hyl: u8 = height_of(edges, ey.left);
    let hyr: u8 = height_of(edges, ey.right);
    if hyl >= hyr {
        let hr2: u8 = 1 + max_height(hyr, hc);
        relink(edges, ri, ey.right, c, hr2);
        let hy2: u8 = 1 + max_height(hyl, hr2);
        relink(edges, yi, ey.left, r, hy2);
        proof {
            let es2 = edges@;
            lemma_frame(es0, es2, a, ey.left, lo, ky);
            lemma_frame(es0, es2, a, ey.right, ky, kr);
            lemma_frame(es0, es2, a, c, kr, hi);
            assert(bst(es2, a, r, ky, hi));
            assert(bst(es2, a, y, lo, hi));
            assert forall|k: Token| #[trigger] find(es2, y, k) == find(es0, r, k) by {
                reveal_with_fuel(find, 3);
                assert(find(es2, ey.left, k) == find(es0, ey.left, k));
                assert(find(es2, ey.right, k) == find(es0, ey.right, k));
                assert(find(es2, c, k) == find(es0, c, k));
            }
        }
        y
    } else {
        let x = ey.right;
        let xi: usize = x.index();
        let ex = edges[xi];
        let ghost kx: int = ex.key as int;
        proof {
            assert(bst(es0, a, x, ky, kr));
            assert(bst(es0, a, ex.left, ky, kx));
            assert(bst(es0, a, ex.right, kx, kr));
        }
        let hxl: u8 = height_of(edges, ex.left);
        let hxr: u8 = height_of(edges, ex.right);
        let hy2: u8 = 1 + max_height(hyl, hxl);
        relink(edges, yi, ey.left, ex.left, hy2);
        let hr2: u8 = 1 + max_height(hxr, hc);
        relink(edges, ri, ex.right, c, hr2);
        let hx2: u8 = 1 + max_height(hy2, hr2);
        relink(edges, xi, y, r, hx2);
        proof {
            let es2 = edges@;
            lemma_frame(es0, es2, a, ey.left, lo, ky);
            lemma_frame(es0, es2, a, ex.left, ky, kx);
            lemma_frame(es0, es2, a, ex.right, kx, kr);
            lemma_frame(es0, es2, a, c, kr, hi);
            assert(bst(es2, a, y, lo, kx));
            assert(bst(es2, a, r, kx, hi));
            assert(bst(es2, a, x, lo, hi));
            assert forall|k: Token| #[trigger] find(es2, x, k) == find(es0, r, k) by {
                reveal_with_fuel(find, 4);
                assert(find(es2, ey.left, k) == find(es0, ey.left, k));
                assert(find(es2, ex.left, k) == find(es0, ex.left, k));
                assert(find(es2, ex.right, k) == find(es0, ex.right, k));
                assert(find(es2, c, k) == find(es0, c, k));
            }
        }
        x
    }
}

/// Restores balance at `r` when its right subtree is two levels taller than
/// its left one. Returns the new root of the subtree.
#[verifier::rlimit(40)]
fn rotate_left<E: Copy>(
    edges: &mut Vec<Edge<E>>,
    r: EdgeIndex,
    Ghost(a): Ghost<NodeIndex>,
    Ghost(lo): Ghost<int>,
    Ghost(hi): Ghost<int>,
) -> (nr: EdgeIndex)
    requires
        -1 <= lo < hi <= key_top(),
        old(edges)@.len() <= none_ix(),
        near(old(edges)@, a, r, lo, hi),
        ht(old(edges)@, old(edges)@[r@].right) == ht(old(edges)@, old(edges)@[r@].left) + 2,
    ensures
        bst(final(edges)@, a, nr, lo, hi),
        nr@ != none_ix(),
        ht(final(edges)@, nr) == ht(old(edges)@, r) || ht(final(edges)@, nr) + 1 == ht(
            old(edges)@,
            r,
        ),
        forall|k: Token| #[trigger] find(final(edges)@, nr, k) == find(old(edges)@, r, k),
        confined(old(edges)@, final(edges)@, a, lo, hi),
{
    let ghost es0 = edges@;
    let ri: usize = r.index();
    let er = edges[ri];
    let y = er.right;
    let c = er.left;
    let yi: usize = y.index();
    let ey = edges[yi];
    let ghost kr: int = er.key as int;
    let ghost ky: int = ey.key as int;
    proof {
        assert(bst(es0, a, y, kr, hi));
        assert(bst(es0, a, ey.left, kr, ky));
        assert(bst(es0, a, ey.right, ky, hi));
        assert(bst(es0, a, c, lo, kr));
        lemma_height_bound(es0, a, y, kr, hi);
    }
    let hc: u8 = height_of(edges, c);
    let hyl: u8 = height_of(edges, ey.left);
    let hyr: u8 = height_of(edges, ey.right);
    if hyr >= hyl {
        let hr2: u8 = 1 + max_height(hc, hyl);
        relink(edges, ri, c, ey.left, hr2);
        let hy2: u8 = 1 + max_height(hr2, hyr);
        relink(edges, yi, r, ey.right, hy2);
        proof {
            let es2 = edges@;
            lemma_frame(es0, es2, a, ey.left, kr, ky);
            lemma_frame(es0, es2, a, ey.right, ky, hi);
            lemma_frame(es0, es2, a, c, lo, kr);
            assert(bst(es2, a, r, lo, ky));
            assert(bst(es2, a, y, lo, hi));
            assert forall|k: Token| #[trigger] find(es2, y, k) == find(es0, r, k) by {
                reveal_with_fuel(find, 3);
                assert(find(es2, ey.left, k) == find(es0, ey.left, k));
                assert(find(es2, ey.right, k) == find(es0, ey.right, k));
                assert(find(es2, c, k) == find(es0, c, k));
            }
        }
        y
    } else {
        let x = ey.left;
        let xi: usize = x.index();
        let ex = edges[xi];
        let ghost kx: int = ex.key as int;
        proof {
            assert(bst(es0, a, x, kr, ky));
            assert(bst(es0, a, ex.left, kr, kx));
            assert(bst(es0, a, ex.right, kx, ky));
        }
        let hxl: u8 = height_of(edges, ex.left);
        let hxr: u8 = height_of(edges, ex.right);
        let hy2: u8 = 1 + max_height(hxr, hyr);
        relink(edges, yi, ex.right, ey.right, hy2);
        let hr2: u8 = 1 + max_height(hc, hxl);
        relink(edges, ri, c, ex.left, hr2);
        let hx2: u8 = 1 + max_height(hr2, hy2);
        relink(edges, xi, r, y, hx2);
        proof {
            let es2 = edges@;
            lemma_frame(es0, es2, a, ey.right, ky, hi);
            lemma_frame(es0, es2, a, ex.left, kr, kx);
            lemma_frame(es0, es2, a, ex.right, kx, ky);
            lemma_frame(es0, es2, a, c, lo, kr);
            assert(bst(es2, a, y, kx, hi));
            assert(bst(es2, a, r, lo, kx));
            assert(bst(es2, a, x, lo, hi));
            assert forall|k: Token| #[trigger] find(es2, x, k) == find(es0, r, k) by {
                reveal_with_fuel(find, 4);
                assert(find(es2, ey.right, k) == find(es0, ey.right, k));
                assert(find(es2, ex.left, k) == find(es0, ex.left, k));
                assert(find(es2, ex.right, k) == find(es0, ex.right, k));
                assert(find(es2, c, k) == find(es0, c, k));
            }
        }
        x
    }
}

/// The record at `n` is a leaf of node `a` that no tree holds yet, with its
/// key strictly between `lo` and `hi`.
pub open spec fn fresh_leaf<E>(es: Seq<Edge<E>>, a: NodeIndex, n: EdgeIndex, lo: int, hi: int) -> bool {
    &&& n@ < es.len()
    &&& es[n@].source == a
    &&& lo < es[n@].key < hi
    &&& es[n@].left == no_edge()
    &&& es[n@].right == no_edge()
    &&& es[n@].height == 1
}

/// Links the leaf `n` into the tree at `r` and rebalances on the way back up.
/// Returns the root of the tree that results.
#[verifier::rlimit(40)]
pub fn insert<E: Copy>(
    edges: &mut Vec<Edge<E>>,
    r: EdgeIndex,
    n: EdgeIndex,
    Ghost(a): Ghost<NodeIndex>,
    Ghost(lo): Ghost<int>,
    Ghost(hi): Ghost<int>,
) -> (nr: EdgeIndex)
    requires
        -1 <= lo < hi <= key_top(),
        old(edges)@.len() <= none_ix(),
        bst(old(edges)@, a, r, lo, hi),
        fresh_leaf(old(edges)@, a, n, lo, hi),
        find(old(edges)@, r, old(edges)@[n@].key) == no_edge(),
    ensures
        bst(final(edges)@, a, nr, lo, hi),
        nr@ != none_ix(),
        ht(final(edges)@, nr) == ht(old(edges)@, r) || ht(final(edges)@, nr) == ht(old(edges)@, r)
            + 1,
        forall|k: Token| #[trigger]
            find(final(edges)@, nr, k) == if k == old(edges)@[n@].key {
                n
            } else {
                find(old(edges)@, r, k)
            },
        confined(old(edges)@, final(edges)@, a, lo, hi),
    decreases ht(old(edges)@, r),
{
    let ghost es0 = edges@;
    if r.is_end() {
        proof {
            assert(bst(es0, a, no_edge(), lo, es0[n@].key as int));
            assert(bst(es0, a, no_edge(), es0[n@].key as int, hi));
            assert(bst(es0, a, n, lo, hi));
            assert forall|k: Token| #[trigger]
                find(es0, n, k) == if k == es0[n@].key {
                    n
                } else {
                    find(es0, r, k)
                } by {
                reveal_with_fuel(find, 2);
            }
        }
        return n;
    }
    let ri: usize = r.index();
    let er = edges[ri];
    let kn: Token = edges[n.index()].key;
    let ghost kr: int = er.key as int;
    if kn < er.key {
        let nl = insert(edges, er.left, n, Ghost(a), Ghost(lo), Ghost(kr));
        let ghost es1 = edges@;
        proof {
            lemma_frame(es0, es1, a, er.right, kr, hi);
            lemma_height_bound(es1, a, nl, lo, kr);
            lemma_height_bound(es1, a, er.right, kr, hi);
        }
        let hl: u8 = height_of(edges, nl);
        let hr: u8 = height_of(edges, er.right);
        let h: u8 = 1 + max_height(hl, hr);
        relink(edges, ri, nl, er.right, h);
        let ghost es2 = edges@;
        proof {
            lemma_frame(es1, es2, a, nl, lo, kr);
            lemma_frame(es1, es2, a, er.right, kr, hi);
            assert(near(es2, a, r, lo, hi));
            assert forall|k: Token| #[trigger]
                find(es2, r, k) == if k == kn {
                    n
                } else {
                    find(es0, r, k)
                } by {
                assert(find(es2, nl, k) == find(es1, nl, k));
                assert(find(es2, er.right, k) == find(es1, er.right, k));
                assert(find(es1, er.right, k) == find(es0, er.right, k));
            }
            assert(confined(es1, es2, a, lo, hi));
            lemma_confined_chain(es0, es1, es2, a, lo, kr, lo, hi);
        }
        if hl > hr + 1 {
            let nr = rotate_right(edges, r, Ghost(a), Ghost(lo), Ghost(hi));
            proof {
                lemma_confined_chain(es0, es2, edges@, a, lo, hi, lo, hi);
            }
            nr
        } else {
            r
        }
    } else {
        let ng = insert(edges, er.right, n, Ghost(a), Ghost(kr), Ghost(hi));
        let ghost es1 = edges@;
        proof {
            lemma_frame(es0, es1, a, er.left, lo, kr);
            lemma_height_bound(es1, a, ng, kr, hi);
            lemma_height_bound(es1, a, er.left, lo, kr);
        }
        let hl: u8 = height_of(edges, er.left);
        let hr: u8 = height_of(edges, ng);
        let h: u8 = 1 + max_height(hl, hr);
        relink(edges, ri, er.left, ng, h);
        let ghost es2 = edges@;
        proof {
            lemma_frame(es1, es2, a, ng, kr, hi);
            lemma_frame(es1, es2, a, er.left, lo, kr);
            assert(near(es2, a, r, lo, hi));
            assert forall|k: Token| #[trigger]
                find(es2, r, k) == if k == kn {
                    n
                } else {
                    find(es0, r, k)
                } by {
                assert(find(es2, ng, k) == find(es1, ng, k));
                assert(find(es2, er.left, k) == find(es1, er.left, k));
                assert(find(es1, er.left, k) == find(es0, er.left, k));
            }
            assert(confined(es1, es2, a, lo, hi));
            lemma_confined_chain(es0, es1, es2, a, kr, hi, lo, hi);
        }
        if hr > hl + 1 {
            let nr = rotate_left(edges, r, Ghost(a), Ghost(lo), Ghost(hi));
            proof {
                lemma_confined_chain(es0, es2, edges@, a, lo, hi, lo, hi);
            }
            nr
        } else {
            r
        }
    }
}

/// Searches the tree at `root` for the record with key `key`.
pub fn lookup<E>(edges: &Vec<Edge<E>>, root: EdgeIndex, key: Token, Ghost(a): Ghost<NodeIndex>) -> (r:
    EdgeIndex)
    requires
        edges@.len() <= none_ix(),
        bst(edges@, a, root, -1, key_top()),
    ensures
        r == find(edges@, root, key),
{
    let mut cur = root;
    let ghost mut lo: int = -1;
    let ghost mut hi: int = key_top();
    while !cur.is_end()
        invariant
            edges@.len() <= none_ix(),
            bst(edges@, a, cur, lo, hi),
            find(edges@, cur, key) == find(edges@, root, key),
        decreases ht(edges@, cur),
    {
        let e = &edges[cur.index()];
        if key == e.key {
            return cur;
        }
        if key < e.key {
            proof {
                hi = e.key as int;
            }
            cur = e.left;
        } else {
            proof {
                lo = e.key as int;
            }
            cur = e.right;
        }
    }
    cur
}

/// `es2` has the records of `es` with the same keys, owners and tree links;
/// weights and targets may differ.
pub open spec fn same_shape<E>(es: Seq<Edge<E>>, es2: Seq<Edge<E>>) -> bool {
    &&& es2.len() == es.len()
    &&& es.len() <= none_ix()
    &&& forall|i: int|
        0 <= i < es.len() ==> {
            &&& (#[trigger] es2[i]).key == es[i].key
            &&& es2[i].source == es[i].source
            &&& es2[i].left == es[i].left
            &&& es2[i].right == es[i].right
            &&& es2[i].height == es[i].height
        }
}

/// A tree does not depend on the weights and targets of its records.
pub proof fn lemma_reweigh<E>(
    es: Seq<Edge<E>>,
    es2: Seq<Edge<E>>,
    a: NodeIndex,
    r: EdgeIndex,
    lo: int,
    hi: int,
)
    requires
        bst(es, a, r, lo, hi),
        same_shape(es, es2),
    ensures
        bst(es2, a, r, lo, hi),
        ht(es2, r) == ht(es, r),
        forall|k: Token| #[trigger] find(es2, r, k) == find(es, r, k),
        inorder(es2, r) == inorder(es, r),
    decreases ht(es, r),
{
    if r@ != none_ix() {
        let e = es[r@];
        assert(es2[r@].key == e.key);
        lemma_reweigh(es, es2, a, e.left, lo, e.key as int);
        lemma_reweigh(es, es2, a, e.right, e.key as int, hi);
        assert forall|k: Token| #[trigger] find(es2, r, k) == find(es, r, k) by {
            if k < e.key {
                assert(find(es2, e.left, k) == find(es, e.left, k));
            } else if k > e.key {
                assert(find(es2, e.right, k) == find(es, e.right, k));
            }
        }
    }
}

/// What holds of each record that a tree lists: it lies in the store, belongs
/// to the tree's node, and is the record found under its own key.
pub open spec fn listed_ok<E>(
    es: Seq<Edge<E>>,
    a: NodeIndex,
    r: EdgeIndex,
    lo: int,
    hi: int,
    e: EdgeIndex,
) -> bool {
    &&& e@ < es.len()
    &&& es[e@].source == a
    &&& lo < es[e@].key < hi
    &&& find(es, r, es[e@].key) == e
}

/// The listing of a tree holds exactly the records that can be found in it,
/// by strictly ascending key; there are fewer of them than two to the tree's
/// height, and no fewer than a balanced tree of that height must have.
pub proof fn lemma_inorder_props<E>(es: Seq<Edge<E>>, a: NodeIndex, r: EdgeIndex, lo: int, hi: int)
    requires
        es.len() <= none_ix(),
        bst(es, a, r, lo, hi),
    ensures
        forall|j: int|
            0 <= j < inorder(es, r).len() ==> listed_ok(es, a, r, lo, hi, #[trigger] inorder(es, r)[j]),
        forall|i: int, j: int|
            0 <= i < j < inorder(es, r).len() ==> es[(#[trigger] inorder(es, r)[i])@].key < es[(
            #[trigger] inorder(es, r)[j])@].key,
        forall|k: Token|
            (#[trigger] find(es, r, k))@ != none_ix() ==> inorder(es, r).contains(find(es, r, k)),
        inorder(es, r).len() + 1 <= pow2(ht(es, r)),
        span_of_height(ht(es, r)) <= inorder(es, r).len() + 1,
    decreases ht(es, r),
{
    lemma2_to64();
    if r@ != none_ix() {
        let e = es[r@];
        let kr = e.key as int;
        let lft = inorder(es, e.left);
        let rgt = inorder(es, e.right);
        let all = inorder(es, r);
        lemma_inorder_props(es, a, e.left, lo, kr);
        lemma_inorder_props(es, a, e.right, kr, hi);
        assert(all == lft.push(r) + rgt);
        assert forall|j: int| 0 <= j < all.len() implies listed_ok(es, a, r, lo, hi, #[trigger] all[j]) by {
            if j < lft.len() {
                assert(all[j] == lft[j]);
                assert(listed_ok(es, a, e.left, lo, kr, lft[j]));
            } else if j == lft.len() {
                assert(all[j] == r);
            } else {
                assert(all[j] == rgt[j - lft.len() - 1]);
                assert(listed_ok(es, a, e.right, kr, hi, rgt[j - lft.len() - 1]));
            }
        }
        assert forall|i: int, j: int| 0 <= i < j < all.len() implies es[(#[trigger] all[i])@].key < es[(
        #[trigger] all[j])@].key by {
            if i < lft.len() {
                assert(all[i] == lft[i]);
                assert(listed_ok(es, a, e.left, lo, kr, lft[i]));
            } else if i == lft.len() {
                assert(all[i] == r);
            } else {
                assert(all[i] == rgt[i - lft.len() - 1]);
                assert(listed_ok(es, a, e.right, kr, hi, rgt[i - lft.len() - 1]));
            }
            if j < lft.len() {
                assert(all[j] == lft[j]);
                assert(listed_ok(es, a, e.left, lo, kr, lft[j]));
            } else if j == lft.len() {
                assert(all[j] == r);
            } else {
                assert(all[j] == rgt[j - lft.len() - 1]);
                assert(listed_ok(es, a, e.right, kr, hi, rgt[j - lft.len() - 1]));
            }
        }
        assert forall|k: Token| (#[trigger] find(es, r, k))@ != none_ix() implies all.contains(
            find(es, r, k),
        ) by {
            if k == e.key {
                assert(all[lft.len() as int] == r);
            } else if k < e.key {
                let f = find(es, e.left, k);
                assert(lft.contains(f));
                let i = choose|i: int| 0 <= i < lft.len() && lft[i] == f;
                assert(all[i] == f);
            } else {
                let f = find(es, e.right, k);
                assert(rgt.contains(f));
                let i = choose|i: int| 0 <= i < rgt.len() && rgt[i] == f;
                assert(all[lft.len() + 1 + i] == f);
            }
        }
        let h = ht(es, r);
        if h >= 2 {
            if ht(es, e.left) >= ht(es, e.right) {
                lemma_span_monotone((h - 2) as nat, ht(es, e.right));
            } else {
                lemma_span_monotone((h - 2) as nat, ht(es, e.left));
            }
        }
        lemma_pow2_unfold(h);
        if ht(es, e.left) < h - 1 {
            lemma_pow2_strictly_increases(ht(es, e.left), (h - 1) as nat);
        }
        if ht(es, e.right) < h - 1 {
            lemma_pow2_strictly_increases(ht(es, e.right), (h - 1) as nat);
        }
    }
}

/// Appends the records of the tree at `r` to `out`, by ascending key.
pub fn collect<E>(
    edges: &Vec<Edge<E>>,
    r: EdgeIndex,
    out: &mut Vec<EdgeIndex>,
    Ghost(a): Ghost<NodeIndex>,
    Ghost(lo): Ghost<int>,
    Ghost(hi): Ghost<int>,
)
    requires
        edges@.len() <= none_ix(),
        bst(edges@, a, r, lo, hi),
    ensures
        final(out)@ == old(out)@ + inorder(edges@, r),
    decreases ht(edges@, r),
{
    if r.is_end() {
        assert(out@ + inorder(edges@, r) =~= out@);
        return ;
    }
    let ghost out0 = out@;
    let e = &edges[r.index()];
    collect(edges, e.left, out, Ghost(a), Ghost(lo), Ghost(e.key as int));
    out.push(r);
    collect(edges, e.right, out, Ghost(a), Ghost(e.key as int), Ghost(hi));
    assert(out@ =~= out0 + inorder(edges@, r));
}

} // verus!
