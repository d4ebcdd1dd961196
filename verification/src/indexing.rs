//! Compact integer handles for nodes and edges.

use vstd::prelude::*;

verus! {

/// The integer type that handles are stored in.
pub type DefaultIx = u32;

/// A token of the indexed stream.
pub type Token = u64;

/// An unsigned integer usable as a handle: it converts to and from `usize`
/// without loss, and its largest value is set aside to mean "none".
pub trait IndexType: Copy + Sized {
    /// The mathematical value of the handle.
    spec fn index_spec(self) -> nat;

    /// The value of the reserved sentinel, above every real handle.
    spec fn max_spec() -> nat;

    /// Two handles with the same value are the same handle.
    proof fn lemma_index_injective(a: Self, b: Self)
        requires
            a.index_spec() == b.index_spec(),
        ensures
            a == b,
    ;

    /// Every handle is at most the sentinel, and the sentinel fits in `usize`.
    proof fn lemma_index_bounded(a: Self)
        ensures
            a.index_spec() <= Self::max_spec(),
            Self::max_spec() <= usize::MAX,
    ;

    /// The handle holding `x`.
    fn new(x: usize) -> (r: Self)
        requires
            x <= Self::max_spec(),
        ensures
            r.index_spec() == x,
    ;

    /// The value held by the handle.
    fn index(&self) -> (r: usize)
        ensures
            r == self.index_spec(),
    ;

    /// The reserved sentinel.
    fn max_value() -> (r: Self)
        ensures
            r.index_spec() == Self::max_spec(),
    ;
}

impl IndexType for u32 {
    open spec fn index_spec(self) -> nat {
        self as nat
    }

    open spec fn max_spec() -> nat {
        u32::MAX as nat
    }

    proof fn lemma_index_injective(a: Self, b: Self) {
    }

    proof fn lemma_index_bounded(a: Self) {
    }

    fn new(x: usize) -> (r: Self) {
        x as u32
    }

    fn index(&self) -> (r: usize) {
        *self as usize
    }

    fn max_value() -> (r: Self) {
        u32::MAX
    }
}

impl IndexType for usize {
    open spec fn index_spec(self) -> nat {
        self as nat
    }

    open spec fn max_spec() -> nat {
        usize::MAX as nat
    }

    proof fn lemma_index_injective(a: Self, b: Self) {
    }

    proof fn lemma_index_bounded(a: Self) {
    }

    fn new(x: usize) -> (r: Self) {
        x
    }

    fn index(&self) -> (r: usize) {
        *self
    }

    fn max_value() -> (r: Self) {
        usize::MAX
    }
}

/// The value that a stored handle takes when it refers to nothing.
pub open spec fn none_ix() -> int {
    u32::MAX as int
}

/// Handle of a node of a graph.
#[derive(Clone, Copy, Debug, PartialEq, Eq, Structural, Hash)]
pub struct NodeIndex {
    pub ix: DefaultIx,
}

/// Handle of an edge of a graph.
#[derive(Clone, Copy, Debug, PartialEq, Eq, Structural, Hash)]
pub struct EdgeIndex {
    pub ix: DefaultIx,
}

impl View for NodeIndex {
    type V = int;

    open spec fn view(&self) -> int {
        self.ix as int
    }
}

impl View for EdgeIndex {
    type V = int;

    open spec fn view(&self) -> int {
        self.ix as int
    }
}

impl NodeIndex {
    /// The handle with value `x`; `x` may be the sentinel's value.
    pub fn new(x: usize) -> (r: Self)
        requires
            x <= none_ix(),
        ensures
            r@ == x,
    {
        NodeIndex { ix: <DefaultIx as IndexType>::new(x) }
    }

    /// The position in the node store that the handle stands for.
    pub fn index(&self) -> (r: usize)
        ensures
            r == self@,
    {
        self.ix.index()
    }

    /// The handle that refers to no node.
    pub fn end() -> (r: Self)
        ensures
            r@ == none_ix(),
    {
        NodeIndex { ix: <DefaultIx as IndexType>::max_value() }
    }

    /// Whether the handle refers to no node.
    pub fn is_end(&self) -> (r: bool)
        ensures
            r == (self@ == none_ix()),
    {
        self.ix == u32::MAX
    }
}

impl EdgeIndex {
    /// The handle with value `x`; `x` may be the sentinel's value.
    pub fn new(x: usize) -> (r: Self)
        requires
            x <= none_ix(),
        ensures
            r@ == x,
    {
        EdgeIndex { ix: <DefaultIx as IndexType>::new(x) }
    }

    /// The position in the edge store that the handle stands for.
    pub fn index(&self) -> (r: usize)
        ensures
            r == self@,
    {
        self.ix.index()
    }

    /// The handle that refers to no edge.
    pub fn end() -> (r: Self)
        ensures
            r@ == none_ix(),
    {
        EdgeIndex { ix: <DefaultIx as IndexType>::max_value() }
    }

    /// Whether the handle refers to no edge.
    pub fn is_end(&self) -> (r: bool)
        ensures
            r == (self@ == none_ix()),
    {
        self.ix == u32::MAX
    }
}

/// Converting a value to a handle and back returns the value, and the
/// sentinel differs from every handle below it.
pub proof fn lemma_handle_round_trip<Ix: IndexType>(x: usize, h: Ix)
    requires
        x < Ix::max_spec(),
        h.index_spec() == x,
    ensures
        h.index_spec() != Ix::max_spec(),
        forall|g: Ix| g.index_spec() == x ==> g == h,
{
    assert forall|g: Ix| g.index_spec() == x implies g == h by {
        Ix::lemma_index_injective(g, h);
    }
}

} // verus!
