//! Per-node metadata of an automaton: how often the state occurs, where its
//! suffix link leads, and how long its longest string is.

use vstd::prelude::*;
use crate::indexing::NodeIndex;
use crate::indexing::none_ix;

verus! {

/// What an automaton keeps at each node. Implementations may pack the three
/// values as they like, as long as each can be read and replaced on its own.
pub trait Weight: Copy + Sized {
    /// Length of the longest string that reaches the state.
    spec fn length_spec(self) -> nat;

    /// Target of the suffix link, if the state has one.
    spec fn failure_spec(self) -> Option<NodeIndex>;

    /// Number of occurrences recorded for the state.
    spec fn count_spec(self) -> nat;

    /// Length and count fit the machine words that they are read into.
    proof fn lemma_bounded(self)
        ensures
            self.length_spec() <= u64::MAX,
            self.count_spec() <= u64::MAX,
            self.failure_spec() matches Some(f) ==> f@ != none_ix(),
    ;

    /// A weight holding the three given values.
    fn new(length: u64, failure: Option<NodeIndex>, count: u64) -> (r: Self)
        requires
            failure matches Some(f) ==> f@ != none_ix(),
        ensures
            r.length_spec() == length,
            r.failure_spec() == failure,
            r.count_spec() == count,
    ;

    fn get_length(&self) -> (r: u64)
        ensures
            r == self.length_spec(),
    ;

    fn set_length(&mut self, length: u64)
        ensures
            final(self).length_spec() == length,
            final(self).failure_spec() == old(self).failure_spec(),
            final(self).count_spec() == old(self).count_spec(),
    ;

    fn get_failure(&self) -> (r: Option<NodeIndex>)
        ensures
            r == self.failure_spec(),
    ;

    fn set_failure(&mut self, failure: Option<NodeIndex>)
        requires
            failure matches Some(f) ==> f@ != none_ix(),
        ensures
            final(self).failure_spec() == failure,
            final(self).length_spec() == old(self).length_spec(),
            final(self).count_spec() == old(self).count_spec(),
    ;

    fn get_count(&self) -> (r: u64)
        ensures
            r == self.count_spec(),
    ;

    fn set_count(&mut self, count: u64)
        ensures
            final(self).count_spec() == count,
            final(self).length_spec() == old(self).length_spec(),
            final(self).failure_spec() == old(self).failure_spec(),
    ;

    /// Adds one to the count; a count at the top of its range stays there.
    fn increment_count(&mut self)
        ensures
            final(self).count_spec() == if old(self).count_spec() < u64::MAX {
                old(self).count_spec() + 1
            } else {
                old(self).count_spec()
            },
            final(self).length_spec() == old(self).length_spec(),
            final(self).failure_spec() == old(self).failure_spec(),
    ;
}

/// The plain weight: three machine words, the suffix link stored as a handle
/// with the sentinel standing for "no link".
#[derive(Clone, Copy, Debug, PartialEq, Eq, Structural)]
pub struct BasicWeight {
    pub length: u64,
    pub failure: NodeIndex,
    pub count: u64,
}

impl Weight for BasicWeight {
    open spec fn length_spec(self) -> nat {
        self.length as nat
    }

    open spec fn failure_spec(self) -> Option<NodeIndex> {
        if self.failure@ == none_ix() {
            None
        } else {
            Some(self.failure)
        }
    }

    open spec fn count_spec(self) -> nat {
        self.count as nat
    }

    proof fn lemma_bounded(self) {
    }

    fn new(length: u64, failure: Option<NodeIndex>, count: u64) -> (r: Self) {
        let f = match failure {
            Some(f) => f,
            None => NodeIndex::end(),
        };
        BasicWeight { length, failure: f, count }
    }

    fn get_length(&self) -> (r: u64) {
        self.length
    }

    fn set_length(&mut self, length: u64) {
        self.length = length;
    }

    fn get_failure(&self) -> (r: Option<NodeIndex>) {
        if self.failure.is_end() {
            None
        } else {
            Some(self.failure)
        }
    }

    fn set_failure(&mut self, failure: Option<NodeIndex>) {
        self.failure = match failure {
            Some(f) => f,
            None => NodeIndex::end(),
        };
    }

    fn get_count(&self) -> (r: u64) {
        self.count
    }

    fn set_count(&mut self, count: u64) {
        self.count = count;
    }

    fn increment_count(&mut self) {
        if self.count < u64::MAX {
            self.count = self.count + 1;
        }
    }
}

} // verus!
