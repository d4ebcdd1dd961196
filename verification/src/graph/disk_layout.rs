//! The layout of a store on disk: one flat file of fixed-width records,
//! numbered from zero, whose length is a whole number of records.

use vstd::prelude::*;
use vstd::bytes::spec_u32_to_le_bytes;
use vstd::bytes::spec_u32_from_le_bytes;
use vstd::bytes::spec_u64_to_le_bytes;
use vstd::bytes::spec_u64_from_le_bytes;
use vstd::bytes::u32_to_le_bytes;
use vstd::bytes::u32_from_le_bytes;
use vstd::bytes::u64_to_le_bytes;
use vstd::bytes::u64_from_le_bytes;
use vstd::bytes::lemma_auto_spec_u32_to_from_le_bytes;
use vstd::bytes::lemma_auto_spec_u64_to_from_le_bytes;
use vstd::slice::slice_subrange;
use crate::io::save::NodeRecord;
use crate::io::save::EdgeRecord;

verus! {

/// Bytes of one node record.
pub const NODE_WIDTH: usize = 20;

/// Bytes of one edge record.
pub const EDGE_WIDTH: usize = 16;

/// A node record on disk: length, link and count, each little-endian.
pub open spec fn node_bytes(r: NodeRecord) -> Seq<u8> {
    spec_u64_to_le_bytes(r.length) + spec_u32_to_le_bytes(r.failure) + spec_u64_to_le_bytes(r.count)
}

/// The node record that twenty bytes hold.
pub open spec fn node_of_bytes(b: Seq<u8>) -> NodeRecord {
    NodeRecord {
        length: spec_u64_from_le_bytes(b.subrange(0, 8)),
        failure: spec_u32_from_le_bytes(b.subrange(8, 12)),
        count: spec_u64_from_le_bytes(b.subrange(12, 20)),
    }
}

/// An edge record on disk: source, token and target, each little-endian.
pub open spec fn edge_bytes(r: EdgeRecord) -> Seq<u8> {
    spec_u32_to_le_bytes(r.source) + spec_u64_to_le_bytes(r.token) + spec_u32_to_le_bytes(r.target)
}

/// The edge record that sixteen bytes hold.
pub open spec fn edge_of_bytes(b: Seq<u8>) -> EdgeRecord {
    EdgeRecord {
        source: spec_u32_from_le_bytes(b.subrange(0, 4)),
        token: spec_u64_from_le_bytes(b.subrange(4, 12)),
        target: spec_u32_from_le_bytes(b.subrange(12, 16)),
    }
}

/// A node record that is written and read back is the same record.
pub proof fn lemma_node_round_trip(r: NodeRecord)
    ensures
        node_bytes(r).len() == NODE_WIDTH,
        node_of_bytes(node_bytes(r)) == r,
{
    lemma_auto_spec_u32_to_from_le_bytes();
    lemma_auto_spec_u64_to_from_le_bytes();
    let b = node_bytes(r);
    assert(b.subrange(0, 8) =~= spec_u64_to_le_bytes(r.length));
    assert(b.subrange(8, 12) =~= spec_u32_to_le_bytes(r.failure));
    assert(b.subrange(12, 20) =~= spec_u64_to_le_bytes(r.count));
}

/// An edge record that is written and read back is the same record.
pub proof fn lemma_edge_round_trip(r: EdgeRecord)
    ensures
        edge_bytes(r).len() == EDGE_WIDTH,
        edge_of_bytes(edge_bytes(r)) == r,
{
    lemma_auto_spec_u32_to_from_le_bytes();
    lemma_auto_spec_u64_to_from_le_bytes();
    let b = edge_bytes(r);
    assert(b.subrange(0, 4) =~= spec_u32_to_le_bytes(r.source));
    assert(b.subrange(4, 12) =~= spec_u64_to_le_bytes(r.token));
    assert(b.subrange(12, 16) =~= spec_u32_to_le_bytes(r.target));
}

/// The bytes of a node record.
pub fn encode_node(r: NodeRecord) -> (b: Vec<u8>)
    ensures
        b@ == node_bytes(r),
        b@.len() == NODE_WIDTH,
{
    let mut b = u64_to_le_bytes(r.length);
    let mut failure = u32_to_le_bytes(r.failure);
    let mut count = u64_to_le_bytes(r.count);
    b.append(&mut failure);
    b.append(&mut count);
    b
}

/// The node record that `b` holds, if `b` is as wide as one.
pub fn decode_node(b: &[u8]) -> (r: Option<NodeRecord>)
    ensures
        r == if b@.len() == NODE_WIDTH {
            Some(node_of_bytes(b@))
        } else {
            None
        },
{
    if b.len() != NODE_WIDTH {
        return None;
    }
    Some(
        NodeRecord {
            length: u64_from_le_bytes(slice_subrange(b, 0, 8)),
            failure: u32_from_le_bytes(slice_subrange(b, 8, 12)),
            count: u64_from_le_bytes(slice_subrange(b, 12, 20)),
        },
    )
}

/// The bytes of an edge record.
pub fn encode_edge(r: EdgeRecord) -> (b: Vec<u8>)
    ensures
        b@ == edge_bytes(r),
        b@.len() == EDGE_WIDTH,
{
    let mut b = u32_to_le_bytes(r.source);
    let mut token = u64_to_le_bytes(r.token);
    let mut target = u32_to_le_bytes(r.target);
    b.append(&mut token);
    b.append(&mut target);
    b
}

/// The edge record that `b` holds, if `b` is as wide as one.
pub fn decode_edge(b: &[u8]) -> (r: Option<EdgeRecord>)
    ensures
        r == if b@.len() == EDGE_WIDTH {
            Some(edge_of_bytes(b@))
        } else {
            None
        },
{
    if b.len() != EDGE_WIDTH {
        return None;
    }
    Some(
        EdgeRecord {
            source: u32_from_le_bytes(slice_subrange(b, 0, 4)),
            token: u64_from_le_bytes(slice_subrange(b, 4, 12)),
            target: u32_from_le_bytes(slice_subrange(b, 12, 16)),
        },
    )
}

/// Where record `index` starts in a file of records `width` bytes wide;
/// `None` where that is beyond what a file offset can say.
pub fn record_offset(index: usize, width: usize) -> (r: Option<u64>)
    ensures
        r == if index * width <= u64::MAX {
            Some((index * width) as u64)
        } else {
            None
        },
{
    match (index as u128).checked_mul(width as u128) {
        Some(o) => {
            if o <= u64::MAX as u128 {
                Some(o as u64)
            } else {
                None
            }
        },
        None => None,
    }
}

/// Number of records in a file of `file_len` bytes; `None` where the file is
/// no whole number of records.
pub fn record_count(file_len: u64, width: usize) -> (r: Option<usize>)
    requires
        width > 0,
    ensures
        r == if file_len as int % width as int == 0 && file_len as int / width as int <= usize::MAX {
            Some((file_len as int / width as int) as usize)
        } else {
            None
        },
{
    let w: u128 = width as u128;
    let len: u128 = file_len as u128;
    if len % w != 0 {
        return None;
    }
    let n: u128 = len / w;
    if n > usize::MAX as u128 {
        None
    } else {
        Some(n as usize)
    }
}

/// Number of records that a store of capacity `capacity` is short of
/// `needed`.
pub open spec fn short_of(capacity: nat, needed: nat) -> nat {
    if capacity < needed {
        (needed - capacity) as nat
    } else {
        0
    }
}

/// The capacity that a store of capacity `capacity` grows to when it has to
/// hold `needed` records: `capacity` doubled until it is enough.
pub open spec fn grown(capacity: nat, needed: nat) -> nat
    decreases short_of(capacity, needed),
{
    if capacity >= needed {
        capacity
    } else if capacity == 0 {
        grown(1, needed)
    } else {
        grown(2 * capacity, needed)
    }
}

pub proof fn lemma_grown(capacity: nat, needed: nat)
    ensures
        grown(capacity, needed) >= needed,
        grown(capacity, needed) >= capacity,
        capacity >= needed ==> grown(capacity, needed) == capacity,
        grown(capacity, needed) <= if 2 * needed > capacity {
            2 * needed
        } else {
            capacity
        },
    decreases short_of(capacity, needed),
{
    if capacity < needed {
        if capacity == 0 {
            lemma_grown(1, needed);
        } else {
            lemma_grown(2 * capacity, needed);
        }
    }
}

/// Computes `grown`; where doubling would leave the range of `usize`, the
/// result is `needed` itself.
pub fn grown_capacity(capacity: usize, needed: usize) -> (r: usize)
    ensures
        r >= needed,
        r >= capacity,
        grown(capacity as nat, needed as nat) <= usize::MAX ==> r == grown(capacity as nat, needed as nat),
        grown(capacity as nat, needed as nat) > usize::MAX ==> r == needed,
{
    let mut c: usize = capacity;
    while c < needed
        invariant
            grown(c as nat, needed as nat) == grown(capacity as nat, needed as nat),
            c >= capacity,
        decreases short_of(c as nat, needed as nat),
    {
        if c == 0 {
            c = 1;
        } else if c > usize::MAX / 2 {
            proof {
                lemma_grown(2 * c as nat, needed as nat);
            }
            return needed;
        } else {
            c = 2 * c;
        }
    }
    c
}

} // verus!
