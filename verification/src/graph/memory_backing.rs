//! Where the node and edge stores of a graph live.

use vstd::prelude::*;
use vstd::string::*;

verus! {

/// Number of records that a store is sized for when the caller names none.
pub const DEFAULT_CAPACITY: usize = 8;

/// The capacity that a new store gets.
pub open spec fn capacity_or_default(capacity: Option<usize>) -> usize {
    match capacity {
        Some(n) => n,
        None => DEFAULT_CAPACITY,
    }
}

/// Computes `capacity_or_default`.
pub fn initial_capacity(capacity: Option<usize>) -> (n: usize)
    ensures
        n == capacity_or_default(capacity),
{
    match capacity {
        Some(n) => n,
        None => DEFAULT_CAPACITY,
    }
}

/// The path of the file `name` in the directory `dir`: the two joined by one
/// separator, unless `dir` is empty or already ends in one. `name` is the
/// plain name of a file, with no directory before it.
pub open spec fn join_path(dir: Seq<char>, name: Seq<char>) -> Seq<char> {
    if dir.len() == 0 {
        name
    } else if dir.last() == '/' {
        dir + name
    } else {
        dir + seq!['/'] + name
    }
}

/// Computes `join_path`.
pub fn join(dir: &str, name: &str) -> (path: String)
    ensures
        path@ == join_path(dir@, name@),
{
    let n: usize = dir.unicode_len();
    let mut path = String::from_str(dir);
    if n > 0 {
        if dir.get_char(n - 1) != '/' {
            proof {
                reveal_strlit("/");
                assert("/"@ =~= seq!['/']);
            }
            path.append("/");
        }
    }
    path.append(name);
    path
}

/// Stores kept in memory; they last as long as the process.
#[derive(Clone, Copy, Debug)]
pub struct RamBacking {}

/// Stores kept in two flat files of fixed-width records under one directory.
#[derive(Clone, Debug)]
pub struct DiskBacking {
    dir_path: String,
}

/// A store to open: the file that holds it and the number of records to size
/// it for.
#[derive(Debug)]
pub struct StorePlan {
    pub path: String,
    pub capacity: usize,
}

impl RamBacking {
    pub fn new() -> (b: Self) {
        RamBacking {  }
    }

    /// A fresh, empty node store with room for `capacity` records, or for
    /// the default.
    pub fn new_node_vec<T>(&self, capacity: Option<usize>) -> (store: Vec<T>)
        ensures
            store@.len() == 0,
    {
        Vec::with_capacity(initial_capacity(capacity))
    }

    /// A fresh, empty edge store with room for `capacity` records, or for
    /// the default.
    pub fn new_edge_vec<T>(&self, capacity: Option<usize>) -> (store: Vec<T>)
        ensures
            store@.len() == 0,
    {
        Vec::with_capacity(initial_capacity(capacity))
    }
}

impl DiskBacking {
    /// The directory that holds the two files.
    pub closed spec fn dir(&self) -> Seq<char> {
        self.dir_path@
    }

    /// A backing under the directory `dir_path`, which the caller has made.
    pub fn new(dir_path: &str) -> (b: Self)
        ensures
            b.dir() == dir_path@,
    {
        DiskBacking { dir_path: String::from_str(dir_path) }
    }

    /// Path of the file that holds the node records.
    pub fn get_nodes_path(&self) -> (path: String)
        ensures
            path@ == join_path(self.dir(), "nodes.vec"@),
    {
        join(self.dir_path.as_str(), "nodes.vec")
    }

    /// Path of the file that holds the edge records.
    pub fn get_edges_path(&self) -> (path: String)
        ensures
            path@ == join_path(self.dir(), "edges.vec"@),
    {
        join(self.dir_path.as_str(), "edges.vec")
    }

    /// The node store to open: its file, sized for `capacity` records or for
    /// the default.
    pub fn new_node_vec(&self, capacity: Option<usize>) -> (plan: StorePlan)
        ensures
            plan.path@ == join_path(self.dir(), "nodes.vec"@),
            plan.capacity == capacity_or_default(capacity),
    {
        StorePlan { path: self.get_nodes_path(), capacity: initial_capacity(capacity) }
    }

    /// The edge store to open: its file, sized for `capacity` records or for
    /// the default.
    pub fn new_edge_vec(&self, capacity: Option<usize>) -> (plan: StorePlan)
        ensures
            plan.path@ == join_path(self.dir(), "edges.vec"@),
            plan.capacity == capacity_or_default(capacity),
    {
        StorePlan { path: self.get_edges_path(), capacity: initial_capacity(capacity) }
    }
}

} // verus!
