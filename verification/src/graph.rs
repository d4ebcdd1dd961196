//! Arena storage for automata: nodes and edges addressed by handles.

pub mod avl_tree;
pub mod avl_graph;
pub mod memory_backing;
pub mod disk_layout;
