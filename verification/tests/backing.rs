use token_dawg::graph::memory_backing::initial_capacity;
use token_dawg::graph::memory_backing::join;
use token_dawg::graph::memory_backing::DiskBacking;

#[test]
fn store_files_lie_under_the_directory() {
    let b = DiskBacking::new("/tmp/graph");
    assert_eq!(b.get_nodes_path(), "/tmp/graph/nodes.vec");
    assert_eq!(b.get_edges_path(), "/tmp/graph/edges.vec");
}

#[test]
fn a_trailing_separator_is_not_doubled() {
    let b = DiskBacking::new("data/");
    assert_eq!(b.get_nodes_path(), "data/nodes.vec");
    assert_eq!(b.get_edges_path(), "data/edges.vec");
}

#[test]
fn an_empty_directory_gives_the_bare_names() {
    let b = DiskBacking::new("");
    assert_eq!(b.get_nodes_path(), "nodes.vec");
    assert_eq!(b.get_edges_path(), "edges.vec");
    assert_eq!(join("", "x"), "x");
}

#[test]
fn paths_agree_with_the_standard_join() {
    for dir in ["", "a", "a/", "/", "/a/b", "a b/c", "ü/ö"] {
        let b = DiskBacking::new(dir);
        let expected = std::path::Path::new(dir).join("nodes.vec");
        assert_eq!(std::path::PathBuf::from(b.get_nodes_path()), expected);
    }
}

#[test]
fn stores_default_to_eight_records() {
    assert_eq!(initial_capacity(None), 8);
    assert_eq!(initial_capacity(Some(0)), 0);
    assert_eq!(initial_capacity(Some(1000)), 1000);
    let b = DiskBacking::new("d");
    let nodes = b.new_node_vec(None);
    assert_eq!(nodes.path, "d/nodes.vec");
    assert_eq!(nodes.capacity, 8);
    let edges = b.new_edge_vec(Some(32));
    assert_eq!(edges.path, "d/edges.vec");
    assert_eq!(edges.capacity, 32);
}
