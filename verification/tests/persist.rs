use token_dawg::dawg::automaton::Dawg;
use token_dawg::graph::disk_layout::decode_edge;
use token_dawg::graph::disk_layout::decode_node;
use token_dawg::graph::disk_layout::encode_edge;
use token_dawg::graph::disk_layout::encode_node;
use token_dawg::graph::disk_layout::grown_capacity;
use token_dawg::graph::disk_layout::record_count;
use token_dawg::graph::disk_layout::record_offset;
use token_dawg::graph::disk_layout::EDGE_WIDTH;
use token_dawg::graph::disk_layout::NODE_WIDTH;
use token_dawg::graph::memory_backing::DiskBacking;
use token_dawg::indexing::NodeIndex;
use token_dawg::io::save::EdgeRecord;
use token_dawg::io::save::LoadError;
use token_dawg::io::save::NodeRecord;
use token_dawg::io::save::Save;
use token_dawg::io::save::SavePlan;
use token_dawg::io::save::SavedGraph;
use token_dawg::weight::BasicWeight;

fn built(tokens: &Vec<u64>) -> (Dawg<BasicWeight>, NodeIndex) {
    Dawg::<BasicWeight>::build(tokens).ok().unwrap()
}

fn same_automaton(a: &Dawg<BasicWeight>, b: &Dawg<BasicWeight>, alphabet: u64) {
    assert_eq!(a.node_count(), b.node_count());
    assert_eq!(a.edge_count(), b.edge_count());
    for v in 0..a.node_count() {
        let s = NodeIndex::new(v);
        assert_eq!(a.get_length(s), b.get_length(s));
        assert_eq!(a.get_failure(s), b.get_failure(s));
        assert_eq!(a.get_count(s), b.get_count(s));
        for t in 0..alphabet {
            assert_eq!(a.transition(s, t), b.transition(s, t));
        }
    }
}

#[test]
fn saved_records_list_nodes_and_edges_in_order_of_creation() {
    let (d, _) = built(&vec![7, 8, 8]);
    let parts = d.to_parts();
    let none = u32::MAX;
    assert_eq!(
        parts.nodes,
        vec![
            NodeRecord { length: 0, failure: none, count: 3 },
            NodeRecord { length: 1, failure: 0, count: 1 },
            NodeRecord { length: 2, failure: 4, count: 1 },
            NodeRecord { length: 3, failure: 4, count: 1 },
            NodeRecord { length: 1, failure: 0, count: 2 },
        ]
    );
    assert_eq!(
        parts.edges,
        vec![
            EdgeRecord { source: 0, token: 7, target: 1 },
            EdgeRecord { source: 1, token: 8, target: 2 },
            EdgeRecord { source: 0, token: 8, target: 4 },
            EdgeRecord { source: 2, token: 8, target: 3 },
            EdgeRecord { source: 4, token: 8, target: 3 },
        ]
    );
}

#[test]
fn save_and_reload_keep_counts_and_transitions() {
    let text: Vec<u64> = vec![2, 0, 1, 0, 0, 1, 2, 2, 0, 1, 0, 1, 1, 0, 2];
    let (mut d, last) = built(&text);
    d.count_suffixes(last);
    let parts = d.to_parts();
    let back = Dawg::<BasicWeight>::from_parts(&parts).ok().unwrap();
    same_automaton(&d, &back, 4);
    for i in 0..text.len() {
        for j in i..=text.len() {
            assert!(back.accepts(&text[i..j].to_vec()));
        }
    }
    let again = back.to_parts();
    assert_eq!(again.nodes, parts.nodes);
    assert_eq!(again.edges, parts.edges);
}

#[test]
fn resuming_from_a_checkpoint_equals_building_without_a_break() {
    let text: Vec<u64> = (0..1000u64).map(|i| (i * 31 + i / 7) % 5).collect();
    let (whole, whole_last) = built(&text);
    let (first, first_last) = built(&text[..100].to_vec());
    let mut resumed = Dawg::<BasicWeight>::from_parts(&first.to_parts()).ok().unwrap();
    let mut last = first_last;
    for t in &text[100..] {
        last = resumed.try_extend(*t, last).unwrap();
        resumed.count_suffixes(last);
    }
    assert_eq!(last, whole_last);
    same_automaton(&whole, &resumed, 6);
}

#[test]
fn saving_an_automaton_in_memory_writes_all_of_it() {
    let (d, _) = built(&vec![1, 2, 1]);
    match d.save("/tmp/graph.bin") {
        SavePlan::WriteFile { path, graph } => {
            assert_eq!(path, "/tmp/graph.bin");
            assert_eq!(graph.nodes.len(), d.node_count());
            assert_eq!(graph.edges.len(), d.edge_count());
            assert_eq!(graph.nodes, d.to_parts().nodes);
            assert_eq!(graph.edges, d.to_parts().edges);
        },
        SavePlan::Nothing => panic!("nothing to write"),
    }
}

#[test]
fn saving_a_graph_on_disk_writes_nothing() {
    let backing = DiskBacking::new("/tmp/graph");
    assert!(matches!(backing.save("/tmp/elsewhere"), SavePlan::Nothing));
}

fn parts(nodes: Vec<NodeRecord>, edges: Vec<EdgeRecord>) -> SavedGraph {
    SavedGraph { nodes, edges }
}

fn refused(g: SavedGraph) -> LoadError {
    match Dawg::<BasicWeight>::from_parts(&g) {
        Ok(_) => panic!("loaded"),
        Err(e) => e,
    }
}

#[test]
fn malformed_nodes_are_refused() {
    let none = u32::MAX;
    let source = NodeRecord { length: 0, failure: none, count: 0 };
    assert_eq!(refused(parts(vec![], vec![])), LoadError::MalformedNode);
    assert_eq!(
        refused(parts(vec![NodeRecord { length: 1, failure: none, count: 0 }], vec![])),
        LoadError::MalformedNode
    );
    assert_eq!(
        refused(parts(vec![NodeRecord { length: 0, failure: 0, count: 0 }], vec![])),
        LoadError::MalformedNode
    );
    // a link out of range, no link, and a link to a state that is not shorter
    assert_eq!(
        refused(parts(vec![source, NodeRecord { length: 1, failure: 2, count: 0 }], vec![])),
        LoadError::MalformedNode
    );
    assert_eq!(
        refused(parts(vec![source, NodeRecord { length: 1, failure: none, count: 0 }], vec![])),
        LoadError::MalformedNode
    );
    assert_eq!(
        refused(parts(
            vec![
                source,
                NodeRecord { length: 1, failure: 2, count: 0 },
                NodeRecord { length: 1, failure: 0, count: 0 },
            ],
            vec![]
        )),
        LoadError::MalformedNode
    );
    assert!(Dawg::<BasicWeight>::from_parts(&parts(vec![source], vec![])).is_ok());
}

#[test]
fn malformed_edges_are_refused() {
    let none = u32::MAX;
    let nodes = vec![
        NodeRecord { length: 0, failure: none, count: 0 },
        NodeRecord { length: 1, failure: 0, count: 3 },
    ];
    let good = EdgeRecord { source: 0, token: 9, target: 1 };
    assert!(Dawg::<BasicWeight>::from_parts(&parts(nodes.clone(), vec![good])).is_ok());
    assert_eq!(
        refused(parts(nodes.clone(), vec![EdgeRecord { source: 2, token: 9, target: 1 }])),
        LoadError::MalformedEdge
    );
    assert_eq!(
        refused(parts(nodes.clone(), vec![EdgeRecord { source: 0, token: 9, target: 2 }])),
        LoadError::MalformedEdge
    );
    assert_eq!(
        refused(parts(nodes.clone(), vec![EdgeRecord { source: 1, token: 9, target: 0 }])),
        LoadError::MalformedEdge
    );
    assert_eq!(
        refused(parts(nodes.clone(), vec![good, EdgeRecord { source: 0, token: 9, target: 1 }])),
        LoadError::MalformedEdge
    );
    // a malformed node is told before a malformed edge
    assert_eq!(
        refused(parts(vec![], vec![EdgeRecord { source: 7, token: 9, target: 7 }])),
        LoadError::MalformedNode
    );
}

#[test]
fn counting_walks_the_suffix_links() {
    // abb: the states are source, a, ab, abb, b; abb links to b, b to the source.
    let (mut d, last) = built(&vec![0, 1, 1]);
    let counts: Vec<u64> = (0..5).map(|v| d.get_count(NodeIndex::new(v))).collect();
    assert_eq!(counts, vec![3, 1, 1, 1, 2]);
    d.count_suffixes(last);
    d.count_suffixes(last);
    d.count_suffixes(NodeIndex::new(1));
    let counts: Vec<u64> = (0..5).map(|v| d.get_count(NodeIndex::new(v))).collect();
    assert_eq!(counts, vec![6, 2, 1, 3, 4]);
    assert_eq!(d.edge_count(), 5);
    assert!(d.accepts(&vec![1, 1]));
}

#[test]
fn records_on_disk_are_fixed_width_and_little_endian() {
    assert_eq!(NODE_WIDTH, 20);
    assert_eq!(EDGE_WIDTH, 16);
    let node = NodeRecord { length: 0x0102030405060708, failure: 0x0a0b0c0d, count: 1 };
    let bytes = encode_node(node);
    assert_eq!(
        bytes,
        vec![8, 7, 6, 5, 4, 3, 2, 1, 0x0d, 0x0c, 0x0b, 0x0a, 1, 0, 0, 0, 0, 0, 0, 0]
    );
    assert_eq!(decode_node(&bytes), Some(node));
    assert_eq!(decode_node(&bytes[..19]), None);
    let edge = EdgeRecord { source: 3, token: u64::MAX - 1, target: u32::MAX - 1 };
    let bytes = encode_edge(edge);
    assert_eq!(bytes.len(), 16);
    assert_eq!(&bytes[..4], &[3, 0, 0, 0]);
    assert_eq!(&bytes[4..12], &[0xfe, 0xff, 0xff, 0xff, 0xff, 0xff, 0xff, 0xff]);
    assert_eq!(decode_edge(&bytes), Some(edge));
    assert_eq!(decode_edge(&[]), None);
}

#[test]
fn a_disk_image_holds_the_same_automaton() {
    let (d, _) = built(&vec![4, 4, 1, 4, 1, 1, 0]);
    let parts = d.to_parts();
    let mut node_file: Vec<u8> = Vec::new();
    for n in &parts.nodes {
        node_file.extend(encode_node(*n));
    }
    let mut edge_file: Vec<u8> = Vec::new();
    for e in &parts.edges {
        edge_file.extend(encode_edge(*e));
    }
    let n = record_count(node_file.len() as u64, NODE_WIDTH).unwrap();
    let m = record_count(edge_file.len() as u64, EDGE_WIDTH).unwrap();
    assert_eq!((n, m), (d.node_count(), d.edge_count()));
    let mut read = SavedGraph { nodes: vec![], edges: vec![] };
    for i in 0..n {
        let at = record_offset(i, NODE_WIDTH).unwrap() as usize;
        read.nodes.push(decode_node(&node_file[at..at + NODE_WIDTH]).unwrap());
    }
    for i in 0..m {
        let at = record_offset(i, EDGE_WIDTH).unwrap() as usize;
        read.edges.push(decode_edge(&edge_file[at..at + EDGE_WIDTH]).unwrap());
    }
    let back = Dawg::<BasicWeight>::from_parts(&read).ok().unwrap();
    same_automaton(&d, &back, 5);
}

#[test]
fn offsets_and_lengths_of_a_store() {
    assert_eq!(record_offset(0, 20), Some(0));
    assert_eq!(record_offset(7, 20), Some(140));
    assert_eq!(record_offset(usize::MAX, 20), None);
    assert_eq!(record_count(0, 20), Some(0));
    assert_eq!(record_count(140, 20), Some(7));
    assert_eq!(record_count(141, 20), None);
    assert_eq!(record_count(u64::MAX, 1), Some(u64::MAX as usize));
}

#[test]
fn a_store_grows_by_doubling() {
    assert_eq!(grown_capacity(8, 8), 8);
    assert_eq!(grown_capacity(8, 9), 16);
    assert_eq!(grown_capacity(8, 100), 128);
    assert_eq!(grown_capacity(0, 0), 0);
    assert_eq!(grown_capacity(0, 5), 8);
    assert_eq!(grown_capacity(3, 13), 24);
    assert_eq!(grown_capacity(usize::MAX / 2 + 1, usize::MAX), usize::MAX);
}
