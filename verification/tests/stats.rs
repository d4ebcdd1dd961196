use token_dawg::build_stats::BuildStats;
use token_dawg::cdawg::compact::Cdawg;
use token_dawg::dawg::automaton::Dawg;
use token_dawg::graph::avl_graph::BalanceRatio;
use token_dawg::indexing::IndexType;
use token_dawg::indexing::NodeIndex;
use token_dawg::weight::BasicWeight;
use token_dawg::weight::Weight;

#[test]
fn a_snapshot_reports_the_size_of_the_automaton() {
    let text: Vec<u64> = vec![0, 1, 2, 3, 0, 1, 2, 4];
    let (d, _) = Dawg::<BasicWeight>::build(&text).ok().unwrap();
    let s = BuildStats::from_dawg(&d, text.len(), 64, 1500);
    assert_eq!(s.n_tokens, 8);
    assert_eq!(s.n_nodes, d.node_count());
    assert_eq!(s.n_edges, d.edge_count());
    assert_eq!(s.n_bytes, 64);
    assert_eq!(s.elapsed_millis, 1500);
    // the source has five transitions: a tree of depth three holds them
    assert_eq!(s.balance, BalanceRatio { observed: 3, optimal: 3 });
    assert_eq!(s.balance, d.balance_ratio(d.get_initial()));
}

#[test]
fn a_snapshot_of_a_compacted_automaton() {
    let text: Vec<u64> = vec![0, 1, 0, 1, 2];
    let cd = Cdawg::build(&text).ok().unwrap();
    let s = BuildStats::from_cdawg(&cd, text.len(), 40, 7);
    assert_eq!(s.n_tokens, 5);
    assert_eq!(s.n_nodes, 3);
    assert_eq!(s.n_edges, 5);
    assert_eq!(s.n_bytes, 40);
    assert_eq!(s.elapsed_millis, 7);
    assert_eq!(s.balance, BalanceRatio { observed: 2, optimal: 2 });
}

#[test]
fn weights_keep_their_three_values_apart() {
    let mut w = BasicWeight::new(3, Some(NodeIndex::new(2)), 5);
    assert_eq!((w.get_length(), w.get_failure(), w.get_count()), (3, Some(NodeIndex::new(2)), 5));
    w.set_length(4);
    w.set_failure(None);
    w.increment_count();
    assert_eq!((w.get_length(), w.get_failure(), w.get_count()), (4, None, 6));
    w.set_count(u64::MAX);
    w.increment_count();
    assert_eq!(w.get_count(), u64::MAX);
    w.set_failure(Some(NodeIndex::new(0)));
    assert_eq!(w.get_failure(), Some(NodeIndex::new(0)));
    assert_eq!(w.get_length(), 4);
}

#[test]
fn index_types_round_trip() {
    assert_eq!(<u32 as IndexType>::new(17).index(), 17);
    assert_eq!(<usize as IndexType>::new(17).index(), 17);
    assert_eq!(<u32 as IndexType>::max_value().index(), u32::MAX as usize);
    assert_eq!(<usize as IndexType>::max_value(), usize::MAX);
}
