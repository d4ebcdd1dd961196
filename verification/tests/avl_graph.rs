use token_dawg::graph::avl_graph::optimal_height_of;
use token_dawg::graph::avl_graph::AvlGraph;
use token_dawg::graph::avl_graph::BalanceRatio;
use token_dawg::indexing::EdgeIndex;
use token_dawg::indexing::NodeIndex;

#[test]
fn handles_round_trip() {
    for x in [0usize, 1, 17, 0xffff_fffe] {
        assert_eq!(NodeIndex::new(x).index(), x);
        assert_eq!(EdgeIndex::new(x).index(), x);
        assert!(!NodeIndex::new(x).is_end());
    }
    assert!(NodeIndex::end().is_end());
    assert!(EdgeIndex::end().is_end());
    assert_eq!(EdgeIndex::end().index(), 0xffff_ffff);
}

#[test]
fn add_node_hands_out_consecutive_handles() {
    let mut g: AvlGraph<u8, u8> = AvlGraph::new();
    assert_eq!(g.add_node(10).index(), 0);
    assert_eq!(g.add_node(20).index(), 1);
    assert_eq!(g.node_count(), 2);
    assert_eq!(g.node_weight(NodeIndex::new(1)), 20);
    g.set_node_weight(NodeIndex::new(1), 21);
    assert_eq!(g.node_weight(NodeIndex::new(1)), 21);
    assert_eq!(g.node_weight(NodeIndex::new(0)), 10);
}

#[test]
fn edges_are_found_by_their_key() {
    let mut g: AvlGraph<u8, u64> = AvlGraph::with_capacity(4, 64);
    let a = g.add_node(0);
    let b = g.add_node(1);
    let c = g.add_node(2);
    let keys: Vec<u64> = vec![50, 20, 80, 10, 30, 70, 90, 25, 35, 5, 1, 2, 3, 4, 100, 99, 98];
    for (i, k) in keys.iter().enumerate() {
        assert!(g.get_edge_by_token(a, *k).is_end());
        let to = if i % 2 == 0 { b } else { c };
        let e = g.add_edge(a, to, *k, *k * 3);
        assert_eq!(e.index(), i);
    }
    assert_eq!(g.edge_count(), keys.len());
    for (i, k) in keys.iter().enumerate() {
        let e = g.get_edge_by_token(a, *k);
        assert_eq!(e.index(), i);
        assert_eq!(g.edge_key(e), *k);
        assert_eq!(g.edge_weight(e), *k * 3);
        assert_eq!(g.edge_source(e), a);
        assert_eq!(g.edge_target(e), if i % 2 == 0 { b } else { c });
        assert!(g.get_edge_by_token(b, *k).is_end());
    }
    assert!(g.get_edge_by_token(a, 6).is_end());
    assert_eq!(g.n_edges(a), keys.len());
    assert_eq!(g.n_edges(b), 0);
}

#[test]
fn edges_come_out_by_ascending_key() {
    let mut g: AvlGraph<u8, ()> = AvlGraph::new();
    let a = g.add_node(0);
    let b = g.add_node(0);
    for k in [9u64, 3, 7, 1, 5] {
        g.add_edge(a, b, k, ());
        g.add_edge(b, a, k + 100, ());
    }
    let keys: Vec<u64> = g.edges(a).iter().map(|e| g.edge_key(*e)).collect();
    assert_eq!(keys, vec![1, 3, 5, 7, 9]);
    let keys_b: Vec<u64> = g.edges(b).iter().map(|e| g.edge_key(*e)).collect();
    assert_eq!(keys_b, vec![101, 103, 105, 107, 109]);
}

#[test]
fn update_and_reroute_keep_the_edge_in_place() {
    let mut g: AvlGraph<u8, u32> = AvlGraph::new();
    let a = g.add_node(0);
    let b = g.add_node(0);
    let c = g.add_node(0);
    let e1 = g.add_edge(a, b, 5, 50);
    let e2 = g.add_edge(a, b, 6, 60);
    g.update_edge(e1, 51);
    g.reroute_edge(e2, c);
    assert_eq!(g.get_edge_by_token(a, 5), e1);
    assert_eq!(g.get_edge_by_token(a, 6), e2);
    assert_eq!(g.edge_weight(e1), 51);
    assert_eq!(g.edge_weight(e2), 60);
    assert_eq!(g.edge_target(e1), b);
    assert_eq!(g.edge_target(e2), c);
    assert_eq!(g.edge_key(e1), 5);
}

#[test]
fn ascending_insertions_stay_balanced() {
    let mut g: AvlGraph<(), ()> = AvlGraph::new();
    let a = g.add_node(());
    assert_eq!(g.balance_ratio(a), BalanceRatio { observed: 0, optimal: 0 });
    for k in 0..1000u64 {
        g.add_edge(a, a, k, ());
        let b = g.balance_ratio(a);
        assert!(b.observed >= b.optimal);
        assert_eq!(b.optimal, optimal_height_of((k + 1) as usize));
        // an AVL tree is never deeper than about 1.44 times the optimum
        assert!((b.observed as u32) * 100 <= (b.optimal as u32) * 145 + 100);
    }
    assert_eq!(g.edge_tree_height(a), 10);
    assert_eq!(g.balance_ratio(a), BalanceRatio { observed: 10, optimal: 10 });
    for k in 0..1000u64 {
        assert_eq!(g.get_edge_by_token(a, k).index(), k as usize);
    }
}

#[test]
fn a_full_tree_is_perfectly_balanced() {
    let mut g: AvlGraph<(), ()> = AvlGraph::new();
    let a = g.add_node(());
    for k in [4u64, 2, 6, 1, 3, 5, 7] {
        g.add_edge(a, a, k, ());
    }
    assert_eq!(g.balance_ratio(a), BalanceRatio { observed: 3, optimal: 3 });
    g.add_edge(a, a, 8, ());
    assert_eq!(g.balance_ratio(a), BalanceRatio { observed: 4, optimal: 4 });
}

#[test]
fn optimal_height_is_the_bit_length() {
    assert_eq!(optimal_height_of(0), 0);
    assert_eq!(optimal_height_of(1), 1);
    assert_eq!(optimal_height_of(2), 2);
    assert_eq!(optimal_height_of(3), 2);
    assert_eq!(optimal_height_of(4), 3);
    assert_eq!(optimal_height_of(7), 3);
    assert_eq!(optimal_height_of(8), 4);
    assert_eq!(optimal_height_of(1023), 10);
    assert_eq!(optimal_height_of(1024), 11);
}

#[test]
fn descending_and_zigzag_insertions_rotate_both_ways() {
    let mut g: AvlGraph<(), ()> = AvlGraph::new();
    let a = g.add_node(());
    let b = g.add_node(());
    for k in (0..200u64).rev() {
        g.add_edge(a, b, k, ());
    }
    let mut lo = 0u64;
    let mut hi = 1000u64;
    while lo < hi {
        g.add_edge(b, a, lo, ());
        g.add_edge(b, a, hi, ());
        lo += 1;
        hi -= 1;
    }
    for k in 0..200u64 {
        assert_eq!(g.edge_key(g.get_edge_by_token(a, k)), k);
    }
    for k in 0..500u64 {
        assert_eq!(g.edge_key(g.get_edge_by_token(b, k)), k);
        assert_eq!(g.edge_key(g.get_edge_by_token(b, 1000 - k)), 1000 - k);
    }
    assert!(g.edge_tree_height(a) <= 9);
    assert!(g.edge_tree_height(b) <= 12);
}
