use token_dawg::cdawg::compact::Cdawg;
use token_dawg::cdawg::compact::CdawgBuilder;
use token_dawg::dawg::automaton::Dawg;
use token_dawg::indexing::NodeIndex;
use token_dawg::weight::BasicWeight;

fn compacted(tokens: &Vec<u64>) -> Cdawg {
    match Cdawg::build(tokens) {
        Ok(cd) => cd,
        Err(_) => panic!("build failed"),
    }
}

fn occurs(t: &[u64], s: &[u64]) -> bool {
    if t.is_empty() {
        return true;
    }
    if t.len() > s.len() {
        return false;
    }
    (0..=s.len() - t.len()).any(|i| &s[i..i + t.len()] == t)
}

fn strings_over(alphabet: u64, len: usize) -> Vec<Vec<u64>> {
    let mut out: Vec<Vec<u64>> = vec![vec![]];
    for _ in 0..len {
        let mut next = Vec::new();
        for s in &out {
            for a in 0..alphabet {
                let mut t = s.clone();
                t.push(a);
                next.push(t);
            }
        }
        out = next;
    }
    out
}

/// Matches `t` along the spans of the automaton, as a reader of it would.
fn matches(cd: &Cdawg, corpus: &[u64], t: &[u64]) -> bool {
    let mut node = cd.get_initial();
    let mut at = 0;
    while at < t.len() {
        let (span, target) = match cd.get_edge_by_token(node, t[at]) {
            Some(found) => found,
            None => return false,
        };
        let label = &corpus[span.start as usize..span.end as usize];
        let rest = &t[at..];
        let shared = label.len().min(rest.len());
        if label[..shared] != rest[..shared] {
            return false;
        }
        at += shared;
        node = target;
    }
    true
}

#[test]
fn the_empty_text_compacts_to_the_source_alone() {
    let cd = compacted(&vec![]);
    assert_eq!(cd.node_count(), 1);
    assert_eq!(cd.edge_count(), 0);
    assert_eq!(cd.get_length(cd.get_initial()), 0);
    assert_eq!(cd.get_edge_by_token(cd.get_initial(), 0), None);
}

#[test]
fn a_text_of_distinct_tokens_keeps_source_and_sink() {
    // abc: every suffix runs straight to the end of the text.
    let cd = compacted(&vec![5, 6, 7]);
    assert_eq!(cd.node_count(), 2);
    assert_eq!(cd.edge_count(), 3);
    let root = cd.get_initial();
    let sink = NodeIndex::new(1);
    let (span, target) = cd.get_edge_by_token(root, 5).unwrap();
    assert_eq!((span.start, span.end, target), (0, 3, sink));
    let (span, target) = cd.get_edge_by_token(root, 6).unwrap();
    assert_eq!((span.start, span.end, target), (1, 3, sink));
    let (span, target) = cd.get_edge_by_token(root, 7).unwrap();
    assert_eq!((span.start, span.end, target), (2, 3, sink));
    assert_eq!(cd.get_length(sink), 3);
}

#[test]
fn a_repeated_token_branches_inside_the_text() {
    // abab c: "ab" and "b" share a state that branches to a and to c.
    let corpus: Vec<u64> = vec![0, 1, 0, 1, 2];
    let cd = compacted(&corpus);
    let (d, _) = Dawg::<BasicWeight>::build(&corpus).ok().unwrap();
    assert!(cd.node_count() < d.node_count());
    assert!(cd.edge_count() < d.edge_count());
    let root = cd.get_initial();
    let (ab, mid) = cd.get_edge_by_token(root, 0).unwrap();
    assert_eq!(&corpus[ab.start as usize..ab.end as usize], &[0, 1]);
    let (b, mid_b) = cd.get_edge_by_token(root, 1).unwrap();
    assert_eq!(&corpus[b.start as usize..b.end as usize], &[1]);
    assert_eq!(mid, mid_b);
    assert_eq!(cd.get_length(mid), 2);
    let (rest, sink) = cd.get_edge_by_token(mid, 0).unwrap();
    assert_eq!(&corpus[rest.start as usize..rest.end as usize], &[0, 1, 2]);
    let (c, sink_c) = cd.get_edge_by_token(mid, 2).unwrap();
    assert_eq!(&corpus[c.start as usize..c.end as usize], &[2]);
    assert_eq!(sink, sink_c);
    assert_eq!(cd.get_length(sink), 5);
    assert_eq!(cd.get_edge_by_token(sink, 0), None);
}

#[test]
fn spans_lie_in_the_text_and_begin_with_their_token() {
    let corpus: Vec<u64> = vec![1, 0, 0, 1, 0, 1, 1, 0, 1, 0, 0, 2, 1, 0];
    let cd = compacted(&corpus);
    for i in 0..cd.node_count() {
        for a in 0..4u64 {
            if let Some((span, target)) = cd.get_edge_by_token(NodeIndex::new(i), a) {
                assert!(span.start < span.end);
                assert!(span.end as usize <= corpus.len());
                assert_eq!(corpus[span.start as usize], a);
                assert!(target.index() < cd.node_count());
                let len = cd.get_length(NodeIndex::new(i)) + (span.end - span.start);
                assert!(len <= cd.get_length(target));
            }
        }
    }
}

#[test]
fn every_path_spells_a_substring() {
    for len in 0..=6 {
        for corpus in strings_over(2, len) {
            let cd = compacted(&corpus);
            for k in 0..=4 {
                for keys in strings_over(2, k) {
                    if let Some((node, text)) = cd.path_text(&keys) {
                        assert!(occurs(&text, &corpus), "text {:?}, keys {:?}", corpus, keys);
                        assert!(node.index() < cd.node_count());
                        assert!(text.len() as u64 <= cd.get_length(node));
                        assert!(matches(&cd, &corpus, &text));
                    }
                }
            }
        }
    }
}

#[test]
fn path_text_joins_the_spans() {
    let corpus: Vec<u64> = vec![0, 1, 0, 1, 2];
    let cd = compacted(&corpus);
    assert_eq!(cd.path_text(&vec![]), Some((cd.get_initial(), vec![])));
    let (node, text) = cd.path_text(&vec![0, 0]).unwrap();
    assert_eq!(text, vec![0, 1, 0, 1, 2]);
    assert_eq!(cd.get_length(node), 5);
    let (_, text) = cd.path_text(&vec![1, 2]).unwrap();
    assert_eq!(text, vec![1, 2]);
    assert_eq!(cd.path_text(&vec![2, 0]), None);
    assert_eq!(cd.path_text(&vec![3]), None);
}

#[test]
fn matching_along_spans_finds_exactly_the_substrings() {
    for len in 0..=7 {
        for corpus in strings_over(2, len) {
            let cd = compacted(&corpus);
            for k in 0..=(len + 1).min(5) {
                for t in strings_over(2, k) {
                    assert_eq!(matches(&cd, &corpus, &t), occurs(&t, &corpus), "text {:?}, probe {:?}", corpus, t);
                }
            }
        }
    }
    for corpus in strings_over(3, 5) {
        let cd = compacted(&corpus);
        for k in 0..=4 {
            for t in strings_over(3, k) {
                assert_eq!(matches(&cd, &corpus, &t), occurs(&t, &corpus));
            }
        }
    }
}

#[test]
fn verified_matching_finds_exactly_the_substrings() {
    for len in 0..=6 {
        for corpus in strings_over(2, len) {
            let cd = compacted(&corpus);
            for k in 0..=(len + 1).min(5) {
                for t in strings_over(2, k) {
                    assert_eq!(cd.accepts(&t), occurs(&t, &corpus), "text {:?}, probe {:?}", corpus, t);
                    assert_eq!(cd.state_after(&t).is_some(), occurs(&t, &corpus));
                }
            }
        }
    }
}

#[test]
fn a_place_tells_how_much_of_its_span_remains() {
    let corpus: Vec<u64> = vec![0, 1, 0, 1, 2];
    let cd = compacted(&corpus);
    let start = cd.get_initial_state();
    assert_eq!(start.remaining(), 0);
    let a = cd.transition(start, 0).unwrap();
    assert_eq!((a.start, a.end, a.remaining()), (1, 2, 1));
    let ab = cd.transition(a, 1).unwrap();
    assert_eq!(ab.remaining(), 0);
    assert_eq!(cd.get_length(ab.target), 2);
    assert_eq!(cd.get_count(ab.target), 2);
    let aba = cd.transition(ab, 0).unwrap();
    assert_eq!(aba.remaining(), 2);
    assert_eq!(cd.transition(aba, 2), None);
    let abab = cd.transition(aba, 1).unwrap();
    assert_eq!(abab.remaining(), 1);
    let whole = cd.transition(abab, 2).unwrap();
    assert_eq!(whole.remaining(), 0);
    assert_eq!(cd.get_length(whole.target), 5);
    assert_eq!(cd.get_count(whole.target), 1);
    assert_eq!(cd.transition(whole, 0), None);
    assert_eq!(cd.state_after(&vec![0, 1, 0, 1, 2]), Some(whole));
    assert_eq!(cd.state_after(&vec![0, 0]), None);
}

#[test]
fn compaction_keeps_only_branching_states() {
    let corpus: Vec<u64> = (0..300u64).map(|i| (i * i + 3 * i) % 7).collect();
    let (d, _) = Dawg::<BasicWeight>::build(&corpus).ok().unwrap();
    let cd = compacted(&corpus);
    let mut kept = 0;
    let mut edges = 0;
    for v in 0..d.node_count() {
        let state = NodeIndex::new(v);
        if v == 0 || d.n_edges(state) != 1 {
            kept += 1;
            edges += d.n_edges(state);
        }
    }
    assert_eq!(cd.node_count(), kept);
    assert_eq!(cd.edge_count(), edges);
    for i in 0..corpus.len() - 4 {
        assert!(matches(&cd, &corpus, &corpus[i..i + 4]));
    }
    assert!(!matches(&cd, &corpus, &[9]));
}

#[test]
fn a_builder_takes_tokens_one_at_a_time() {
    let corpus: Vec<u64> = vec![2, 0, 1, 0, 0, 1, 2, 2, 0, 1];
    let mut builder: CdawgBuilder<BasicWeight> = CdawgBuilder::new();
    assert_eq!(builder.node_count(), 1);
    for (i, t) in corpus.iter().enumerate() {
        assert_eq!(builder.extend(*t), Ok(()));
        let so_far = corpus[..=i].to_vec();
        let cd = builder.compact();
        let whole = compacted(&so_far);
        assert_eq!(cd.node_count(), whole.node_count());
        assert_eq!(cd.edge_count(), whole.edge_count());
        for k in 0..=3 {
            for probe in strings_over(3, k) {
                assert_eq!(cd.accepts(&probe), occurs(&probe, &so_far));
                assert_eq!(cd.state_after(&probe), whole.state_after(&probe));
            }
        }
    }
    let (d, _) = Dawg::<BasicWeight>::build(&corpus).ok().unwrap();
    assert_eq!(builder.node_count(), d.node_count());
}
