use token_dawg::dawg::automaton::Dawg;
use token_dawg::dawg::model::ExtendError;
use token_dawg::indexing::NodeIndex;
use token_dawg::weight::BasicWeight;

fn built(tokens: &Vec<u64>) -> (Dawg<BasicWeight>, NodeIndex) {
    match Dawg::<BasicWeight>::build(tokens) {
        Ok(pair) => pair,
        Err(_) => panic!("build failed"),
    }
}

fn is_substring(t: &[u64], s: &[u64]) -> bool {
    if t.is_empty() {
        return true;
    }
    if t.len() > s.len() {
        return false;
    }
    (0..=s.len() - t.len()).any(|i| &s[i..i + t.len()] == t)
}

fn all_strings(alphabet: u64, len: usize) -> Vec<Vec<u64>> {
    let mut out: Vec<Vec<u64>> = vec![vec![]];
    for _ in 0..len {
        let mut next = Vec::new();
        for s in &out {
            for a in 0..alphabet {
                let mut t = s.clone();
                t.push(a);
                next.push(t);
            }
        }
        out = next;
    }
    out
}

fn check_language(s: &Vec<u64>, alphabet: u64) {
    let (d, _) = built(s);
    for len in 0..=(s.len() + 1).min(6) {
        for t in all_strings(alphabet, len) {
            assert_eq!(d.accepts(&t), is_substring(&t, s), "text {:?}, probe {:?}", s, t);
        }
    }
}

#[test]
fn empty_text_accepts_only_the_empty_string() {
    let (d, last) = built(&vec![]);
    assert_eq!(d.node_count(), 1);
    assert_eq!(d.edge_count(), 0);
    assert_eq!(last.index(), 0);
    assert!(d.accepts(&vec![]));
    assert!(!d.accepts(&vec![0]));
}

#[test]
fn one_token_text() {
    let (d, last) = built(&vec![7]);
    assert_eq!(d.node_count(), 2);
    assert_eq!(d.edge_count(), 1);
    assert_eq!(last.index(), 1);
    assert_eq!(d.get_length(last), 1);
    assert_eq!(d.get_failure(last), Some(d.get_initial()));
    assert_eq!(d.transition(d.get_initial(), 7), Some(last));
    assert_eq!(d.transition(d.get_initial(), 8), None);
}

#[test]
fn accepts_exactly_the_substrings_abcbc() {
    check_language(&vec![0, 1, 2, 1, 2], 3);
}

#[test]
fn accepts_exactly_the_substrings_aabab() {
    check_language(&vec![0, 0, 1, 0, 1], 2);
}

#[test]
fn accepts_exactly_the_substrings_of_every_short_binary_text() {
    for len in 0..=7 {
        for s in all_strings(2, len) {
            check_language(&s, 2);
        }
    }
}

#[test]
fn accepts_exactly_the_substrings_of_every_short_ternary_text() {
    for len in 0..=5 {
        for s in all_strings(3, len) {
            check_language(&s, 3);
        }
    }
}

#[test]
fn splitting_copies_the_transitions_of_the_split_state() {
    // In "abb" the second b splits the state of "ab": "b" gets a state of
    // its own, between "ab" and the source.
    let (d, last) = built(&vec![0, 1, 1]);
    assert_eq!(d.node_count(), 5);
    let ab = d.state_after(&vec![0, 1]).unwrap();
    let b = d.state_after(&vec![1]).unwrap();
    assert_ne!(ab, b);
    assert_eq!(b.index(), 4);
    assert_eq!(d.get_length(ab), 2);
    assert_eq!(d.get_length(b), 1);
    assert_eq!(d.get_failure(ab), Some(b));
    assert_eq!(d.get_failure(last), Some(b));
    assert_eq!(d.get_failure(b), Some(d.get_initial()));
    assert_eq!(d.transition(b, 1), d.transition(ab, 1));
    assert_eq!(d.transition(b, 1), Some(last));
    assert_eq!(d.edge_count(), 5);
}

#[test]
fn abab_scenario_shares_a_suffix_link_ancestor() {
    let s: Vec<u64> = vec![0, 1, 0, 1, 2];
    let (d, _) = built(&s);
    let ab = d.state_after(&vec![0, 1]).unwrap();
    let b = d.state_after(&vec![1]).unwrap();
    let chain = |mut v: NodeIndex| {
        let mut out = vec![v];
        while let Some(u) = d.get_failure(v) {
            out.push(u);
            v = u;
        }
        out
    };
    let of_ab = chain(ab);
    let of_b = chain(b);
    assert!(of_ab.iter().any(|v| of_b.contains(v)));
    assert_eq!(of_ab.last(), Some(&d.get_initial()));
    assert!(d.node_count() < 2 * s.len());
}

#[test]
fn counts_never_decrease_and_stay_linear() {
    let s: Vec<u64> = vec![3, 1, 4, 1, 5, 9, 2, 6, 5, 3, 5, 8, 9, 7, 9, 3, 2, 3, 8, 4];
    let mut d: Dawg<BasicWeight> = Dawg::new();
    let mut last = d.get_initial();
    for (i, t) in s.iter().enumerate() {
        let nodes = d.node_count();
        let edges = d.edge_count();
        last = d.try_extend(*t, last).unwrap();
        assert!(d.node_count() > nodes);
        assert!(d.node_count() <= nodes + 2);
        assert!(d.edge_count() > edges);
        assert!(d.node_count() <= 2 * (i + 1) + 1);
        assert_eq!(d.get_length(last), (i + 1) as u64);
    }
}

#[test]
fn try_extend_refuses_an_unknown_state() {
    let mut d: Dawg<BasicWeight> = Dawg::new();
    assert_eq!(d.try_extend(1, NodeIndex::new(5)), Err(ExtendError::UnknownState));
    assert_eq!(d.node_count(), 1);
}

#[test]
fn try_extend_refuses_a_state_that_has_the_transition() {
    let mut d: Dawg<BasicWeight> = Dawg::new();
    let root = d.get_initial();
    let a = d.try_extend(1, root).unwrap();
    assert_eq!(d.try_extend(1, root), Err(ExtendError::NotExtendable));
    assert_eq!(d.node_count(), 2);
    assert_eq!(d.edge_count(), 1);
    assert!(d.try_extend(1, a).is_ok());
}

#[test]
fn wide_alphabet_keeps_lookups_right() {
    let s: Vec<u64> = (0..500u64).map(|i| (i * 7919) % 1009).collect();
    let (d, _) = built(&s);
    for t in s.iter() {
        assert!(d.transition(d.get_initial(), *t).is_some());
    }
    assert!(d.transition(d.get_initial(), 5000).is_none());
    for i in 0..s.len() - 3 {
        assert!(d.accepts(&s[i..i + 3].to_vec()));
    }
}

fn count_occurrences(t: &[u64], s: &[u64]) -> u64 {
    if t.is_empty() {
        return s.len() as u64;
    }
    if t.len() > s.len() {
        return 0;
    }
    (0..=s.len() - t.len()).filter(|i| &s[*i..*i + t.len()] == t).count() as u64
}

#[test]
fn counts_are_the_numbers_of_occurrences() {
    for len in 0..=7 {
        for s in all_strings(2, len) {
            let (d, _) = built(&s);
            for k in 0..=(len + 1).min(5) {
                for t in all_strings(2, k) {
                    assert_eq!(d.count_of(&t), count_occurrences(&t, &s), "text {:?}, probe {:?}", s, t);
                }
            }
        }
    }
}

#[test]
fn count_of_an_n_gram_in_a_longer_text() {
    let s: Vec<u64> = vec![1, 2, 3, 1, 2, 3, 1, 2, 4, 1, 2];
    let (d, _) = built(&s);
    assert_eq!(d.count_of(&vec![1, 2]), 4);
    assert_eq!(d.count_of(&vec![1, 2, 3]), 2);
    assert_eq!(d.count_of(&vec![2, 3, 1, 2]), 2);
    assert_eq!(d.count_of(&vec![4]), 1);
    assert_eq!(d.count_of(&vec![4, 4]), 0);
    assert_eq!(d.count_of(&vec![]), 11);
    assert_eq!(d.count_of(&s), 1);
}

#[test]
fn extending_alone_records_no_occurrence() {
    let mut d: Dawg<BasicWeight> = Dawg::new();
    let root = d.get_initial();
    let a = d.try_extend(1, root).unwrap();
    assert_eq!(d.get_count(a), 0);
    assert_eq!(d.get_count(root), 0);
    d.count_suffixes(a);
    assert_eq!(d.get_count(a), 1);
    assert_eq!(d.get_count(root), 1);
}

#[test]
fn a_longer_text_over_a_small_alphabet() {
    // A text with long repeats: many states are split along the way.
    let mut s: Vec<u64> = Vec::new();
    let mut x: u64 = 12345;
    for i in 0..3000u64 {
        x = x.wrapping_mul(6364136223846793005).wrapping_add(1442695040888963407);
        let t = if i % 97 < 60 { (x >> 33) % 3 } else { (i / 7) % 3 };
        s.push(t);
    }
    let (d, last) = built(&s);
    assert_eq!(d.get_length(last), 3000);
    assert!(d.node_count() <= 2 * s.len() + 1);
    assert!(d.node_count() > s.len());
    for len in 1..=5usize {
        for probe in all_strings(3, len) {
            assert_eq!(d.accepts(&probe), is_substring(&probe, &s));
            assert_eq!(d.count_of(&probe), count_occurrences(&probe, &s));
        }
    }
    for start in (0..2900).step_by(113) {
        let probe = s[start..start + 40].to_vec();
        assert!(d.accepts(&probe));
        assert_eq!(d.count_of(&probe), count_occurrences(&probe, &s));
    }
    let with_room: Dawg<BasicWeight> = Dawg::with_capacity(16, 32);
    assert_eq!(with_room.node_count(), 1);
    assert_eq!(with_room.edge_count(), 0);
}
