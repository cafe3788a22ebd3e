use formal_languages::dfa::DFA;
use formal_languages::nfa::NFA;
use formal_languages::regular_expression::ReOperator;
use formal_languages::subset::NfaStates;

fn regex(text: &str) -> ReOperator {
    ReOperator::from_string(&text.to_string()).unwrap()
}

fn word(text: &str) -> Vec<char> {
    text.chars().collect()
}

fn dfa_of(text: &str) -> DFA<NfaStates> {
    DFA::from_regex(&regex(text))
}

/// All words over `alphabet` of length up to `len`.
fn words(alphabet: &[char], len: usize) -> Vec<Vec<char>> {
    let mut all = vec![vec![]];
    let mut last = vec![vec![]];
    for _ in 0..len {
        let mut next = vec![];
        for w in &last {
            for c in alphabet {
                let mut longer: Vec<char> = w.clone();
                longer.push(*c);
                next.push(longer);
            }
        }
        all.extend(next.iter().cloned());
        last = next;
    }
    all
}

#[test]
#[allow(non_snake_case)]
fn NFA_display_test() {
    let regex = ReOperator::Or(
        Box::new(ReOperator::Char('a')),
        Box::new(ReOperator::Char('b')),
    );
    let nfa = NFA::from_regex(&regex);
    println!("{:?}", nfa);
}

#[test]
fn nfa_display_test() {
    let regex = ReOperator::Or(
        Box::new(ReOperator::Char('a')),
        Box::new(ReOperator::Char('b')),
    );
    let nfa = NFA::from_regex(&regex);
    println!("{:?}", nfa);
}

#[test]
fn thompson_construction_of_a_symbol_and_a_concatenation() {
    let nfa = NFA::from_regex(&regex("a"));
    assert_eq!(nfa.num_states, 2);
    assert_eq!(nfa.get_start_state(), 0);
    assert_eq!(nfa.end_states, vec![1]);
    assert_eq!(nfa.get_transitions(), &vec![vec![('a', 1)], vec![]]);
    assert_eq!(nfa.get_alphabet(), vec!['a']);

    // The right part starts where the left part ends.
    let nfa = NFA::from_regex(&regex("ab"));
    assert_eq!(nfa.num_states, 3);
    assert_eq!(nfa.get_transitions(), &vec![vec![('a', 1)], vec![('b', 2)], vec![]]);
    assert_eq!(nfa.end_states, vec![2]);
}

#[test]
fn thompson_construction_of_an_alternation() {
    let eps = '\u{3b5}';
    let nfa = NFA::from_regex(&regex("a|b"));
    assert_eq!(nfa.num_states, 6);
    assert_eq!(nfa.get_start_state(), 0);
    assert_eq!(nfa.end_states, vec![1]);
    assert_eq!(
        nfa.get_transitions(),
        &vec![
            vec![(eps, 2), (eps, 4)],
            vec![],
            vec![('a', 3)],
            vec![(eps, 1)],
            vec![('b', 5)],
            vec![(eps, 1)],
        ]
    );
    assert_eq!(nfa.get_alphabet(), vec!['a', 'b']);
}

#[test]
fn thompson_construction_of_a_repetition() {
    let eps = '\u{3b5}';
    let nfa = NFA::from_regex(&regex("a*"));
    assert_eq!(nfa.num_states, 4);
    assert_eq!(
        nfa.get_transitions(),
        &vec![vec![(eps, 1), (eps, 2)], vec![], vec![('a', 3)], vec![(eps, 2), (eps, 1)]]
    );
}

#[test]
fn epsilon_closure_and_move() {
    let nfa = NFA::from_regex(&regex("a|b"));
    assert_eq!(nfa.epsilon_closure(&vec![0]), vec![0, 2, 4]);
    assert_eq!(nfa.epsilon_closure(&vec![3, 3]), vec![1, 3]);
    assert_eq!(nfa.epsilon_closure(&vec![]), Vec::<usize>::new());
    assert_eq!(nfa.make_move(&vec![0, 2, 4], 'a'), vec![3]);
    assert_eq!(nfa.make_move(&vec![0, 2, 4], 'b'), vec![5]);
    assert_eq!(nfa.make_move(&vec![0, 2, 4], 'c'), Vec::<usize>::new());
    assert_eq!(nfa.get_epsilon_transitions(0), vec![2, 4]);
    assert_eq!(nfa.get_epsilon_transitions(2), Vec::<usize>::new());
    assert!(nfa.is_final_state(1));
    assert!(!nfa.is_final_state(0));
    assert!(nfa.contains_final_state(&vec![3, 1]));
    assert!(!nfa.contains_final_state(&vec![0, 2, 4]));
}

#[test]
fn language_of_a_concatenation_with_an_alternation() {
    let dfa = dfa_of("a(b|c)");
    assert!(dfa.accepts(&word("ab")));
    assert!(dfa.accepts(&word("ac")));
    assert!(!dfa.accepts(&word("a")));
    assert!(!dfa.accepts(&word("abc")));
    assert!(!dfa.accepts(&word("bc")));
    assert!(!dfa.accepts(&word("")));
    // A symbol outside the alphabet has no move.
    assert!(!dfa.accepts(&word("ad")));
}

#[test]
fn subset_construction_of_a_star() {
    let dfa = dfa_of("a*");
    // The start set holds the accepting state, and reading `a` leads to one more set.
    assert_eq!(dfa.get_start_state(), 0);
    assert_eq!(dfa.alphabet, vec!['a']);
    assert_eq!(dfa.num_states, 2);
    assert_eq!(dfa.idx_to_data, Some(vec![vec![0, 1, 2], vec![1, 2, 3]]));
    assert_eq!(dfa.get_transitions(), &vec![vec![('a', 1)], vec![('a', 1)]]);
    let mut ends = dfa.get_end_states().clone();
    ends.sort();
    assert_eq!(ends, vec![0, 1]);
    assert!(dfa.is_final_state(0));
    assert_eq!(dfa.make_move(0, 'a'), 1);
    assert_eq!(dfa.try_move(0, 'b'), None);
}

#[test]
fn subset_construction_gives_every_set_one_state() {
    // The start set comes up again after `b`: it must not get a second state.
    let dfa = dfa_of("(a|b)*");
    let sets = dfa.idx_to_data.clone().unwrap();
    for i in 0..sets.len() {
        for j in 0..i {
            assert_ne!(sets[i], sets[j]);
        }
    }
    for (state, row) in dfa.get_transitions().iter().enumerate() {
        let symbols: Vec<char> = row.iter().map(|m| m.0).collect();
        assert_eq!(symbols, dfa.alphabet, "row of state {}", state);
    }
}

#[test]
fn subset_construction_preserves_the_language() {
    for text in ["a(b|c)", "(a|b)*abb", "a*b*", "(ab|a)(c|bc)", "(a*|b)c"] {
        let nfa = NFA::from_regex(&regex(text));
        let dfa = DFA::from_nfa(&nfa);
        for w in words(&['a', 'b', 'c'], 5) {
            assert_eq!(nfa.accepts_word(&w), dfa.accepts(&w), "{} on {:?}", text, w);
        }
    }
    let nfa = NFA::from_regex(&regex("(a|b)*abb"));
    assert!(nfa.accepts_word(&word("aababb")));
    assert!(!nfa.accepts_word(&word("abba")));
    assert!(nfa.is_well_formed());
}

#[test]
fn well_formed_and_total_automata_are_told() {
    let dfa = dfa_of("a(b|c)");
    assert!(dfa.is_well_formed());
    assert!(dfa.is_total());
    let partial: DFA<usize> =
        DFA::from_state(2, 0, vec![1], vec![vec![('a', 1)], vec![]], None);
    assert!(partial.is_well_formed());
    assert!(!partial.is_total());
    assert!(partial.accepts(&word("a")));
    assert!(!partial.accepts(&word("aa")));
    let broken: DFA<usize> =
        DFA::from_state(2, 0, vec![1], vec![vec![('a', 2)], vec![]], None);
    assert!(!broken.is_well_formed());
    let twice: DFA<usize> =
        DFA::from_state(1, 0, vec![], vec![vec![('a', 0), ('a', 0)]], None);
    assert!(!twice.is_well_formed());
}

#[test]
fn minimization_preserves_the_language() {
    for text in ["a(b|c)", "(a|b)*abb", "a*b*", "(ab|a)(c|bc)", "((a|b)(a|b))*"] {
        let dfa = dfa_of(text);
        let min = dfa.get_minimized_dfa();
        for w in words(&['a', 'b', 'c'], 5) {
            assert_eq!(dfa.accepts(&w), min.accepts(&w), "{} on {:?}", text, w);
        }
    }
}

#[test]
fn minimization_is_idempotent_and_does_not_grow() {
    for text in ["a(b|c)", "(a|b)*abb", "a*b*", "(ab|a)(c|bc)", "a|b|c"] {
        let dfa = dfa_of(text);
        let min = dfa.get_minimized_dfa();
        let again = min.get_minimized_dfa();
        assert!(min.num_states <= dfa.num_states);
        assert_eq!(again.num_states, min.num_states);
        assert_eq!(again.get_transitions(), min.get_transitions());
        assert_eq!(again.get_end_states(), min.get_end_states());
    }
}

#[test]
fn minimization_merges_equivalent_states() {
    // The states 1 and 2 accept the same words, and so do 3 and 4.
    let dfa: DFA<usize> = DFA::from_state(
        5,
        0,
        vec![3, 4],
        vec![
            vec![('a', 1), ('b', 2)],
            vec![('a', 3), ('b', 3)],
            vec![('a', 4), ('b', 4)],
            vec![('a', 3), ('b', 3)],
            vec![('a', 4), ('b', 4)],
        ],
        None,
    );
    assert_eq!(dfa.alphabet, vec!['a', 'b']);
    assert_eq!(dfa.get_equivalent_states(), vec![(1, 2), (3, 4)]);
    let table = dfa.compute_minimize_table();
    assert!(table[0][1] && table[0][3] && table[1][3] && table[2][4]);
    assert!(!table[1][2] && !table[3][4] && !table[3][0]);
    let first = dfa.initialize_minimize_table();
    assert!(first[0][3] && first[1][4] && !first[0][1] && !first[3][4]);

    let min = dfa.get_minimized_dfa();
    assert_eq!(min.num_states, 3);
    assert_eq!(min.get_start_state(), 0);
    assert_eq!(min.get_end_states(), &vec![2]);
    assert_eq!(
        min.get_transitions(),
        &vec![
            vec![('a', 1), ('b', 1)],
            vec![('a', 2), ('b', 2)],
            vec![('a', 2), ('b', 2)],
        ]
    );
    assert_eq!(min.alphabet, vec!['a', 'b']);
    assert!(min.idx_to_data.is_none());
}

#[test]
fn alphabet_of_a_given_automaton() {
    let dfa: DFA<usize> = DFA::from_state(
        2,
        0,
        vec![1],
        vec![vec![('b', 1), ('a', 0)], vec![('a', 1), ('b', 1)]],
        None,
    );
    assert_eq!(dfa.alphabet, vec!['b', 'a']);
    let dfa: DFA<usize> =
        DFA::from_state(1, 0, vec![], vec![vec![('x', 0)]], Some(vec!['x', 'y']));
    assert_eq!(dfa.alphabet, vec!['x', 'y']);
}

#[test]
fn graphs_of_automata() {
    let nfa = NFA::from_regex(&regex("a|b"));
    let g = nfa.into_graph();
    let labels: Vec<String> = g.get_nodes().iter().map(|n| n.label.clone().unwrap()).collect();
    assert_eq!(labels, vec!["s:0", "e:1", "2", "3", "4", "5"]);
    let edges: Vec<(usize, usize, String)> =
        g.edges.iter().map(|e| (e.from, e.to, e.label.clone().unwrap())).collect();
    assert_eq!(edges[0], (0, 2, "\u{3b5}".to_string()));
    assert_eq!(edges[2], (2, 3, "a".to_string()));
    assert_eq!(edges.len(), 6);

    let dfa: DFA<usize> = DFA::from_state(
        12,
        10,
        vec![11],
        {
            let mut rows = vec![vec![]; 12];
            rows[10] = vec![('a', 11), ('b', 10), ('c', 11)];
            rows[11] = vec![('a', 11)];
            rows
        },
        None,
    );
    let g = dfa.into_graph();
    assert_eq!(g.get_node_label(10), &Some("s:10".to_string()));
    assert_eq!(g.get_node_label(11), &Some("e:11".to_string()));
    assert_eq!(g.get_node_label(7), &Some("7".to_string()));
    let edges: Vec<(usize, usize, String)> =
        g.edges.iter().map(|e| (e.from, e.to, e.label.clone().unwrap())).collect();
    assert_eq!(
        edges,
        vec![
            (10, 11, "a,c".to_string()),
            (10, 10, "b".to_string()),
            (11, 11, "a".to_string()),
        ]
    );
}
