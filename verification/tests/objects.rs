use formal_languages::nfa_text::NfaTextError;
use formal_languages::objects::{Missing, RegularGrammarObjects};

#[test]
fn every_object_is_made_from_the_one_before() {
    let mut objects = RegularGrammarObjects::new();
    assert_eq!(objects.from_regular_expression().unwrap_err(), Missing::RegularExpression);
    assert_eq!(objects.from_nfa().unwrap_err(), Missing::Nfa);
    assert_eq!(objects.from_dfa().unwrap_err(), Missing::Dfa);

    assert!(objects.from_input(&"a(".to_string()).is_err());
    assert!(objects.regular_expression.is_none());
    let tree = objects.from_input(&"(a|b)*abb".to_string()).unwrap();
    assert_eq!(tree.get_nodes().len(), 10);

    let nfa = objects.from_regular_expression().unwrap();
    assert_eq!(nfa.get_nodes().len(), objects.nfa.as_ref().unwrap().num_states);
    let dfa = objects.from_nfa().unwrap();
    assert_eq!(dfa.get_nodes().len(), objects.dfa.as_ref().unwrap().num_states);
    let min = objects.from_dfa().unwrap();
    assert_eq!(min.get_nodes().len(), 4);
    let word: Vec<char> = "babb".chars().collect();
    assert!(objects.min_dfa.as_ref().unwrap().accepts(&word));
}

#[test]
fn an_automaton_can_be_read_from_its_text() {
    let mut objects = RegularGrammarObjects::new();
    assert_eq!(objects.from_input_text(&"nothing".to_string()).unwrap_err(), NfaTextError::Syntax);
    assert!(objects.nfa.is_none());
    let text = "start_state: 0 end_states: [1] num_states: 2 0 -- 'a' --> 1 1 ----> 0";
    let graph = objects.from_input_text(&text.to_string()).unwrap();
    assert_eq!(graph.get_nodes().len(), 2);
    objects.from_nfa().unwrap();
    let dfa = objects.dfa.as_ref().unwrap();
    assert!(dfa.accepts(&vec!['a', 'a']));
    assert!(!dfa.accepts(&vec![]));
}
