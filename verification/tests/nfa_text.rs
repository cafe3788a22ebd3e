use formal_languages::nfa::NFA;
use formal_languages::nfa_text::{
    custom_label, read_all_transictions, read_char, read_num, read_num_array, read_transiction,
    NfaTextError,
};
use formal_languages::regular_expression::CharStream;

fn rest(chars: &CharStream) -> String {
    chars.chars[chars.pos..].iter().collect()
}

fn transiction(text: &str) -> (String, Option<(usize, usize, char)>) {
    let mut chars = CharStream::new(text);
    let m = read_transiction(&mut chars);
    (rest(&chars), m)
}

fn label(text: &str) -> (String, bool) {
    let mut chars = CharStream::new(text);
    let found = custom_label(&mut chars, "start_state");
    (rest(&chars), found)
}

fn number(text: &str) -> (String, Option<usize>) {
    let mut chars = CharStream::new(text);
    let n = read_num(&mut chars);
    (rest(&chars), n)
}

fn check_string_to_nfa_runs() {
    let _ = NFA::from_text(
        &[
            "start_state: 0\n",
            "finish_states: [ 2 ]\n",
            " num_states: 5\n",
            "0 --'b'--> 1\n",
            "1 ----> 2\n",
            "1 ----> 3\n",
            "3 -- 'a' --> 4\n",
            "4 ----> 3\n",
            "4 ----> 2\n",
        ]
        .concat(),
    );
}

fn check_edge() {
    let eps = '\u{3b5}';
    assert_eq!(transiction(" 1 ----> 3"), ("".to_string(), Some((1, 3, eps))));
    assert_eq!(transiction(" 2 -- 'a'--> 3"), ("".to_string(), Some((2, 3, 'a'))));
    assert_eq!(transiction(" 2-- 'a' --> 3 "), (" ".to_string(), Some((2, 3, 'a'))));
    assert_eq!(transiction("2 ----> 3"), ("".to_string(), Some((2, 3, eps))));
}

fn check_start_state() {
    let mut chars = CharStream::new("start_state : 100\n");
    assert!(custom_label(&mut chars, "start_state"));
    assert_eq!(read_num(&mut chars), Some(100));
    assert_eq!(rest(&chars), "\n");
}

fn check_number_list() {
    let mut chars = CharStream::new("[ 10, 20 , 30 ]");
    assert_eq!(read_num_array(&mut chars), Some(vec![10, 20, 30]));
    assert_eq!(rest(&chars), "");
}

fn check_number() {
    assert_eq!(number("10"), ("".to_string(), Some(10)));
    assert_eq!(number("1234"), ("".to_string(), Some(1234)));
}

fn check_label() {
    assert_eq!(label("start_state  : 20"), ("20".to_string(), true));
    assert_eq!(label("   start_state: 30"), ("30".to_string(), true));
    assert_eq!(label("start_state : 10"), ("10".to_string(), true));
    assert_eq!(label("start_state :10"), ("10".to_string(), true));
}

#[test]
fn from_string_string_to_nfa() {
    check_string_to_nfa_runs();
}

#[test]
fn from_string_test_edge() {
    check_edge();
}

#[test]
fn from_string_test_start_state() {
    check_start_state();
}

#[test]
fn from_string_test_number_list() {
    check_number_list();
}

#[test]
fn from_string_test_number() {
    check_number();
}

#[test]
fn from_string_test_label() {
    check_label();
}

#[test]
fn string_transform_test_edge() {
    check_edge();
}

#[test]
fn string_transform_test_start_state() {
    check_start_state();
}

#[test]
fn string_transform_test_number_list() {
    check_number_list();
}

#[test]
fn string_transform_test_number() {
    check_number();
}

#[test]
fn string_transform_test_label() {
    check_label();
}

const SAMPLE: &str = "start_state: 0\nend_states: [ 2 ]\n num_states: 5\n0 --'b'--> 1\n1 ----> 2\n1 ----> 3\n3 -- 'a' --> 4\n4 ----> 3\n4 ----> 2\n";

#[test]
fn text_of_an_automaton() {
    let eps = '\u{3b5}';
    let nfa = NFA::from_text(SAMPLE).unwrap();
    assert_eq!(nfa.get_start_state(), 0);
    assert_eq!(nfa.num_states, 5);
    assert_eq!(nfa.end_states, vec![2]);
    assert_eq!(
        nfa.get_transitions(),
        &vec![
            vec![('b', 1)],
            vec![(eps, 2), (eps, 3)],
            vec![],
            vec![('a', 4)],
            vec![(eps, 3), (eps, 2)],
        ]
    );
    assert_eq!(nfa.get_alphabet().len(), 62);
    assert_eq!(nfa.epsilon_closure(&vec![1]), vec![1, 2, 3]);
}

#[test]
fn faults_of_a_text() {
    assert_eq!(NFA::from_text("").unwrap_err(), NfaTextError::Syntax);
    assert_eq!(
        NFA::from_text("start_state: 0 end_states: [1 num_states: 2").unwrap_err(),
        NfaTextError::Syntax
    );
    assert_eq!(
        NFA::from_text("start_state: 0 end_states: [] num_states: 2 2 ----> 1").unwrap_err(),
        NfaTextError::FromOutOfRange
    );
    assert_eq!(
        NFA::from_text("start_state: 0 end_states: [] num_states: 2 1 ----> 2").unwrap_err(),
        NfaTextError::ToOutOfRange
    );
    assert_eq!(
        NFA::from_text("start_state: 2 end_states: [] num_states: 2").unwrap_err(),
        NfaTextError::StartOutOfRange
    );
    assert_eq!(
        NFA::from_text("start_state: 0 end_states: [0,5] num_states: 2").unwrap_err(),
        NfaTextError::EndOutOfRange
    );
    assert_eq!(NfaTextError::Syntax.to_string(), "error while reading nfa");
    assert_eq!(NfaTextError::FromOutOfRange.to_string(), "from out of num_state");
    assert_eq!(NfaTextError::ToOutOfRange.to_string(), "to out of num_state");
}

#[test]
fn what_follows_the_moves_is_not_read() {
    let nfa =
        NFA::from_text("start_state: 0 end_states: [0] num_states: 1 0 --'a'--> 0 rest").unwrap();
    assert_eq!(nfa.get_transitions(), &vec![vec![('a', 0)]]);
}

#[test]
fn readers_leave_the_stream_where_they_fail() {
    assert_eq!(number("x1"), ("x1".to_string(), None));
    assert_eq!(number("99999999999999999999999"), ("99999999999999999999999".to_string(), None));
    assert_eq!(number("18446744073709551615x"), ("x".to_string(), Some(usize::MAX)));
    assert_eq!(label(" start_state 1"), (" start_state 1".to_string(), false));
    assert_eq!(transiction("1 --> 2"), ("1 --> 2".to_string(), None));
    let mut chars = CharStream::new(" 'a' 'ab'");
    assert_eq!(read_char(&mut chars), Some('a'));
    assert_eq!(read_char(&mut chars), None);
    assert_eq!(rest(&chars), " 'ab'");
    let mut chars = CharStream::new("[1,]");
    assert_eq!(read_num_array(&mut chars), None);
    assert_eq!(rest(&chars), "[1,]");
    let mut chars = CharStream::new("[]x");
    assert_eq!(read_num_array(&mut chars), Some(vec![]));
    assert_eq!(rest(&chars), "x");
    let mut chars = CharStream::new("0 ----> 1 1 -- 'x' --> 0  2 --");
    assert_eq!(
        read_all_transictions(&mut chars),
        vec![(0, 1, '\u{3b5}'), (1, 0, 'x')]
    );
    assert_eq!(rest(&chars), "  2 --");
}
