use formal_languages::error::ParseError;
use formal_languages::regular_expression::{
    get_next_node, get_next_token, is_valid_char, parse_token, CharStream, ReOperator,
};

fn parse(text: &str) -> Result<ReOperator, ParseError> {
    ReOperator::from_string(&text.to_string())
}

fn rest(chars: &CharStream) -> String {
    chars.chars[chars.pos..].iter().collect()
}

fn sym(c: char) -> Box<ReOperator> {
    Box::new(ReOperator::Char(c))
}

fn check_next_token(text: &str, expected: &str) {
    let mut chars = CharStream::new(text);
    let token = get_next_token(&mut chars).unwrap();
    assert_eq!(token, expected);
}

fn check_only_char_token() {
    let token = "aaaa".to_string();
    let tree = parse_token(token).unwrap();
    assert_eq!(
        *tree,
        ReOperator::Concat(
            Box::new(ReOperator::Concat(
                Box::new(ReOperator::Concat(sym('a'), sym('a'))),
                sym('a'),
            )),
            sym('a'),
        )
    );
}

fn check_kleene_star() {
    let token = "da*b".to_string();
    let tree = parse_token(token).unwrap();
    assert_eq!(
        *tree,
        ReOperator::Concat(
            Box::new(ReOperator::Concat(
                sym('d'),
                Box::new(ReOperator::KleeneStar(sym('a'))),
            )),
            sym('b'),
        )
    );
}

fn check_error_double_star() {
    let token = "ab**c".to_string();
    let tree = parse_token(token);
    assert!(tree.is_err());
}

fn check_parse_and_parentesis() {
    let str = "a(b|c)".to_string();
    let tree = ReOperator::from_string(&str).unwrap();
    let answer = ReOperator::Concat(sym('a'), Box::new(ReOperator::Or(sym('b'), sym('c'))));
    assert_eq!(tree, answer);
}

fn check_parens_at_end_should_err() {
    let str = "a(b|c".to_string();
    let tree = ReOperator::from_string(&str);
    assert!(tree.is_err());

    let str = "a(b|c))".to_string();
    let tree = ReOperator::from_string(&str);
    assert!(tree.is_err());
}

fn check_empty_brakets() {
    let str = "a()".to_string();
    let tree = ReOperator::from_string(&str);
    assert!(tree.is_err());
}

fn check_brakets_with_star() {
    let str = "(a|b)*".to_string();
    let tree = ReOperator::from_string(&str);
    assert!(!tree.is_err());
}

#[test]
fn only_char() {
    check_next_token("aaaa", "aaaa");
}

#[test]
fn tests_only_char() {
    check_only_char_token();
}

#[test]
fn tests_with_star_and_or() {
    check_next_token("aa|b*", "aa");
}

#[test]
fn tests_with_parenthesis() {
    check_next_token("aaa(a|b*)", "aaa");
}

#[test]
fn tests_begin_parens() {
    check_next_token("(a|b*)", "");
}

#[test]
fn tests_kleene_star() {
    check_kleene_star();
}

#[test]
fn tests_error_double_star() {
    check_error_double_star();
}

#[test]
fn tests_parse_and_parentesis() {
    check_parse_and_parentesis();
}

#[test]
fn tests_parens_at_end_should_err() {
    check_parens_at_end_should_err();
}

#[test]
fn tests_empty_brakets() {
    check_empty_brakets();
}

#[test]
fn tests_brakets_with_star() {
    check_brakets_with_star();
}

#[test]
fn regular_expression_only_char() {
    check_next_token("aaaa", "aaaa");
    check_only_char_token();
}

#[test]
fn regular_expression_with_star_and_or() {
    check_next_token("aa|b*", "aa");
}

#[test]
fn regular_expression_with_parenthesis() {
    check_next_token("aaa(a|b*)", "aaa");
}

#[test]
fn regular_expression_begin_parens() {
    check_next_token("(a|b*)", "");
}

#[test]
fn regular_expression_kleene_star() {
    check_kleene_star();
}

#[test]
fn regular_expression_error_double_star() {
    check_error_double_star();
}

#[test]
fn regular_expression_parse_and_parentesis() {
    check_parse_and_parentesis();
}

#[test]
fn regular_expression_parens_at_end_should_err() {
    check_parens_at_end_should_err();
}

#[test]
fn regular_expression_empty_brakets() {
    check_empty_brakets();
}

#[test]
fn regular_expression_brakets_with_star() {
    check_brakets_with_star();
}

#[test]
fn precedence_of_alternation_and_star() {
    assert_eq!(
        parse("ab|c").unwrap(),
        ReOperator::Or(Box::new(ReOperator::Concat(sym('a'), sym('b'))), sym('c'))
    );
    assert_eq!(
        parse("ab*").unwrap(),
        ReOperator::Concat(sym('a'), Box::new(ReOperator::KleeneStar(sym('b'))))
    );
}

#[test]
fn alternation_associates_to_the_right() {
    assert_eq!(
        parse("a|b|c").unwrap(),
        ReOperator::Or(sym('a'), Box::new(ReOperator::Or(sym('b'), sym('c'))))
    );
}

#[test]
fn star_applies_to_a_group() {
    assert_eq!(
        parse("a(bc)*d").unwrap(),
        ReOperator::Concat(
            Box::new(ReOperator::Concat(
                sym('a'),
                Box::new(ReOperator::KleeneStar(Box::new(ReOperator::Concat(sym('b'), sym('c'))))),
            )),
            sym('d'),
        )
    );
    assert_eq!(
        parse("(a|b)c|d").unwrap(),
        ReOperator::Or(
            Box::new(ReOperator::Concat(Box::new(ReOperator::Or(sym('a'), sym('b'))), sym('c'))),
            sym('d'),
        )
    );
}

#[test]
fn parser_error_cases() {
    assert!(matches!(parse("(a"), Err(ParseError::UnbalancedParentheses(_))));
    assert!(matches!(parse("a)"), Err(ParseError::UnbalancedParentheses(_))));
    assert!(matches!(parse("a()"), Err(ParseError::InvalidToken(_))));
    assert!(matches!(parse("*a"), Err(ParseError::InvalidToken(_))));
    assert!(matches!(parse(""), Err(ParseError::InvalidToken(_))));
    assert!(matches!(parse("|a"), Err(ParseError::InvalidToken(_))));
    match parse("a$") {
        Err(ParseError::InvalidCharacter(e)) => assert_eq!(e.character, '$'),
        other => panic!("unexpected result {:?}", other),
    }
}

#[test]
fn error_messages() {
    match parse("") {
        Err(ParseError::InvalidToken(e)) => {
            assert_eq!(e.message, "Empty string is not accepted");
            assert_eq!(e.to_string(), "Invalid token error: Empty string is not accepted");
        }
        other => panic!("unexpected result {:?}", other),
    }
    match parse("|a") {
        Err(ParseError::InvalidToken(e)) => {
            assert_eq!(e.message, "Invalid token, cannot begin with |")
        }
        other => panic!("unexpected result {:?}", other),
    }
    match parse("()") {
        Err(ParseError::InvalidToken(e)) => assert_eq!(e.message, "Empty token Error"),
        other => panic!("unexpected result {:?}", other),
    }
    match parse("*a") {
        Err(ParseError::InvalidToken(e)) => assert_eq!(e.message, "token can't start with *"),
        other => panic!("unexpected result {:?}", other),
    }
    match parse("a**") {
        Err(ParseError::InvalidToken(e)) => {
            assert_eq!(e.message, "cannot have Kleene star without valid alphabet char")
        }
        other => panic!("unexpected result {:?}", other),
    }
    match parse_token("".to_string()) {
        Err(ParseError::InvalidToken(e)) => assert_eq!(e.message, "Empty token"),
        other => panic!("unexpected result {:?}", other),
    }
    match parse_token("a|".to_string()) {
        Err(ParseError::InvalidToken(e)) => assert_eq!(
            e.message,
            "Invalid character, only ([a-z]|[A-Z]|[0-9]|\\*)* is accepted"
        ),
        other => panic!("unexpected result {:?}", other),
    }
    assert_eq!(parse("(a").unwrap_err().to_string(), "Unvalid parentesis error");
    assert_eq!(parse("a%").unwrap_err().to_string(), "Invalid character error: %");
}

#[test]
fn token_and_node_leave_the_stream_behind_them() {
    let mut chars = CharStream::new("ab*|c");
    let node = get_next_node(&mut chars).unwrap();
    assert_eq!(*node, ReOperator::Char('a'));
    assert_eq!(rest(&chars), "b*|c");
    let node = get_next_node(&mut chars).unwrap();
    assert_eq!(*node, ReOperator::KleeneStar(sym('b')));
    assert_eq!(rest(&chars), "|c");
    let mut chars = CharStream::new("ab#c|d");
    assert!(matches!(get_next_token(&mut chars), Err(ParseError::InvalidCharacter(_))));
    assert_eq!(rest(&chars), "c|d");
}

#[test]
fn accepted_characters() {
    for c in ['a', 'z', 'A', 'Z', '0', '9', '(', ')', '|', '*'] {
        assert!(is_valid_char(c));
    }
    for c in ['$', ' ', '-', '+', '.', '\u{3b5}', '{'] {
        assert!(!is_valid_char(c));
    }
}

#[test]
fn size_counts_the_nodes() {
    assert_eq!(parse("a").unwrap().size(), Some(1));
    assert_eq!(parse("a(b|c)*").unwrap().size(), Some(6));
}
