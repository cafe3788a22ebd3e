//! The errors a regular-expression parse can end with.
use vstd::prelude::*;
use vstd::string::*;

verus! {

/// The parentheses of the expression do not match, as in `(a|b | (c|d)`.
#[derive(Debug, Clone, Copy, PartialEq, Eq)]
pub struct UnvalidParentesis {}

/// A character outside the accepted ones (ASCII letters, digits and the
/// operators `(`, `)`, `|`, `*`) was met.
#[derive(Debug, Clone, Copy, PartialEq, Eq)]
pub struct InvalidCharacter {
    pub character: char,
}

impl InvalidCharacter {
    pub fn new(character: char) -> (e: Self)
        ensures
            e.character == character,
    {
        Self { character }
    }

    /// The text shown for this error.
    pub fn to_string(&self) -> (s: String)
        ensures
            s@ == "Invalid character error: "@.push(self.character),
    {
        let mut s = String::from_str("Invalid character error: ");
        s.push(self.character);
        s
    }
}

/// A piece of the expression is not a well-formed token; `message` says why.
#[derive(Debug, Clone, PartialEq, Eq)]
pub struct InvalidTokenError {
    pub message: String,
}

impl InvalidTokenError {
    pub fn new(message: String) -> (e: Self)
        ensures
            e.message == message,
    {
        Self { message }
    }

    /// The text shown for this error.
    pub fn to_string(&self) -> (s: String)
        ensures
            s@ == "Invalid token error: "@ + self.message@,
    {
        let mut s = String::from_str("Invalid token error: ");
        s.append(self.message.as_str());
        s
    }
}

impl UnvalidParentesis {
    /// The text shown for this error.
    pub fn to_string(&self) -> (s: String)
        ensures
            s@ == "Unvalid parentesis error"@,
    {
        String::from_str("Unvalid parentesis error")
    }
}

/// What a failed parse reports, as a mathematical value.
pub enum ParseFailure {
    /// Unmatched `(` or stray `)`.
    Parentheses,
    /// The character that is not accepted.
    Character(char),
    /// The reason why a token is malformed.
    Token(Seq<char>),
}

/// The error of a regular-expression parse.
#[derive(Debug, Clone, PartialEq, Eq)]
pub enum ParseError {
    UnbalancedParentheses(UnvalidParentesis),
    InvalidCharacter(InvalidCharacter),
    InvalidToken(InvalidTokenError),
}

impl View for ParseError {
    type V = ParseFailure;

    open spec fn view(&self) -> ParseFailure {
        match *self {
            ParseError::UnbalancedParentheses(_) => ParseFailure::Parentheses,
            ParseError::InvalidCharacter(e) => ParseFailure::Character(e.character),
            ParseError::InvalidToken(e) => ParseFailure::Token(e.message@),
        }
    }
}

impl ParseError {
    /// The error for unmatched parentheses.
    pub fn parentheses() -> (e: Self)
        ensures
            e@ == ParseFailure::Parentheses,
    {
        ParseError::UnbalancedParentheses(UnvalidParentesis {  })
    }

    /// The error for the character `c`, which is not accepted.
    pub fn character(c: char) -> (e: Self)
        ensures
            e@ == ParseFailure::Character(c),
    {
        ParseError::InvalidCharacter(InvalidCharacter::new(c))
    }

    /// The error for a malformed token, with the reason `message`.
    pub fn token(message: &str) -> (e: Self)
        ensures
            e@ == ParseFailure::Token(message@),
    {
        ParseError::InvalidToken(InvalidTokenError::new(String::from_str(message)))
    }

    /// The text shown for this error.
    pub fn to_string(&self) -> (s: String)
        ensures
            s@ == match self@ {
                ParseFailure::Parentheses => "Unvalid parentesis error"@,
                ParseFailure::Character(c) => "Invalid character error: "@.push(c),
                ParseFailure::Token(m) => "Invalid token error: "@ + m,
            },
    {
        match self {
            ParseError::UnbalancedParentheses(e) => e.to_string(),
            ParseError::InvalidCharacter(e) => e.to_string(),
            ParseError::InvalidToken(e) => e.to_string(),
        }
    }
}

} // verus!
