//! Regular expressions: the syntax tree and the parser that builds it.
use vstd::prelude::*;
use vstd::string::*;
use crate::error::{ParseError, ParseFailure};

verus! {

/// The syntax tree of a regular expression.
#[derive(Debug, PartialEq, Eq)]
pub enum ReOperator {
    Char(char),
    Concat(Box<ReOperator>, Box<ReOperator>),
    Or(Box<ReOperator>, Box<ReOperator>),
    KleeneStar(Box<ReOperator>),
}

/// The number of nodes of the tree.
pub open spec fn spec_size(regex: ReOperator) -> nat
    decreases regex,
{
    match regex {
        ReOperator::Char(_) => 1,
        ReOperator::Concat(left, right) => 1 + spec_size(*left) + spec_size(*right),
        ReOperator::Or(left, right) => 1 + spec_size(*left) + spec_size(*right),
        ReOperator::KleeneStar(inner) => 1 + spec_size(*inner),
    }
}

/// Letters and digits of ASCII: the symbols of an expression.
pub open spec fn is_symbol(c: char) -> bool {
    ('a' <= c && c <= 'z') || ('A' <= c && c <= 'Z') || ('0' <= c && c <= '9')
}

/// The characters an expression may hold: symbols and the four operators.
pub open spec fn is_accepted(c: char) -> bool {
    is_symbol(c) || c == '|' || c == '*' || c == '(' || c == ')'
}

pub fn is_symbol_char(c: char) -> (b: bool)
    ensures
        b == is_symbol(c),
{
    ('a' <= c && c <= 'z') || ('A' <= c && c <= 'Z') || ('0' <= c && c <= '9')
}

pub fn is_valid_char(c: char) -> (b: bool)
    ensures
        b == is_accepted(c),
{
    is_symbol_char(c) || c == '|' || c == '*' || c == '(' || c == ')'
}

/// The three characters that end a token: both parentheses and the bar.
pub open spec fn is_delimiter(c: char) -> bool {
    c == '|' || c == '(' || c == ')'
}

/// A text being read from left to right: `chars` is the whole text and `pos`
/// the number of characters already consumed.
#[derive(Debug)]
pub struct CharStream {
    pub chars: Vec<char>,
    pub pos: usize,
}

impl CharStream {
    /// The position never runs past the end of the text.
    pub open spec fn wf(&self) -> bool {
        self.pos <= self.chars.len()
    }

    /// A stream over `text`, with nothing consumed.
    pub fn new(text: &str) -> (stream: Self)
        ensures
            stream.wf(),
            stream.chars@ == text@,
            stream.pos == 0,
    {
        let n = text.unicode_len();
        let mut chars: Vec<char> = Vec::new();
        let mut i: usize = 0;
        while i < n
            invariant
                n == text@.len(),
                i <= n,
                chars@ == text@.subrange(0, i as int),
            decreases n - i,
        {
            chars.push(text.get_char(i));
            i += 1;
        }
        CharStream { chars, pos: 0 }
    }

    /// The next character, which stays in the stream.
    pub fn peek(&self) -> (c: Option<char>)
        requires
            self.wf(),
        ensures
            c == if self.pos < self.chars.len() {
                Some(self.chars[self.pos as int])
            } else {
                None::<char>
            },
    {
        if self.pos < self.chars.len() {
            Some(self.chars[self.pos])
        } else {
            None
        }
    }

    /// Consumes the next character and returns it.
    pub fn next(&mut self) -> (c: Option<char>)
        requires
            old(self).wf(),
        ensures
            final(self).wf(),
            final(self).chars == old(self).chars,
            c == if old(self).pos < old(self).chars.len() {
                Some(old(self).chars[old(self).pos as int])
            } else {
                None::<char>
            },
            final(self).pos == if old(self).pos < old(self).chars.len() {
                old(self).pos + 1
            } else {
                old(self).pos as int
            },
    {
        if self.pos < self.chars.len() {
            let c = self.chars[self.pos];
            self.pos = self.pos + 1;
            Some(c)
        } else {
            None
        }
    }
}

/// Reads the token that starts at `pos`: it runs up to the next delimiter or
/// the end of the text. `Ok` holds the position just past the token, `Err` the
/// position of the first character of it that is not accepted.
pub open spec fn spec_scan_token(s: Seq<char>, pos: nat) -> Result<nat, nat>
    decreases s.len() - pos,
{
    if pos >= s.len() || is_delimiter(s[pos as int]) {
        Ok(pos)
    } else if !is_accepted(s[pos as int]) {
        Err(pos)
    } else {
        spec_scan_token(s, pos + 1)
    }
}

/// The node that starts at `pos`: one symbol, with the star that follows it
/// if there is one. `Ok` holds the node and the position just past it.
pub open spec fn spec_next_node(s: Seq<char>, pos: nat) -> Result<(ReOperator, nat), ParseFailure>
    recommends
        pos < s.len(),
{
    let c = s[pos as int];
    if !is_accepted(c) {
        Err(ParseFailure::Character(c))
    } else if is_symbol(c) {
        if pos + 1 < s.len() && s[pos as int + 1] == '*' {
            Ok((ReOperator::KleeneStar(Box::new(ReOperator::Char(c))), pos + 2))
        } else {
            Ok((ReOperator::Char(c), pos + 1))
        }
    } else if c == '*' {
        Err(ParseFailure::Token("cannot have Kleene star without valid alphabet char"@))
    } else {
        Err(
            ParseFailure::Token(
                "Invalid character, only ([a-z]|[A-Z]|[0-9]|\\*)* is accepted"@,
            ),
        )
    }
}

/// Concatenates the nodes from `pos` on, one after the other, to the right of
/// `acc`.
pub open spec fn spec_fold_nodes(s: Seq<char>, pos: nat, acc: ReOperator) -> Result<
    ReOperator,
    ParseFailure,
>
    decreases s.len() - pos,
{
    if pos >= s.len() {
        Ok(acc)
    } else {
        match spec_next_node(s, pos) {
            Err(e) => Err(e),
            Ok((node, next)) => spec_fold_nodes(
                s,
                next,
                ReOperator::Concat(Box::new(acc), Box::new(node)),
            ),
        }
    }
}

/// The tree of a token: a text without parentheses and bars. Its nodes are
/// concatenated from left to right.
pub open spec fn spec_parse_token(token: Seq<char>) -> Result<ReOperator, ParseFailure> {
    if token.len() == 0 {
        Err(ParseFailure::Token("Empty token"@))
    } else if token[0] == '*' {
        Err(ParseFailure::Token("token can't start with *"@))
    } else {
        match spec_next_node(token, 0) {
            Err(e) => Err(e),
            Ok((node, next)) => spec_fold_nodes(token, next, node),
        }
    }
}

/// `next` alone where nothing was read before it, else `tree` followed by
/// `next`.
pub open spec fn concat_onto(tree: Option<Box<ReOperator>>, next: ReOperator) -> ReOperator {
    match tree {
        Some(t) => ReOperator::Concat(t, Box::new(next)),
        None => next,
    }
}

/// What a step of the parser leaves behind: the tree read so far, the
/// position reached and the number of parentheses still open.
pub struct ParseState {
    pub tree: ReOperator,
    pub pos: nat,
    pub depth: nat,
}

/// One step of the parser at `pos`, with `tree` read so far in this scope and
/// `depth` parentheses open.
///
/// - At the end of the text the tree read so far is the result; there must be one.
/// - `(` opens a scope, which is parsed to its end; a star right after it
///   applies to the whole group. The group is concatenated onto `tree`.
/// - `|` makes an alternation of `tree` and everything up to the end of the
///   scope.
/// - `)` closes the scope: one parenthesis fewer is open.
/// - Anything else starts a token, which is concatenated onto `tree`.
pub open spec fn spec_elaborate(
    s: Seq<char>,
    pos: nat,
    tree: Option<Box<ReOperator>>,
    depth: nat,
) -> Result<ParseState, ParseFailure>
    decreases s.len() - pos, 0nat,
{
    if pos >= s.len() {
        match tree {
            Some(t) => Ok(ParseState { tree: *t, pos, depth }),
            None => Err(ParseFailure::Token("Empty string is not accepted"@)),
        }
    } else {
        let c = s[pos as int];
        if !is_accepted(c) {
            Err(ParseFailure::Character(c))
        } else if c == '(' {
            match spec_parse_rec(s, pos + 1, depth + 1) {
                Err(e) => Err(e),
                Ok(group) => if group.pos < s.len() && s[group.pos as int] == '*' {
                    Ok(
                        ParseState {
                            tree: concat_onto(tree, ReOperator::KleeneStar(Box::new(group.tree))),
                            pos: group.pos + 1,
                            depth: group.depth,
                        },
                    )
                } else {
                    Ok(
                        ParseState {
                            tree: concat_onto(tree, group.tree),
                            pos: group.pos,
                            depth: group.depth,
                        },
                    )
                },
            }
        } else if c == '|' {
            match tree {
                None => Err(ParseFailure::Token("Invalid token, cannot begin with |"@)),
                Some(left) => match spec_parse_rec(s, pos + 1, depth) {
                    Err(e) => Err(e),
                    Ok(right) => Ok(
                        ParseState {
                            tree: ReOperator::Or(left, Box::new(right.tree)),
                            pos: right.pos,
                            depth: right.depth,
                        },
                    ),
                },
            }
        } else if c == ')' {
            match tree {
                None => Err(ParseFailure::Token("Empty token Error"@)),
                Some(t) => if depth == 0 {
                    Err(ParseFailure::Parentheses)
                } else {
                    Ok(ParseState { tree: *t, pos: pos + 1, depth: (depth - 1) as nat })
                },
            }
        } else {
            match spec_scan_token(s, pos) {
                Err(bad) => Err(ParseFailure::Character(s[bad as int])),
                Ok(end) => match spec_parse_token(s.subrange(pos as int, end as int)) {
                    Err(e) => Err(e),
                    Ok(token) => Ok(ParseState { tree: concat_onto(tree, token), pos: end, depth }),
                },
            }
        }
    }
}

/// Parses one scope from `pos` on: up to the parenthesis that closes it, or
/// to the end of the text. (A step never moves backwards or past the end of
/// the text; the tests on the position make that plain to the recursion.)
pub open spec fn spec_parse_rec(s: Seq<char>, pos: nat, depth: nat) -> Result<
    ParseState,
    ParseFailure,
>
    decreases s.len() - pos, 2nat,
{
    match spec_elaborate(s, pos, None, depth) {
        Err(e) => Err(e),
        Ok(first) => if !(pos <= first.pos <= s.len()) {
            Ok(first)
        } else {
            spec_parse_scope(s, first.pos, first.tree, first.depth, first.depth)
        },
    }
}

/// Goes on with the steps of a scope that has read `tree` and stands at
/// `pos`, until the text ends or fewer than `scope` parentheses are open.
pub open spec fn spec_parse_scope(
    s: Seq<char>,
    pos: nat,
    tree: ReOperator,
    depth: nat,
    scope: nat,
) -> Result<ParseState, ParseFailure>
    decreases s.len() - pos, 1nat,
{
    if pos >= s.len() {
        Ok(ParseState { tree, pos, depth })
    } else {
        match spec_elaborate(s, pos, Some(Box::new(tree)), depth) {
            Err(e) => Err(e),
            Ok(step) => if scope > step.depth || !(pos < step.pos <= s.len()) {
                Ok(step)
            } else {
                spec_parse_scope(s, step.pos, step.tree, step.depth, scope)
            },
        }
    }
}

/// The tree of the regular expression `s`, or the reason why it has none.
pub open spec fn spec_from_string(s: Seq<char>) -> Result<ReOperator, ParseFailure> {
    match spec_parse_rec(s, 0, 0) {
        Err(e) => Err(e),
        Ok(end) => if end.depth != 0 {
            Err(ParseFailure::Parentheses)
        } else {
            Ok(end.tree)
        },
    }
}

/// Where a scan of a token ends: inside the text, with accepted characters
/// that are no delimiters all the way, at a delimiter or at the end of the
/// text; or at a character that is not accepted.
pub proof fn lemma_scan_token(s: Seq<char>, pos: nat)
    requires
        pos <= s.len(),
    ensures
        match spec_scan_token(s, pos) {
            Ok(end) => {
                &&& pos <= end <= s.len()
                &&& forall|i: int| pos <= i < end ==> is_accepted(s[i]) && !is_delimiter(s[i])
                &&& end < s.len() ==> is_delimiter(s[end as int])
            },
            Err(bad) => {
                &&& pos <= bad < s.len()
                &&& !is_accepted(s[bad as int])
                &&& forall|i: int| pos <= i < bad ==> is_accepted(s[i]) && !is_delimiter(s[i])
            },
        },
    decreases s.len() - pos,
{
    if pos >= s.len() || is_delimiter(s[pos as int]) {
    } else if !is_accepted(s[pos as int]) {
    } else {
        lemma_scan_token(s, pos + 1);
    }
}

/// Whether what the parser returned, the position it reached and the
/// parentheses it left open are what `expected` says.
pub open spec fn parse_outcome(
    expected: Result<ParseState, ParseFailure>,
    r: Result<Box<ReOperator>, ParseError>,
    pos: usize,
    depth: usize,
) -> bool {
    match expected {
        Ok(state) => match r {
            Ok(tree) => *tree == state.tree && pos == state.pos && depth == state.depth,
            Err(_) => false,
        },
        Err(failure) => match r {
            Ok(_) => false,
            Err(e) => e@ == failure,
        },
    }
}

/// Whether `r` is the tree, or the error, that `expected` says.
pub open spec fn tree_outcome(
    expected: Result<ReOperator, ParseFailure>,
    r: Result<Box<ReOperator>, ParseError>,
) -> bool {
    match expected {
        Ok(tree) => match r {
            Ok(t) => *t == tree,
            Err(_) => false,
        },
        Err(failure) => match r {
            Ok(_) => false,
            Err(e) => e@ == failure,
        },
    }
}

/// Reads the next token of the expression: the characters up to the next
/// parenthesis or bar, or to the end of the text. The token is empty where the
/// stream stands at one of those.
pub fn get_next_token(chars: &mut CharStream) -> (r: Result<String, ParseError>)
    requires
        old(chars).wf(),
    ensures
        final(chars).wf(),
        final(chars).chars == old(chars).chars,
        match spec_scan_token(old(chars).chars@, old(chars).pos as nat) {
            Ok(end) => match r {
                Ok(token) => token@ == old(chars).chars@.subrange(
                    old(chars).pos as int,
                    end as int,
                ) && final(chars).pos == end,
                Err(_) => false,
            },
            Err(bad) => match r {
                Ok(_) => false,
                Err(e) => e@ == ParseFailure::Character(old(chars).chars@[bad as int])
                    && final(chars).pos == bad + 1,
            },
        },
{
    let mut token = String::new();
    let ghost s = chars.chars@;
    let ghost start = chars.pos as nat;
    loop
        invariant
            chars.wf(),
            chars.chars == old(chars).chars,
            s == chars.chars@,
            start == old(chars).pos,
            start <= chars.pos,
            token@ == s.subrange(start as int, chars.pos as int),
            spec_scan_token(s, start) == spec_scan_token(s, chars.pos as nat),
        decreases s.len() - chars.pos,
    {
        match chars.peek() {
            None => {
                return Ok(token);
            },
            Some(c) => {
                if c == '|' || c == ')' || c == '(' {
                    return Ok(token);
                }
                let _ = chars.next();
                if !is_valid_char(c) {
                    return Err(ParseError::character(c));
                }
                token.push(c);
                assert(token@ == s.subrange(start as int, chars.pos as int));
            },
        }
    }
}

/// Reads the next node of a token: one symbol, or a symbol with the star
/// that follows it.
pub fn get_next_node(chars: &mut CharStream) -> (r: Result<Box<ReOperator>, ParseError>)
    requires
        old(chars).wf(),
        old(chars).pos < old(chars).chars.len(),
    ensures
        final(chars).wf(),
        final(chars).chars == old(chars).chars,
        old(chars).pos < final(chars).pos,
        match spec_next_node(old(chars).chars@, old(chars).pos as nat) {
            Ok((node, next)) => match r {
                Ok(tree) => *tree == node && final(chars).pos == next,
                Err(_) => false,
            },
            Err(failure) => match r {
                Ok(_) => false,
                Err(e) => e@ == failure && final(chars).pos == old(chars).pos + 1,
            },
        },
{
    let curr_char = chars.chars[chars.pos];
    let _ = chars.next();
    if !is_valid_char(curr_char) {
        return Err(ParseError::character(curr_char));
    }
    if is_symbol_char(curr_char) {
        if chars.peek() == Some('*') {
            let _ = chars.next();
            Ok(Box::new(ReOperator::KleeneStar(Box::new(ReOperator::Char(curr_char)))))
        } else {
            Ok(Box::new(ReOperator::Char(curr_char)))
        }
    } else if curr_char == '*' {
        Err(ParseError::token("cannot have Kleene star without valid alphabet char"))
    } else {
        Err(ParseError::token("Invalid character, only ([a-z]|[A-Z]|[0-9]|\\*)* is accepted"))
    }
}

/// Parses a token: an expression without parentheses and bars. Its nodes are
/// concatenated from left to right.
pub fn parse_token(token: String) -> (r: Result<Box<ReOperator>, ParseError>)
    ensures
        tree_outcome(spec_parse_token(token@), r),
{
    let mut chars = CharStream::new(token.as_str());
    if chars.chars.len() == 0 {
        return Err(ParseError::token("Empty token"));
    } else if chars.chars[0] == '*' {
        return Err(ParseError::token("token can't start with *"));
    }
    let mut tree_top = match get_next_node(&mut chars) {
        Ok(node) => node,
        Err(e) => {
            return Err(e);
        },
    };
    while chars.pos < chars.chars.len()
        invariant
            chars.wf(),
            chars.chars@ == token@,
            spec_fold_nodes(token@, chars.pos as nat, *tree_top) == spec_parse_token(token@),
        decreases chars.chars.len() - chars.pos,
    {
        let node = match get_next_node(&mut chars) {
            Ok(node) => node,
            Err(e) => {
                return Err(e);
            },
        };
        tree_top = Box::new(ReOperator::Concat(tree_top, node));
    }
    Ok(tree_top)
}

/// `next` alone where nothing was read before it, else `tree` followed by
/// `next`.
fn concat_trees(tree: Option<Box<ReOperator>>, next: Box<ReOperator>) -> (r: Box<ReOperator>)
    ensures
        *r == concat_onto(tree, *next),
{
    match tree {
        Some(t) => Box::new(ReOperator::Concat(t, next)),
        None => next,
    }
}

/// One step of the parser: a group in parentheses, an alternation, the end
/// of a scope or a token.
pub(crate) fn elaborate_next_token(
    chars: &mut CharStream,
    tree: Option<Box<ReOperator>>,
    open_parens: &mut usize,
) -> (r: Result<Box<ReOperator>, ParseError>)
    requires
        old(chars).wf(),
        *old(open_parens) <= old(chars).pos,
    ensures
        final(chars).wf(),
        final(chars).chars == old(chars).chars,
        parse_outcome(
            spec_elaborate(
                old(chars).chars@,
                old(chars).pos as nat,
                tree,
                *old(open_parens) as nat,
            ),
            r,
            final(chars).pos,
            *final(open_parens),
        ),
        r is Ok ==> old(chars).pos <= final(chars).pos && *final(open_parens) <= final(chars).pos,
        r is Ok && old(chars).pos < old(chars).chars.len() ==> old(chars).pos < final(chars).pos,
    decreases old(chars).chars.len() - old(chars).pos, 0nat,
{
    let ghost s = chars.chars@;
    let ghost pos = chars.pos as nat;
    let curr_char = match chars.peek() {
        None => {
            return match tree {
                Some(t) => Ok(t),
                None => Err(ParseError::token("Empty string is not accepted")),
            };
        },
        Some(c) => c,
    };
    if !is_valid_char(curr_char) {
        return Err(ParseError::character(curr_char));
    }
    if curr_char == '(' {
        let _ = chars.next();
        *open_parens = *open_parens + 1;
        let next_tree = match parse_rec(chars, open_parens) {
            Ok(t) => t,
            Err(e) => {
                return Err(e);
            },
        };
        if chars.peek() == Some('*') {
            let _ = chars.next();
            Ok(concat_trees(tree, Box::new(ReOperator::KleeneStar(next_tree))))
        } else {
            Ok(concat_trees(tree, next_tree))
        }
    } else if curr_char == '|' {
        match tree {
            None => Err(ParseError::token("Invalid token, cannot begin with |")),
            Some(parse_tree) => {
                let _ = chars.next();
                match parse_rec(chars, open_parens) {
                    Ok(next_tree) => Ok(Box::new(ReOperator::Or(parse_tree, next_tree))),
                    Err(e) => Err(e),
                }
            },
        }
    } else if curr_char == ')' {
        match tree {
            None => Err(ParseError::token("Empty token Error")),
            Some(parse_tree) => {
                if *open_parens == 0 {
                    Err(ParseError::parentheses())
                } else {
                    let _ = chars.next();
                    *open_parens = *open_parens - 1;
                    Ok(parse_tree)
                }
            },
        }
    } else {
        proof {
            lemma_scan_token(s, pos);
        }
        let token = match get_next_token(chars) {
            Ok(token) => token,
            Err(e) => {
                return Err(e);
            },
        };
        match parse_token(token) {
            Ok(next_tree) => Ok(concat_trees(tree, next_tree)),
            Err(e) => Err(e),
        }
    }
}

/// Parses the current scope: up to the parenthesis that closes it, or to the
/// end of the text. Concatenation associates to the left, alternation to the
/// right, and a star applies to the symbol or the group just before it.
pub(crate) fn parse_rec(chars: &mut CharStream, open_parens: &mut usize) -> (r: Result<
    Box<ReOperator>,
    ParseError,
>)
    requires
        old(chars).wf(),
        *old(open_parens) <= old(chars).pos,
    ensures
        final(chars).wf(),
        final(chars).chars == old(chars).chars,
        parse_outcome(
            spec_parse_rec(old(chars).chars@, old(chars).pos as nat, *old(open_parens) as nat),
            r,
            final(chars).pos,
            *final(open_parens),
        ),
        r is Ok ==> old(chars).pos <= final(chars).pos && *final(open_parens) <= final(chars).pos,
    decreases old(chars).chars.len() - old(chars).pos, 2nat,
{
    let ghost s = chars.chars@;
    let ghost start = chars.pos as nat;
    let ghost depth = *open_parens as nat;
    let mut parse_tree = match elaborate_next_token(chars, None, open_parens) {
        Ok(t) => t,
        Err(e) => {
            return Err(e);
        },
    };
    let curr_parentesis = *open_parens;
    while chars.pos < chars.chars.len()
        invariant
            chars.wf(),
            chars.chars == old(chars).chars,
            s == chars.chars@,
            start == old(chars).pos,
            depth == *old(open_parens),
            start <= chars.pos,
            *open_parens <= chars.pos,
            spec_parse_scope(
                s,
                chars.pos as nat,
                *parse_tree,
                *open_parens as nat,
                curr_parentesis as nat,
            ) == spec_parse_rec(s, start, depth),
        decreases s.len() - chars.pos,
    {
        parse_tree = match elaborate_next_token(chars, Some(parse_tree), open_parens) {
            Ok(t) => t,
            Err(e) => {
                return Err(e);
            },
        };
        // The step closed the parenthesis of this scope: the scope is over.
        if curr_parentesis > *open_parens {
            return Ok(parse_tree);
        }
    }
    Ok(parse_tree)
}

impl ReOperator {
    /// The number of nodes of the tree, unless it is beyond `usize`.
    pub fn size(&self) -> (n: Option<usize>)
        ensures
            match n {
                Some(n) => n == spec_size(*self),
                None => spec_size(*self) > usize::MAX,
            },
        decreases *self,
    {
        match self {
            ReOperator::Char(_) => Some(1),
            ReOperator::Concat(left, right) | ReOperator::Or(left, right) => {
                match (left.size(), right.size()) {
                    (Some(l), Some(r)) => {
                        if l >= usize::MAX - r {
                            None
                        } else {
                            Some(1 + l + r)
                        }
                    },
                    _ => None,
                }
            },
            ReOperator::KleeneStar(inner) => {
                match inner.size() {
                    Some(i) => {
                        if i == usize::MAX {
                            None
                        } else {
                            Some(1 + i)
                        }
                    },
                    None => None,
                }
            },
        }
    }

    /// Parses a regular expression over ASCII letters and digits, with
    /// juxtaposition for concatenation, `|` for alternation, `*` for
    /// repetition and parentheses for grouping.
    pub fn from_string(str: &String) -> (r: Result<ReOperator, ParseError>)
        ensures
            match spec_from_string(str@) {
                Ok(tree) => r is Ok && r->Ok_0 == tree,
                Err(failure) => r is Err && r->Err_0@ == failure,
            },
    {
        let mut chars = CharStream::new(str.as_str());
        let mut num_parens: usize = 0;
        let res = match parse_rec(&mut chars, &mut num_parens) {
            Ok(t) => t,
            Err(e) => {
                return Err(e);
            },
        };
        if num_parens != 0 {
            return Err(ParseError::parentheses());
        }
        Ok(*res)
    }
}

} // verus!
