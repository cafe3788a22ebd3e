//! The textual form of a nondeterministic automaton:
//!
//! ```text
//! start_state: 0
//! end_states: [ 2 ]
//! num_states: 5
//! 0 -- 'b' --> 1
//! 1 ----> 2
//! ```
//!
//! White space may stand between any two parts. A move without a symbol
//! reads nothing.
use vstd::prelude::*;
use vstd::string::*;
use crate::char_set::CharSet;
use crate::consts::EPSILON;
use crate::nfa::NFA;
use crate::regular_expression::{is_symbol, is_symbol_char, CharStream};

verus! {

/// Blank, tab, carriage return and line feed.
pub open spec fn is_space(c: char) -> bool {
    c == ' ' || c == '\t' || c == '\r' || c == '\n'
}

/// Whether `c` is a decimal digit.
pub open spec fn is_digit(c: char) -> bool {
    '0' <= c && c <= '9'
}

/// The value of the digit `c`.
pub open spec fn digit_value(c: char) -> nat {
    (c as nat - '0' as nat) as nat
}

/// The first place from `pos` on that holds no white space.
pub open spec fn spec_skip_space(s: Seq<char>, pos: nat) -> nat
    decreases s.len() - pos,
{
    if pos < s.len() && is_space(s[pos as int]) {
        spec_skip_space(s, pos + 1)
    } else {
        pos
    }
}

/// The first place from `pos` on that holds no digit.
pub open spec fn spec_digits_end(s: Seq<char>, pos: nat) -> nat
    decreases s.len() - pos,
{
    if pos < s.len() && is_digit(s[pos as int]) {
        spec_digits_end(s, pos + 1)
    } else {
        pos
    }
}

/// The number that the digits from `from` up to `to` are the decimal
/// notation of.
pub open spec fn spec_digits_value(s: Seq<char>, from: nat, to: nat) -> nat
    decreases to,
{
    if to <= from {
        0
    } else {
        spec_digits_value(s, from, (to - 1) as nat) * 10 + digit_value(s[to - 1])
    }
}

/// Reads a number: one digit or more, whose value fits the machine. The
/// result holds the number and the place behind it.
pub open spec fn spec_read_num(s: Seq<char>, pos: nat) -> Option<(usize, nat)> {
    let end = spec_digits_end(s, pos);
    if end == pos || spec_digits_value(s, pos, end) > usize::MAX {
        None
    } else {
        Some((spec_digits_value(s, pos, end) as usize, end))
    }
}

/// Reads the text `tag`. The result is the place behind it.
pub open spec fn spec_read_tag(s: Seq<char>, pos: nat, tag: Seq<char>) -> Option<nat> {
    if pos + tag.len() <= s.len() && s.subrange(pos as int, pos as int + tag.len()) == tag {
        Some(pos + tag.len())
    } else {
        None
    }
}

/// Reads a label: white space, `label`, white space, a colon, white space.
pub open spec fn spec_read_label(s: Seq<char>, pos: nat, label: Seq<char>) -> Option<nat> {
    match spec_read_tag(s, spec_skip_space(s, pos), label) {
        None => None,
        Some(named) => match spec_read_tag(s, spec_skip_space(s, named), seq![':']) {
            None => None,
            Some(colon) => Some(spec_skip_space(s, colon)),
        },
    }
}

/// Reads a number with white space on both sides.
pub open spec fn spec_read_padded_num(s: Seq<char>, pos: nat) -> Option<(usize, nat)> {
    match spec_read_num(s, spec_skip_space(s, pos)) {
        None => None,
        Some((value, end)) => Some((value, spec_skip_space(s, end))),
    }
}

/// Goes on with a list of numbers behind `acc`: as long as a comma and a
/// number follow, the number is added.
pub open spec fn spec_read_more_nums(s: Seq<char>, pos: nat, acc: Seq<usize>) -> (Seq<usize>, nat)
    decreases s.len() - pos,
{
    match spec_read_tag(s, pos, seq![',']) {
        None => (acc, pos),
        Some(comma) => match spec_read_padded_num(s, comma) {
            None => (acc, pos),
            Some((value, end)) => if pos < end <= s.len() {
                spec_read_more_nums(s, end, acc.push(value))
            } else {
                (acc, pos)
            },
        },
    }
}

/// Reads a list of numbers in square brackets, with commas between them.
pub open spec fn spec_read_num_array(s: Seq<char>, pos: nat) -> Option<(Seq<usize>, nat)> {
    match spec_read_tag(s, pos, seq!['[']) {
        None => None,
        Some(open) => {
            let (list, end) = match spec_read_padded_num(s, open) {
                None => (Seq::<usize>::empty(), open),
                Some((value, behind)) => spec_read_more_nums(s, behind, seq![value]),
            };
            match spec_read_tag(s, end, seq![']']) {
                None => None,
                Some(close) => Some((list, close)),
            }
        },
    }
}

/// Reads the symbol of a move: white space and a letter or a digit between
/// two apostrophes.
pub open spec fn spec_read_char(s: Seq<char>, pos: nat) -> Option<(char, nat)> {
    let at = spec_skip_space(s, pos);
    if at + 3 <= s.len() && s[at as int] == '\'' && is_symbol(s[at as int + 1]) && s[at as int
        + 2] == '\'' {
        Some((s[at as int + 1], at + 3))
    } else {
        None
    }
}

/// A move: its origin, its destination and its label.
pub type Move = (usize, usize, char);

/// Reads a move: the origin, two dashes, the symbol if there is one, an
/// arrow of two dashes and the destination. A move without a symbol gets
/// the label `EPSILON`.
pub open spec fn spec_read_transition(s: Seq<char>, pos: nat) -> Option<(Move, nat)> {
    match spec_read_padded_num(s, pos) {
        None => None,
        Some((from, a)) => match spec_read_tag(s, a, seq!['-', '-']) {
            None => None,
            Some(b) => {
                let (label, c) = match spec_read_char(s, b) {
                    None => (EPSILON, b),
                    Some((symbol, behind)) => (symbol, behind),
                };
                match spec_read_tag(s, spec_skip_space(s, c), seq!['-', '-', '>']) {
                    None => None,
                    Some(d) => match spec_read_num(s, spec_skip_space(s, d)) {
                        None => None,
                        Some((to, end)) => Some(((from, to, label), end)),
                    },
                }
            },
        },
    }
}

/// Reads moves as long as there are any, with white space between them.
pub open spec fn spec_read_all_transitions(s: Seq<char>, pos: nat, acc: Seq<Move>) -> Seq<Move>
    decreases s.len() - pos,
{
    match spec_read_transition(s, spec_skip_space(s, pos)) {
        None => acc,
        Some((m, end)) => if pos < end <= s.len() {
            spec_read_all_transitions(s, end, acc.push(m))
        } else {
            acc
        },
    }
}

/// What the text of an automaton holds.
pub struct NfaText {
    pub start_state: usize,
    pub end_states: Seq<usize>,
    pub num_states: usize,
    pub moves: Seq<Move>,
}

/// Reads the text of an automaton: the start state, the accepting states,
/// the number of states and the moves. What follows the last move is not
/// read.
pub open spec fn spec_read_nfa(s: Seq<char>) -> Option<NfaText> {
    match spec_read_label(s, 0, "start_state"@) {
        None => None,
        Some(a) => match spec_read_num(s, a) {
            None => None,
            Some((start_state, b)) => match spec_read_label(s, b, "end_states"@) {
                None => None,
                Some(c) => match spec_read_num_array(s, c) {
                    None => None,
                    Some((end_states, d)) => match spec_read_label(s, d, "num_states"@) {
                        None => None,
                        Some(e) => match spec_read_num(s, e) {
                            None => None,
                            Some((num_states, f)) => Some(
                                NfaText {
                                    start_state,
                                    end_states,
                                    num_states,
                                    moves: spec_read_all_transitions(s, f, Seq::empty()),
                                },
                            ),
                        },
                    },
                },
            },
        },
    }
}

/// The skipping of white space ends within the text, at or behind its
/// start.
pub proof fn lemma_skip_space(s: Seq<char>, pos: nat)
    requires
        pos <= s.len(),
    ensures
        pos <= spec_skip_space(s, pos) <= s.len(),
    decreases s.len() - pos,
{
    if pos < s.len() && is_space(s[pos as int]) {
        lemma_skip_space(s, pos + 1);
    }
}

/// The run of digits ends within the text, at or behind its start.
pub proof fn lemma_digits_end(s: Seq<char>, pos: nat)
    requires
        pos <= s.len(),
    ensures
        pos <= spec_digits_end(s, pos) <= s.len(),
        forall|i: int| pos <= i < spec_digits_end(s, pos) ==> is_digit(s[i]),
    decreases s.len() - pos,
{
    if pos < s.len() && is_digit(s[pos as int]) {
        lemma_digits_end(s, pos + 1);
    }
}

/// The value of a run of digits does not fall when the run gets longer.
pub proof fn lemma_digits_value_grows(s: Seq<char>, from: nat, mid: nat, to: nat)
    requires
        from <= mid <= to,
    ensures
        spec_digits_value(s, from, mid) <= spec_digits_value(s, from, to),
    decreases to - mid,
{
    if mid < to {
        lemma_digits_value_grows(s, from, mid, (to - 1) as nat);
    }
}

/// Moves the stream over white space.
pub fn skip_space(chars: &mut CharStream)
    requires
        old(chars).wf(),
    ensures
        final(chars).wf(),
        final(chars).chars == old(chars).chars,
        final(chars).pos == spec_skip_space(old(chars).chars@, old(chars).pos as nat),
        old(chars).pos <= final(chars).pos,
{
    while chars.pos < chars.chars.len() && (chars.chars[chars.pos] == ' '
        || chars.chars[chars.pos] == '\t' || chars.chars[chars.pos] == '\r'
        || chars.chars[chars.pos] == '\n')
        invariant
            chars.wf(),
            chars.chars == old(chars).chars,
            old(chars).pos <= chars.pos,
            spec_skip_space(chars.chars@, chars.pos as nat) == spec_skip_space(
                old(chars).chars@,
                old(chars).pos as nat,
            ),
        decreases chars.chars@.len() - chars.pos,
    {
        chars.pos = chars.pos + 1;
    }
}

/// The value of the digit `c`.
fn digit_of(c: char) -> (d: usize)
    requires
        is_digit(c),
    ensures
        d == digit_value(c),
        d < 10,
{
    (c as u32 - '0' as u32) as usize
}

/// Reads a number. Where there is none, or where it does not fit the
/// machine, the stream stays where it is.
pub fn read_num(chars: &mut CharStream) -> (r: Option<usize>)
    requires
        old(chars).wf(),
    ensures
        final(chars).wf(),
        final(chars).chars == old(chars).chars,
        match spec_read_num(old(chars).chars@, old(chars).pos as nat) {
            Some((value, end)) => r == Some(value) && final(chars).pos == end && old(chars).pos
                < end,
            None => r is None && final(chars).pos == old(chars).pos,
        },
{
    let ghost s = chars.chars@;
    let start = chars.pos;
    let mut value: usize = 0;
    let mut i: usize = start;
    proof {
        lemma_digits_end(s, start as nat);
    }
    while i < chars.chars.len() && '0' <= chars.chars[i] && chars.chars[i] <= '9'
        invariant
            chars.wf(),
            chars.chars == old(chars).chars,
            chars.pos == old(chars).pos,
            s == chars.chars@,
            start == chars.pos,
            start <= i <= s.len(),
            spec_digits_end(s, i as nat) == spec_digits_end(s, start as nat),
            value == spec_digits_value(s, start as nat, i as nat),
        decreases s.len() - i,
    {
        let d = digit_of(chars.chars[i]);
        if value > (usize::MAX - d) / 10 {
            proof {
                let end = spec_digits_end(s, start as nat);
                lemma_digits_end(s, i as nat + 1);
                assert(spec_digits_value(s, start as nat, i as nat + 1) > usize::MAX);
                lemma_digits_value_grows(s, start as nat, i as nat + 1, end);
            }
            return None;
        }
        value = value * 10 + d;
        i += 1;
    }
    if i == start {
        return None;
    }
    chars.pos = i;
    Some(value)
}

/// Reads the text `tag`. Where it does not stand there, the stream stays
/// where it is.
pub fn read_tag(chars: &mut CharStream, tag: &Vec<char>) -> (found: bool)
    requires
        old(chars).wf(),
    ensures
        final(chars).wf(),
        final(chars).chars == old(chars).chars,
        match spec_read_tag(old(chars).chars@, old(chars).pos as nat, tag@) {
            Some(end) => found && final(chars).pos == end,
            None => !found && final(chars).pos == old(chars).pos,
        },
        old(chars).pos <= final(chars).pos,
{
    let ghost s = chars.chars@;
    let start = chars.pos;
    if tag.len() > chars.chars.len() - start {
        return false;
    }
    let mut i: usize = 0;
    while i < tag.len()
        invariant
            chars.wf(),
            chars.chars == old(chars).chars,
            chars.pos == old(chars).pos,
            s == chars.chars@,
            start == chars.pos,
            start + tag@.len() <= s.len(),
            i <= tag@.len(),
            forall|k: int| 0 <= k < i ==> s[start + k] == tag@[k],
        decreases tag@.len() - i,
    {
        if chars.chars[start + i] != tag[i] {
            proof {
                let part = s.subrange(start as int, start + tag@.len());
                assert(part[i as int] == s[start + i]);
            }
            return false;
        }
        i += 1;
    }
    proof {
        assert(s.subrange(start as int, start + tag@.len()) =~= tag@);
    }
    chars.pos = start + tag.len();
    true
}

/// The characters of `text`.
pub fn chars_of(text: &str) -> (chars: Vec<char>)
    ensures
        chars@ == text@,
{
    CharStream::new(text).chars
}

/// Reads a label: white space, `label`, white space, a colon, white space.
/// Where it does not stand there, the stream stays where it is.
pub fn custom_label(chars: &mut CharStream, label: &str) -> (found: bool)
    requires
        old(chars).wf(),
    ensures
        final(chars).wf(),
        final(chars).chars == old(chars).chars,
        match spec_read_label(old(chars).chars@, old(chars).pos as nat, label@) {
            Some(end) => found && final(chars).pos == end,
            None => !found && final(chars).pos == old(chars).pos,
        },
{
    let start = chars.pos;
    skip_space(chars);
    let name = chars_of(label);
    if !read_tag(chars, &name) {
        chars.pos = start;
        return false;
    }
    skip_space(chars);
    let mut colon: Vec<char> = Vec::new();
    colon.push(':');
    assert(colon@ =~= seq![':']);
    if !read_tag(chars, &colon) {
        chars.pos = start;
        return false;
    }
    skip_space(chars);
    true
}

/// Reads a number with white space on both sides.
pub fn read_padded_num(chars: &mut CharStream) -> (r: Option<usize>)
    requires
        old(chars).wf(),
    ensures
        final(chars).wf(),
        final(chars).chars == old(chars).chars,
        match spec_read_padded_num(old(chars).chars@, old(chars).pos as nat) {
            Some((value, end)) => r == Some(value) && final(chars).pos == end && old(chars).pos
                < end,
            None => r is None && final(chars).pos == old(chars).pos,
        },
{
    let start = chars.pos;
    skip_space(chars);
    proof {
        lemma_skip_space(chars.chars@, start as nat);
    }
    match read_num(chars) {
        None => {
            chars.pos = start;
            None
        },
        Some(value) => {
            proof {
                lemma_skip_space(chars.chars@, chars.pos as nat);
            }
            skip_space(chars);
            Some(value)
        },
    }
}

/// The text of the one character `c`.
fn one_char(c: char) -> (tag: Vec<char>)
    ensures
        tag@ == seq![c],
{
    let mut tag: Vec<char> = Vec::new();
    tag.push(c);
    assert(tag@ =~= seq![c]);
    tag
}

/// Reads a list of numbers in square brackets, with commas between them.
pub fn read_num_array(chars: &mut CharStream) -> (r: Option<Vec<usize>>)
    requires
        old(chars).wf(),
    ensures
        final(chars).wf(),
        final(chars).chars == old(chars).chars,
        match spec_read_num_array(old(chars).chars@, old(chars).pos as nat) {
            Some((list, end)) => r is Some && r->Some_0@ == list && final(chars).pos == end,
            None => r is None && final(chars).pos == old(chars).pos,
        },
{
    let ghost s = chars.chars@;
    let start = chars.pos;
    if !read_tag(chars, &one_char('[')) {
        return None;
    }
    let ghost open = chars.pos as nat;
    let mut list: Vec<usize> = Vec::new();
    match read_padded_num(chars) {
        None => {},
        Some(value) => {
            list.push(value);
            assert(list@ =~= seq![value]);
            let ghost behind = chars.pos as nat;
            let ghost goal = spec_read_more_nums(s, behind, list@);
            let mut more = true;
            while more
                invariant
                    chars.wf(),
                    chars.chars == old(chars).chars,
                    s == chars.chars@,
                    more ==> spec_read_more_nums(s, chars.pos as nat, list@) == goal,
                    !more ==> (list@, chars.pos as nat) == goal,
                decreases
                        s.len() - chars.pos + if more {
                            1nat
                        } else {
                            0nat
                        },
            {
                let before = chars.pos;
                if !read_tag(chars, &one_char(',')) {
                    more = false;
                } else {
                    match read_padded_num(chars) {
                        None => {
                            chars.pos = before;
                            more = false;
                        },
                        Some(next) => {
                            list.push(next);
                        },
                    }
                }
            }
        },
    }
    if !read_tag(chars, &one_char(']')) {
        chars.pos = start;
        return None;
    }
    Some(list)
}

/// Reads the symbol of a move: white space and a letter or a digit between
/// two apostrophes.
pub fn read_char(chars: &mut CharStream) -> (r: Option<char>)
    requires
        old(chars).wf(),
    ensures
        final(chars).wf(),
        final(chars).chars == old(chars).chars,
        match spec_read_char(old(chars).chars@, old(chars).pos as nat) {
            Some((symbol, end)) => r == Some(symbol) && final(chars).pos == end,
            None => r is None && final(chars).pos == old(chars).pos,
        },
        old(chars).pos <= final(chars).pos,
{
    let start = chars.pos;
    skip_space(chars);
    proof {
        lemma_skip_space(chars.chars@, start as nat);
    }
    let at = chars.pos;
    if chars.chars.len() - at >= 3 && chars.chars[at] == '\'' && is_symbol_char(chars.chars[at + 1])
        && chars.chars[at + 2] == '\'' {
        chars.pos = at + 3;
        Some(chars.chars[at + 1])
    } else {
        chars.pos = start;
        None
    }
}

/// The text `--`.
fn dashes() -> (tag: Vec<char>)
    ensures
        tag@ == seq!['-', '-'],
{
    let mut tag: Vec<char> = Vec::new();
    tag.push('-');
    tag.push('-');
    assert(tag@ =~= seq!['-', '-']);
    tag
}

/// The text `-->`.
fn arrow() -> (tag: Vec<char>)
    ensures
        tag@ == seq!['-', '-', '>'],
{
    let mut tag = dashes();
    tag.push('>');
    assert(tag@ =~= seq!['-', '-', '>']);
    tag
}

/// Reads a move: the origin, two dashes, the symbol if there is one, an
/// arrow and the destination. The result holds origin, destination and
/// label; a move without a symbol gets the label `EPSILON`.
pub fn read_transiction(chars: &mut CharStream) -> (r: Option<(usize, usize, char)>)
    requires
        old(chars).wf(),
    ensures
        final(chars).wf(),
        final(chars).chars == old(chars).chars,
        match spec_read_transition(old(chars).chars@, old(chars).pos as nat) {
            Some((m, end)) => r == Some(m) && final(chars).pos == end && old(chars).pos < end,
            None => r is None && final(chars).pos == old(chars).pos,
        },
{
    let start = chars.pos;
    let from = match read_padded_num(chars) {
        Some(from) => from,
        None => {
            return None;
        },
    };
    if !read_tag(chars, &dashes()) {
        chars.pos = start;
        return None;
    }
    let label = match read_char(chars) {
        Some(symbol) => symbol,
        None => EPSILON,
    };
    proof {
        lemma_skip_space(chars.chars@, chars.pos as nat);
    }
    skip_space(chars);
    if !read_tag(chars, &arrow()) {
        chars.pos = start;
        return None;
    }
    proof {
        lemma_skip_space(chars.chars@, chars.pos as nat);
    }
    skip_space(chars);
    match read_num(chars) {
        Some(to) => Some((from, to, label)),
        None => {
            chars.pos = start;
            None
        },
    }
}

/// Reads moves as long as there are any, with white space between them.
/// The stream ends behind the last move.
pub fn read_all_transictions(chars: &mut CharStream) -> (moves: Vec<(usize, usize, char)>)
    requires
        old(chars).wf(),
    ensures
        final(chars).wf(),
        final(chars).chars == old(chars).chars,
        moves@ == spec_read_all_transitions(
            old(chars).chars@,
            old(chars).pos as nat,
            Seq::empty(),
        ),
{
    let ghost s = chars.chars@;
    let ghost goal = spec_read_all_transitions(s, chars.pos as nat, Seq::empty());
    let mut moves: Vec<(usize, usize, char)> = Vec::new();
    let mut more = true;
    while more
        invariant
            chars.wf(),
            chars.chars == old(chars).chars,
            s == chars.chars@,
            more ==> spec_read_all_transitions(s, chars.pos as nat, moves@) == goal,
            !more ==> moves@ == goal,
        decreases
                s.len() - chars.pos + if more {
                    1nat
                } else {
                    0nat
                },
    {
        let before = chars.pos;
        proof {
            lemma_skip_space(s, before as nat);
        }
        skip_space(chars);
        match read_transiction(chars) {
            None => {
                chars.pos = before;
                more = false;
            },
            Some(m) => {
                moves.push(m);
            },
        }
    }
    moves
}

/// Why a text is not the text of an automaton.
#[derive(Debug, Clone, Copy, PartialEq, Eq, Structural)]
pub enum NfaTextError {
    /// The text does not have the form of an automaton.
    Syntax,
    /// The origin of a move is no state.
    FromOutOfRange,
    /// The destination of a move is no state.
    ToOutOfRange,
    /// The start state is no state.
    StartOutOfRange,
    /// An accepting state is no state.
    EndOutOfRange,
}

impl NfaTextError {
    /// The text shown for this error.
    pub fn to_string(&self) -> (text: String)
        ensures
            text@ == match *self {
                NfaTextError::Syntax => "error while reading nfa"@,
                NfaTextError::FromOutOfRange => "from out of num_state"@,
                NfaTextError::ToOutOfRange => "to out of num_state"@,
                NfaTextError::StartOutOfRange => "start_state out of num_state"@,
                NfaTextError::EndOutOfRange => "end_states out of num_state"@,
            },
    {
        match self {
            NfaTextError::Syntax => String::from_str("error while reading nfa"),
            NfaTextError::FromOutOfRange => String::from_str("from out of num_state"),
            NfaTextError::ToOutOfRange => String::from_str("to out of num_state"),
            NfaTextError::StartOutOfRange => String::from_str("start_state out of num_state"),
            NfaTextError::EndOutOfRange => String::from_str("end_states out of num_state"),
        }
    }
}

/// The first fault of the moves from `at` on: an origin or a destination
/// that is no state.
pub open spec fn moves_fault(moves: Seq<Move>, num_states: usize, at: int) -> Option<NfaTextError>
    decreases moves.len() - at,
{
    if at < 0 || at >= moves.len() {
        None
    } else if moves[at].0 >= num_states {
        Some(NfaTextError::FromOutOfRange)
    } else if moves[at].1 >= num_states {
        Some(NfaTextError::ToOutOfRange)
    } else {
        moves_fault(moves, num_states, at + 1)
    }
}

/// The fault of what a text holds, if it has one: first that of its moves,
/// then a start state or an accepting state that is no state.
pub open spec fn text_fault(text: NfaText) -> Option<NfaTextError> {
    match moves_fault(text.moves, text.num_states, 0) {
        Some(fault) => Some(fault),
        None => if text.start_state >= text.num_states {
            Some(NfaTextError::StartOutOfRange)
        } else if exists|i: int|
            0 <= i < text.end_states.len() && text.end_states[i] >= text.num_states {
            Some(NfaTextError::EndOutOfRange)
        } else {
            None
        },
    }
}

/// The moves out of `state`, in the order of `moves`, each with its label
/// and its destination.
pub open spec fn moves_of(moves: Seq<Move>, state: usize) -> Seq<(char, usize)> {
    moves.filter(leaves(state)).map_values(|m: Move| (m.2, m.1))
}

/// Whether a move leaves `state`.
pub open spec fn leaves(state: usize) -> spec_fn(Move) -> bool {
    |m: Move| m.0 == state
}

/// The letters and digits of ASCII.
pub fn symbols() -> (set: CharSet)
    ensures
        set.wf(),
        forall|c: char| set@.contains(c) <==> is_symbol(c),
{
    let mut set = CharSet::new();
    let text = chars_of("abcdefghijklmnopqrstuvwxyzABCDEFGHIJKLMNOPQRSTUVWXYZ1234567890");
    proof {
        reveal_strlit("abcdefghijklmnopqrstuvwxyzABCDEFGHIJKLMNOPQRSTUVWXYZ1234567890");
    }
    let mut i: usize = 0;
    while i < text.len()
        invariant
            i <= text@.len(),
            set.wf(),
            forall|c: char| set@.contains(c) <==> text@.subrange(0, i as int).contains(c),
        decreases text@.len() - i,
    {
        let ghost before = set@;
        let ghost head = text@.subrange(0, i as int);
        let _ = set.insert(text[i]);
        proof {
            let longer = text@.subrange(0, i as int + 1);
            assert forall|c: char| set@.contains(c) <==> longer.contains(c) by {
                if longer.contains(c) {
                    let k = choose|k: int| 0 <= k < longer.len() && longer[k] == c;
                    if k < i {
                        assert(head[k] == c);
                    }
                }
                if head.contains(c) {
                    let k = choose|k: int| 0 <= k < head.len() && head[k] == c;
                    assert(longer[k] == c);
                }
                assert(longer[i as int] == text@[i as int]);
            }
        }
        i += 1;
    }
    proof {
        assert(text@.subrange(0, i as int) == text@);
        lemma_symbols(text@);
    }
    set
}

/// The text of the letters and digits holds the symbols and nothing else.
proof fn lemma_symbols(text: Seq<char>)
    requires
        text == "abcdefghijklmnopqrstuvwxyzABCDEFGHIJKLMNOPQRSTUVWXYZ1234567890"@,
    ensures
        forall|c: char| text.contains(c) <==> is_symbol(c),
{
    reveal_strlit("abcdefghijklmnopqrstuvwxyzABCDEFGHIJKLMNOPQRSTUVWXYZ1234567890");
    assert forall|c: char| is_symbol(c) implies text.contains(c) by {
        if 'a' <= c && c <= 'z' {
            let k = c as int - 'a' as int;
            assert(text[k] == c);
        } else if 'A' <= c && c <= 'Z' {
            let k = 26 + c as int - 'A' as int;
            assert(text[k] == c);
        } else if c == '0' {
            assert(text[61] == c);
        } else {
            let k = 52 + c as int - '1' as int;
            assert(text[k] == c);
        }
    }
    assert forall|c: char| text.contains(c) implies is_symbol(c) by {
        let k = choose|k: int| 0 <= k < text.len() && text[k] == c;
        assert(is_symbol(text[k]));
    }
}

impl NFA {
    /// Whether the automaton is the one that the text `read` describes:
    /// the states and the moves are those of the text, the moves of each
    /// state in their order, and the alphabet is made of the letters and
    /// digits.
    pub open spec fn is_read_from(&self, read: NfaText) -> bool {
        &&& self.start_state == read.start_state
        &&& self.num_states == read.num_states
        &&& self.end_states@ == read.end_states
        &&& self.transitions@.len() == read.num_states
        &&& forall|q: int|
            0 <= q < read.num_states ==> (#[trigger] self.transitions@[q])@ == moves_of(
                read.moves,
                q as usize,
            )
        &&& forall|c: char| self.used_alphabet@.contains(c) <==> is_symbol(c)
    }

    /// Reads the text of an automaton: `start_state:` and a number,
    /// `end_states:` and a list of numbers in square brackets, `num_states:`
    /// and a number, then the moves, each as `FROM -- 'c' --> TO`, or
    /// `FROM ----> TO` for a move that reads nothing. Every state that is
    /// named must be below the number of states. The alphabet is made of
    /// all the letters and digits.
    pub fn from_text(text: &str) -> (r: Result<NFA, NfaTextError>)
        ensures
            match spec_read_nfa(text@) {
                None => r == Err::<NFA, NfaTextError>(NfaTextError::Syntax),
                Some(read) => match text_fault(read) {
                    Some(fault) => r == Err::<NFA, NfaTextError>(fault),
                    None => r is Ok && r->Ok_0.wf() && r->Ok_0.is_read_from(read),
                },
            },
    {
        let mut chars = CharStream::new(text);
        if !custom_label(&mut chars, "start_state") {
            return Err(NfaTextError::Syntax);
        }
        let start_state = match read_num(&mut chars) {
            Some(n) => n,
            None => {
                return Err(NfaTextError::Syntax);
            },
        };
        if !custom_label(&mut chars, "end_states") {
            return Err(NfaTextError::Syntax);
        }
        let end_states = match read_num_array(&mut chars) {
            Some(list) => list,
            None => {
                return Err(NfaTextError::Syntax);
            },
        };
        if !custom_label(&mut chars, "num_states") {
            return Err(NfaTextError::Syntax);
        }
        let num_states = match read_num(&mut chars) {
            Some(n) => n,
            None => {
                return Err(NfaTextError::Syntax);
            },
        };
        let all_transitions = read_all_transictions(&mut chars);
        let ghost moves = all_transitions@;
        let ghost read = NfaText { start_state, end_states: end_states@, num_states, moves };
        assert(spec_read_nfa(text@) == Some(read));

        let mut transitions: Vec<Vec<(char, usize)>> = Vec::new();
        let mut q: usize = 0;
        while q < num_states
            invariant
                q <= num_states,
                transitions@.len() == q,
                forall|k: int| 0 <= k < q ==> (#[trigger] transitions@[k])@.len() == 0,
            decreases num_states - q,
        {
            transitions.push(Vec::new());
            q += 1;
        }
        proof {
            assert forall|k: int| 0 <= k < num_states implies (#[trigger] transitions@[k])@
                == moves_of(moves.subrange(0, 0), k as usize) by {
                reveal(Seq::filter);
                assert(moves_of(moves.subrange(0, 0), k as usize) =~= Seq::empty());
            }
        }
        let mut i: usize = 0;
        while i < all_transitions.len()
            invariant
                spec_read_nfa(text@) == Some(read),
                read == (NfaText { start_state, end_states: end_states@, num_states, moves }),
                moves == all_transitions@,
                i <= moves.len(),
                transitions@.len() == num_states,
                moves_fault(moves, num_states, i as int) == moves_fault(moves, num_states, 0),
                forall|k: int| 0 <= k < i ==> (#[trigger] moves[k]).0 < num_states && moves[k].1
                    < num_states,
                forall|k: int|
                    0 <= k < num_states ==> (#[trigger] transitions@[k])@ == moves_of(
                        moves.subrange(0, i as int),
                        k as usize,
                    ),
            decreases moves.len() - i,
        {
            let (from, to, ch) = all_transitions[i];
            if from >= num_states {
                return Err(NfaTextError::FromOutOfRange);
            } else if to >= num_states {
                return Err(NfaTextError::ToOutOfRange);
            }
            let ghost before = transitions@;
            transitions[from].push((ch, to));
            proof {
                let head = moves.subrange(0, i as int);
                let longer = moves.subrange(0, i as int + 1);
                assert(longer.drop_last() == head);
                assert(longer.last() == moves[i as int]);
                assert forall|k: int| 0 <= k < num_states implies (#[trigger] transitions@[k])@
                    == moves_of(longer, k as usize) by {
                    reveal(Seq::filter);
                    let keep = leaves(k as usize);
                    if k == from {
                        assert(longer.filter(keep) == head.filter(keep).push(moves[i as int]));
                        assert(moves_of(longer, k as usize) =~= moves_of(head, k as usize).push(
                            (ch, to),
                        ));
                        assert(before[k]@ == moves_of(head, k as usize));
                    } else {
                        assert(longer.filter(keep) == head.filter(keep));
                        assert(transitions@[k] == before[k]);
                    }
                }
            }
            i += 1;
        }
        proof {
            assert(moves.subrange(0, i as int) == moves);
        }
        if start_state >= num_states {
            return Err(NfaTextError::StartOutOfRange);
        }
        let mut e: usize = 0;
        while e < end_states.len()
            invariant
                spec_read_nfa(text@) == Some(read),
                read == (NfaText { start_state, end_states: end_states@, num_states, moves }),
                moves_fault(moves, num_states, 0) is None,
                start_state < num_states,
                e <= end_states@.len(),
                forall|k: int| 0 <= k < e ==> end_states@[k] < num_states,
            decreases end_states@.len() - e,
        {
            if end_states[e] >= num_states {
                assert(read.end_states[e as int] >= read.num_states);
                return Err(NfaTextError::EndOutOfRange);
            }
            e += 1;
        }
        let used_alphabet = symbols();
        let nfa = NFA { start_state, num_states, end_states, transitions, used_alphabet };
        proof {
            assert forall|q: int, k: int|
                0 <= q < nfa.transitions@.len() && 0 <= k < nfa.transitions@[q]@.len() implies (
            #[trigger] nfa.transitions@[q]@[k]).1 < nfa.num_states by {
                lemma_moves_of(moves, q as usize, k);
            }
        }
        Ok(nfa)
    }
}

/// A move out of `state` is one of `moves`.
pub proof fn lemma_moves_of(moves: Seq<Move>, state: usize, k: int)
    requires
        0 <= k < moves_of(moves, state).len(),
    ensures
        exists|i: int|
            0 <= i < moves.len() && (#[trigger] moves[i]).1 == moves_of(moves, state)[k].1,
{
    let keep = leaves(state);
    let kept = moves.filter(keep);
    assert(moves_of(moves, state).len() == kept.len());
    assert(kept.contains(kept[k]));
    moves.lemma_filter_contains_rev(keep, kept[k]);
    let i = choose|i: int| 0 <= i < moves.len() && moves[i] == kept[k];
    assert(moves[i].1 == moves_of(moves, state)[k].1);
}

} // verus!
