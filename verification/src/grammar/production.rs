//! The symbols and the productions of a grammar.
use vstd::prelude::*;
use crate::consts::{NonTerminal, Terminal, EPSILON};
use crate::index_set::IndexSet;

verus! {

/// A symbol of a grammar.
#[derive(Debug, PartialEq, Eq, Structural, Clone, Copy, PartialOrd, Ord)]
pub enum Letter {
    NonTerminal(NonTerminal),
    Terminal(Terminal),
}

/// A production: `lhs` may be rewritten to the symbols of `rhs`. The empty
/// word is written as the one terminal `EPSILON`.
#[derive(Debug, Clone, PartialEq, Eq, PartialOrd, Ord)]
pub struct Production {
    pub lhs: NonTerminal,
    pub rhs: Vec<Letter>,
}

impl View for Production {
    type V = (NonTerminal, Seq<Letter>);

    open spec fn view(&self) -> (NonTerminal, Seq<Letter>) {
        (self.lhs, self.rhs@)
    }
}

/// A production as a mathematical value: the left-hand side and the letters
/// of the right-hand side.
pub type Rule = (NonTerminal, Seq<Letter>);

/// The productions as mathematical values.
pub open spec fn production_seq(productions: Seq<Production>) -> Seq<Rule> {
    productions.map_values(|p: Production| p@)
}

/// Whether `letter` is allowed in a right-hand side all of whose nonterminals
/// must be in `set`: a nonterminal of `set`, or a terminal, which must be the
/// empty word unless `any_terminal` holds.
pub open spec fn letter_within(letter: Letter, set: Set<usize>, any_terminal: bool) -> bool {
    match letter {
        Letter::NonTerminal(n) => set.contains(n),
        Letter::Terminal(c) => any_terminal || c == EPSILON,
    }
}

/// Whether every letter of `rhs` is allowed, see `letter_within`.
pub open spec fn letters_within(rhs: Seq<Letter>, set: Set<usize>, any_terminal: bool) -> bool {
    forall|i: int| 0 <= i < rhs.len() ==> letter_within(#[trigger] rhs[i], set, any_terminal)
}

/// Whether `rhs` is a single nonterminal: the right-hand side of a unit
/// production.
pub open spec fn is_unit(rhs: Seq<Letter>) -> bool {
    rhs.len() == 1 && rhs[0] is NonTerminal
}

/// Whether every nonterminal of `rhs` is in `set`.
pub fn letters_are_within(rhs: &Vec<Letter>, set: &IndexSet, any_terminal: bool) -> (b: bool)
    requires
        set.wf(),
    ensures
        b == letters_within(rhs@, set@, any_terminal),
{
    let mut i: usize = 0;
    while i < rhs.len()
        invariant
            set.wf(),
            i <= rhs@.len(),
            forall|k: int| 0 <= k < i ==> letter_within(#[trigger] rhs@[k], set@, any_terminal),
        decreases rhs@.len() - i,
    {
        let ok = match rhs[i] {
            Letter::NonTerminal(n) => set.contains(n),
            Letter::Terminal(c) => any_terminal || c == EPSILON,
        };
        if !ok {
            return false;
        }
        i += 1;
    }
    true
}

/// Whether the two right-hand sides are equal.
pub fn same_letters(a: &Vec<Letter>, b: &Vec<Letter>) -> (same: bool)
    ensures
        same == (a@ == b@),
{
    if a.len() != b.len() {
        return false;
    }
    let mut i: usize = 0;
    while i < a.len()
        invariant
            a@.len() == b@.len(),
            i <= a@.len(),
            forall|k: int| 0 <= k < i ==> a@[k] == b@[k],
        decreases a@.len() - i,
    {
        if a[i] != b[i] {
            return false;
        }
        i += 1;
    }
    assert(a@ =~= b@);
    true
}

/// A copy of the letters.
pub fn copy_letters(letters: &Vec<Letter>) -> (copy: Vec<Letter>)
    ensures
        copy@ == letters@,
{
    let mut copy: Vec<Letter> = Vec::new();
    let mut i: usize = 0;
    while i < letters.len()
        invariant
            i <= letters@.len(),
            copy@ == letters@.subrange(0, i as int),
        decreases letters@.len() - i,
    {
        copy.push(letters[i]);
        assert(copy@ == letters@.subrange(0, i as int + 1));
        i += 1;
    }
    assert(letters@.subrange(0, i as int) == letters@);
    copy
}

impl Production {
    /// The `n`-th letter, if there is one and it is a nonterminal.
    pub fn get_nth_if_non_terminal(letters: &Vec<Letter>, n: usize) -> (r: Option<NonTerminal>)
        ensures
            r == if n < letters@.len() && letters@[n as int] is NonTerminal {
                Some(letters@[n as int]->NonTerminal_0)
            } else {
                None::<NonTerminal>
            },
    {
        if n >= letters.len() {
            return None;
        }
        match letters[n] {
            Letter::NonTerminal(idx) => Some(idx),
            _ => None,
        }
    }

    /// The `n`-th letter, if there is one.
    pub fn get_nth(letters: &Vec<Letter>, n: usize) -> (r: Option<Letter>)
        ensures
            r == if n < letters@.len() {
                Some(letters@[n as int])
            } else {
                None::<Letter>
            },
    {
        if n >= letters.len() {
            return None;
        }
        Some(letters[n])
    }

    /// Whether the right-hand side derives the empty word, given that the
    /// nonterminals of `nullable` do: every letter is one of them or the
    /// empty word.
    pub fn check_is_nullable(&self, nullable: &IndexSet) -> (b: bool)
        requires
            nullable.wf(),
        ensures
            b == letters_within(self.rhs@, nullable@, false),
    {
        letters_are_within(&self.rhs, nullable, false)
    }

    /// A copy of the production.
    pub fn duplicate(&self) -> (copy: Self)
        ensures
            copy@ == self@,
    {
        Production { lhs: self.lhs, rhs: copy_letters(&self.rhs) }
    }
}

} // verus!
