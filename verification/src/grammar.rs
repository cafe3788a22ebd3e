//! Context-free grammars: their productions, the grammar of a deterministic
//! automaton, and the analysis of a grammar.
pub mod first_follow;
pub mod item;
pub mod production;
pub mod simplification;

use vstd::prelude::*;
use crate::consts::{NonTerminal, EPSILON};
use crate::dfa::DFA;
use crate::grammar::production::{production_seq, Letter, Production, Rule};
use crate::index_set::IndexSet;

verus! {

/// A grammar: the productions in their order, and the nonterminal to start
/// from. `nullable` may hold the nonterminals that derive the empty word; it
/// is emptied whenever the productions change.
#[derive(Debug, PartialEq)]
pub struct Grammar {
    pub start_symbol: NonTerminal,
    pub productions: Vec<Production>,
    pub nullable: Option<IndexSet>,
}

/// The productions of the moves of the states from `from` on, of which
/// those of `from` start at its move `at`: for a move from `q` on `c` to `d`
/// the production `q -> c d`.
pub open spec fn move_productions(
    transitions: Seq<Vec<(char, usize)>>,
    from: int,
    at: int,
) -> Seq<Rule>
    decreases transitions.len() - from, transitions[from]@.len() - at,
{
    if from < 0 || from >= transitions.len() || at < 0 {
        Seq::empty()
    } else if at >= transitions[from]@.len() {
        move_productions(transitions, from + 1, 0)
    } else {
        seq![
            (
                from as usize,
                seq![
                    Letter::Terminal(transitions[from]@[at].0),
                    Letter::NonTerminal(transitions[from]@[at].1),
                ],
            ),
        ] + move_productions(transitions, from, at + 1)
    }
}

/// For each accepting state, in their order, the production of the empty
/// word.
pub open spec fn final_productions(end_states: Seq<usize>) -> Seq<Rule> {
    end_states.map_values(|q: usize| (q, seq![Letter::Terminal(EPSILON)]))
}

impl Grammar {
    /// The productions as mathematical values.
    pub open spec fn rules(&self) -> Seq<Rule> {
        production_seq(self.productions@)
    }

    /// The grammar with the given start and productions.
    pub fn new(start_symbol: NonTerminal, productions: Vec<Production>) -> (grammar: Self)
        ensures
            grammar.start_symbol == start_symbol,
            grammar.productions == productions,
            grammar.nullable is None,
    {
        Grammar { start_symbol, productions, nullable: None }
    }

    pub fn get_start_symbol(&self) -> (start: NonTerminal)
        ensures
            start == self.start_symbol,
    {
        self.start_symbol
    }

    pub fn get_productions(&self) -> (productions: &Vec<Production>)
        ensures
            productions == self.productions,
    {
        &self.productions
    }

    /// The right-linear grammar of the automaton `dfa`: a nonterminal for
    /// each state, a production `q -> c d` for each move from `q` on `c` to
    /// `d`, in the order of the states and of their moves, then a production
    /// of the empty word for each accepting state. The start symbol is the
    /// start state.
    pub fn from_dfa<T>(dfa: &DFA<T>) -> (grammar: Self)
        ensures
            grammar.start_symbol == dfa.start_state,
            grammar.rules() == move_productions(dfa.transitions@, 0, 0) + final_productions(
                dfa.end_states@,
            ),
            grammar.nullable is None,
    {
        let mut productions: Vec<Production> = Vec::new();
        let transitions = dfa.get_transitions();
        let mut idx: usize = 0;
        while idx < transitions.len()
            invariant
                transitions == dfa.transitions,
                idx <= transitions@.len(),
                production_seq(productions@) + move_productions(transitions@, idx as int, 0)
                    == move_productions(transitions@, 0, 0),
            decreases transitions@.len() - idx,
        {
            let mut at: usize = 0;
            while at < transitions[idx].len()
                invariant
                    transitions == dfa.transitions,
                    idx < transitions@.len(),
                    at <= transitions@[idx as int]@.len(),
                    production_seq(productions@) + move_productions(
                        transitions@,
                        idx as int,
                        at as int,
                    ) == move_productions(transitions@, 0, 0),
                decreases transitions@[idx as int]@.len() - at,
            {
                let (transition_ch, dest) = transitions[idx][at];
                let ghost before = production_seq(productions@);
                productions.push(move_production(idx, transition_ch, dest));
                proof {
                    let added = (
                        idx,
                        seq![Letter::Terminal(transition_ch), Letter::NonTerminal(dest)],
                    );
                    assert(production_seq(productions@) =~= before.push(added));
                    assert(before.push(added) + move_productions(
                        transitions@,
                        idx as int,
                        at as int + 1,
                    ) =~= before + (seq![added] + move_productions(
                        transitions@,
                        idx as int,
                        at as int + 1,
                    )));
                }
                at += 1;
            }
            idx += 1;
        }
        proof {
            assert(move_productions(transitions@, idx as int, 0) =~= Seq::empty());
            assert(production_seq(productions@) =~= move_productions(transitions@, 0, 0));
        }
        let ghost moves = production_seq(productions@);
        let end_states = dfa.get_end_states();
        let mut i: usize = 0;
        while i < end_states.len()
            invariant
                end_states == dfa.end_states,
                i <= end_states@.len(),
                production_seq(productions@) == moves + final_productions(
                    end_states@.subrange(0, i as int),
                ),
            decreases end_states@.len() - i,
        {
            let ghost before = production_seq(productions@);
            productions.push(empty_production(end_states[i]));
            proof {
                let added = (end_states@[i as int], seq![Letter::Terminal(EPSILON)]);
                assert(production_seq(productions@) =~= before.push(added));
                assert(final_productions(end_states@.subrange(0, i as int + 1))
                    =~= final_productions(end_states@.subrange(0, i as int)).push(added));
                assert(before.push(added) =~= moves + final_productions(
                    end_states@.subrange(0, i as int + 1),
                ));
            }
            i += 1;
        }
        assert(end_states@.subrange(0, i as int) == end_states@);
        Self { start_symbol: dfa.get_start_state(), productions, nullable: None }
    }
}

/// The production `from -> symbol to` of a move.
fn move_production(from: usize, symbol: char, to: usize) -> (p: Production)
    ensures
        p@ == (from, seq![Letter::Terminal(symbol), Letter::NonTerminal(to)]),
{
    let mut rhs: Vec<Letter> = Vec::new();
    rhs.push(Letter::Terminal(symbol));
    rhs.push(Letter::NonTerminal(to));
    assert(rhs@ =~= seq![Letter::Terminal(symbol), Letter::NonTerminal(to)]);
    Production { lhs: from, rhs }
}

/// The production of the empty word for `state`.
fn empty_production(state: usize) -> (p: Production)
    ensures
        p@ == (state, seq![Letter::Terminal(EPSILON)]),
{
    let mut rhs: Vec<Letter> = Vec::new();
    rhs.push(Letter::Terminal(EPSILON));
    assert(rhs@ =~= seq![Letter::Terminal(EPSILON)]);
    Production { lhs: state, rhs }
}

} // verus!
