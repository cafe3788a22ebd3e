//! The objects of a session: a regular expression and the automata made
//! from it, each one made from the one before.
use vstd::prelude::*;
use crate::dfa::DFA;
use crate::error::{ParseError, ParseFailure};
use crate::graph::Graph;
use crate::nfa::NFA;
use crate::nfa_text::{spec_read_nfa, text_fault, NfaTextError};
use crate::regular_expression::{spec_from_string, spec_size, ReOperator};
use crate::subset::NfaStates;

verus! {

/// A regular expression, its nondeterministic automaton, the deterministic
/// automaton of that and its minimal automaton, as far as they were made.
#[derive(Debug)]
pub struct RegularGrammarObjects {
    pub regular_expression: Option<ReOperator>,
    pub nfa: Option<NFA>,
    pub dfa: Option<DFA<NfaStates>>,
    pub min_dfa: Option<DFA<NfaStates>>,
}

/// Why an object cannot be made.
#[derive(Debug, Clone, Copy, PartialEq, Eq, Structural)]
pub enum Missing {
    /// There is no regular expression yet.
    RegularExpression,
    /// There is no nondeterministic automaton yet.
    Nfa,
    /// There is no deterministic automaton yet.
    Dfa,
    /// The regular expression has too many nodes for this machine.
    TooLarge,
}

impl RegularGrammarObjects {
    /// The automata that are there are well formed, and the deterministic
    /// ones have a move on every symbol.
    pub open spec fn wf(&self) -> bool {
        &&& self.nfa matches Some(nfa) ==> nfa.wf()
        &&& self.dfa matches Some(dfa) ==> dfa.wf() && dfa.total()
        &&& self.min_dfa matches Some(dfa) ==> dfa.wf() && dfa.total()
    }

    /// A session in which nothing was made yet.
    pub fn new() -> (objects: Self)
        ensures
            objects.wf(),
            objects.regular_expression is None,
            objects.nfa is None,
            objects.dfa is None,
            objects.min_dfa is None,
    {
        Self { regular_expression: None, nfa: None, dfa: None, min_dfa: None }
    }

    /// Parses `input` and keeps the regular expression. The result is the
    /// graph of its tree. Where `input` is no regular expression, nothing
    /// changes.
    pub fn from_input(&mut self, input: &String) -> (r: Result<Graph, ParseError>)
        ensures
            final(self).nfa == old(self).nfa,
            final(self).dfa == old(self).dfa,
            final(self).min_dfa == old(self).min_dfa,
            match spec_from_string(input@) {
                Ok(tree) => r is Ok && final(self).regular_expression == Some(tree)
                    && r->Ok_0.wf() && tree.is_graph(&r->Ok_0),
                Err(failure) => r is Err && r->Err_0@ == failure && final(self).regular_expression == old(self).regular_expression,
            },
    {
        match ReOperator::from_string(input) {
            Ok(tree) => {
                let graph = tree.into_graph();
                self.regular_expression = Some(tree);
                Ok(graph)
            },
            Err(e) => Err(e),
        }
    }

    /// Reads the text of a nondeterministic automaton and keeps the
    /// automaton. The result is its graph. Where `input` is no such text,
    /// nothing changes.
    pub fn from_input_text(&mut self, input: &String) -> (r: Result<Graph, NfaTextError>)
        requires
            old(self).wf(),
        ensures
            final(self).wf(),
            final(self).regular_expression == old(self).regular_expression,
            final(self).dfa == old(self).dfa,
            final(self).min_dfa == old(self).min_dfa,
            r is Ok <==> spec_read_nfa(input@) is Some && text_fault(
                spec_read_nfa(input@)->Some_0,
            ) is None,
            r is Ok ==> final(self).nfa is Some && r->Ok_0.wf()
                && final(self).nfa->Some_0.is_graph(&r->Ok_0)
                && final(self).nfa->Some_0.is_read_from(spec_read_nfa(input@)->Some_0),
            r is Err ==> final(self).nfa == old(self).nfa,
            r matches Err(e) ==> (spec_read_nfa(input@) is None && e == NfaTextError::Syntax) || (
            spec_read_nfa(input@) is Some && text_fault(spec_read_nfa(input@)->Some_0) == Some(e)),
    {
        match NFA::from_text(input.as_str()) {
            Ok(nfa) => {
                let graph = nfa.into_graph();
                self.nfa = Some(nfa);
                Ok(graph)
            },
            Err(e) => Err(e),
        }
    }

    /// Makes the nondeterministic automaton of the regular expression and
    /// keeps it. The result is its graph.
    pub fn from_regular_expression(&mut self) -> (r: Result<Graph, Missing>)
        requires
            old(self).wf(),
        ensures
            final(self).wf(),
            final(self).regular_expression == old(self).regular_expression,
            final(self).dfa == old(self).dfa,
            final(self).min_dfa == old(self).min_dfa,
            match old(self).regular_expression {
                None => r == Err::<Graph, Missing>(Missing::RegularExpression) && final(self).nfa
                    == old(self).nfa,
                Some(tree) => if 2 * spec_size(tree) <= usize::MAX {
                    r is Ok && final(self).nfa is Some && final(self).nfa->Some_0.is_thompson_of(
                        tree,
                    ) && r->Ok_0.wf() && final(self).nfa->Some_0.is_graph(&r->Ok_0)
                } else {
                    r == Err::<Graph, Missing>(Missing::TooLarge) && final(self).nfa == old(self).nfa
                },
            },
    {
        let nfa = match &self.regular_expression {
            None => {
                return Err(Missing::RegularExpression);
            },
            Some(tree) => {
                match tree.size() {
                    Some(size) => {
                        if size > usize::MAX / 2 {
                            return Err(Missing::TooLarge);
                        }
                        NFA::from_regex(tree)
                    },
                    None => {
                        return Err(Missing::TooLarge);
                    },
                }
            },
        };
        let graph = nfa.into_graph();
        self.nfa = Some(nfa);
        Ok(graph)
    }

    /// Makes the deterministic automaton of the nondeterministic one and
    /// keeps it. The result is its graph.
    pub fn from_nfa(&mut self) -> (r: Result<Graph, Missing>)
        requires
            old(self).wf(),
        ensures
            final(self).wf(),
            final(self).regular_expression == old(self).regular_expression,
            final(self).nfa == old(self).nfa,
            final(self).min_dfa == old(self).min_dfa,
            match old(self).nfa {
                None => r == Err::<Graph, Missing>(Missing::Nfa) && final(self).dfa
                    == old(self).dfa,
                Some(nfa) => r is Ok && final(self).dfa is Some
                    && final(self).dfa->Some_0.is_subset_construction_of(&nfa) && r->Ok_0.wf()
                    && final(self).dfa->Some_0.is_graph(&r->Ok_0),
            },
    {
        let dfa = match &self.nfa {
            None => {
                return Err(Missing::Nfa);
            },
            Some(nfa) => DFA::from_nfa(nfa),
        };
        let graph = dfa.into_graph();
        self.dfa = Some(dfa);
        Ok(graph)
    }

    /// Makes the minimal automaton of the deterministic one and keeps it.
    /// The result is its graph.
    pub fn from_dfa(&mut self) -> (r: Result<Graph, Missing>)
        requires
            old(self).wf(),
        ensures
            final(self).wf(),
            final(self).regular_expression == old(self).regular_expression,
            final(self).nfa == old(self).nfa,
            final(self).dfa == old(self).dfa,
            match old(self).dfa {
                None => r == Err::<Graph, Missing>(Missing::Dfa) && final(self).min_dfa
                    == old(self).min_dfa,
                Some(dfa) => r is Ok && final(self).min_dfa is Some
                    && final(self).min_dfa->Some_0.is_minimization_of(&dfa) && r->Ok_0.wf()
                    && final(self).min_dfa->Some_0.is_graph(&r->Ok_0),
            },
    {
        let minimized = match &self.dfa {
            None => {
                return Err(Missing::Dfa);
            },
            Some(dfa) => dfa.get_minimized_dfa(),
        };
        let graph = minimized.into_graph();
        self.min_dfa = Some(minimized);
        Ok(graph)
    }
}

} // verus!
