//! Nondeterministic finite automata with moves on the empty word, and their
//! construction from regular expressions.
use vstd::prelude::*;
use crate::char_set::CharSet;
use crate::consts::EPSILON;
use crate::regular_expression::{spec_size, ReOperator};
use crate::state_set::{
    ascending, bits_set, bits_to_states, count_false, lemma_count_false_set, list_set,
    states_to_bits,
};

verus! {

/// A nondeterministic finite automaton. Its states are the numbers below
/// `num_states`; `transitions[q]` lists the moves out of `q`, each with its
/// label and its destination. A move labelled `EPSILON` reads nothing.
#[derive(Debug)]
pub struct NFA {
    pub start_state: usize,
    pub num_states: usize,
    pub end_states: Vec<usize>,
    pub transitions: Vec<Vec<(char, usize)>>,
    /// The symbols that label a move: the alphabet in use.
    pub used_alphabet: CharSet,
}

/// States, labelled moves and alphabet: what a construction has built so far.
pub struct Automaton {
    pub num_states: nat,
    pub edges: Set<(nat, char, nat)>,
    pub alphabet: Set<char>,
}

/// A part of an automaton that reads one expression on the way from `start`
/// to `end`.
pub struct Fragment {
    pub automaton: Automaton,
    pub start: nat,
    pub end: nat,
}

/// `a` with one more state, which gets the next free number.
pub open spec fn with_state(a: Automaton) -> Automaton {
    Automaton { num_states: a.num_states + 1, ..a }
}

/// `a` with one more move.
pub open spec fn with_edge(a: Automaton, from: nat, label: char, to: nat) -> Automaton {
    Automaton { edges: a.edges.insert((from, label, to)), ..a }
}

/// The first state of a new fragment: `first` where one is given, else a new
/// state.
pub open spec fn fragment_start(a: Automaton, first: Option<nat>) -> nat {
    match first {
        Some(start) => start,
        None => a.num_states,
    }
}

/// `a` with the first and the last state of a new fragment: the first one is
/// `first` where one is given. The last state is the highest one.
pub open spec fn with_start_end(a: Automaton, first: Option<nat>) -> Automaton {
    match first {
        Some(_) => with_state(a),
        None => with_state(with_state(a)),
    }
}

/// Thompson's construction: the fragment for `regex`, added to `a`. Where
/// `first` is given, the fragment starts in that state.
///
/// - A symbol gets two states and a move between them on that symbol.
/// - A concatenation builds the left part and then the right part, which
///   starts where the left one ends.
/// - An alternation gets two states of its own: the first one moves on the
///   empty word to the start of both parts, and the end of both moves to the
///   second.
/// - A repetition gets two states of its own: from the first the empty word
///   leads to the second and to the start of the inner part, from the end of
///   the inner part back to its start and on to the second.
pub open spec fn spec_thompson(a: Automaton, regex: ReOperator, first: Option<nat>) -> Fragment
    decreases regex,
{
    match regex {
        ReOperator::Char(c) => {
            let start = fragment_start(a, first);
            let b = with_start_end(a, first);
            let end = (b.num_states - 1) as nat;
            Fragment {
                automaton: Automaton {
                    alphabet: b.alphabet.insert(c),
                    ..with_edge(b, start, c, end)
                },
                start,
                end,
            }
        },
        ReOperator::Concat(left, right) => {
            let l = spec_thompson(a, *left, first);
            let r = spec_thompson(l.automaton, *right, Some(l.end));
            Fragment { automaton: r.automaton, start: l.start, end: r.end }
        },
        ReOperator::Or(left, right) => {
            let start = fragment_start(a, first);
            let b = with_start_end(a, first);
            let end = (b.num_states - 1) as nat;
            let l = spec_thompson(b, *left, None);
            let r = spec_thompson(l.automaton, *right, None);
            Fragment {
                automaton: with_edge(
                    with_edge(
                        with_edge(
                            with_edge(r.automaton, start, EPSILON, l.start),
                            start,
                            EPSILON,
                            r.start,
                        ),
                        r.end,
                        EPSILON,
                        end,
                    ),
                    l.end,
                    EPSILON,
                    end,
                ),
                start,
                end,
            }
        },
        ReOperator::KleeneStar(inner) => {
            let start = fragment_start(a, first);
            let b = with_start_end(a, first);
            let end = (b.num_states - 1) as nat;
            let i = spec_thompson(b, *inner, None);
            Fragment {
                automaton: with_edge(
                    with_edge(
                        with_edge(
                            with_edge(i.automaton, start, EPSILON, end),
                            i.end,
                            EPSILON,
                            i.start,
                        ),
                        start,
                        EPSILON,
                        i.start,
                    ),
                    i.end,
                    EPSILON,
                    end,
                ),
                start,
                end,
            }
        },
    }
}

/// The state, if there is one, as a number without bound.
pub open spec fn as_nat(state: Option<usize>) -> Option<nat> {
    match state {
        Some(q) => Some(q as nat),
        None => None,
    }
}

/// Two automata with the same lists of moves have the same moves.
pub proof fn lemma_same_moves(a: NFA, b: NFA)
    requires
        a.transitions@ == b.transitions@,
    ensures
        a.edges() == b.edges(),
{
    assert(a.edges() =~= b.edges());
}

impl NFA {
    /// Whether `label` leads from `from` to `to` in one move.
    pub open spec fn has_edge(&self, from: nat, label: char, to: nat) -> bool {
        &&& from < self.transitions@.len()
        &&& exists|k: int|
            0 <= k < self.transitions@[from as int]@.len() && #[trigger] self.transitions@[from as int]@[k]
                == (label, to as usize)
        &&& to <= usize::MAX
    }

    /// The moves, as triples of origin, label and destination.
    pub open spec fn edges(&self) -> Set<(nat, char, nat)> {
        Set::new(|e: (nat, char, nat)| self.has_edge(e.0, e.1, e.2))
    }

    /// States, moves and alphabet of the automaton.
    pub open spec fn automaton(&self) -> Automaton {
        Automaton {
            num_states: self.num_states as nat,
            edges: self.edges(),
            alphabet: self.used_alphabet@,
        }
    }

    /// There is a list of moves for each state; every move ends in a state;
    /// the alphabet is stored in order.
    pub open spec fn wf_moves(&self) -> bool {
        &&& self.transitions@.len() == self.num_states
        &&& forall|q: int, k: int|
            0 <= q < self.transitions@.len() && 0 <= k < self.transitions@[q]@.len()
                ==> (#[trigger] self.transitions@[q]@[k]).1 < self.num_states
        &&& self.used_alphabet.wf()
    }

    /// The automaton is well formed: every state that is named exists.
    pub open spec fn wf(&self) -> bool {
        &&& self.wf_moves()
        &&& self.start_state < self.num_states
        &&& forall|i: int|
            0 <= i < self.end_states@.len() ==> #[trigger] self.end_states@[i] < self.num_states
    }

    /// An automaton without states.
    pub(crate) fn new() -> (nfa: Self)
        ensures
            nfa.wf_moves(),
            nfa.num_states == 0,
            nfa.start_state == 0,
            nfa.end_states@.len() == 0,
            nfa.automaton() == (Automaton {
                num_states: 0,
                edges: Set::empty(),
                alphabet: Set::empty(),
            }),
    {
        let nfa = Self {
            num_states: 0,
            start_state: 0,
            end_states: Vec::new(),
            transitions: Vec::new(),
            used_alphabet: CharSet::new(),
        };
        assert(nfa.edges() =~= Set::empty());
        nfa
    }

    pub fn get_start_state(&self) -> (start: usize)
        ensures
            start == self.start_state,
    {
        self.start_state
    }

    /// The symbols in use, in increasing order.
    pub fn get_alphabet(&self) -> (alphabet: Vec<char>)
        ensures
            alphabet@ == self.used_alphabet.items@,
    {
        self.used_alphabet.items.clone()
    }

    pub fn get_transitions(&self) -> (transitions: &Vec<Vec<(char, usize)>>)
        ensures
            transitions == self.transitions,
    {
        &self.transitions
    }

    /// Adds a state without moves and returns its number.
    fn add_state(&mut self) -> (id: usize)
        requires
            old(self).wf_moves(),
            old(self).num_states < usize::MAX,
        ensures
            final(self).wf_moves(),
            id == old(self).num_states,
            final(self).automaton() == with_state(old(self).automaton()),
            final(self).start_state == old(self).start_state,
            final(self).end_states == old(self).end_states,
    {
        self.num_states = self.num_states + 1;
        self.transitions.push(Vec::new());
        proof {
            assert forall|e: (nat, char, nat)| self.edges().contains(e) <==> old(
                self,
            ).edges().contains(e) by {
                if self.has_edge(e.0, e.1, e.2) {
                    let k = choose|k: int|
                        0 <= k < self.transitions@[e.0 as int]@.len() && #[trigger] self.transitions@[e.0 as int]@[k]
                            == (e.1, e.2 as usize);
                    assert(old(self).transitions@[e.0 as int]@[k] == (e.1, e.2 as usize));
                }
                if old(self).has_edge(e.0, e.1, e.2) {
                    let k = choose|k: int|
                        0 <= k < old(self).transitions@[e.0 as int]@.len() && #[trigger] old(
                            self,
                        ).transitions@[e.0 as int]@[k] == (e.1, e.2 as usize);
                    assert(self.transitions@[e.0 as int]@[k] == (e.1, e.2 as usize));
                }
            }
            assert(self.edges() =~= old(self).edges());
        }
        self.num_states - 1
    }

    /// Adds the first and the last state of a new fragment, and returns them.
    /// The fragment starts in `first_option` where it is given.
    fn add_start_end(&mut self, first_option: Option<usize>) -> (r: (usize, usize))
        requires
            old(self).wf_moves(),
            old(self).num_states + 2 <= usize::MAX,
            first_option matches Some(first) ==> first < old(self).num_states,
        ensures
            final(self).wf_moves(),
            final(self).automaton() == with_start_end(
                old(self).automaton(),
                as_nat(first_option),
            ),
            r.0 == fragment_start(old(self).automaton(), as_nat(first_option)),
            r.1 == final(self).num_states - 1,
            r.0 < r.1,
            old(self).num_states < final(self).num_states <= old(self).num_states + 2,
            final(self).start_state == old(self).start_state,
            final(self).end_states == old(self).end_states,
    {
        let start = match first_option {
            Some(start) => start,
            None => self.add_state(),
        };
        let end = self.add_state();
        (start, end)
    }

    /// Adds the fragment for `regex` and returns its first and its last
    /// state. The fragment starts in `first_option` where it is given.
    pub(crate) fn recursive_from_regex(
        &mut self,
        regex: &ReOperator,
        first_option: Option<usize>,
    ) -> (r: (usize, usize))
        requires
            old(self).wf_moves(),
            old(self).num_states + 2 * spec_size(*regex) <= usize::MAX,
            first_option matches Some(first) ==> first < old(self).num_states,
        ensures
            final(self).wf_moves(),
            ({
                let fragment = spec_thompson(
                    old(self).automaton(),
                    *regex,
                    as_nat(first_option),
                );
                &&& final(self).automaton() == fragment.automaton
                &&& r.0 == fragment.start
                &&& r.1 == fragment.end
            }),
            r.0 < final(self).num_states,
            r.1 < final(self).num_states,
            old(self).num_states < final(self).num_states,
            final(self).num_states <= old(self).num_states + 2 * spec_size(*regex),
            final(self).start_state == old(self).start_state,
            final(self).end_states == old(self).end_states,
        decreases *regex,
    {
        match regex {
            ReOperator::Concat(left, right) => {
                let (l_start, l_end) = self.recursive_from_regex(left, first_option);
                let (_r_start, r_end) = self.recursive_from_regex(right, Some(l_end));
                (l_start, r_end)
            },
            ReOperator::Or(left, right) => {
                let (start, end) = self.add_start_end(first_option);
                let (l_start, l_end) = self.recursive_from_regex(left, None);
                let (r_start, r_end) = self.recursive_from_regex(right, None);
                self.add_edge(start, EPSILON, l_start);
                self.add_edge(start, EPSILON, r_start);
                self.add_edge(r_end, EPSILON, end);
                self.add_edge(l_end, EPSILON, end);
                (start, end)
            },
            ReOperator::KleeneStar(inner) => {
                let (start, end) = self.add_start_end(first_option);
                let (i_start, i_end) = self.recursive_from_regex(inner, None);
                self.add_edge(start, EPSILON, end);
                self.add_edge(i_end, EPSILON, i_start);
                self.add_edge(start, EPSILON, i_start);
                self.add_edge(i_end, EPSILON, end);
                (start, end)
            },
            ReOperator::Char(c) => {
                let (start, end) = self.add_start_end(first_option);
                self.add_edge(start, *c, end);
                let ghost with_move = *self;
                let _ = self.used_alphabet.insert(*c);
                proof {
                    lemma_same_moves(with_move, *self);
                }
                (start, end)
            },
        }
    }

    /// Whether `self` is the automaton of Thompson's construction for
    /// `regex`: the fragment for `regex`, with the first state of the
    /// fragment as the start and its last state as the one accepting state.
    pub open spec fn is_thompson_of(&self, regex: ReOperator) -> bool {
        let fragment = spec_thompson(
            Automaton { num_states: 0, edges: Set::empty(), alphabet: Set::empty() },
            regex,
            None,
        );
        &&& self.automaton() == fragment.automaton
        &&& self.start_state == fragment.start
        &&& self.end_states@ == seq![fragment.end as usize]
    }

    /// The automaton of Thompson's construction for `regex`: it has one
    /// start state and one accepting state.
    pub fn from_regex(regex: &ReOperator) -> (nfa: Self)
        requires
            2 * spec_size(*regex) <= usize::MAX,
        ensures
            nfa.wf(),
            nfa.is_thompson_of(*regex),
    {
        let mut nfa = Self::new();
        let (start, end) = nfa.recursive_from_regex(regex, None);
        let ghost built = nfa;
        nfa.start_state = start;
        nfa.end_states.push(end);
        proof {
            lemma_same_moves(built, nfa);
            assert(nfa.end_states@ =~= seq![end]);
        }
        nfa
    }

    /// Adds a move from `from` to `to` with the label `label`.
    fn add_edge(&mut self, from: usize, label: char, to: usize)
        requires
            old(self).wf_moves(),
            from < old(self).num_states,
            to < old(self).num_states,
        ensures
            final(self).wf_moves(),
            final(self).automaton() == with_edge(
                old(self).automaton(),
                from as nat,
                label,
                to as nat,
            ),
            final(self).start_state == old(self).start_state,
            final(self).end_states == old(self).end_states,
    {
        self.transitions[from].push((label, to));
        proof {
            let before = old(self).transitions@[from as int]@;
            let after = self.transitions@[from as int]@;
            assert(after == before.push((label, to)));
            assert forall|e: (nat, char, nat)| self.edges().contains(e) <==> old(
                self,
            ).edges().insert((from as nat, label, to as nat)).contains(e) by {
                if self.has_edge(e.0, e.1, e.2) {
                    let k = choose|k: int|
                        0 <= k < self.transitions@[e.0 as int]@.len() && #[trigger] self.transitions@[e.0 as int]@[k]
                            == (e.1, e.2 as usize);
                    if e.0 == from && k == before.len() {
                    } else {
                        assert(old(self).transitions@[e.0 as int]@[k] == (e.1, e.2 as usize));
                    }
                }
                if old(self).has_edge(e.0, e.1, e.2) {
                    let k = choose|k: int|
                        0 <= k < old(self).transitions@[e.0 as int]@.len() && #[trigger] old(
                            self,
                        ).transitions@[e.0 as int]@[k] == (e.1, e.2 as usize);
                    assert(self.transitions@[e.0 as int]@[k] == (e.1, e.2 as usize));
                }
                if e == (from as nat, label, to as nat) {
                    assert(after[before.len() as int] == (label, to));
                }
            }
            assert(self.edges() =~= old(self).edges().insert((from as nat, label, to as nat)));
        }
    }
}

impl NFA {
    /// Whether `state` is accepting.
    pub open spec fn is_final(&self, state: nat) -> bool {
        exists|i: int| 0 <= i < self.end_states@.len() && #[trigger] self.end_states@[i] == state
    }

    /// Whether every two neighbours of `path` are joined by a move on the
    /// empty word.
    pub open spec fn is_epsilon_path(&self, path: Seq<nat>) -> bool {
        &&& path.len() >= 1
        &&& forall|i: int|
            0 <= i < path.len() - 1 ==> self.has_edge(#[trigger] path[i], EPSILON, path[i + 1])
    }

    /// Whether `to` is reached from `from` by reading nothing.
    pub open spec fn epsilon_reaches(&self, from: nat, to: nat) -> bool {
        exists|path: Seq<nat>|
            #[trigger] self.is_epsilon_path(path) && path.first() == from && path.last() == to
    }

    /// The states reached from a state of `states` by reading nothing.
    pub open spec fn spec_epsilon_closure(&self, states: Set<nat>) -> Set<nat> {
        Set::new(
            |q: nat| exists|p: nat| states.contains(p) && #[trigger] self.epsilon_reaches(p, q),
        )
    }

    /// The states reached from a state of `states` by one move on `c`.
    pub open spec fn spec_move(&self, states: Set<nat>, c: char) -> Set<nat> {
        Set::new(|q: nat| exists|p: nat| states.contains(p) && #[trigger] self.has_edge(p, c, q))
    }

    /// The states the automaton may be in after it has read `c` in one of
    /// `states`.
    pub open spec fn spec_step(&self, states: Set<nat>, c: char) -> Set<nat> {
        self.spec_epsilon_closure(self.spec_move(states, c))
    }

    /// The states the automaton may be in after it has read `word` in one
    /// of `states`.
    pub open spec fn spec_run(&self, states: Set<nat>, word: Seq<char>) -> Set<nat>
        decreases word.len(),
    {
        if word.len() == 0 {
            states
        } else {
            self.spec_run(self.spec_step(states, word[0]), word.drop_first())
        }
    }

    /// The states the automaton may be in before it reads anything.
    pub open spec fn spec_initial(&self) -> Set<nat> {
        self.spec_epsilon_closure(set![self.start_state as nat])
    }

    /// Whether one of `states` is accepting.
    pub open spec fn spec_contains_final(&self, states: Set<nat>) -> bool {
        exists|q: nat| states.contains(q) && #[trigger] self.is_final(q)
    }

    /// Whether the automaton accepts `word`.
    pub open spec fn accepts(&self, word: Seq<char>) -> bool {
        self.spec_contains_final(self.spec_run(self.spec_initial(), word))
    }

    /// Every state reaches itself by reading nothing.
    pub proof fn lemma_epsilon_reaches_self(&self, q: nat)
        ensures
            self.epsilon_reaches(q, q),
    {
        let path = seq![q];
        assert(self.is_epsilon_path(path));
        assert(path.first() == q && path.last() == q);
    }

    /// What is reached by reading nothing, and then by one more move on the
    /// empty word, is reached by reading nothing.
    pub proof fn lemma_epsilon_reaches_step(&self, p: nat, q: nat, d: nat)
        requires
            self.epsilon_reaches(p, q),
            self.has_edge(q, EPSILON, d),
        ensures
            self.epsilon_reaches(p, d),
    {
        let path = choose|path: Seq<nat>|
            #[trigger] self.is_epsilon_path(path) && path.first() == p && path.last() == q;
        let longer = path.push(d);
        assert forall|i: int| 0 <= i < longer.len() - 1 implies self.has_edge(
            #[trigger] longer[i],
            EPSILON,
            longer[i + 1],
        ) by {
            if i < path.len() - 1 {
                assert(self.has_edge(path[i], EPSILON, path[i + 1]));
            }
        }
        assert(self.is_epsilon_path(longer));
        assert(longer.first() == p && longer.last() == d);
    }

    /// Whether the set `bits` holds, with each of its states, the states
    /// one move on the empty word away.
    pub open spec fn epsilon_closed(&self, bits: Seq<bool>) -> bool {
        forall|q: int, k: int|
            0 <= q < bits.len() && bits[q] && 0 <= k < self.transitions@[q]@.len() && (
            #[trigger] self.transitions@[q]@[k]).0 == EPSILON ==> bits[self.transitions@[q]@[k].1 as int]
    }

    /// A set that is closed under moves on the empty word holds every state
    /// of a path that starts in it.
    pub proof fn lemma_closed_holds_path(&self, bits: Seq<bool>, path: Seq<nat>, i: int)
        requires
            self.wf_moves(),
            bits.len() == self.num_states,
            self.epsilon_closed(bits),
            self.is_epsilon_path(path),
            path[0] < bits.len(),
            bits[path[0] as int],
            0 <= i < path.len(),
        ensures
            path[i] < bits.len(),
            bits[path[i] as int],
        decreases i,
    {
        if i > 0 {
            self.lemma_closed_holds_path(bits, path, i - 1);
            assert(self.has_edge(path[i - 1], EPSILON, path[i]));
            let q = path[i - 1];
            let k = choose|k: int|
                0 <= k < self.transitions@[q as int]@.len() && #[trigger] self.transitions@[q as int]@[k]
                    == (EPSILON, path[i] as usize);
            assert(self.transitions@[q as int]@[k].0 == EPSILON);
        }
    }

    /// The states reached from `seeds` by reading nothing, as a bit vector.
    pub fn closure_bits(&self, seeds: &Vec<bool>) -> (visited: Vec<bool>)
        requires
            self.wf_moves(),
            seeds@.len() == self.num_states,
        ensures
            visited@.len() == self.num_states,
            bits_set(visited@) == self.spec_epsilon_closure(bits_set(seeds@)),
    {
        let n = self.num_states;
        let mut visited = seeds.clone();
        let mut stack: Vec<usize> = Vec::new();
        let mut i: usize = 0;
        while i < n
            invariant
                i <= n,
                n == self.num_states,
                seeds@.len() == n,
                forall|k: int| 0 <= k < stack@.len() ==> stack@[k] < n && seeds@[stack@[k] as int],
                forall|q: int| 0 <= q < i && seeds@[q] ==> stack@.contains(q as usize),
            decreases n - i,
        {
            if seeds[i] {
                let ghost before = stack@;
                stack.push(i);
                proof {
                    assert forall|q: int| 0 <= q < i + 1 && seeds@[q] implies stack@.contains(
                        q as usize,
                    ) by {
                        if q < i {
                            let k = choose|k: int| 0 <= k < before.len() && before[k] == q as usize;
                            assert(stack@[k] == q as usize);
                        } else {
                            assert(stack@[before.len() as int] == q as usize);
                        }
                    }
                }
            }
            i += 1;
        }
        assert(visited@ == seeds@);
        proof {
            assert forall|q: nat| bits_set(visited@).contains(q) implies self.spec_epsilon_closure(
                bits_set(seeds@),
            ).contains(q) by {
                self.lemma_epsilon_reaches_self(q);
            }
        }
        while stack.len() > 0
            invariant
                self.wf_moves(),
                n == self.num_states,
                seeds@.len() == n,
                visited@.len() == n,
                forall|k: int| 0 <= k < stack@.len() ==> stack@[k] < n,
                forall|k: int| 0 <= k < stack@.len() ==> visited@[stack@[k] as int],
                forall|q: int| 0 <= q < n && seeds@[q] ==> visited@[q],
                bits_set(visited@).subset_of(self.spec_epsilon_closure(bits_set(seeds@))),
                forall|q: int, k: int|
                    0 <= q < n && visited@[q] && !stack@.contains(q as usize) && 0 <= k
                        < self.transitions@[q]@.len() && (#[trigger] self.transitions@[q]@[k]).0
                        == EPSILON ==> visited@[self.transitions@[q]@[k].1 as int],
            decreases count_false(visited@), stack@.len(),
        {
            let ghost falses = count_false(visited@);
            let ghost height = stack@.len();
            let ghost stack_before = stack@;
            let state = stack.pop().unwrap();
            proof {
                assert(stack_before[stack_before.len() - 1] == state);
                assert forall|q: usize| q != state && !#[trigger] stack@.contains(
                    q,
                ) implies !stack_before.contains(q) by {
                    if stack_before.contains(q) {
                        let j = choose|j: int| 0 <= j < stack_before.len() && stack_before[j] == q;
                        assert(stack@[j] == q);
                    }
                }
            }
            let mut k: usize = 0;
            while k < self.transitions[state].len()
                invariant
                    self.wf_moves(),
                    n == self.num_states,
                    seeds@.len() == n,
                    visited@.len() == n,
                    state < n,
                    k <= self.transitions@[state as int]@.len(),
                    forall|j: int| 0 <= j < stack@.len() ==> stack@[j] < n,
                    forall|j: int| 0 <= j < stack@.len() ==> visited@[stack@[j] as int],
                    visited@[state as int],
                    forall|q: int| 0 <= q < n && seeds@[q] ==> visited@[q],
                    bits_set(visited@).subset_of(self.spec_epsilon_closure(bits_set(seeds@))),
                    forall|q: int, j: int|
                        0 <= q < n && q != state && visited@[q] && !stack@.contains(q as usize)
                            && 0 <= j < self.transitions@[q]@.len() && (
                        #[trigger] self.transitions@[q]@[j]).0 == EPSILON
                            ==> visited@[self.transitions@[q]@[j].1 as int],
                    forall|j: int|
                        0 <= j < k && (#[trigger] self.transitions@[state as int]@[j]).0 == EPSILON
                            ==> visited@[self.transitions@[state as int]@[j].1 as int],
                    count_false(visited@) + stack@.len() + 1 == falses + height,
                    count_false(visited@) <= falses,
                decreases self.transitions@[state as int]@.len() - k,
            {
                let (label, dest) = self.transitions[state][k];
                if label == EPSILON && !visited[dest] {
                    let ghost visited_before = visited@;
                    let ghost stack_now = stack@;
                    proof {
                        lemma_count_false_set(visited@, dest as int);
                    }
                    visited.set(dest, true);
                    stack.push(dest);
                    proof {
                        assert(self.transitions@[state as int]@[k as int] == (EPSILON, dest));
                        assert(self.has_edge(state as nat, EPSILON, dest as nat));
                        assert(bits_set(visited_before).contains(state as nat));
                        let p = choose|p: nat|
                            bits_set(seeds@).contains(p) && #[trigger] self.epsilon_reaches(
                                p,
                                state as nat,
                            );
                        self.lemma_epsilon_reaches_step(p, state as nat, dest as nat);
                        assert forall|q: nat| bits_set(visited@).contains(
                            q,
                        ) implies self.spec_epsilon_closure(bits_set(seeds@)).contains(q) by {
                            if q != dest {
                                assert(bits_set(visited_before).contains(q));
                            }
                        }
                        assert forall|q: usize| !#[trigger] stack@.contains(q) implies !stack_now.contains(
                            q,
                        ) && q != dest by {
                            if stack_now.contains(q) {
                                let j = choose|j: int| 0 <= j < stack_now.len() && stack_now[j] == q;
                                assert(stack@[j] == q);
                            }
                            if q == dest {
                                assert(stack@[stack_now.len() as int] == dest);
                            }
                        }
                    }
                }
                k += 1;
            }
        }
        proof {
            assert(self.epsilon_closed(visited@));
            assert forall|q: nat|
                self.spec_epsilon_closure(bits_set(seeds@)).contains(q) implies bits_set(
                visited@,
            ).contains(q) by {
                let p = choose|p: nat|
                    bits_set(seeds@).contains(p) && #[trigger] self.epsilon_reaches(p, q);
                let path = choose|path: Seq<nat>|
                    #[trigger] self.is_epsilon_path(path) && path.first() == p && path.last() == q;
                self.lemma_closed_holds_path(visited@, path, path.len() - 1);
            }
            assert(bits_set(visited@) =~= self.spec_epsilon_closure(bits_set(seeds@)));
        }
        visited
    }
}

impl NFA {
    /// Whether the `k`-th move out of `q` is one on `c` to `d`.
    pub open spec fn move_at(&self, q: int, k: int, c: char, d: int) -> bool {
        &&& 0 <= q < self.transitions@.len()
        &&& 0 <= k < self.transitions@[q]@.len()
        &&& 0 <= d <= usize::MAX
        &&& self.transitions@[q]@[k] == (c, d as usize)
    }

    /// The states reached from a state of `set` by one move on `c`, as a bit
    /// vector.
    pub fn move_bits(&self, set: &Vec<bool>, c: char) -> (moved: Vec<bool>)
        requires
            self.wf_moves(),
            set@.len() == self.num_states,
        ensures
            moved@.len() == self.num_states,
            bits_set(moved@) == self.spec_move(bits_set(set@), c),
    {
        let n = self.num_states;
        let mut moved = vec![false; n];
        let mut q: usize = 0;
        while q < n
            invariant
                self.wf_moves(),
                n == self.num_states,
                set@.len() == n,
                moved@.len() == n,
                q <= n,
                forall|d: int|
                    0 <= d < n ==> (moved@[d] <==> exists|p: int, k: int|
                        0 <= p < q && set@[p] && #[trigger] self.move_at(p, k, c, d)),
            decreases n - q,
        {
            if set[q] {
                let mut k: usize = 0;
                while k < self.transitions[q].len()
                    invariant
                        self.wf_moves(),
                        n == self.num_states,
                        set@.len() == n,
                        moved@.len() == n,
                        q < n,
                        set@[q as int],
                        k <= self.transitions@[q as int]@.len(),
                        forall|d: int|
                            0 <= d < n ==> (moved@[d] <==> exists|p: int, j: int|
                                (0 <= p < q || (p == q && j < k)) && set@[p]
                                    && #[trigger] self.move_at(p, j, c, d)),
                    decreases self.transitions@[q as int]@.len() - k,
                {
                    let (label, dest) = self.transitions[q][k];
                    let ghost before = moved@;
                    if label == c {
                        moved.set(dest, true);
                    }
                    proof {
                        assert forall|d: int| 0 <= d < n implies (moved@[d] <==> exists|
                            p: int,
                            j: int,
                        |
                            (0 <= p < q || (p == q && j < k + 1)) && set@[p]
                                && #[trigger] self.move_at(p, j, c, d)) by {
                            if moved@[d] {
                                if before[d] {
                                    let (p, j) = choose|p: int, j: int|
                                        (0 <= p < q || (p == q && j < k)) && set@[p]
                                            && #[trigger] self.move_at(p, j, c, d);
                                    assert(self.move_at(p, j, c, d));
                                } else {
                                    assert(self.move_at(q as int, k as int, c, d));
                                }
                            }
                            if exists|p: int, j: int|
                                (0 <= p < q || (p == q && j < k + 1)) && set@[p]
                                    && #[trigger] self.move_at(p, j, c, d) {
                                let (p, j) = choose|p: int, j: int|
                                    (0 <= p < q || (p == q && j < k + 1)) && set@[p]
                                        && #[trigger] self.move_at(p, j, c, d);
                                if p == q && j == k {
                                } else {
                                    assert(self.move_at(p, j, c, d));
                                    assert(before[d]);
                                }
                            }
                        }
                    }
                    k += 1;
                }
            }
            proof {
                assert forall|d: int| 0 <= d < n implies (moved@[d] <==> exists|p: int, k: int|
                    0 <= p < q + 1 && set@[p] && #[trigger] self.move_at(p, k, c, d)) by {
                    if moved@[d] {
                        if set@[q as int] {
                            let (p, j) = choose|p: int, j: int|
                                (0 <= p < q || (p == q && j < self.transitions@[q as int]@.len()))
                                    && set@[p] && #[trigger] self.move_at(p, j, c, d);
                            assert(self.move_at(p, j, c, d));
                        } else {
                            let (p, j) = choose|p: int, j: int|
                                0 <= p < q && set@[p] && #[trigger] self.move_at(p, j, c, d);
                            assert(self.move_at(p, j, c, d));
                        }
                    }
                    if exists|p: int, k: int|
                        0 <= p < q + 1 && set@[p] && #[trigger] self.move_at(p, k, c, d) {
                        let (p, j) = choose|p: int, j: int|
                            0 <= p < q + 1 && set@[p] && #[trigger] self.move_at(p, j, c, d);
                        assert(self.move_at(p, j, c, d));
                    }
                }
            }
            q += 1;
        }
        proof {
            assert forall|d: nat| bits_set(moved@).contains(d) <==> self.spec_move(
                bits_set(set@),
                c,
            ).contains(d) by {
                if bits_set(moved@).contains(d) {
                    let (p, k) = choose|p: int, k: int|
                        0 <= p < n && set@[p] && #[trigger] self.move_at(p, k, c, d as int);
                    assert(self.transitions@[p]@[k] == (c, d as usize));
                    assert(self.has_edge(p as nat, c, d));
                    assert(bits_set(set@).contains(p as nat));
                }
                if self.spec_move(bits_set(set@), c).contains(d) {
                    let p = choose|p: nat|
                        bits_set(set@).contains(p) && #[trigger] self.has_edge(p, c, d);
                    let k = choose|k: int|
                        0 <= k < self.transitions@[p as int]@.len() && #[trigger] self.transitions@[p as int]@[k]
                            == (c, d as usize);
                    assert(self.transitions@[p as int]@[k].1 < n);
                    assert(self.move_at(p as int, k, c, d as int));
                }
            }
            assert(bits_set(moved@) =~= self.spec_move(bits_set(set@), c));
        }
        moved
    }

    /// The states reached from one of `states` by reading nothing, in
    /// increasing order.
    pub fn epsilon_closure(&self, states: &Vec<usize>) -> (closure: Vec<usize>)
        requires
            self.wf_moves(),
            forall|i: int| 0 <= i < states@.len() ==> states@[i] < self.num_states,
        ensures
            ascending(closure@),
            list_set(closure@) == self.spec_epsilon_closure(list_set(states@)),
    {
        let seeds = states_to_bits(states, self.num_states);
        let visited = self.closure_bits(&seeds);
        bits_to_states(&visited)
    }

    /// The states reached from one of `states` by one move on `c`, in
    /// increasing order.
    pub fn make_move(&self, states: &Vec<usize>, c: char) -> (moved: Vec<usize>)
        requires
            self.wf_moves(),
            forall|i: int| 0 <= i < states@.len() ==> states@[i] < self.num_states,
        ensures
            ascending(moved@),
            list_set(moved@) == self.spec_move(list_set(states@), c),
    {
        let set = states_to_bits(states, self.num_states);
        let moved = self.move_bits(&set, c);
        bits_to_states(&moved)
    }

    /// The destinations of the moves out of `state` that read nothing, in
    /// the order of the moves.
    pub fn get_epsilon_transitions(&self, state: usize) -> (next: Vec<usize>)
        requires
            state < self.transitions@.len(),
        ensures
            next@ == self.transitions@[state as int]@.filter(
                |m: (char, usize)| m.0 == EPSILON,
            ).map_values(|m: (char, usize)| m.1),
    {
        let mut next: Vec<usize> = Vec::new();
        let mut k: usize = 0;
        let ghost moves = self.transitions@[state as int]@;
        while k < self.transitions[state].len()
            invariant
                state < self.transitions@.len(),
                moves == self.transitions@[state as int]@,
                k <= moves.len(),
                next@ == moves.subrange(0, k as int).filter(
                    |m: (char, usize)| m.0 == EPSILON,
                ).map_values(|m: (char, usize)| m.1),
            decreases moves.len() - k,
        {
            let (label, dest) = self.transitions[state][k];
            proof {
                let f = |m: (char, usize)| m.0 == EPSILON;
                let head = moves.subrange(0, k as int);
                let longer = moves.subrange(0, k as int + 1);
                assert(longer == head.push(moves[k as int]));
                assert(longer.drop_last() == head);
                reveal(Seq::filter);
                if label == EPSILON {
                    assert(longer.filter(f) == head.filter(f).push(moves[k as int]));
                    assert(longer.filter(f).map_values(|m: (char, usize)| m.1) =~= head.filter(
                        f,
                    ).map_values(|m: (char, usize)| m.1).push(dest));
                } else {
                    assert(longer.filter(f) == head.filter(f));
                }
            }
            if label == EPSILON {
                next.push(dest);
            }
            k += 1;
        }
        assert(moves.subrange(0, k as int) == moves);
        next
    }

    /// Whether `state` is accepting.
    pub fn is_final_state(&self, state: usize) -> (b: bool)
        ensures
            b == self.is_final(state as nat),
    {
        let mut i: usize = 0;
        while i < self.end_states.len()
            invariant
                i <= self.end_states@.len(),
                forall|k: int| 0 <= k < i ==> self.end_states@[k] != state,
            decreases self.end_states@.len() - i,
        {
            if self.end_states[i] == state {
                return true;
            }
            i += 1;
        }
        false
    }

    /// Whether one of `states` is accepting.
    pub fn contains_final_state(&self, states: &Vec<usize>) -> (b: bool)
        ensures
            b == self.spec_contains_final(list_set(states@)),
    {
        let mut i: usize = 0;
        while i < states.len()
            invariant
                i <= states@.len(),
                forall|k: int| 0 <= k < i ==> !self.is_final(states@[k] as nat),
            decreases states@.len() - i,
        {
            if self.is_final_state(states[i]) {
                assert(list_set(states@).contains(states@[i as int] as nat));
                return true;
            }
            i += 1;
        }
        proof {
            if self.spec_contains_final(list_set(states@)) {
                let q = choose|q: nat| list_set(states@).contains(q) && #[trigger] self.is_final(q);
                let k = choose|k: int| 0 <= k < states@.len() && #[trigger] states@[k] == q;
                assert(!self.is_final(states@[k] as nat));
            }
        }
        false
    }

    /// Whether one of the states of the set `bits` is accepting.
    pub fn bits_contain_final(&self, bits: &Vec<bool>) -> (b: bool)
        requires
            self.wf(),
            bits@.len() == self.num_states,
        ensures
            b == self.spec_contains_final(bits_set(bits@)),
    {
        let mut i: usize = 0;
        while i < self.end_states.len()
            invariant
                self.wf(),
                bits@.len() == self.num_states,
                i <= self.end_states@.len(),
                forall|k: int| 0 <= k < i ==> !bits@[self.end_states@[k] as int],
            decreases self.end_states@.len() - i,
        {
            if bits[self.end_states[i]] {
                assert(bits_set(bits@).contains(self.end_states@[i as int] as nat));
                assert(self.is_final(self.end_states@[i as int] as nat));
                return true;
            }
            i += 1;
        }
        proof {
            if self.spec_contains_final(bits_set(bits@)) {
                let q = choose|q: nat| bits_set(bits@).contains(q) && #[trigger] self.is_final(q);
                let k = choose|k: int|
                    0 <= k < self.end_states@.len() && #[trigger] self.end_states@[k] == q;
                assert(!bits@[self.end_states@[k] as int]);
            }
        }
        false
    }
}

impl NFA {
    /// Whether the automaton accepts `word`.
    pub fn accepts_word(&self, word: &Vec<char>) -> (b: bool)
        requires
            self.wf(),
        ensures
            b == self.accepts(word@),
    {
        let mut seed = vec![false; self.num_states];
        seed.set(self.start_state, true);
        assert(bits_set(seed@) =~= set![self.start_state as nat]);
        let mut current = self.closure_bits(&seed);
        let mut i: usize = 0;
        assert(word@.subrange(0, word@.len() as int) == word@);
        while i < word.len()
            invariant
                self.wf(),
                i <= word@.len(),
                current@.len() == self.num_states,
                self.accepts(word@) == self.spec_contains_final(
                    self.spec_run(bits_set(current@), word@.subrange(i as int, word@.len() as int)),
                ),
            decreases word@.len() - i,
        {
            proof {
                let rest = word@.subrange(i as int, word@.len() as int);
                assert(rest.drop_first() == word@.subrange(i as int + 1, word@.len() as int));
                assert(rest[0] == word@[i as int]);
            }
            let moved = self.move_bits(&current, word[i]);
            current = self.closure_bits(&moved);
            i += 1;
        }
        self.bits_contain_final(&current)
    }

    /// Whether the automaton is well formed.
    pub fn is_well_formed(&self) -> (b: bool)
        ensures
            b == self.wf(),
    {
        if self.transitions.len() != self.num_states || self.start_state >= self.num_states {
            return false;
        }
        let mut i: usize = 0;
        while i < self.end_states.len()
            invariant
                i <= self.end_states@.len(),
                forall|k: int| 0 <= k < i ==> #[trigger] self.end_states@[k] < self.num_states,
            decreases self.end_states@.len() - i,
        {
            if self.end_states[i] >= self.num_states {
                return false;
            }
            i += 1;
        }
        let mut a: usize = 1;
        while a < self.used_alphabet.items.len()
            invariant
                1 <= a,
                forall|k: int|
                    0 < k < a && k < self.used_alphabet.items@.len()
                        ==> self.used_alphabet.items@[k - 1] < #[trigger] self.used_alphabet.items@[k],
            decreases self.used_alphabet.items@.len() - a,
        {
            if !(self.used_alphabet.items[a - 1] < self.used_alphabet.items[a]) {
                return false;
            }
            a += 1;
        }
        proof {
            lemma_neighbours_increasing(self.used_alphabet.items@);
        }
        let mut q: usize = 0;
        while q < self.transitions.len()
            invariant
                q <= self.transitions@.len(),
                forall|p: int, k: int|
                    0 <= p < q && 0 <= k < self.transitions@[p]@.len() ==> (
                    #[trigger] self.transitions@[p]@[k]).1 < self.num_states,
            decreases self.transitions@.len() - q,
        {
            let mut k: usize = 0;
            while k < self.transitions[q].len()
                invariant
                    q < self.transitions@.len(),
                    k <= self.transitions@[q as int]@.len(),
                    forall|j: int|
                        0 <= j < k ==> (#[trigger] self.transitions@[q as int]@[j]).1
                            < self.num_states,
                decreases self.transitions@[q as int]@.len() - k,
            {
                if self.transitions[q][k].1 >= self.num_states {
                    return false;
                }
                k += 1;
            }
            q += 1;
        }
        true
    }
}

/// A sequence of characters each of which is above the one before is
/// strictly increasing.
pub proof fn lemma_neighbours_increasing(s: Seq<char>)
    requires
        forall|k: int| 0 < k < s.len() ==> s[k - 1] < #[trigger] s[k],
    ensures
        crate::char_set::increasing(s),
{
    assert forall|i: int, j: int| 0 <= i < j < s.len() implies s[i] < s[j] by {
        lemma_neighbours_step(s, i, j);
    }
}

/// In a sequence of characters each of which is above the one before, a
/// later one is above an earlier one.
pub proof fn lemma_neighbours_step(s: Seq<char>, i: int, j: int)
    requires
        forall|k: int| 0 < k < s.len() ==> s[k - 1] < #[trigger] s[k],
        0 <= i < j < s.len(),
    ensures
        s[i] < s[j],
    decreases j - i,
{
    if i + 1 < j {
        lemma_neighbours_step(s, i, j - 1);
        assert(s[j - 1] < s[j]);
    } else {
        assert(s[j - 1] < s[j]);
    }
}

} // verus!
