//! Deterministic finite automata: their language, the subset construction
//! that builds one from a nondeterministic automaton, and minimization.
use vstd::prelude::*;

verus! {

/// A deterministic finite automaton. Its states are the numbers below
/// `num_states`; `transitions[q]` lists, for the symbols on which `q` has a
/// move, the symbol with the destination. `idx_to_data` may hold, for every
/// state, what the state stands for.
#[derive(Debug)]
pub struct DFA<T> {
    pub num_states: usize,
    pub start_state: usize,
    pub end_states: Vec<usize>,
    pub transitions: Vec<Vec<(char, usize)>>,
    pub alphabet: Vec<char>,
    pub idx_to_data: Option<Vec<T>>,
}

/// Whether `moves` has a move on `c`.
pub open spec fn has_symbol(moves: Seq<(char, usize)>, c: char) -> bool {
    exists|k: int| 0 <= k < moves.len() && (#[trigger] moves[k]).0 == c
}

/// The destination of the move on `c` in `moves`.
pub open spec fn destination(moves: Seq<(char, usize)>, c: char) -> usize
    recommends
        has_symbol(moves, c),
{
    moves[choose|k: int| 0 <= k < moves.len() && (#[trigger] moves[k]).0 == c].1
}

/// Whether no symbol has two moves in `moves`.
pub open spec fn distinct_symbols(moves: Seq<(char, usize)>) -> bool {
    forall|j: int, k: int|
        0 <= j < k < moves.len() ==> (#[trigger] moves[j]).0 != (#[trigger] moves[k]).0
}

/// Whether every symbol of `word` is one of `alphabet`.
pub open spec fn word_over(alphabet: Seq<char>, word: Seq<char>) -> bool {
    forall|i: int| 0 <= i < word.len() ==> alphabet.contains(#[trigger] word[i])
}

/// `acc`, followed by the symbols of `moves` that are new to it, each one
/// once, in the order in which they first occur.
pub open spec fn collect_symbols(acc: Seq<char>, moves: Seq<(char, usize)>) -> Seq<char>
    decreases moves.len(),
{
    if moves.len() == 0 {
        acc
    } else {
        let before = collect_symbols(acc, moves.drop_last());
        if before.contains(moves.last().0) {
            before
        } else {
            before.push(moves.last().0)
        }
    }
}

/// The symbols of the moves of `transitions`, each one once, in the order
/// in which they first occur.
pub open spec fn spec_symbols(transitions: Seq<Vec<(char, usize)>>) -> Seq<char>
    decreases transitions.len(),
{
    if transitions.len() == 0 {
        Seq::empty()
    } else {
        collect_symbols(spec_symbols(transitions.drop_last()), transitions.last()@)
    }
}

/// Whether `c` is an element of `list`.
pub fn contains_char(list: &Vec<char>, c: char) -> (b: bool)
    ensures
        b == list@.contains(c),
{
    let mut i: usize = 0;
    while i < list.len()
        invariant
            i <= list@.len(),
            forall|k: int| 0 <= k < i ==> list@[k] != c,
        decreases list@.len() - i,
    {
        if list[i] == c {
            return true;
        }
        i += 1;
    }
    false
}

/// The symbols of the moves of `transitions`, each one once, in the order
/// in which they first occur.
pub fn symbols_of(transitions: &Vec<Vec<(char, usize)>>) -> (alphabet: Vec<char>)
    ensures
        alphabet@ == spec_symbols(transitions@),
{
    let mut alphabet: Vec<char> = Vec::new();
    let mut q: usize = 0;
    while q < transitions.len()
        invariant
            q <= transitions@.len(),
            alphabet@ == spec_symbols(transitions@.subrange(0, q as int)),
        decreases transitions@.len() - q,
    {
        let ghost base = alphabet@;
        let mut k: usize = 0;
        while k < transitions[q].len()
            invariant
                q < transitions@.len(),
                k <= transitions@[q as int]@.len(),
                alphabet@ == collect_symbols(base, transitions@[q as int]@.subrange(0, k as int)),
            decreases transitions@[q as int]@.len() - k,
        {
            let (c, _) = transitions[q][k];
            proof {
                let moves = transitions@[q as int]@;
                assert(moves.subrange(0, k as int + 1).drop_last() == moves.subrange(0, k as int));
            }
            if !contains_char(&alphabet, c) {
                alphabet.push(c);
            }
            k += 1;
        }
        proof {
            let moves = transitions@[q as int]@;
            assert(moves.subrange(0, k as int) == moves);
            let longer = transitions@.subrange(0, q as int + 1);
            assert(longer.drop_last() == transitions@.subrange(0, q as int));
            assert(longer.last() == transitions@[q as int]);
        }
        q += 1;
    }
    assert(transitions@.subrange(0, q as int) == transitions@);
    alphabet
}

impl<T> DFA<T> {
    /// The state reached from `q` on `c`, if `q` has a move on `c`.
    pub open spec fn delta(&self, q: nat, c: char) -> Option<nat> {
        if q < self.transitions@.len() && has_symbol(self.transitions@[q as int]@, c) {
            Some(destination(self.transitions@[q as int]@, c) as nat)
        } else {
            None
        }
    }

    /// Whether `state` is accepting.
    pub open spec fn is_final(&self, state: nat) -> bool {
        exists|i: int| 0 <= i < self.end_states@.len() && #[trigger] self.end_states@[i] == state
    }

    /// The automaton is well formed: every state that is named exists, a
    /// state has at most one move on a symbol, and only on symbols of the
    /// alphabet; no symbol and no accepting state is listed twice.
    pub open spec fn wf(&self) -> bool {
        &&& self.transitions@.len() == self.num_states
        &&& self.start_state < self.num_states
        &&& forall|i: int|
            0 <= i < self.end_states@.len() ==> #[trigger] self.end_states@[i] < self.num_states
        &&& self.end_states@.no_duplicates()
        &&& self.alphabet@.no_duplicates()
        &&& forall|q: int|
            0 <= q < self.transitions@.len() ==> distinct_symbols(
                #[trigger] self.transitions@[q]@,
            )
        &&& forall|q: int, k: int|
            0 <= q < self.transitions@.len() && 0 <= k < self.transitions@[q]@.len() ==> {
                &&& (#[trigger] self.transitions@[q]@[k]).1 < self.num_states
                &&& self.alphabet@.contains(self.transitions@[q]@[k].0)
            }
    }

    /// Whether every state has a move on every symbol of the alphabet.
    pub open spec fn total(&self) -> bool {
        forall|q: int, i: int|
            0 <= q < self.transitions@.len() && 0 <= i < self.alphabet@.len() ==> has_symbol(
                #[trigger] self.transitions@[q]@,
                #[trigger] self.alphabet@[i],
            )
    }

    /// The state in which the automaton is after it has read `word` in `q`,
    /// if it has a move for every symbol on the way.
    pub open spec fn run(&self, q: nat, word: Seq<char>) -> Option<nat>
        decreases word.len(),
    {
        if word.len() == 0 {
            Some(q)
        } else {
            match self.delta(q, word[0]) {
                Some(next) => self.run(next, word.drop_first()),
                None => None,
            }
        }
    }

    /// Whether `word` leads from `q` to an accepting state.
    pub open spec fn accepts_from(&self, q: nat, word: Seq<char>) -> bool {
        match self.run(q, word) {
            Some(end) => self.is_final(end),
            None => false,
        }
    }

    /// Whether the automaton accepts `word`.
    pub open spec fn accepts_word(&self, word: Seq<char>) -> bool {
        self.accepts_from(self.start_state as nat, word)
    }

    /// The move on a symbol is the one move that is listed for it.
    pub proof fn lemma_delta(&self, q: int, k: int)
        requires
            0 <= q < self.transitions@.len(),
            0 <= k < self.transitions@[q]@.len(),
            distinct_symbols(self.transitions@[q]@),
        ensures
            self.delta(q as nat, self.transitions@[q]@[k].0) == Some(
                self.transitions@[q]@[k].1 as nat,
            ),
    {
        let moves = self.transitions@[q]@;
        let c = moves[k].0;
        let j = choose|j: int| 0 <= j < moves.len() && (#[trigger] moves[j]).0 == c;
        assert(j == k) by {
            if j < k {
                assert(moves[j].0 != moves[k].0);
            } else if k < j {
                assert(moves[k].0 != moves[j].0);
            }
        }
    }

    /// In a well-formed automaton every move leads to a state.
    pub proof fn lemma_delta_in_range(&self, q: nat, c: char)
        requires
            self.wf(),
            self.delta(q, c) is Some,
        ensures
            self.delta(q, c)->Some_0 < self.num_states,
            self.alphabet@.contains(c),
    {
        let moves = self.transitions@[q as int]@;
        let j = choose|j: int| 0 <= j < moves.len() && (#[trigger] moves[j]).0 == c;
        assert(self.transitions@[q as int]@[j].1 < self.num_states);
    }

    /// An automaton with the given states and moves. Where `alphabet` is
    /// not given, it is made of the symbols of the moves, in the order in
    /// which they first occur.
    pub fn from_state(
        num_states: usize,
        start_state: usize,
        end_states: Vec<usize>,
        transitions: Vec<Vec<(char, usize)>>,
        alphabet: Option<Vec<char>>,
    ) -> (dfa: Self)
        ensures
            dfa.num_states == num_states,
            dfa.start_state == start_state,
            dfa.end_states == end_states,
            dfa.transitions == transitions,
            dfa.alphabet@ == match alphabet {
                Some(given) => given@,
                None => spec_symbols(transitions@),
            },
            dfa.idx_to_data is None,
    {
        let alphabet = match alphabet {
            Some(given) => given,
            None => symbols_of(&transitions),
        };
        Self { num_states, start_state, end_states, transitions, alphabet, idx_to_data: None }
    }

    pub fn get_start_state(&self) -> (start: usize)
        ensures
            start == self.start_state,
    {
        self.start_state
    }

    pub fn get_end_states(&self) -> (end_states: &Vec<usize>)
        ensures
            end_states == self.end_states,
    {
        &self.end_states
    }

    pub fn get_transitions(&self) -> (transitions: &Vec<Vec<(char, usize)>>)
        ensures
            transitions == self.transitions,
    {
        &self.transitions
    }

    /// The state reached from `state` on `input`.
    pub fn make_move(&self, state: usize, input: char) -> (next: usize)
        requires
            state < self.transitions@.len(),
            distinct_symbols(self.transitions@[state as int]@),
            self.delta(state as nat, input) is Some,
        ensures
            self.delta(state as nat, input) == Some(next as nat),
    {
        let mut k: usize = 0;
        let len = self.transitions[state].len();
        loop
            invariant
                len == self.transitions@[state as int]@.len(),
                state < self.transitions@.len(),
                distinct_symbols(self.transitions@[state as int]@),
                k <= self.transitions@[state as int]@.len(),
                has_symbol(self.transitions@[state as int]@, input),
                forall|j: int| 0 <= j < k ==> (#[trigger] self.transitions@[state as int]@[j]).0 != input,
            decreases self.transitions@[state as int]@.len() - k,
        {
            proof {
                let moves = self.transitions@[state as int]@;
                let j = choose|j: int| 0 <= j < moves.len() && (#[trigger] moves[j]).0 == input;
                assert(k <= j);
            }
            let (symbol, dest) = self.transitions[state][k];
            if symbol == input {
                proof {
                    self.lemma_delta(state as int, k as int);
                }
                return dest;
            }
            k += 1;
        }
    }

    /// The state reached from `state` on `input`, if there is a move.
    pub fn try_move(&self, state: usize, input: char) -> (next: Option<usize>)
        requires
            state < self.transitions@.len(),
            distinct_symbols(self.transitions@[state as int]@),
        ensures
            match next {
                Some(next) => self.delta(state as nat, input) == Some(next as nat),
                None => self.delta(state as nat, input) is None,
            },
    {
        let mut k: usize = 0;
        while k < self.transitions[state].len()
            invariant
                state < self.transitions@.len(),
                distinct_symbols(self.transitions@[state as int]@),
                k <= self.transitions@[state as int]@.len(),
                forall|j: int| 0 <= j < k ==> (#[trigger] self.transitions@[state as int]@[j]).0 != input,
            decreases self.transitions@[state as int]@.len() - k,
        {
            let (symbol, dest) = self.transitions[state][k];
            if symbol == input {
                proof {
                    self.lemma_delta(state as int, k as int);
                }
                return Some(dest);
            }
            k += 1;
        }
        None
    }

    /// Whether `state` is accepting.
    pub fn is_final_state(&self, state: usize) -> (b: bool)
        ensures
            b == self.is_final(state as nat),
    {
        let mut i: usize = 0;
        while i < self.end_states.len()
            invariant
                i <= self.end_states@.len(),
                forall|k: int| 0 <= k < i ==> self.end_states@[k] != state,
            decreases self.end_states@.len() - i,
        {
            if self.end_states[i] == state {
                return true;
            }
            i += 1;
        }
        false
    }

    /// Whether the automaton accepts `word`. A symbol without a move
    /// rejects the word.
    pub fn accepts(&self, word: &Vec<char>) -> (b: bool)
        requires
            self.wf(),
        ensures
            b == self.accepts_word(word@),
    {
        let mut state = self.start_state;
        let mut i: usize = 0;
        assert(word@.subrange(0, word@.len() as int) == word@);
        while i < word.len()
            invariant
                self.wf(),
                i <= word@.len(),
                state < self.num_states,
                self.accepts_word(word@) == self.accepts_from(
                    state as nat,
                    word@.subrange(i as int, word@.len() as int),
                ),
            decreases word@.len() - i,
        {
            let ghost rest = word@.subrange(i as int, word@.len() as int);
            proof {
                assert(rest.drop_first() == word@.subrange(i as int + 1, word@.len() as int));
                assert(rest[0] == word@[i as int]);
            }
            match self.try_move(state, word[i]) {
                Some(next) => {
                    proof {
                        self.lemma_delta_in_range(state as nat, word@[i as int]);
                    }
                    state = next;
                },
                None => {
                    return false;
                },
            }
            i += 1;
        }
        self.is_final_state(state)
    }
}

/// Whether no character occurs twice in `list`.
pub fn distinct_chars(list: &Vec<char>) -> (b: bool)
    ensures
        b == list@.no_duplicates(),
{
    let mut i: usize = 0;
    while i < list.len()
        invariant
            i <= list@.len(),
            forall|a: int, c: int| 0 <= a < c < i ==> list@[a] != list@[c],
        decreases list@.len() - i,
    {
        let mut j: usize = 0;
        while j < i
            invariant
                i < list@.len(),
                j <= i,
                forall|a: int| 0 <= a < j ==> list@[a] != list@[i as int],
            decreases i - j,
        {
            if list[j] == list[i] {
                return false;
            }
            j += 1;
        }
        i += 1;
    }
    true
}

/// Whether no number occurs twice in `list`.
pub fn distinct_indices(list: &Vec<usize>) -> (b: bool)
    ensures
        b == list@.no_duplicates(),
{
    let mut i: usize = 0;
    while i < list.len()
        invariant
            i <= list@.len(),
            forall|a: int, c: int| 0 <= a < c < i ==> list@[a] != list@[c],
        decreases list@.len() - i,
    {
        let mut j: usize = 0;
        while j < i
            invariant
                i < list@.len(),
                j <= i,
                forall|a: int| 0 <= a < j ==> list@[a] != list@[i as int],
            decreases i - j,
        {
            if list[j] == list[i] {
                return false;
            }
            j += 1;
        }
        i += 1;
    }
    true
}

/// Whether `moves` has a move on `c`.
pub fn has_move_on(moves: &Vec<(char, usize)>, c: char) -> (b: bool)
    ensures
        b == has_symbol(moves@, c),
{
    let mut k: usize = 0;
    while k < moves.len()
        invariant
            k <= moves@.len(),
            forall|j: int| 0 <= j < k ==> (#[trigger] moves@[j]).0 != c,
        decreases moves@.len() - k,
    {
        if moves[k].0 == c {
            return true;
        }
        k += 1;
    }
    false
}

impl<T> DFA<T> {
    /// Whether the moves of `row` are in order: no symbol twice, and each
    /// move on a symbol of the alphabet to a state.
    pub open spec fn row_wf(&self, row: Seq<(char, usize)>) -> bool {
        &&& distinct_symbols(row)
        &&& forall|k: int|
            0 <= k < row.len() ==> (#[trigger] row[k]).1 < self.num_states
                && self.alphabet@.contains(row[k].0)
    }

    /// Whether the moves of `row` are in order.
    fn is_row_wf(&self, row: &Vec<(char, usize)>) -> (b: bool)
        ensures
            b == self.row_wf(row@),
    {
        let mut k: usize = 0;
        while k < row.len()
            invariant
                k <= row@.len(),
                forall|a: int, c: int|
                    0 <= a < c < k ==> (#[trigger] row@[a]).0 != (#[trigger] row@[c]).0,
                forall|a: int|
                    0 <= a < k ==> (#[trigger] row@[a]).1 < self.num_states
                        && self.alphabet@.contains(row@[a].0),
            decreases row@.len() - k,
        {
            let (symbol, dest) = row[k];
            if dest >= self.num_states || !contains_char(&self.alphabet, symbol) {
                return false;
            }
            let mut j: usize = 0;
            while j < k
                invariant
                    k < row@.len(),
                    j <= k,
                    symbol == row@[k as int].0,
                    forall|a: int| 0 <= a < j ==> (#[trigger] row@[a]).0 != symbol,
                decreases k - j,
            {
                if row[j].0 == symbol {
                    return false;
                }
                j += 1;
            }
            k += 1;
        }
        true
    }

    /// Whether the automaton is well formed.
    pub fn is_well_formed(&self) -> (b: bool)
        ensures
            b == self.wf(),
    {
        if self.transitions.len() != self.num_states || self.start_state >= self.num_states {
            return false;
        }
        if !distinct_indices(&self.end_states) || !distinct_chars(&self.alphabet) {
            return false;
        }
        let mut i: usize = 0;
        while i < self.end_states.len()
            invariant
                i <= self.end_states@.len(),
                forall|k: int| 0 <= k < i ==> #[trigger] self.end_states@[k] < self.num_states,
            decreases self.end_states@.len() - i,
        {
            if self.end_states[i] >= self.num_states {
                return false;
            }
            i += 1;
        }
        let mut q: usize = 0;
        while q < self.transitions.len()
            invariant
                q <= self.transitions@.len(),
                forall|p: int| 0 <= p < q ==> self.row_wf((#[trigger] self.transitions@[p])@),
            decreases self.transitions@.len() - q,
        {
            if !self.is_row_wf(&self.transitions[q]) {
                proof {
                    let row = self.transitions@[q as int]@;
                    if self.wf() {
                        assert(distinct_symbols(self.transitions@[q as int]@));
                        assert forall|k: int| 0 <= k < row.len() implies (#[trigger] row[k]).1
                            < self.num_states && self.alphabet@.contains(row[k].0) by {
                            assert(self.transitions@[q as int]@[k].1 < self.num_states);
                        }
                    }
                }
                return false;
            }
            q += 1;
        }
        proof {
            assert forall|p: int| 0 <= p < self.transitions@.len() implies distinct_symbols(
                #[trigger] self.transitions@[p]@,
            ) by {
                assert(self.row_wf(self.transitions@[p]@));
            }
            assert forall|p: int, k: int|
                0 <= p < self.transitions@.len() && 0 <= k < self.transitions@[p]@.len() implies {
                &&& (#[trigger] self.transitions@[p]@[k]).1 < self.num_states
                &&& self.alphabet@.contains(self.transitions@[p]@[k].0)
            } by {
                assert(self.row_wf(self.transitions@[p]@));
            }
        }
        true
    }

    /// Whether every state has a move on every symbol of the alphabet.
    pub fn is_total(&self) -> (b: bool)
        ensures
            b == self.total(),
    {
        let mut q: usize = 0;
        while q < self.transitions.len()
            invariant
                q <= self.transitions@.len(),
                forall|p: int, i: int|
                    0 <= p < q && 0 <= i < self.alphabet@.len() ==> has_symbol(
                        #[trigger] self.transitions@[p]@,
                        #[trigger] self.alphabet@[i],
                    ),
            decreases self.transitions@.len() - q,
        {
            let mut i: usize = 0;
            while i < self.alphabet.len()
                invariant
                    q < self.transitions@.len(),
                    i <= self.alphabet@.len(),
                    forall|j: int|
                        0 <= j < i ==> has_symbol(
                            self.transitions@[q as int]@,
                            #[trigger] self.alphabet@[j],
                        ),
                decreases self.alphabet@.len() - i,
            {
                if !has_move_on(&self.transitions[q], self.alphabet[i]) {
                    return false;
                }
                i += 1;
            }
            q += 1;
        }
        true
    }
}

} // verus!
