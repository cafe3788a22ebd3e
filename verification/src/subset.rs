//! The subset construction: a deterministic automaton whose states are the
//! sets of states that a nondeterministic automaton can be in.
use vstd::prelude::*;
use crate::dfa::{distinct_symbols, has_symbol, word_over, DFA};
use crate::nfa::NFA;
use crate::regular_expression::{spec_size, ReOperator};
use crate::state_set::{
    ascending, bits_set, bits_to_states, find_bits, lemma_bits_set_injective,
    lemma_distinct_bits_bounded, list_set, two_to,
};

verus! {

/// A set of states of a nondeterministic automaton, in increasing order.
pub type NfaStates = Vec<usize>;

/// Whether `row` lists, for the first `upto` symbols of `alphabet` in turn,
/// the symbol with the place of the set that the automaton `nfa` reaches on
/// it from the set at place `i`.
pub open spec fn is_subset_row(
    nfa: &NFA,
    alphabet: Seq<char>,
    subsets: Seq<Vec<bool>>,
    i: int,
    row: Seq<(char, usize)>,
    upto: int,
) -> bool {
    &&& row.len() == upto
    &&& forall|k: int|
        0 <= k < upto ==> {
            &&& (#[trigger] row[k]).0 == alphabet[k]
            &&& row[k].1 < subsets.len()
            &&& bits_set(subsets[row[k].1 as int]@) == nfa.spec_step(
                bits_set(subsets[i]@),
                alphabet[k],
            )
        }
}

/// Whether a move leads to `j` from a state with a lower number.
pub open spec fn has_lower_source(transitions: Seq<Vec<(char, usize)>>, j: int) -> bool {
    exists|i: int, k: int|
        0 <= i < j && i < transitions.len() && 0 <= k < transitions[i]@.len() && (
        #[trigger] transitions[i]@[k]).1 == j
}

/// A row stays what it is when one more set is added.
pub proof fn lemma_subset_row_extend(
    nfa: &NFA,
    alphabet: Seq<char>,
    before: Seq<Vec<bool>>,
    after: Seq<Vec<bool>>,
    i: int,
    row: Seq<(char, usize)>,
    upto: int,
)
    requires
        0 <= i < before.len(),
        before.len() <= after.len(),
        forall|j: int| 0 <= j < before.len() ==> before[j] == after[j],
        is_subset_row(nfa, alphabet, before, i, row, upto),
    ensures
        is_subset_row(nfa, alphabet, after, i, row, upto),
{
    assert forall|k: int| 0 <= k < upto implies {
        &&& (#[trigger] row[k]).0 == alphabet[k]
        &&& row[k].1 < after.len()
        &&& bits_set(after[row[k].1 as int]@) == nfa.spec_step(bits_set(after[i]@), alphabet[k])
    } by {
        assert(before[row[k].1 as int] == after[row[k].1 as int]);
    }
}

impl DFA<NfaStates> {
    /// Whether `self` is the automaton of the subset construction for
    /// `nfa`: every state stands for a set of states of `nfa`, no two for
    /// the same; the start stands for what `nfa` reaches from its start by
    /// reading nothing; a symbol leads from a state to the state of the set
    /// that `nfa` reaches on it; a state is accepting if its set holds an
    /// accepting state; and every state but the start is reached from one
    /// with a lower number.
    pub open spec fn is_subset_construction_of(&self, nfa: &NFA) -> bool {
        &&& self.alphabet@ == nfa.used_alphabet.items@
        &&& self.start_state == 0
        &&& self.transitions@.len() == self.num_states
        &&& self.idx_to_data is Some
        &&& self.subsets().len() == self.num_states
        &&& forall|i: int|
            0 <= i < self.num_states ==> ascending((#[trigger] self.subsets()[i])@)
        &&& self.num_states > 0
        &&& list_set(self.subsets()[0]@) == nfa.spec_initial()
        &&& forall|i: int|
            0 <= i < self.num_states ==> (#[trigger] self.transitions@[i])@.len()
                == self.alphabet@.len()
        &&& forall|i: int, k: int|
            0 <= i < self.num_states && 0 <= k < self.alphabet@.len() ==> {
                &&& (#[trigger] self.transitions@[i]@[k]).0 == self.alphabet@[k]
                &&& self.transitions@[i]@[k].1 < self.num_states
                &&& list_set(self.subsets()[self.transitions@[i]@[k].1 as int]@) == nfa.spec_step(
                    list_set(self.subsets()[i]@),
                    self.alphabet@[k],
                )
            }
        &&& forall|i: int, j: int|
            0 <= i < j < self.num_states ==> list_set((#[trigger] self.subsets()[i])@) != list_set(
                (#[trigger] self.subsets()[j])@,
            )
        &&& forall|i: int|
            0 <= i < self.num_states ==> (self.is_final(i as nat) <==> nfa.spec_contains_final(
                list_set((#[trigger] self.subsets()[i])@),
            ))
        &&& forall|j: int| 0 < j < self.num_states ==> #[trigger] has_lower_source(self.transitions@, j)
    }

    /// The sets that the states stand for.
    pub open spec fn subsets(&self) -> Seq<Vec<usize>> {
        self.idx_to_data->Some_0@
    }
}

/// What the subset construction has built so far: the sets found, as bit
/// vectors and as lists, the rows of moves, the accepting states and the
/// states whose row is still to be made.
pub struct Construction {
    pub subsets: Seq<Vec<bool>>,
    pub data: Seq<Vec<usize>>,
    pub transitions: Seq<Vec<(char, usize)>>,
    pub end_states: Seq<usize>,
    pub queue: Seq<usize>,
}

/// Whether the row of the state `i` is as far as it should be: the first
/// `upto` moves for `current`, none for a state in the queue, and all for
/// any other.
pub open spec fn row_in_order(
    nfa: &NFA,
    alphabet: Seq<char>,
    c: Construction,
    current: int,
    upto: int,
    i: int,
) -> bool {
    if i == current {
        is_subset_row(nfa, alphabet, c.subsets, i, c.transitions[i]@, upto)
    } else if c.queue.contains(i as usize) {
        c.transitions[i]@.len() == 0
    } else {
        is_subset_row(nfa, alphabet, c.subsets, i, c.transitions[i]@, alphabet.len() as int)
    }
}

/// Whether the construction `c` for `nfa` is in order, while the row of the
/// state `current` has its first `upto` moves (`current` is -1 between two
/// rows).
///
/// The sets are different bit vectors over the states of `nfa`, listed also
/// in increasing order; the first is what `nfa` reaches from its start by
/// reading nothing. A state in the queue has no moves yet and is not among
/// the accepting states; every other state has its full row, and is among
/// the accepting states if and only if its set holds an accepting state.
/// Every state but the first is the destination of a move of a state with
/// a lower number.
pub open spec fn building(
    nfa: &NFA,
    alphabet: Seq<char>,
    c: Construction,
    current: int,
    upto: int,
) -> bool {
    let m = c.subsets.len();
    &&& m >= 1
    &&& c.data.len() == m
    &&& c.transitions.len() == m
    &&& m <= two_to(nfa.num_states as nat)
    &&& m <= usize::MAX
    &&& forall|i: int|
        0 <= i < m ==> {
            &&& (#[trigger] c.subsets[i])@.len() == nfa.num_states
            &&& ascending(c.data[i]@)
            &&& list_set(c.data[i]@) == bits_set(c.subsets[i]@)
        }
    &&& forall|i: int, j: int|
        0 <= i < j < m ==> (#[trigger] c.subsets[i])@ != (#[trigger] c.subsets[j])@
    &&& bits_set(c.subsets[0]@) == nfa.spec_initial()
    &&& c.queue.no_duplicates()
    &&& forall|x: usize| #[trigger] c.queue.contains(x) ==> x < m && x != current
    &&& forall|i: int| 0 <= i < m ==> #[trigger] row_in_order(nfa, alphabet, c, current, upto, i)
    &&& c.end_states.no_duplicates()
    &&& forall|e: usize| #[trigger] c.end_states.contains(e) ==> e < m && !c.queue.contains(e)
    &&& forall|i: usize|
        i < m && !c.queue.contains(i) ==> (#[trigger] c.end_states.contains(i)
            <==> nfa.spec_contains_final(bits_set(c.subsets[i as int]@)))
    &&& forall|j: int| 0 < j < m ==> #[trigger] has_lower_source(c.transitions, j)
}

/// Taking the last state of the queue as the next to get its row, and
/// listing it as accepting if its set holds an accepting state, keeps the
/// construction in order.
pub proof fn lemma_building_pop(
    nfa: &NFA,
    alphabet: Seq<char>,
    before: Construction,
    after: Construction,
)
    requires
        building(nfa, alphabet, before, -1, 0),
        before.queue.len() > 0,
        after.subsets == before.subsets,
        after.data == before.data,
        after.transitions == before.transitions,
        after.queue == before.queue.drop_last(),
        after.end_states == if nfa.spec_contains_final(
            bits_set(before.subsets[before.queue.last() as int]@),
        ) {
            before.end_states.push(before.queue.last())
        } else {
            before.end_states
        },
    ensures
        building(nfa, alphabet, after, before.queue.last() as int, 0),
        before.queue.last() < before.subsets.len(),
{
    let current = before.queue.last();
    let m = before.subsets.len();
    assert(before.queue[before.queue.len() - 1] == current);
    assert(before.queue.contains(current));
    assert forall|x: usize| #[trigger] after.queue.contains(x) implies before.queue.contains(x)
        && x != current by {
        let k = choose|k: int| 0 <= k < after.queue.len() && after.queue[k] == x;
        assert(before.queue[k] == x);
    }
    assert forall|x: usize| x != current && before.queue.contains(x) implies after.queue.contains(
        x,
    ) by {
        let k = choose|k: int| 0 <= k < before.queue.len() && before.queue[k] == x;
        assert(after.queue[k] == x);
    }
    assert(!before.end_states.contains(current));
    assert forall|e: usize| #[trigger] after.end_states.contains(e) implies e < m
        && !after.queue.contains(e) by {
        if e != current {
            let k = choose|k: int| 0 <= k < after.end_states.len() && after.end_states[k] == e;
            assert(before.end_states[k] == e);
            assert(before.end_states.contains(e));
        }
    }
    assert forall|i: usize| i < m && !after.queue.contains(i) implies (
    #[trigger] after.end_states.contains(i) <==> nfa.spec_contains_final(
        bits_set(after.subsets[i as int]@),
    )) by {
        if i == current {
            if nfa.spec_contains_final(bits_set(before.subsets[current as int]@)) {
                assert(after.end_states[before.end_states.len() as int] == current);
            } else {
            }
        } else {
            assert(!before.queue.contains(i));
            if before.end_states.contains(i) {
                let k = choose|k: int|
                    0 <= k < before.end_states.len() && before.end_states[k] == i;
                assert(after.end_states[k] == i);
            }
            if after.end_states.contains(i) {
                let k = choose|k: int| 0 <= k < after.end_states.len() && after.end_states[k] == i;
                assert(before.end_states[k] == i);
            }
        }
    }
    assert forall|i: int| 0 <= i < m implies #[trigger] row_in_order(
        nfa,
        alphabet,
        after,
        current as int,
        0,
        i,
    ) by {
        assert(row_in_order(nfa, alphabet, before, -1, 0, i));
        if i == current {
            assert(before.queue.contains(i as usize));
        } else if after.queue.contains(i as usize) {
            assert(before.queue.contains(i as usize));
        } else {
            assert(!before.queue.contains(i as usize));
        }
    }
}

/// Adding to the row of `current` the move on the next symbol, to a state
/// that exists, keeps the construction in order.
pub proof fn lemma_building_known(
    nfa: &NFA,
    alphabet: Seq<char>,
    before: Construction,
    after: Construction,
    current: usize,
    upto: int,
    next: usize,
)
    requires
        building(nfa, alphabet, before, current as int, upto),
        current < before.subsets.len(),
        0 <= upto < alphabet.len(),
        next < before.subsets.len(),
        bits_set(before.subsets[next as int]@) == nfa.spec_step(
            bits_set(before.subsets[current as int]@),
            alphabet[upto],
        ),
        after.subsets == before.subsets,
        after.data == before.data,
        after.queue == before.queue,
        after.end_states == before.end_states,
        after.transitions.len() == before.transitions.len(),
        after.transitions[current as int]@ == before.transitions[current as int]@.push(
            (alphabet[upto], next),
        ),
        forall|i: int|
            0 <= i < before.transitions.len() && i != current ==> after.transitions[i]
                == before.transitions[i],
    ensures
        building(nfa, alphabet, after, current as int, upto + 1),
{
    let m = before.subsets.len();
    assert forall|i: int| 0 <= i < m implies #[trigger] row_in_order(
        nfa,
        alphabet,
        after,
        current as int,
        upto + 1,
        i,
    ) by {
        assert(row_in_order(nfa, alphabet, before, current as int, upto, i));
        if i == current {
            let row = after.transitions[i]@;
            let old_row = before.transitions[i]@;
            assert forall|k: int| 0 <= k < upto + 1 implies {
                &&& (#[trigger] row[k]).0 == alphabet[k]
                &&& row[k].1 < after.subsets.len()
                &&& bits_set(after.subsets[row[k].1 as int]@) == nfa.spec_step(
                    bits_set(after.subsets[i]@),
                    alphabet[k],
                )
            } by {
                if k < upto {
                    assert(row[k] == old_row[k]);
                }
            }
        } else {
            assert(after.transitions[i] == before.transitions[i]);
        }
    }
    assert forall|j: int| 0 < j < m implies #[trigger] has_lower_source(after.transitions, j) by {
        lemma_lower_source_kept(before.transitions, after.transitions, current as int, j);
    }
}

/// A state that is reached from a lower state is still reached when a row
/// gets one more move, or when a row is added.
pub proof fn lemma_lower_source_kept(
    before: Seq<Vec<(char, usize)>>,
    after: Seq<Vec<(char, usize)>>,
    current: int,
    j: int,
)
    requires
        has_lower_source(before, j),
        before.len() <= after.len(),
        0 <= current < before.len(),
        after[current]@.len() == before[current]@.len() + 1,
        forall|k: int| 0 <= k < before[current]@.len() ==> after[current]@[k] == before[current]@[k],
        forall|i: int| 0 <= i < before.len() && i != current ==> after[i] == before[i],
    ensures
        has_lower_source(after, j),
{
    let (i, k) = choose|i: int, k: int|
        0 <= i < j && i < before.len() && 0 <= k < before[i]@.len() && (
        #[trigger] before[i]@[k]).1 == j;
    assert(after[i]@[k].1 == j);
}

/// Adding a new state for a set that was not found yet, with the move to
/// it in the row of `current`, keeps the construction in order.
pub proof fn lemma_building_new(
    nfa: &NFA,
    alphabet: Seq<char>,
    before: Construction,
    after: Construction,
    current: usize,
    upto: int,
)
    requires
        building(nfa, alphabet, before, current as int, upto),
        current < before.subsets.len(),
        0 <= upto < alphabet.len(),
        before.subsets.len() < usize::MAX,
        after.subsets.len() == before.subsets.len() + 1,
        forall|i: int| 0 <= i < before.subsets.len() ==> after.subsets[i] == before.subsets[i],
        forall|i: int|
            0 <= i < before.subsets.len() ==> (#[trigger] before.subsets[i])@
                != after.subsets.last()@,
        after.subsets.last()@.len() == nfa.num_states,
        bits_set(after.subsets.last()@) == nfa.spec_step(
            bits_set(before.subsets[current as int]@),
            alphabet[upto],
        ),
        after.data.len() == before.data.len() + 1,
        forall|i: int| 0 <= i < before.data.len() ==> after.data[i] == before.data[i],
        ascending(after.data.last()@),
        list_set(after.data.last()@) == bits_set(after.subsets.last()@),
        after.queue == before.queue.push(before.subsets.len() as usize),
        after.end_states == before.end_states,
        after.transitions.len() == before.transitions.len() + 1,
        after.transitions.last()@.len() == 0,
        after.transitions[current as int]@ == before.transitions[current as int]@.push(
            (alphabet[upto], before.subsets.len() as usize),
        ),
        forall|i: int|
            0 <= i < before.transitions.len() && i != current ==> after.transitions[i]
                == before.transitions[i],
    ensures
        building(nfa, alphabet, after, current as int, upto + 1),
{
    let m = before.subsets.len();
    let fresh = m as usize;
    assert(after.subsets.last() == after.subsets[m as int]);
    assert(after.data.last() == after.data[m as int]);
    assert(after.transitions.last() == after.transitions[m as int]);
    assert(m + 1 <= two_to(nfa.num_states as nat)) by {
        assert forall|i: int, j: int| 0 <= i < j < after.subsets.len() implies (
        #[trigger] after.subsets[i])@ != (#[trigger] after.subsets[j])@ by {
            if j < m {
                assert(before.subsets[i]@ != before.subsets[j]@);
            } else {
                assert(before.subsets[i]@ != after.subsets.last()@);
            }
        }
        assert forall|i: int| 0 <= i < after.subsets.len() implies (#[trigger] after.subsets[i])@.len()
            == nfa.num_states by {
            if i < m {
                assert(before.subsets[i]@.len() == nfa.num_states);
            }
        }
        lemma_distinct_bits_bounded(after.subsets, nfa.num_states as nat);
    }
    assert forall|i: int| 0 <= i < m + 1 implies {
        &&& (#[trigger] after.subsets[i])@.len() == nfa.num_states
        &&& ascending(after.data[i]@)
        &&& list_set(after.data[i]@) == bits_set(after.subsets[i]@)
    } by {
        if i < m {
            assert(before.subsets[i]@.len() == nfa.num_states);
        }
    }
    assert forall|i: int, j: int| 0 <= i < j < m + 1 implies (#[trigger] after.subsets[i])@ != (
    #[trigger] after.subsets[j])@ by {
        if j < m {
            assert(before.subsets[i]@ != before.subsets[j]@);
        } else {
            assert(before.subsets[i]@ != after.subsets.last()@);
        }
    }
    assert(!before.queue.contains(fresh));
    assert(after.queue.no_duplicates()) by {
        assert forall|a: int, b: int|
            0 <= a < after.queue.len() && 0 <= b < after.queue.len() && a != b implies after.queue[a]
            != after.queue[b] by {
            if a < before.queue.len() && b < before.queue.len() {
                assert(before.queue[a] != before.queue[b]);
            } else if a < before.queue.len() {
                assert(before.queue.contains(before.queue[a]));
            } else {
                assert(before.queue.contains(before.queue[b]));
            }
        }
    }
    assert forall|x: usize| #[trigger] after.queue.contains(x) implies x < m + 1 && x
        != current by {
        let k = choose|k: int| 0 <= k < after.queue.len() && after.queue[k] == x;
        if k < before.queue.len() {
            assert(before.queue[k] == x);
            assert(before.queue.contains(x));
        }
    }
    assert forall|x: usize| before.queue.contains(x) implies after.queue.contains(x) by {
        let k = choose|k: int| 0 <= k < before.queue.len() && before.queue[k] == x;
        assert(after.queue[k] == x);
    }
    assert(after.queue[before.queue.len() as int] == fresh);
    assert(after.queue.contains(fresh));
    assert forall|x: usize| x != fresh && after.queue.contains(x) implies before.queue.contains(
        x,
    ) by {
        let k = choose|k: int| 0 <= k < after.queue.len() && after.queue[k] == x;
        assert(before.queue[k] == x);
    }
    assert forall|i: int| 0 <= i < m + 1 implies #[trigger] row_in_order(
        nfa,
        alphabet,
        after,
        current as int,
        upto + 1,
        i,
    ) by {
        if i == current {
            assert(row_in_order(nfa, alphabet, before, current as int, upto, i));
            let row = after.transitions[i]@;
            let old_row = before.transitions[i]@;
            lemma_subset_row_extend(nfa, alphabet, before.subsets, after.subsets, i, old_row, upto);
            assert forall|k: int| 0 <= k < upto + 1 implies {
                &&& (#[trigger] row[k]).0 == alphabet[k]
                &&& row[k].1 < after.subsets.len()
                &&& bits_set(after.subsets[row[k].1 as int]@) == nfa.spec_step(
                    bits_set(after.subsets[i]@),
                    alphabet[k],
                )
            } by {
                if k < upto {
                    assert(row[k] == old_row[k]);
                }
            }
        } else if i == fresh {
        } else {
            assert(row_in_order(nfa, alphabet, before, current as int, upto, i));
            assert(after.transitions[i] == before.transitions[i]);
            if before.queue.contains(i as usize) {
            } else {
                lemma_subset_row_extend(
                    nfa,
                    alphabet,
                    before.subsets,
                    after.subsets,
                    i,
                    before.transitions[i]@,
                    alphabet.len() as int,
                );
            }
        }
    }
    assert forall|e: usize| #[trigger] after.end_states.contains(e) implies e < m + 1
        && !after.queue.contains(e) by {
        assert(before.end_states.contains(e));
    }
    assert forall|i: usize| i < m + 1 && !after.queue.contains(i) implies (
    #[trigger] after.end_states.contains(i) <==> nfa.spec_contains_final(
        bits_set(after.subsets[i as int]@),
    )) by {
        assert(!before.queue.contains(i));
    }
    assert forall|j: int| 0 < j < m + 1 implies #[trigger] has_lower_source(
        after.transitions,
        j,
    ) by {
        if j < m {
            lemma_lower_source_kept(before.transitions, after.transitions, current as int, j);
        } else {
            let k = before.transitions[current as int]@.len() as int;
            assert(after.transitions[current as int]@[k].1 == j);
        }
    }
}

/// A construction whose current row is full is in order between two rows.
pub proof fn lemma_building_row_done(
    nfa: &NFA,
    alphabet: Seq<char>,
    c: Construction,
    current: usize,
)
    requires
        building(nfa, alphabet, c, current as int, alphabet.len() as int),
        current < c.subsets.len(),
    ensures
        building(nfa, alphabet, c, -1, 0),
{
    assert forall|i: int| 0 <= i < c.subsets.len() implies #[trigger] row_in_order(
        nfa,
        alphabet,
        c,
        -1,
        0,
        i,
    ) by {
        assert(row_in_order(nfa, alphabet, c, current as int, alphabet.len() as int, i));
        if i == current {
            if c.queue.contains(i as usize) {
                assert(c.queue.contains(current));
            }
        }
    }
}

/// A construction that is in order and has nothing left to do is the
/// subset construction.
pub proof fn lemma_building_finished(nfa: &NFA, c: Construction, dfa: &DFA<NfaStates>)
    requires
        nfa.wf(),
        building(nfa, dfa.alphabet@, c, -1, 0),
        c.queue.len() == 0,
        dfa.alphabet@ == nfa.used_alphabet.items@,
        dfa.num_states == c.subsets.len(),
        dfa.start_state == 0,
        dfa.end_states@ == c.end_states,
        dfa.transitions@ == c.transitions,
        dfa.idx_to_data is Some,
        dfa.subsets() == c.data,
    ensures
        dfa.wf(),
        dfa.total(),
        dfa.is_subset_construction_of(nfa),
{
    let m = c.subsets.len();
    let alphabet = dfa.alphabet@;
    assert forall|i: int| 0 <= i < m implies is_subset_row(
        nfa,
        alphabet,
        c.subsets,
        i,
        (#[trigger] c.transitions[i])@,
        alphabet.len() as int,
    ) by {
        assert(row_in_order(nfa, alphabet, c, -1, 0, i));
        if c.queue.contains(i as usize) {
            let k = choose|k: int| 0 <= k < c.queue.len() && c.queue[k] == i as usize;
        }
    }
    assert forall|i: usize| i < m implies (dfa.is_final(i as nat) <==> nfa.spec_contains_final(
        bits_set(c.subsets[i as int]@),
    )) by {
        if c.queue.contains(i) {
            let k = choose|k: int| 0 <= k < c.queue.len() && c.queue[k] == i;
        }
        assert(c.end_states.contains(i) <==> nfa.spec_contains_final(
            bits_set(c.subsets[i as int]@),
        ));
        if dfa.is_final(i as nat) {
            let l = choose|l: int|
                0 <= l < dfa.end_states@.len() && #[trigger] dfa.end_states@[l] == i as nat;
            assert(c.end_states[l] == i);
        }
        if c.end_states.contains(i) {
            let l = choose|l: int| 0 <= l < c.end_states.len() && c.end_states[l] == i;
            assert(dfa.end_states@[l] == i as nat);
        }
    }
    assert forall|i: int| 0 <= i < dfa.end_states@.len() implies #[trigger] dfa.end_states@[i]
        < dfa.num_states by {
        assert(c.end_states.contains(c.end_states[i]));
    }
    assert(dfa.alphabet@.no_duplicates()) by {
        assert forall|a: int, b: int|
            0 <= a < alphabet.len() && 0 <= b < alphabet.len() && a != b implies alphabet[a]
            != alphabet[b] by {
            if a < b {
                assert(alphabet[a] < alphabet[b]);
            } else {
                assert(alphabet[b] < alphabet[a]);
            }
        }
    }
    assert forall|q: int| 0 <= q < dfa.transitions@.len() implies distinct_symbols(
        #[trigger] dfa.transitions@[q]@,
    ) by {
        let row = c.transitions[q]@;
        assert(is_subset_row(nfa, alphabet, c.subsets, q, row, alphabet.len() as int));
        assert forall|j: int, k: int| 0 <= j < k < row.len() implies (#[trigger] row[j]).0 != (
        #[trigger] row[k]).0 by {
            assert(row[j].0 == alphabet[j]);
            assert(row[k].0 == alphabet[k]);
        }
    }
    assert forall|q: int, k: int|
        0 <= q < dfa.transitions@.len() && 0 <= k < dfa.transitions@[q]@.len() implies {
        &&& (#[trigger] dfa.transitions@[q]@[k]).1 < dfa.num_states
        &&& dfa.alphabet@.contains(dfa.transitions@[q]@[k].0)
    } by {
        let row = c.transitions[q]@;
        assert(is_subset_row(nfa, alphabet, c.subsets, q, row, alphabet.len() as int));
        assert(row[k].0 == alphabet[k]);
    }
    assert forall|q: int, i: int|
        0 <= q < dfa.transitions@.len() && 0 <= i < dfa.alphabet@.len() implies has_symbol(
        #[trigger] dfa.transitions@[q]@,
        #[trigger] dfa.alphabet@[i],
    ) by {
        let row = c.transitions[q]@;
        assert(is_subset_row(nfa, alphabet, c.subsets, q, row, alphabet.len() as int));
        assert(row[i].0 == alphabet[i]);
    }
    assert forall|i: int| 0 <= i < m implies (#[trigger] dfa.transitions@[i])@.len()
        == alphabet.len() by {
        assert(is_subset_row(
            nfa,
            alphabet,
            c.subsets,
            i,
            c.transitions[i]@,
            alphabet.len() as int,
        ));
    }
    assert forall|i: int, k: int| 0 <= i < m && 0 <= k < alphabet.len() implies {
        &&& (#[trigger] dfa.transitions@[i]@[k]).0 == alphabet[k]
        &&& dfa.transitions@[i]@[k].1 < dfa.num_states
        &&& list_set(dfa.subsets()[dfa.transitions@[i]@[k].1 as int]@) == nfa.spec_step(
            list_set(dfa.subsets()[i]@),
            alphabet[k],
        )
    } by {
        let row = c.transitions[i]@;
        assert(is_subset_row(nfa, alphabet, c.subsets, i, row, alphabet.len() as int));
        let d = row[k].1 as int;
        assert(c.subsets[d]@.len() == nfa.num_states);
        assert(c.subsets[i]@.len() == nfa.num_states);
    }
    assert forall|i: int, j: int| 0 <= i < j < m implies list_set(
        (#[trigger] dfa.subsets()[i])@,
    ) != list_set((#[trigger] dfa.subsets()[j])@) by {
        assert(c.subsets[i]@ != c.subsets[j]@);
        if bits_set(c.subsets[i]@) == bits_set(c.subsets[j]@) {
            lemma_bits_set_injective(c.subsets[i]@, c.subsets[j]@);
        }
    }
    assert forall|i: int| 0 <= i < m implies (dfa.is_final(i as nat) <==> nfa.spec_contains_final(
        list_set((#[trigger] dfa.subsets()[i])@),
    )) by {
        let u = i as usize;
        assert(dfa.is_final(u as nat) <==> nfa.spec_contains_final(
            bits_set(c.subsets[u as int]@),
        ));
        assert(c.subsets[i]@.len() == nfa.num_states);
    }
    assert(c.subsets[0]@.len() == nfa.num_states);
}

impl DFA<NfaStates> {
    /// The automaton of the subset construction for `nfa`. A worklist holds
    /// the states whose moves are still to be found; a set that comes up
    /// again gets the state it already has.
    pub fn from_nfa(nfa: &NFA) -> (dfa: DFA<NfaStates>)
        requires
            nfa.wf(),
        ensures
            dfa.wf(),
            dfa.total(),
            dfa.is_subset_construction_of(nfa),
    {
        let alphabet = nfa.get_alphabet();
        let mut subsets: Vec<Vec<bool>> = Vec::new();
        let mut data: Vec<Vec<usize>> = Vec::new();
        let mut transitions: Vec<Vec<(char, usize)>> = Vec::new();
        let mut end_states: Vec<usize> = Vec::new();
        let mut queue: Vec<usize> = Vec::new();

        let mut seed = vec![false; nfa.num_states];
        seed.set(nfa.start_state, true);
        let start = nfa.closure_bits(&seed);
        data.push(bits_to_states(&start));
        subsets.push(start);
        transitions.push(Vec::new());
        queue.push(0);
        proof {
            assert(bits_set(seed@) =~= set![nfa.start_state as nat]);
            let c = Construction {
                subsets: subsets@,
                data: data@,
                transitions: transitions@,
                end_states: end_states@,
                queue: queue@,
            };
            lemma_distinct_bits_bounded(subsets@, nfa.num_states as nat);
            assert(queue@[0] == 0);
            assert forall|i: int| 0 <= i < 1 implies #[trigger] row_in_order(
                nfa,
                alphabet@,
                c,
                -1,
                0,
                i,
            ) by {
                assert(c.queue.contains(0usize));
            }
            assert(building(nfa, alphabet@, c, -1, 0));
        }
        while queue.len() > 0
            invariant
                nfa.wf(),
                alphabet@ == nfa.used_alphabet.items@,
                building(
                    nfa,
                    alphabet@,
                    Construction {
                        subsets: subsets@,
                        data: data@,
                        transitions: transitions@,
                        end_states: end_states@,
                        queue: queue@,
                    },
                    -1,
                    0,
                ),
            decreases two_to(nfa.num_states as nat) - subsets@.len(), queue@.len(),
        {
            let ghost popped_from = Construction {
                subsets: subsets@,
                data: data@,
                transitions: transitions@,
                end_states: end_states@,
                queue: queue@,
            };
            let ghost states_before = subsets@.len();
            let ghost waiting_before = queue@.len();
            let current = queue.pop().unwrap();
            proof {
                assert(popped_from.queue[popped_from.queue.len() - 1] == current);
                assert(popped_from.queue.contains(current));
            }
            if nfa.bits_contain_final(&subsets[current]) {
                end_states.push(current);
            }
            proof {
                lemma_building_pop(
                    nfa,
                    alphabet@,
                    popped_from,
                    Construction {
                        subsets: subsets@,
                        data: data@,
                        transitions: transitions@,
                        end_states: end_states@,
                        queue: queue@,
                    },
                );
            }
            let mut k: usize = 0;
            while k < alphabet.len()
                invariant
                    nfa.wf(),
                    alphabet@ == nfa.used_alphabet.items@,
                    k <= alphabet@.len(),
                    current < subsets@.len(),
                    states_before <= subsets@.len(),
                    queue@.len() + states_before + 1 == subsets@.len() + waiting_before,
                    building(
                        nfa,
                        alphabet@,
                        Construction {
                            subsets: subsets@,
                            data: data@,
                            transitions: transitions@,
                            end_states: end_states@,
                            queue: queue@,
                        },
                        current as int,
                        k as int,
                    ),
                decreases alphabet@.len() - k,
            {
                let ghost before = Construction {
                    subsets: subsets@,
                    data: data@,
                    transitions: transitions@,
                    end_states: end_states@,
                    queue: queue@,
                };
                let symbol = alphabet[k];
                let moved = nfa.move_bits(&subsets[current], symbol);
                let next_set = nfa.closure_bits(&moved);
                match find_bits(&subsets, &next_set) {
                    Some(next_state) => {
                        transitions[current].push((symbol, next_state));
                        proof {
                            lemma_building_known(
                                nfa,
                                alphabet@,
                                before,
                                Construction {
                                    subsets: subsets@,
                                    data: data@,
                                    transitions: transitions@,
                                    end_states: end_states@,
                                    queue: queue@,
                                },
                                current,
                                k as int,
                                next_state,
                            );
                        }
                    },
                    None => {
                        let next_state = subsets.len();
                        data.push(bits_to_states(&next_set));
                        subsets.push(next_set);
                        transitions.push(Vec::new());
                        queue.push(next_state);
                        let _ = subsets.len();
                        transitions[current].push((symbol, next_state));
                        proof {
                            lemma_building_new(
                                nfa,
                                alphabet@,
                                before,
                                Construction {
                                    subsets: subsets@,
                                    data: data@,
                                    transitions: transitions@,
                                    end_states: end_states@,
                                    queue: queue@,
                                },
                                current,
                                k as int,
                            );
                        }
                    },
                }
                k += 1;
            }
            proof {
                lemma_building_row_done(
                    nfa,
                    alphabet@,
                    Construction {
                        subsets: subsets@,
                        data: data@,
                        transitions: transitions@,
                        end_states: end_states@,
                        queue: queue@,
                    },
                    current,
                );
            }
        }
        let ghost c = Construction {
            subsets: subsets@,
            data: data@,
            transitions: transitions@,
            end_states: end_states@,
            queue: queue@,
        };
        let dfa = DFA {
            num_states: subsets.len(),
            start_state: 0,
            end_states,
            transitions,
            alphabet,
            idx_to_data: Some(data),
        };
        proof {
            lemma_building_finished(nfa, c, &dfa);
        }
        dfa
    }

    /// The deterministic automaton for `regex`: the subset construction on
    /// the automaton of Thompson's construction.
    pub fn from_regex(regex: &ReOperator) -> (dfa: DFA<NfaStates>)
        requires
            2 * spec_size(*regex) <= usize::MAX,
        ensures
            dfa.wf(),
            dfa.total(),
            exists|nfa: NFA|
                nfa.wf() && #[trigger] nfa.is_thompson_of(*regex)
                    && dfa.is_subset_construction_of(&nfa),
    {
        let nfa = NFA::from_regex(regex);
        DFA::from_nfa(&nfa)
    }
}

impl DFA<NfaStates> {
    /// After a word over the alphabet the automaton of the subset
    /// construction is in the state of the set of states that the
    /// nondeterministic automaton may be in.
    pub proof fn lemma_subset_construction_run(&self, nfa: &NFA, i: nat, w: Seq<char>)
        requires
            self.wf(),
            self.is_subset_construction_of(nfa),
            i < self.num_states,
            word_over(self.alphabet@, w),
        ensures
            self.run(i, w) is Some,
            self.run(i, w)->Some_0 < self.num_states,
            list_set(self.subsets()[self.run(i, w)->Some_0 as int]@) == nfa.spec_run(
                list_set(self.subsets()[i as int]@),
                w,
            ),
        decreases w.len(),
    {
        if w.len() > 0 {
            let c = w[0];
            assert(self.alphabet@.contains(c));
            let k = choose|k: int| 0 <= k < self.alphabet@.len() && self.alphabet@[k] == c;
            let row = self.transitions@[i as int]@;
            assert(row.len() == self.alphabet@.len());
            assert(self.transitions@[i as int]@[k].0 == c);
            assert(distinct_symbols(self.transitions@[i as int]@));
            self.lemma_delta(i as int, k);
            let next = row[k].1 as nat;
            let rest = w.drop_first();
            assert forall|j: int| 0 <= j < rest.len() implies self.alphabet@.contains(
                #[trigger] rest[j],
            ) by {
                assert(rest[j] == w[j + 1]);
            }
            self.lemma_subset_construction_run(nfa, next, rest);
        }
    }

    /// The subset construction preserves the language: the deterministic
    /// automaton accepts a word over the alphabet if and only if the
    /// nondeterministic automaton does.
    pub proof fn lemma_subset_construction_language(&self, nfa: &NFA, w: Seq<char>)
        requires
            self.wf(),
            self.is_subset_construction_of(nfa),
            word_over(self.alphabet@, w),
        ensures
            self.accepts_word(w) == nfa.accepts(w),
    {
        self.lemma_subset_construction_run(nfa, 0, w);
        let end = self.run(0, w)->Some_0 as int;
        assert(self.is_final(end as nat) <==> nfa.spec_contains_final(
            list_set(self.subsets()[end]@),
        ));
    }
}

} // verus!
