//! Minimization of deterministic automata by table filling: pairs of states
//! that some word tells apart are marked until no more can be, and the
//! states of each class of the rest are merged.
use vstd::prelude::*;
use crate::dfa::{distinct_symbols, has_symbol, word_over, DFA};
use crate::state_set::{
    ascending, bits_set, bits_to_states, count_false, lemma_count_false_set, list_set,
};
use crate::union_find::DisjointUnionFind;

verus! {

/// The number of false entries of the table `rows`.
pub open spec fn total_false(rows: Seq<Vec<bool>>) -> nat
    decreases rows.len(),
{
    if rows.len() == 0 {
        0
    } else {
        total_false(rows.drop_last()) + count_false(rows.last()@)
    }
}

/// Setting a false entry of the table to true leaves one false entry fewer.
pub proof fn lemma_total_false_set(before: Seq<Vec<bool>>, after: Seq<Vec<bool>>, i: int, j: int)
    requires
        0 <= i < before.len(),
        0 <= j < before[i]@.len(),
        !before[i]@[j],
        after.len() == before.len(),
        after[i]@ == before[i]@.update(j, true),
        forall|r: int| 0 <= r < before.len() && r != i ==> after[r]@ == before[r]@,
    ensures
        total_false(after) + 1 == total_false(before),
    decreases before.len(),
{
    if i == before.len() - 1 {
        lemma_count_false_set(before[i]@, j);
        lemma_total_false_same(before.drop_last(), after.drop_last());
    } else {
        lemma_total_false_set(before.drop_last(), after.drop_last(), i, j);
    }
}

/// Tables with the same rows have as many false entries.
pub proof fn lemma_total_false_same(a: Seq<Vec<bool>>, b: Seq<Vec<bool>>)
    requires
        a.len() == b.len(),
        forall|r: int| 0 <= r < a.len() ==> a[r]@ == b[r]@,
    ensures
        total_false(a) == total_false(b),
    decreases a.len(),
{
    if a.len() > 0 {
        lemma_total_false_same(a.drop_last(), b.drop_last());
    }
}

/// Whether `table` has `n` rows of `n` entries, with marks above the
/// diagonal only.
pub open spec fn is_pair_table(table: Seq<Vec<bool>>, n: nat) -> bool {
    &&& table.len() == n
    &&& forall|i: int| 0 <= i < n ==> (#[trigger] table[i])@.len() == n
    &&& forall|i: int, j: int| 0 <= i < n && 0 <= j < n && (#[trigger] table[i]@[j]) ==> i < j
}

/// Whether the pair of `a` and `b` is marked, whichever of them is lower.
pub open spec fn pair_marked(table: Seq<Vec<bool>>, a: nat, b: nat) -> bool {
    if a <= b {
        table[a as int]@[b as int]
    } else {
        table[b as int]@[a as int]
    }
}

impl<T> DFA<T> {
    /// Whether some word over the alphabet is accepted from one of `p` and
    /// `q` and not from the other.
    pub open spec fn distinguishable(&self, p: nat, q: nat) -> bool {
        exists|w: Seq<char>|
            word_over(self.alphabet@, w) && #[trigger] self.accepts_from(p, w)
                != self.accepts_from(q, w)
    }

    /// Whether the same words over the alphabet are accepted from `p` and
    /// from `q`.
    pub open spec fn equivalent(&self, p: nat, q: nat) -> bool {
        !self.distinguishable(p, q)
    }

    /// The state reached from `q` on the `k`-th symbol of the alphabet.
    pub open spec fn successor(&self, q: nat, k: int) -> nat {
        self.delta(q, self.alphabet@[k])->Some_0
    }

    /// Whether `table` marks every pair of an accepting and a rejecting
    /// state.
    pub open spec fn marks_final_pairs(&self, table: Seq<Vec<bool>>) -> bool {
        forall|i: int, j: int|
            0 <= i < j < self.num_states && self.is_final(i as nat) != self.is_final(j as nat)
                ==> #[trigger] table[i]@[j]
    }

    /// Whether every pair that `table` marks is told apart by some word.
    pub open spec fn marks_are_sound(&self, table: Seq<Vec<bool>>) -> bool {
        forall|i: int, j: int|
            0 <= i < self.num_states && 0 <= j < self.num_states && (#[trigger] table[i]@[j])
                ==> self.distinguishable(i as nat, j as nat)
    }

    /// Whether the pair of `i` and `j` has no symbol that leads to a pair
    /// that `table` marks.
    pub open spec fn pair_is_settled(&self, table: Seq<Vec<bool>>, i: nat, j: nat) -> bool {
        forall|k: int|
            0 <= k < self.alphabet@.len() ==> !pair_marked(
                table,
                #[trigger] self.successor(i, k),
                self.successor(j, k),
            )
    }

    /// In a total, well-formed automaton every symbol of the alphabet leads
    /// from a state to a state.
    pub proof fn lemma_successor(&self, q: nat, k: int)
        requires
            self.wf(),
            self.total(),
            q < self.num_states,
            0 <= k < self.alphabet@.len(),
        ensures
            self.delta(q, self.alphabet@[k]) == Some(self.successor(q, k)),
            self.successor(q, k) < self.num_states,
    {
        assert(has_symbol(self.transitions@[q as int]@, self.alphabet@[k]));
        self.lemma_delta_in_range(q, self.alphabet@[k]);
    }

    /// A word that tells `p` and `q` apart tells `q` and `p` apart.
    pub proof fn lemma_distinguishable_symmetric(&self, p: nat, q: nat)
        requires
            self.distinguishable(p, q),
        ensures
            self.distinguishable(q, p),
    {
        let w = choose|w: Seq<char>|
            word_over(self.alphabet@, w) && #[trigger] self.accepts_from(p, w)
                != self.accepts_from(q, w);
        assert(self.accepts_from(q, w) != self.accepts_from(p, w));
    }

    /// States of which one accepts and one rejects are told apart by the
    /// empty word.
    pub proof fn lemma_distinguishable_final(&self, p: nat, q: nat)
        requires
            self.is_final(p) != self.is_final(q),
        ensures
            self.distinguishable(p, q),
    {
        let w = Seq::<char>::empty();
        assert(word_over(self.alphabet@, w));
        assert(self.accepts_from(p, w) != self.accepts_from(q, w));
    }

    /// States from which a symbol leads to states that a word tells apart
    /// are told apart by the symbol followed by that word.
    pub proof fn lemma_distinguishable_step(&self, p: nat, q: nat, k: int)
        requires
            self.wf(),
            self.total(),
            p < self.num_states,
            q < self.num_states,
            0 <= k < self.alphabet@.len(),
            self.distinguishable(self.successor(p, k), self.successor(q, k)),
        ensures
            self.distinguishable(p, q),
    {
        let c = self.alphabet@[k];
        self.lemma_successor(p, k);
        self.lemma_successor(q, k);
        let w = choose|w: Seq<char>|
            word_over(self.alphabet@, w) && #[trigger] self.accepts_from(self.successor(p, k), w)
                != self.accepts_from(self.successor(q, k), w);
        let longer = seq![c] + w;
        assert(longer.drop_first() == w);
        assert(longer[0] == c);
        assert forall|i: int| 0 <= i < longer.len() implies self.alphabet@.contains(
            #[trigger] longer[i],
        ) by {
            if i > 0 {
                assert(longer[i] == w[i - 1]);
            }
        }
        assert(self.accepts_from(p, longer) == self.accepts_from(self.successor(p, k), w));
        assert(self.accepts_from(q, longer) == self.accepts_from(self.successor(q, k), w));
        assert(self.accepts_from(p, longer) != self.accepts_from(q, longer));
    }

    /// Where no unmarked pair has a symbol that leads to a marked pair, the
    /// states of an unmarked pair accept the same words.
    pub proof fn lemma_unmarked_equivalent(
        &self,
        table: Seq<Vec<bool>>,
        p: nat,
        q: nat,
        w: Seq<char>,
    )
        requires
            self.wf(),
            self.total(),
            is_pair_table(table, self.num_states as nat),
            self.marks_final_pairs(table),
            forall|i: int, j: int|
                0 <= i < j < self.num_states && !(#[trigger] table[i]@[j]) ==> self.pair_is_settled(
                    table,
                    i as nat,
                    j as nat,
                ),
            p < self.num_states,
            q < self.num_states,
            !pair_marked(table, p, q),
            word_over(self.alphabet@, w),
        ensures
            self.accepts_from(p, w) == self.accepts_from(q, w),
        decreases w.len(),
    {
        if p == q {
        } else if w.len() == 0 {
            if p < q {
                assert(!table[p as int]@[q as int]);
            } else {
                assert(!table[q as int]@[p as int]);
            }
        } else {
            let c = w[0];
            assert(self.alphabet@.contains(c));
            let k = choose|k: int| 0 <= k < self.alphabet@.len() && self.alphabet@[k] == c;
            self.lemma_successor(p, k);
            self.lemma_successor(q, k);
            let rest = w.drop_first();
            assert forall|i: int| 0 <= i < rest.len() implies self.alphabet@.contains(
                #[trigger] rest[i],
            ) by {
                assert(rest[i] == w[i + 1]);
            }
            if p < q {
                assert(!table[p as int]@[q as int]);
                assert(self.pair_is_settled(table, p, q));
                assert(!pair_marked(table, self.successor(p, k), self.successor(q, k)));
            } else {
                assert(!table[q as int]@[p as int]);
                assert(self.pair_is_settled(table, q, p));
                assert(!pair_marked(table, self.successor(q, k), self.successor(p, k)));
            }
            self.lemma_unmarked_equivalent(
                table,
                self.successor(p, k),
                self.successor(q, k),
                rest,
            );
        }
    }

    /// The table in which a pair is marked if one of its states accepts
    /// and the other does not.
    pub fn initialize_minimize_table(&self) -> (table: Vec<Vec<bool>>)
        ensures
            is_pair_table(table@, self.num_states as nat),
            forall|i: int, j: int|
                0 <= i < j < self.num_states ==> (#[trigger] table@[i]@[j] <==> self.is_final(
                    i as nat,
                ) != self.is_final(j as nat)),
    {
        let n = self.num_states;
        let mut table: Vec<Vec<bool>> = Vec::new();
        let mut i: usize = 0;
        while i < n
            invariant
                n == self.num_states,
                i <= n,
                table@.len() == i,
                forall|r: int| 0 <= r < i ==> (#[trigger] table@[r])@.len() == n,
                forall|r: int, j: int|
                    0 <= r < i && 0 <= j < n ==> (#[trigger] table@[r]@[j] <==> r < j
                        && self.is_final(r as nat) != self.is_final(j as nat)),
            decreases n - i,
        {
            let mut row = vec![false; n];
            let i_is_final = self.is_final_state(i);
            let mut j: usize = i + 1;
            while j < n
                invariant
                    n == self.num_states,
                    i < j <= n,
                    row@.len() == n,
                    i_is_final == self.is_final(i as nat),
                    forall|c: int|
                        0 <= c < n ==> (#[trigger] row@[c] <==> i < c < j && self.is_final(i as nat)
                            != self.is_final(c as nat)),
                decreases n - j,
            {
                let j_is_final = self.is_final_state(j);
                if i_is_final != j_is_final {
                    row.set(j, true);
                }
                j += 1;
            }
            table.push(row);
            i += 1;
        }
        table
    }

    /// Whether some symbol leads from the pair of `i` and `j` to a pair
    /// that `table` marks.
    fn leads_to_marked(&self, table: &Vec<Vec<bool>>, i: usize, j: usize) -> (b: bool)
        requires
            self.wf(),
            self.total(),
            is_pair_table(table@, self.num_states as nat),
            i < self.num_states,
            j < self.num_states,
        ensures
            b == !self.pair_is_settled(table@, i as nat, j as nat),
            b ==> exists|k: int|
                0 <= k < self.alphabet@.len() && pair_marked(
                    table@,
                    #[trigger] self.successor(i as nat, k),
                    self.successor(j as nat, k),
                ),
    {
        let mut k: usize = 0;
        while k < self.alphabet.len()
            invariant
                self.wf(),
                self.total(),
                is_pair_table(table@, self.num_states as nat),
                i < self.num_states,
                j < self.num_states,
                k <= self.alphabet@.len(),
                forall|l: int|
                    0 <= l < k ==> !pair_marked(
                        table@,
                        #[trigger] self.successor(i as nat, l),
                        self.successor(j as nat, l),
                    ),
            decreases self.alphabet@.len() - k,
        {
            proof {
                self.lemma_successor(i as nat, k as int);
                self.lemma_successor(j as nat, k as int);
            }
            let mut next_i = self.make_move(i, self.alphabet[k]);
            let mut next_j = self.make_move(j, self.alphabet[k]);
            // The pair is looked up with its lower state first.
            if next_i > next_j {
                let swap = next_i;
                next_i = next_j;
                next_j = swap;
            }
            if table[next_i][next_j] {
                assert(pair_marked(
                    table@,
                    self.successor(i as nat, k as int),
                    self.successor(j as nat, k as int),
                ));
                return true;
            }
            k += 1;
        }
        false
    }
}

impl<T> DFA<T> {
    /// A pair from which a symbol leads to a pair that a sound table marks
    /// is told apart by some word.
    proof fn lemma_marked_successor(&self, table: Seq<Vec<bool>>, i: nat, j: nat)
        requires
            self.wf(),
            self.total(),
            is_pair_table(table, self.num_states as nat),
            self.marks_are_sound(table),
            i < self.num_states,
            j < self.num_states,
            exists|k: int|
                0 <= k < self.alphabet@.len() && pair_marked(
                    table,
                    #[trigger] self.successor(i, k),
                    self.successor(j, k),
                ),
        ensures
            self.distinguishable(i, j),
    {
        let k = choose|k: int|
            0 <= k < self.alphabet@.len() && pair_marked(
                table,
                #[trigger] self.successor(i, k),
                self.successor(j, k),
            );
        self.lemma_successor(i, k);
        self.lemma_successor(j, k);
        let a = self.successor(i, k);
        let b = self.successor(j, k);
        if a <= b {
            assert(table[a as int]@[b as int]);
            assert(self.distinguishable(a, b));
        } else {
            assert(table[b as int]@[a as int]);
            assert(self.distinguishable(b, a));
            self.lemma_distinguishable_symmetric(b, a);
        }
        self.lemma_distinguishable_step(i, j, k);
    }

    /// Fills the table of the pairs of states: the pair of `i < j` is marked
    /// if and only if some word over the alphabet is accepted from one of
    /// the two states and not from the other.
    ///
    /// The table starts with the pairs of an accepting and a rejecting
    /// state. Then, round by round, a pair is marked if some symbol leads
    /// from it to a marked pair, until a round marks nothing.
    pub fn compute_minimize_table(&self) -> (table: Vec<Vec<bool>>)
        requires
            self.wf(),
            self.total(),
        ensures
            is_pair_table(table@, self.num_states as nat),
            forall|i: int, j: int|
                0 <= i < j < self.num_states ==> (#[trigger] table@[i]@[j]
                    <==> self.distinguishable(i as nat, j as nat)),
    {
        let n = self.num_states;
        let mut table = self.initialize_minimize_table();
        proof {
            assert forall|i: int, j: int|
                0 <= i < n && 0 <= j < n && (#[trigger] table@[i]@[j]) implies self.distinguishable(
                i as nat,
                j as nat,
            ) by {
                self.lemma_distinguishable_final(i as nat, j as nat);
            }
        }
        let mut has_changed = true;
        while has_changed
            invariant
                self.wf(),
                self.total(),
                n == self.num_states,
                is_pair_table(table@, n as nat),
                self.marks_final_pairs(table@),
                self.marks_are_sound(table@),
                !has_changed ==> forall|a: int, b: int|
                    0 <= a < b < n && !(#[trigger] table@[a]@[b]) ==> self.pair_is_settled(
                        table@,
                        a as nat,
                        b as nat,
                    ),
            decreases
                    total_false(table@) + if has_changed {
                        1nat
                    } else {
                        0nat
                    },
        {
            has_changed = false;
            let ghost start_false = total_false(table@);
            let mut i: usize = 0;
            while i < n
                invariant
                    self.wf(),
                    self.total(),
                    n == self.num_states,
                    i <= n,
                    is_pair_table(table@, n as nat),
                    self.marks_final_pairs(table@),
                    self.marks_are_sound(table@),
                    has_changed ==> total_false(table@) < start_false,
                    !has_changed ==> total_false(table@) == start_false,
                    !has_changed ==> forall|a: int, b: int|
                        0 <= a < i && a < b < n && !(#[trigger] table@[a]@[b])
                            ==> self.pair_is_settled(table@, a as nat, b as nat),
                decreases n - i,
            {
                let mut j: usize = i + 1;
                while j < n
                    invariant
                        self.wf(),
                        self.total(),
                        n == self.num_states,
                        i < n,
                        i < j <= n,
                        is_pair_table(table@, n as nat),
                        self.marks_final_pairs(table@),
                        self.marks_are_sound(table@),
                        has_changed ==> total_false(table@) < start_false,
                        !has_changed ==> total_false(table@) == start_false,
                        !has_changed ==> forall|a: int, b: int|
                            (0 <= a < i || (a == i && b < j)) && a < b < n && !(
                            #[trigger] table@[a]@[b]) ==> self.pair_is_settled(
                                table@,
                                a as nat,
                                b as nat,
                            ),
                    decreases n - j,
                {
                    if !table[i][j] {
                        if self.leads_to_marked(&table, i, j) {
                            let ghost before = table@;
                            proof {
                                self.lemma_marked_successor(before, i as nat, j as nat);
                            }
                            table[i].set(j, true);
                            proof {
                                lemma_total_false_set(before, table@, i as int, j as int);
                                assert forall|r: int| 0 <= r < n implies (#[trigger] table@[r])@.len()
                                    == n by {
                                    if r != i {
                                        assert(table@[r]@ == before[r]@);
                                    }
                                }
                                assert forall|a: int, b: int|
                                    0 <= a < n && 0 <= b < n && (#[trigger] table@[a]@[b]) implies a
                                    < b && self.distinguishable(a as nat, b as nat) by {
                                    if a == i && b == j {
                                    } else {
                                        assert(before[a]@[b]);
                                    }
                                }
                                assert forall|a: int, b: int|
                                    0 <= a < b < n && self.is_final(a as nat) != self.is_final(
                                        b as nat,
                                    ) implies #[trigger] table@[a]@[b] by {
                                    assert(before[a]@[b]);
                                }
                            }
                            has_changed = true;
                        }
                    }
                    j += 1;
                }
                i += 1;
            }
        }
        proof {
            assert forall|i: int, j: int| 0 <= i < j < n implies (#[trigger] table@[i]@[j]
                <==> self.distinguishable(i as nat, j as nat)) by {
                if !table@[i]@[j] {
                    assert forall|w: Seq<char>| word_over(self.alphabet@, w) implies (
                    #[trigger] self.accepts_from(i as nat, w)) == self.accepts_from(
                        j as nat,
                        w,
                    ) by {
                        self.lemma_unmarked_equivalent(table@, i as nat, j as nat, w);
                    }
                }
            }
        }
        table
    }

    /// The pairs of states `i < j` from which the same words are accepted,
    /// in increasing order.
    pub fn get_equivalent_states(&self) -> (pairs: Vec<(usize, usize)>)
        requires
            self.wf(),
            self.total(),
        ensures
            forall|k: int|
                0 <= k < pairs@.len() ==> (#[trigger] pairs@[k]).0 < pairs@[k].1 < self.num_states
                    && self.equivalent(pairs@[k].0 as nat, pairs@[k].1 as nat),
            forall|i: usize, j: usize|
                i < j < self.num_states && self.equivalent(i as nat, j as nat)
                    ==> #[trigger] pairs@.contains((i, j)),
            forall|k: int, l: int|
                0 <= k < l < pairs@.len() ==> pairs@[k].0 < pairs@[l].0 || (pairs@[k].0
                    == pairs@[l].0 && pairs@[k].1 < pairs@[l].1),
    {
        let n = self.num_states;
        let table = self.compute_minimize_table();
        let mut pairs: Vec<(usize, usize)> = Vec::new();
        let mut i: usize = 0;
        while i < n
            invariant
                n == self.num_states,
                i <= n,
                is_pair_table(table@, n as nat),
                forall|a: int, b: int|
                    0 <= a < b < n ==> (#[trigger] table@[a]@[b] <==> self.distinguishable(
                        a as nat,
                        b as nat,
                    )),
                forall|k: int|
                    0 <= k < pairs@.len() ==> (#[trigger] pairs@[k]).0 < pairs@[k].1 < n
                        && pairs@[k].0 < i && self.equivalent(
                        pairs@[k].0 as nat,
                        pairs@[k].1 as nat,
                    ),
                forall|a: usize, b: usize|
                    a < i && a < b < n && self.equivalent(a as nat, b as nat)
                        ==> #[trigger] pairs@.contains((a, b)),
                forall|k: int, l: int|
                    0 <= k < l < pairs@.len() ==> pairs@[k].0 < pairs@[l].0 || (pairs@[k].0
                        == pairs@[l].0 && pairs@[k].1 < pairs@[l].1),
            decreases n - i,
        {
            let mut j: usize = i + 1;
            while j < n
                invariant
                    n == self.num_states,
                    i < n,
                    i < j <= n,
                    is_pair_table(table@, n as nat),
                    forall|a: int, b: int|
                        0 <= a < b < n ==> (#[trigger] table@[a]@[b] <==> self.distinguishable(
                            a as nat,
                            b as nat,
                        )),
                    forall|k: int|
                        0 <= k < pairs@.len() ==> (#[trigger] pairs@[k]).0 < pairs@[k].1 < n && (
                        pairs@[k].0 < i || (pairs@[k].0 == i && pairs@[k].1 < j))
                            && self.equivalent(pairs@[k].0 as nat, pairs@[k].1 as nat),
                    forall|a: usize, b: usize|
                        (a < i || (a == i && b < j)) && a < b < n && self.equivalent(
                            a as nat,
                            b as nat,
                        ) ==> #[trigger] pairs@.contains((a, b)),
                    forall|k: int, l: int|
                        0 <= k < l < pairs@.len() ==> pairs@[k].0 < pairs@[l].0 || (pairs@[k].0
                            == pairs@[l].0 && pairs@[k].1 < pairs@[l].1),
                decreases n - j,
            {
                if !table[i][j] {
                    let ghost before = pairs@;
                    pairs.push((i, j));
                    proof {
                        assert(pairs@[before.len() as int] == (i, j));
                        assert forall|a: usize, b: usize|
                            (a < i || (a == i && b < j + 1)) && a < b < n && self.equivalent(
                                a as nat,
                                b as nat,
                            ) implies #[trigger] pairs@.contains((a, b)) by {
                            if a == i && b == j {
                            } else {
                                assert(before.contains((a, b)));
                                let k = choose|k: int| 0 <= k < before.len() && before[k] == (a, b);
                                assert(pairs@[k] == (a, b));
                            }
                        }
                    }
                } else {
                    assert(self.distinguishable(i as nat, j as nat));
                }
                j += 1;
            }
            i += 1;
        }
        pairs
    }
}

impl<T> DFA<T> {
    /// The first state from `p` on that is equivalent to `q`; `q` itself
    /// where none below it is.
    pub open spec fn least_equivalent(&self, q: nat, p: nat) -> nat
        decreases q - p,
    {
        if p >= q {
            q
        } else if self.equivalent(p, q) {
            p
        } else {
            self.least_equivalent(q, p + 1)
        }
    }

    /// The lowest state of the class of `q`: it stands for the class.
    pub open spec fn class_min(&self, q: nat) -> nat {
        self.least_equivalent(q, 0)
    }

    /// The number of states below `k` that are the lowest of their class.
    pub open spec fn count_minima(&self, k: nat) -> nat
        decreases k,
    {
        if k == 0 {
            0
        } else {
            self.count_minima((k - 1) as nat) + if self.class_min((k - 1) as nat) == k - 1 {
                1nat
            } else {
                0nat
            }
        }
    }

    /// The number of the class of `q`, where the classes are numbered in
    /// the order of their lowest states.
    pub open spec fn class_index(&self, q: nat) -> nat {
        self.count_minima(self.class_min(q))
    }

    /// Whether `row` lists, for each symbol of the alphabet in turn, the
    /// symbol with the number of the class that `q` moves to on it.
    pub open spec fn is_class_row(&self, q: nat, row: Seq<(char, usize)>) -> bool {
        &&& row.len() == self.alphabet@.len()
        &&& forall|k: int|
            0 <= k < self.alphabet@.len() ==> #[trigger] row[k] == (
                self.alphabet@[k],
                self.class_index(self.successor(q, k)) as usize,
            )
    }

    /// Whether `self` is the minimal automaton of `d`: its states are the
    /// classes of equivalent states of `d`, numbered in the order of their
    /// lowest states; a class is the start where it holds the start of `d`,
    /// is accepting where its states are, and moves on a symbol to the class
    /// of the states that its own states move to.
    pub open spec fn is_minimization_of(&self, d: &DFA<T>) -> bool {
        &&& self.num_states == d.count_minima(d.num_states as nat)
        &&& self.start_state == d.class_index(d.start_state as nat)
        &&& self.alphabet@ == d.alphabet@
        &&& self.transitions@.len() == self.num_states
        &&& forall|q: nat|
            q < d.num_states ==> d.is_class_row(
                q,
                self.transitions@[#[trigger] d.class_index(q) as int]@,
            )
        &&& ascending(self.end_states@)
        &&& forall|i: int|
            0 <= i < self.end_states@.len() ==> #[trigger] self.end_states@[i] < self.num_states
        &&& forall|q: nat|
            q < d.num_states ==> (self.is_final(#[trigger] d.class_index(q)) <==> d.is_final(q))
        &&& self.idx_to_data is None
    }

    /// Equivalence does not depend on the order of the two states.
    pub proof fn lemma_equivalent_symmetric(&self, p: nat, q: nat)
        requires
            self.equivalent(p, q),
        ensures
            self.equivalent(q, p),
    {
        if self.distinguishable(q, p) {
            self.lemma_distinguishable_symmetric(q, p);
        }
    }

    /// States that are equivalent to a third are equivalent.
    pub proof fn lemma_equivalent_transitive(&self, p: nat, q: nat, r: nat)
        requires
            self.equivalent(p, q),
            self.equivalent(q, r),
        ensures
            self.equivalent(p, r),
    {
        if self.distinguishable(p, r) {
            let w = choose|w: Seq<char>|
                word_over(self.alphabet@, w) && #[trigger] self.accepts_from(p, w)
                    != self.accepts_from(r, w);
            assert(self.accepts_from(p, w) == self.accepts_from(q, w));
            assert(self.accepts_from(q, w) == self.accepts_from(r, w));
        }
    }

    /// Equivalent states are both accepting or both rejecting.
    pub proof fn lemma_equivalent_final(&self, p: nat, q: nat)
        requires
            self.equivalent(p, q),
        ensures
            self.is_final(p) == self.is_final(q),
    {
        if self.is_final(p) != self.is_final(q) {
            self.lemma_distinguishable_final(p, q);
        }
    }

    /// A symbol leads from equivalent states to equivalent states.
    pub proof fn lemma_equivalent_step(&self, p: nat, q: nat, k: int)
        requires
            self.wf(),
            self.total(),
            p < self.num_states,
            q < self.num_states,
            0 <= k < self.alphabet@.len(),
            self.equivalent(p, q),
        ensures
            self.equivalent(self.successor(p, k), self.successor(q, k)),
    {
        if self.distinguishable(self.successor(p, k), self.successor(q, k)) {
            self.lemma_distinguishable_step(p, q, k);
        }
    }

    /// The search for the first equivalent state ends at or below `q`, at a
    /// state equivalent to `q`, and passes no such state.
    pub proof fn lemma_least_equivalent(&self, q: nat, p: nat)
        requires
            p <= q,
        ensures
            p <= self.least_equivalent(q, p) <= q,
            self.equivalent(self.least_equivalent(q, p), q),
            forall|x: nat| p <= x < self.least_equivalent(q, p) ==> !self.equivalent(x, q),
        decreases q - p,
    {
        if p >= q {
        } else if self.equivalent(p, q) {
        } else {
            self.lemma_least_equivalent(q, p + 1);
        }
    }

    /// The lowest state of the class of `q` is at or below `q` and
    /// equivalent to it, and no state below it is.
    pub proof fn lemma_class_min(&self, q: nat)
        ensures
            self.class_min(q) <= q,
            self.equivalent(self.class_min(q), q),
            forall|x: nat| x < self.class_min(q) ==> !self.equivalent(x, q),
    {
        self.lemma_least_equivalent(q, 0);
    }

    /// Two states are equivalent if and only if the lowest state of their
    /// classes is the same.
    pub proof fn lemma_class_min_equal(&self, p: nat, q: nat)
        ensures
            self.equivalent(p, q) <==> self.class_min(p) == self.class_min(q),
    {
        self.lemma_class_min(p);
        self.lemma_class_min(q);
        let a = self.class_min(p);
        let b = self.class_min(q);
        if self.equivalent(p, q) {
            self.lemma_equivalent_transitive(a, p, q);
            self.lemma_equivalent_symmetric(p, q);
            self.lemma_equivalent_transitive(b, q, p);
            if a < b {
                assert(!self.equivalent(a, q));
            } else if b < a {
                assert(!self.equivalent(b, p));
            }
        }
        if a == b {
            self.lemma_equivalent_symmetric(a, p);
            self.lemma_equivalent_transitive(p, a, q);
        }
    }

    /// The lowest state of a class is the lowest state of its own class.
    pub proof fn lemma_class_min_idempotent(&self, q: nat)
        ensures
            self.class_min(self.class_min(q)) == self.class_min(q),
    {
        self.lemma_class_min(q);
        self.lemma_class_min_equal(self.class_min(q), q);
    }

    /// The count of the lowest states grows with the bound, by at most one
    /// for each state.
    pub proof fn lemma_count_minima_monotone(&self, a: nat, b: nat)
        requires
            a <= b,
        ensures
            self.count_minima(a) <= self.count_minima(b),
            self.count_minima(b) <= self.count_minima(a) + (b - a),
        decreases b - a,
    {
        if a < b {
            self.lemma_count_minima_monotone(a, (b - 1) as nat);
        }
    }

    /// The number of a class is below the number of classes.
    pub proof fn lemma_class_index_bound(&self, q: nat, n: nat)
        requires
            q < n,
        ensures
            self.class_index(q) < self.count_minima(n),
    {
        self.lemma_class_min(q);
        self.lemma_class_min_idempotent(q);
        let m = self.class_min(q);
        self.lemma_count_minima_monotone(m + 1, n);
    }

    /// Two states are equivalent if and only if their classes have the
    /// same number.
    pub proof fn lemma_class_index_equal(&self, p: nat, q: nat)
        ensures
            self.equivalent(p, q) <==> self.class_index(p) == self.class_index(q),
    {
        self.lemma_class_min_equal(p, q);
        let a = self.class_min(p);
        let b = self.class_min(q);
        self.lemma_class_min_idempotent(p);
        self.lemma_class_min_idempotent(q);
        if a < b {
            self.lemma_count_minima_monotone(a + 1, b);
        } else if b < a {
            self.lemma_count_minima_monotone(b + 1, a);
        }
    }

    /// Every number below the count of the lowest states below `n` is the
    /// number of the class of a state below `n`.
    pub proof fn lemma_class_index_onto(&self, r: nat, n: nat) -> (q: nat)
        requires
            r < self.count_minima(n),
        ensures
            q < n,
            self.class_min(q) == q,
            self.class_index(q) == r,
        decreases n,
    {
        if self.class_min((n - 1) as nat) == n - 1 && self.count_minima((n - 1) as nat) == r {
            (n - 1) as nat
        } else {
            self.lemma_class_index_onto(r, (n - 1) as nat)
        }
    }
}

impl<T> DFA<T> {
    /// The partition of the states into the classes of equivalent states.
    fn merge_equivalent(&self) -> (sets: DisjointUnionFind)
        requires
            self.wf(),
            self.total(),
        ensures
            sets.wf(),
            sets.size() == self.num_states,
            forall|x: nat, y: nat|
                x < self.num_states && y < self.num_states ==> (#[trigger] sets.same_set(x, y)
                    <==> self.equivalent(x, y)),
    {
        let n = self.num_states;
        let pairs = self.get_equivalent_states();
        let mut sets = DisjointUnionFind::new(n);
        let mut idx: usize = 0;
        while idx < pairs.len()
            invariant
                n == self.num_states,
                idx <= pairs@.len(),
                sets.wf(),
                sets.size() == n,
                forall|k: int|
                    0 <= k < pairs@.len() ==> (#[trigger] pairs@[k]).0 < pairs@[k].1 < n
                        && self.equivalent(pairs@[k].0 as nat, pairs@[k].1 as nat),
                forall|x: nat, y: nat|
                    x < n && y < n && #[trigger] sets.same_set(x, y) ==> self.equivalent(x, y),
                forall|k: int|
                    0 <= k < idx ==> sets.same_set(
                        (#[trigger] pairs@[k]).0 as nat,
                        pairs@[k].1 as nat,
                    ),
            decreases pairs@.len() - idx,
        {
            let (first, second) = pairs[idx];
            let ghost before = sets;
            sets.join(first, second);
            proof {
                let a = first as nat;
                let b = second as nat;
                assert(pairs@[idx as int] == (first, second));
                assert forall|x: nat, y: nat|
                    x < n && y < n && #[trigger] sets.same_set(x, y) implies self.equivalent(
                    x,
                    y,
                ) by {
                    if before.same_set(x, y) {
                    } else if before.same_set(x, a) && before.same_set(y, b) {
                        self.lemma_equivalent_transitive(x, a, b);
                        self.lemma_equivalent_symmetric(y, b);
                        self.lemma_equivalent_transitive(x, b, y);
                    } else {
                        assert(before.same_set(x, b) && before.same_set(y, a));
                        self.lemma_equivalent_symmetric(a, b);
                        self.lemma_equivalent_transitive(x, b, a);
                        self.lemma_equivalent_symmetric(y, a);
                        self.lemma_equivalent_transitive(x, a, y);
                    }
                }
                assert forall|k: int| 0 <= k < idx + 1 implies sets.same_set(
                    (#[trigger] pairs@[k]).0 as nat,
                    pairs@[k].1 as nat,
                ) by {
                    if k < idx {
                        assert(before.same_set(pairs@[k].0 as nat, pairs@[k].1 as nat));
                    } else {
                        assert(before.same_set(a, a) && before.same_set(b, b));
                    }
                }
            }
            idx += 1;
        }
        proof {
            assert forall|x: nat, y: nat| x < n && y < n implies (#[trigger] sets.same_set(x, y)
                <==> self.equivalent(x, y)) by {
                if self.equivalent(x, y) {
                    if x < y {
                        assert(pairs@.contains((x as usize, y as usize)));
                        let k = choose|k: int|
                            0 <= k < pairs@.len() && pairs@[k] == (x as usize, y as usize);
                        assert(sets.same_set(pairs@[k].0 as nat, pairs@[k].1 as nat));
                    } else if y < x {
                        self.lemma_equivalent_symmetric(x, y);
                        assert(pairs@.contains((y as usize, x as usize)));
                        let k = choose|k: int|
                            0 <= k < pairs@.len() && pairs@[k] == (y as usize, x as usize);
                        assert(sets.same_set(pairs@[k].0 as nat, pairs@[k].1 as nat));
                    }
                }
            }
        }
        sets
    }

    /// Numbers the classes of `sets` in the order of their lowest states.
    /// The result holds the number of the class of each state, and the
    /// number of classes.
    fn number_classes(&self, sets: &mut DisjointUnionFind) -> (r: (Vec<usize>, usize))
        requires
            old(sets).wf(),
            old(sets).size() == self.num_states,
            forall|x: nat, y: nat|
                x < self.num_states && y < self.num_states ==> (#[trigger] old(sets).same_set(
                    x,
                    y,
                ) <==> self.equivalent(x, y)),
        ensures
            r.0@.len() == self.num_states,
            forall|q: int|
                0 <= q < self.num_states ==> #[trigger] r.0@[q] == self.class_index(q as nat),
            r.1 == self.count_minima(self.num_states as nat),
    {
        let n = self.num_states;
        let mut head_to_idx: Vec<Option<usize>> = vec![None; n];
        let mut state_to_idx: Vec<usize> = Vec::new();
        let mut curr_idx: usize = 0;
        let mut q: usize = 0;
        let ghost start = *sets;
        while q < n
            invariant
                n == self.num_states,
                q <= n,
                sets.wf(),
                sets.size() == n,
                start.wf(),
                start.size() == n,
                forall|x: nat| x < n ==> sets.root(x) == start.root(x),
                forall|x: nat, y: nat|
                    x < n && y < n ==> (#[trigger] start.same_set(x, y) <==> self.equivalent(
                        x,
                        y,
                    )),
                head_to_idx@.len() == n,
                state_to_idx@.len() == q,
                curr_idx == self.count_minima(q as nat),
                curr_idx <= q,
                forall|p: int|
                    0 <= p < q ==> #[trigger] state_to_idx@[p] == self.class_index(p as nat),
                forall|p: int|
                    0 <= p < q ==> head_to_idx@[start.root(p as nat) as int] == Some(
                        #[trigger] state_to_idx@[p],
                    ),
                forall|h: int|
                    0 <= h < n && (#[trigger] head_to_idx@[h]) is Some ==> exists|p: nat|
                        p < q && #[trigger] start.root(p) == h,
            decreases n - q,
        {
            let head = sets.find(q);
            proof {
                start.lemma_root(q as nat);
                self.lemma_class_min(q as nat);
            }
            let ghost before = head_to_idx@;
            let index = match head_to_idx[head] {
                Some(index) => {
                    proof {
                        let p = choose|p: nat| p < q && #[trigger] start.root(p) == head;
                        assert(start.same_set(p, q as nat));
                        self.lemma_class_index_equal(p, q as nat);
                        assert(head_to_idx@[start.root(p) as int] == Some(state_to_idx@[p as int]));
                        self.lemma_class_min_equal(p, q as nat);
                        self.lemma_class_min(p);
                    }
                    index
                },
                None => {
                    proof {
                        assert forall|x: nat| x < q implies !self.equivalent(x, q as nat) by {
                            if self.equivalent(x, q as nat) {
                                assert(start.same_set(x, q as nat));
                                assert(head_to_idx@[start.root(x) as int] == Some(
                                    state_to_idx@[x as int],
                                ));
                            }
                        }
                        let m = self.class_min(q as nat);
                        if m < q {
                            assert(!self.equivalent(m, q as nat));
                        }
                    }
                    head_to_idx.set(head, Some(curr_idx));
                    curr_idx = curr_idx + 1;
                    curr_idx - 1
                },
            };
            state_to_idx.push(index);
            proof {
                assert forall|p: int| 0 <= p < q + 1 implies head_to_idx@[start.root(
                    p as nat,
                ) as int] == Some(#[trigger] state_to_idx@[p]) by {
                    start.lemma_root(p as nat);
                    if p < q {
                        assert(before[start.root(p as nat) as int] == Some(state_to_idx@[p]));
                    }
                }
                assert forall|h: int|
                    0 <= h < n && (#[trigger] head_to_idx@[h]) is Some implies exists|p: nat|
                    p < q + 1 && #[trigger] start.root(p) == h by {
                    if h == head {
                        assert(start.root(q as nat) == h);
                    } else {
                        assert(before[h] is Some);
                        let p = choose|p: nat| p < q && #[trigger] start.root(p) == h;
                        assert(start.root(p) == h);
                    }
                }
            }
            q += 1;
        }
        (state_to_idx, curr_idx)
    }
}

impl<T> DFA<T> {
    /// Equivalent states have the same row of moves to classes.
    pub proof fn lemma_class_row_equivalent(&self, p: nat, q: nat, row: Seq<(char, usize)>)
        requires
            self.wf(),
            self.total(),
            p < self.num_states,
            q < self.num_states,
            self.equivalent(p, q),
            self.is_class_row(p, row),
        ensures
            self.is_class_row(q, row),
    {
        assert forall|k: int| 0 <= k < self.alphabet@.len() implies #[trigger] row[k] == (
            self.alphabet@[k],
            self.class_index(self.successor(q, k)) as usize,
        ) by {
            self.lemma_equivalent_step(p, q, k);
            self.lemma_class_index_equal(self.successor(p, k), self.successor(q, k));
        }
    }

    /// The moves of the class of `q` in the minimal automaton: on each
    /// symbol of the alphabet to the class that `q` moves to.
    fn class_row(&self, state_to_idx: &Vec<usize>, q: usize) -> (row: Vec<(char, usize)>)
        requires
            self.wf(),
            self.total(),
            q < self.num_states,
            state_to_idx@.len() == self.num_states,
            forall|p: int|
                0 <= p < self.num_states ==> #[trigger] state_to_idx@[p] == self.class_index(
                    p as nat,
                ),
        ensures
            self.is_class_row(q as nat, row@),
    {
        let mut row: Vec<(char, usize)> = Vec::new();
        let mut k: usize = 0;
        while k < self.alphabet.len()
            invariant
                self.wf(),
                self.total(),
                q < self.num_states,
                state_to_idx@.len() == self.num_states,
                forall|p: int|
                    0 <= p < self.num_states ==> #[trigger] state_to_idx@[p] == self.class_index(
                        p as nat,
                    ),
                k <= self.alphabet@.len(),
                row@.len() == k,
                forall|l: int|
                    0 <= l < k ==> #[trigger] row@[l] == (
                        self.alphabet@[l],
                        self.class_index(self.successor(q as nat, l)) as usize,
                    ),
            decreases self.alphabet@.len() - k,
        {
            proof {
                self.lemma_successor(q as nat, k as int);
            }
            let dest = self.make_move(q, self.alphabet[k]);
            row.push((self.alphabet[k], state_to_idx[dest]));
            k += 1;
        }
        row
    }

    /// The rows of moves of the classes, in the order of their numbers: the
    /// row of a class is that of its lowest state.
    fn class_rows(&self, state_to_idx: &Vec<usize>) -> (rows: Vec<Vec<(char, usize)>>)
        requires
            self.wf(),
            self.total(),
            state_to_idx@.len() == self.num_states,
            forall|p: int|
                0 <= p < self.num_states ==> #[trigger] state_to_idx@[p] == self.class_index(
                    p as nat,
                ),
        ensures
            rows@.len() == self.count_minima(self.num_states as nat),
            forall|p: nat|
                p < self.num_states ==> self.is_class_row(
                    p,
                    rows@[#[trigger] self.class_index(p) as int]@,
                ),
    {
        let n = self.num_states;
        let mut rows: Vec<Vec<(char, usize)>> = Vec::new();
        let mut q: usize = 0;
        while q < n
            invariant
                self.wf(),
                self.total(),
                n == self.num_states,
                q <= n,
                state_to_idx@.len() == n,
                forall|p: int| 0 <= p < n ==> #[trigger] state_to_idx@[p] == self.class_index(p as nat),
                rows@.len() == self.count_minima(q as nat),
                forall|p: nat|
                    p < q ==> self.is_class_row(p, rows@[#[trigger] self.class_index(p) as int]@),
            decreases n - q,
        {
            let ghost before = rows@;
            proof {
                self.lemma_class_min(q as nat);
                self.lemma_class_min_idempotent(q as nat);
                let m = self.class_min(q as nat);
                if m < q {
                    self.lemma_count_minima_monotone(m + 1, q as nat);
                }
            }
            if state_to_idx[q] == rows.len() {
                let row = self.class_row(state_to_idx, q);
                rows.push(row);
                proof {
                    assert forall|p: nat| p < q + 1 implies self.is_class_row(
                        p,
                        rows@[#[trigger] self.class_index(p) as int]@,
                    ) by {
                        if p < q {
                            self.lemma_class_index_bound(p, q as nat);
                            assert(rows@[self.class_index(p) as int] == before[self.class_index(
                                p,
                            ) as int]);
                        }
                    }
                }
            } else {
                proof {
                    let m = self.class_min(q as nat);
                    self.lemma_class_index_equal(m, q as nat);
                    assert(self.is_class_row(m, rows@[self.class_index(m) as int]@));
                    self.lemma_class_row_equivalent(
                        m,
                        q as nat,
                        rows@[self.class_index(m) as int]@,
                    );
                }
            }
            q += 1;
        }
        rows
    }

    /// The minimal automaton for the language of `self`. Its states are the
    /// classes of the states of `self` from which the same words are
    /// accepted, numbered in the order of their lowest states.
    pub fn get_minimized_dfa(&self) -> (minimized: Self)
        requires
            self.wf(),
            self.total(),
        ensures
            minimized.wf(),
            minimized.total(),
            minimized.is_minimization_of(self),
    {
        let n = self.num_states;
        let mut unequal_sets = self.merge_equivalent();
        let (state_to_idx, num_states) = self.number_classes(&mut unequal_sets);

        let new_transitions = self.class_rows(&state_to_idx);

        // A class is accepting where its states are; each one is listed once.
        let mut marks = vec![false; num_states];
        let mut i: usize = 0;
        while i < self.end_states.len()
            invariant
                self.wf(),
                n == self.num_states,
                i <= self.end_states@.len(),
                state_to_idx@.len() == n,
                forall|p: int| 0 <= p < n ==> #[trigger] state_to_idx@[p] == self.class_index(p as nat),
                num_states == self.count_minima(n as nat),
                marks@.len() == num_states,
                forall|r: int|
                    0 <= r < num_states ==> (marks@[r] <==> exists|l: int|
                        0 <= l < i && self.class_index(#[trigger] self.end_states@[l] as nat) == r),
            decreases self.end_states@.len() - i,
        {
            let end_state = self.end_states[i];
            proof {
                self.lemma_class_index_bound(end_state as nat, n as nat);
            }
            let ghost before = marks@;
            marks.set(state_to_idx[end_state], true);
            proof {
                assert forall|r: int| 0 <= r < num_states implies (marks@[r] <==> exists|l: int|
                    0 <= l < i + 1 && self.class_index(#[trigger] self.end_states@[l] as nat)
                        == r) by {
                    if marks@[r] {
                        if before[r] {
                            let l = choose|l: int|
                                0 <= l < i && self.class_index(
                                    #[trigger] self.end_states@[l] as nat,
                                ) == r;
                            assert(self.class_index(self.end_states@[l] as nat) == r);
                        } else {
                            assert(self.class_index(self.end_states@[i as int] as nat) == r);
                        }
                    }
                    if exists|l: int|
                        0 <= l < i + 1 && self.class_index(#[trigger] self.end_states@[l] as nat)
                            == r {
                        let l = choose|l: int|
                            0 <= l < i + 1 && self.class_index(
                                #[trigger] self.end_states@[l] as nat,
                            ) == r;
                        if l < i {
                            assert(self.class_index(self.end_states@[l] as nat) == r);
                            assert(before[r]);
                        }
                    }
                }
            }
            i += 1;
        }
        let new_end_states = bits_to_states(&marks);
        proof {
            self.lemma_class_index_bound(self.start_state as nat, n as nat);
        }
        let minimized = Self {
            num_states,
            start_state: state_to_idx[self.start_state],
            end_states: new_end_states,
            transitions: new_transitions,
            alphabet: self.alphabet.clone(),
            idx_to_data: None,
        };
        proof {
            assert(minimized.alphabet@ == self.alphabet@);
            assert forall|l: int| 0 <= l < minimized.end_states@.len() implies (
            #[trigger] minimized.end_states@[l]) < num_states by {
                assert(list_set(minimized.end_states@).contains(minimized.end_states@[l] as nat));
                assert(bits_set(marks@).contains(minimized.end_states@[l] as nat));
            }
            assert forall|p: nat| p < n implies (minimized.is_final(
                #[trigger] self.class_index(p),
            ) <==> self.is_final(p)) by {
                let r = self.class_index(p);
                self.lemma_class_index_bound(p, n as nat);
                if self.is_final(p) {
                    let l = choose|l: int|
                        0 <= l < self.end_states@.len() && #[trigger] self.end_states@[l] == p;
                    assert(self.class_index(self.end_states@[l] as nat) == r);
                    assert(marks@[r as int]);
                    assert(bits_set(marks@).contains(r));
                    assert(list_set(minimized.end_states@).contains(r));
                }
                if minimized.is_final(r) {
                    assert(list_set(minimized.end_states@).contains(r));
                    assert(bits_set(marks@).contains(r));
                    let l = choose|l: int|
                        0 <= l < self.end_states@.len() && self.class_index(
                            #[trigger] self.end_states@[l] as nat,
                        ) == r;
                    let f = self.end_states@[l] as nat;
                    assert(self.is_final(f));
                    self.lemma_class_index_equal(f, p);
                    self.lemma_equivalent_final(f, p);
                }
            }
            assert(minimized.is_minimization_of(self));
            self.lemma_minimization_wf(&minimized);
        }
        minimized
    }

    /// The minimal automaton is well formed and has a move on every symbol
    /// in every state.
    pub proof fn lemma_minimization_wf(&self, minimized: &DFA<T>)
        requires
            self.wf(),
            self.total(),
            minimized.is_minimization_of(self),
        ensures
            minimized.wf(),
            minimized.total(),
    {
        let n = self.num_states as nat;
        self.lemma_class_index_bound(self.start_state as nat, n);
        assert forall|r: int| 0 <= r < minimized.transitions@.len() implies {
            &&& distinct_symbols(#[trigger] minimized.transitions@[r]@)
            &&& minimized.transitions@[r]@.len() == self.alphabet@.len()
            &&& forall|k: int|
                0 <= k < self.alphabet@.len() ==> (#[trigger] minimized.transitions@[r]@[k]).0
                    == self.alphabet@[k] && minimized.transitions@[r]@[k].1 < minimized.num_states
        } by {
            let q = self.lemma_class_index_onto(r as nat, n);
            let row = minimized.transitions@[r]@;
            assert(self.is_class_row(q, minimized.transitions@[self.class_index(q) as int]@));
            assert forall|k: int| 0 <= k < self.alphabet@.len() implies (#[trigger] row[k]).0
                == self.alphabet@[k] && row[k].1 < minimized.num_states by {
                self.lemma_successor(q, k);
                self.lemma_class_index_bound(self.successor(q, k), n);
            }
            assert forall|j: int, k: int| 0 <= j < k < row.len() implies (#[trigger] row[j]).0 != (
            #[trigger] row[k]).0 by {
                assert(row[j].0 == self.alphabet@[j]);
                assert(row[k].0 == self.alphabet@[k]);
            }
        }
        assert forall|r: int, k: int|
            0 <= r < minimized.transitions@.len() && 0 <= k < minimized.transitions@[r]@.len() implies {
            &&& (#[trigger] minimized.transitions@[r]@[k]).1 < minimized.num_states
            &&& minimized.alphabet@.contains(minimized.transitions@[r]@[k].0)
        } by {
            assert(distinct_symbols(minimized.transitions@[r]@));
            assert(minimized.transitions@[r]@[k].0 == self.alphabet@[k]);
        }
        assert forall|r: int, i: int|
            0 <= r < minimized.transitions@.len() && 0 <= i < minimized.alphabet@.len() implies has_symbol(
            #[trigger] minimized.transitions@[r]@,
            #[trigger] minimized.alphabet@[i],
        ) by {
            assert(distinct_symbols(minimized.transitions@[r]@));
            assert(minimized.transitions@[r]@[i].0 == self.alphabet@[i]);
        }
    }
}

impl<T> DFA<T> {
    /// The minimal automaton moves from the class of a state on a symbol
    /// to the class of the state that the state moves to, and has no move
    /// where the state has none.
    pub proof fn lemma_minimization_delta(&self, minimized: &DFA<T>, q: nat, c: char)
        requires
            self.wf(),
            self.total(),
            minimized.wf(),
            minimized.is_minimization_of(self),
            q < self.num_states,
        ensures
            match self.delta(q, c) {
                Some(next) => next < self.num_states && minimized.delta(self.class_index(q), c)
                    == Some(self.class_index(next)),
                None => minimized.delta(self.class_index(q), c) is None,
            },
    {
        let n = self.num_states as nat;
        let r = self.class_index(q);
        self.lemma_class_index_bound(q, n);
        if self.alphabet@.contains(c) {
            let k = choose|k: int| 0 <= k < self.alphabet@.len() && self.alphabet@[k] == c;
            self.lemma_successor(q, k);
            let next = self.successor(q, k);
            self.lemma_class_index_bound(next, n);
            let row = minimized.transitions@[r as int]@;
            assert(self.is_class_row(q, minimized.transitions@[self.class_index(q) as int]@));
            assert(row[k] == (c, self.class_index(next) as usize));
            assert(distinct_symbols(minimized.transitions@[r as int]@));
            minimized.lemma_delta(r as int, k);
        } else {
            if self.delta(q, c) is Some {
                self.lemma_delta_in_range(q, c);
            }
            if minimized.delta(r, c) is Some {
                minimized.lemma_delta_in_range(r, c);
            }
        }
    }

    /// In the minimal automaton a word is accepted from the class of a
    /// state if and only if the automaton accepts it from that state.
    pub proof fn lemma_minimization_accepts_from(&self, minimized: &DFA<T>, q: nat, w: Seq<char>)
        requires
            self.wf(),
            self.total(),
            minimized.wf(),
            minimized.is_minimization_of(self),
            q < self.num_states,
        ensures
            minimized.accepts_from(self.class_index(q), w) == self.accepts_from(q, w),
        decreases w.len(),
    {
        if w.len() > 0 {
            self.lemma_minimization_delta(minimized, q, w[0]);
            match self.delta(q, w[0]) {
                Some(next) => {
                    self.lemma_minimization_accepts_from(minimized, next, w.drop_first());
                },
                None => {},
            }
        }
    }

    /// Minimization preserves the language: the minimal automaton accepts
    /// a word if and only if the automaton it was made from accepts it.
    pub proof fn lemma_minimization_preserves_language(&self, minimized: &DFA<T>, w: Seq<char>)
        requires
            self.wf(),
            self.total(),
            minimized.is_minimization_of(self),
        ensures
            minimized.accepts_word(w) == self.accepts_word(w),
    {
        self.lemma_minimization_wf(minimized);
        self.lemma_minimization_accepts_from(minimized, self.start_state as nat, w);
    }

    /// The minimal automaton has no more states than the automaton it was
    /// made from.
    pub proof fn lemma_minimization_not_larger(&self, minimized: &DFA<T>)
        requires
            minimized.is_minimization_of(self),
        ensures
            minimized.num_states <= self.num_states,
    {
        self.lemma_count_minima_monotone(0, self.num_states as nat);
    }

    /// Any two states of the minimal automaton are told apart by some word.
    pub proof fn lemma_minimization_distinguishes(&self, minimized: &DFA<T>, a: nat, b: nat)
        requires
            self.wf(),
            self.total(),
            minimized.is_minimization_of(self),
            a < minimized.num_states,
            b < minimized.num_states,
            a != b,
        ensures
            minimized.distinguishable(a, b),
    {
        let n = self.num_states as nat;
        self.lemma_minimization_wf(minimized);
        let p = self.lemma_class_index_onto(a, n);
        let q = self.lemma_class_index_onto(b, n);
        self.lemma_class_index_equal(p, q);
        let w = choose|w: Seq<char>|
            word_over(self.alphabet@, w) && #[trigger] self.accepts_from(p, w)
                != self.accepts_from(q, w);
        self.lemma_minimization_accepts_from(minimized, p, w);
        self.lemma_minimization_accepts_from(minimized, q, w);
        assert(minimized.accepts_from(a, w) != minimized.accepts_from(b, w));
    }

    /// Where any two states below `k` are told apart by some word, each of
    /// them is a class of its own.
    pub proof fn lemma_count_minima_all(&self, k: nat)
        requires
            forall|a: nat, b: nat| a < b < k ==> #[trigger] self.distinguishable(a, b),
        ensures
            self.count_minima(k) == k,
        decreases k,
    {
        if k > 0 {
            self.lemma_count_minima_all((k - 1) as nat);
            let b = (k - 1) as nat;
            self.lemma_class_min(b);
            if self.class_min(b) < b {
                assert(self.distinguishable(self.class_min(b), b));
            }
        }
    }

    /// Minimization is idempotent: the minimal automaton of a minimal
    /// automaton has as many states as that one.
    pub proof fn lemma_minimization_idempotent(&self, minimized: &DFA<T>, again: &DFA<T>)
        requires
            self.wf(),
            self.total(),
            minimized.is_minimization_of(self),
            again.is_minimization_of(minimized),
        ensures
            again.num_states == minimized.num_states,
    {
        let m = minimized.num_states as nat;
        assert forall|a: nat, b: nat| a < b < m implies #[trigger] minimized.distinguishable(
            a,
            b,
        ) by {
            self.lemma_minimization_distinguishes(minimized, a, b);
        }
        minimized.lemma_count_minima_all(m);
    }
}

} // verus!
