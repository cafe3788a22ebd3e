//! Sets of states, as bit vectors and as increasing lists.
use vstd::prelude::*;
use vstd::set_lib::{lemma_int_range, lemma_len_subset, set_int_range};

verus! {

/// The set that the bit vector `bits` stands for: the indices of its true
/// entries.
pub open spec fn bits_set(bits: Seq<bool>) -> Set<nat> {
    Set::new(|q: nat| q < bits.len() && bits[q as int])
}

/// The set of the elements of `states`.
pub open spec fn list_set(states: Seq<usize>) -> Set<nat> {
    Set::new(|q: nat| exists|i: int| 0 <= i < states.len() && #[trigger] states[i] == q)
}

/// Whether `s` is strictly increasing.
pub open spec fn ascending(s: Seq<usize>) -> bool {
    forall|i: int, j: int| 0 <= i < j < s.len() ==> s[i] < s[j]
}

/// The number of false entries of `bits`.
pub open spec fn count_false(bits: Seq<bool>) -> nat
    decreases bits.len(),
{
    if bits.len() == 0 {
        0
    } else {
        count_false(bits.drop_last()) + if bits.last() {
            0nat
        } else {
            1nat
        }
    }
}

/// Setting a false entry to true leaves one false entry fewer.
pub proof fn lemma_count_false_set(bits: Seq<bool>, i: int)
    requires
        0 <= i < bits.len(),
        !bits[i],
    ensures
        count_false(bits.update(i, true)) + 1 == count_false(bits),
    decreases bits.len(),
{
    let after = bits.update(i, true);
    if i == bits.len() - 1 {
        assert(after.drop_last() == bits.drop_last());
    } else {
        lemma_count_false_set(bits.drop_last(), i);
        assert(after.drop_last() == bits.drop_last().update(i, true));
    }
}

/// Two bit vectors of one length that stand for the same set are equal.
pub proof fn lemma_bits_set_injective(a: Seq<bool>, b: Seq<bool>)
    requires
        a.len() == b.len(),
        bits_set(a) == bits_set(b),
    ensures
        a == b,
{
    assert forall|i: int| 0 <= i < a.len() implies a[i] == b[i] by {
        let q = i as nat;
        assert(bits_set(a).contains(q) == a[q as int]);
        assert(bits_set(b).contains(q) == b[q as int]);
    }
    assert(a =~= b);
}

/// The bit vector of length `n` for the set of the elements of `states`.
pub fn states_to_bits(states: &Vec<usize>, n: usize) -> (bits: Vec<bool>)
    requires
        forall|i: int| 0 <= i < states@.len() ==> states@[i] < n,
    ensures
        bits@.len() == n,
        bits_set(bits@) == list_set(states@),
{
    let mut bits = vec![false; n];
    let mut i: usize = 0;
    while i < states.len()
        invariant
            i <= states@.len(),
            bits@.len() == n,
            forall|k: int| 0 <= k < states@.len() ==> states@[k] < n,
            forall|q: int|
                0 <= q < n ==> (bits@[q] <==> exists|k: int|
                    0 <= k < i && #[trigger] states@[k] == q),
        decreases states@.len() - i,
    {
        let q = states[i];
        bits.set(q, true);
        i += 1;
    }
    proof {
        assert forall|q: nat| bits_set(bits@).contains(q) <==> list_set(states@).contains(q) by {
            if list_set(states@).contains(q) {
                let k = choose|k: int| 0 <= k < states@.len() && #[trigger] states@[k] == q;
                assert(states@[k] < n);
            }
        }
        assert(bits_set(bits@) =~= list_set(states@));
    }
    bits
}

/// The elements of the set that `bits` stands for, in increasing order.
pub fn bits_to_states(bits: &Vec<bool>) -> (states: Vec<usize>)
    ensures
        ascending(states@),
        list_set(states@) == bits_set(bits@),
{
    let mut states: Vec<usize> = Vec::new();
    let mut q: usize = 0;
    while q < bits.len()
        invariant
            q <= bits@.len(),
            ascending(states@),
            forall|k: int| 0 <= k < states@.len() ==> states@[k] < q && bits@[states@[k] as int],
            forall|p: int|
                0 <= p < q && bits@[p] ==> exists|k: int|
                    0 <= k < states@.len() && #[trigger] states@[k] == p,
        decreases bits@.len() - q,
    {
        if bits[q] {
            let ghost before = states@;
            states.push(q);
            proof {
                assert forall|p: int| 0 <= p < q + 1 && bits@[p] implies exists|k: int|
                    0 <= k < states@.len() && #[trigger] states@[k] == p by {
                    if p < q {
                        let k = choose|k: int| 0 <= k < before.len() && #[trigger] before[k] == p;
                        assert(states@[k] == p);
                    } else {
                        assert(states@[before.len() as int] == p);
                    }
                }
            }
        }
        q += 1;
    }
    proof {
        assert(list_set(states@) =~= bits_set(bits@));
    }
    states
}

/// Two to the power of `n`.
pub open spec fn two_to(n: nat) -> nat
    decreases n,
{
    if n == 0 {
        1
    } else {
        2 * two_to((n - 1) as nat)
    }
}

/// The number that the bit vector `bits` is the binary notation of, lowest
/// index first as the highest digit.
pub open spec fn bits_code(bits: Seq<bool>) -> nat
    decreases bits.len(),
{
    if bits.len() == 0 {
        0
    } else {
        2 * bits_code(bits.drop_last()) + if bits.last() {
            1nat
        } else {
            0nat
        }
    }
}

/// The code of a bit vector of length `n` is below two to the `n`.
pub proof fn lemma_bits_code_bound(bits: Seq<bool>)
    ensures
        bits_code(bits) < two_to(bits.len()),
    decreases bits.len(),
{
    if bits.len() > 0 {
        lemma_bits_code_bound(bits.drop_last());
    }
}

/// Bit vectors of one length with the same code are equal.
pub proof fn lemma_bits_code_injective(a: Seq<bool>, b: Seq<bool>)
    requires
        a.len() == b.len(),
        bits_code(a) == bits_code(b),
    ensures
        a == b,
    decreases a.len(),
{
    if a.len() > 0 {
        lemma_bits_code_injective(a.drop_last(), b.drop_last());
        assert(a.last() == b.last());
        assert(a =~= a.drop_last().push(a.last()));
        assert(b =~= b.drop_last().push(b.last()));
    } else {
        assert(a =~= b);
    }
}

/// There are at most two to the `n` different bit vectors of length `n`.
pub proof fn lemma_distinct_bits_bounded(sets: Seq<Vec<bool>>, n: nat)
    requires
        forall|i: int| 0 <= i < sets.len() ==> (#[trigger] sets[i])@.len() == n,
        forall|i: int, j: int|
            0 <= i < j < sets.len() ==> (#[trigger] sets[i])@ != (#[trigger] sets[j])@,
    ensures
        sets.len() <= two_to(n),
{
    let codes = Seq::new(sets.len(), |i: int| bits_code(sets[i]@) as int);
    assert forall|i: int, j: int| 0 <= i < codes.len() && 0 <= j < codes.len() && i
        != j implies codes[i] != codes[j] by {
        if codes[i] == codes[j] {
            lemma_bits_code_injective(sets[i]@, sets[j]@);
            if i < j {
                assert(sets[i]@ != sets[j]@);
            } else {
                assert(sets[j]@ != sets[i]@);
            }
        }
    }
    codes.unique_seq_to_set();
    lemma_int_range(0, two_to(n) as int);
    assert forall|c: int| codes.to_set().contains(c) implies set_int_range(
        0,
        two_to(n) as int,
    ).contains(c) by {
        let i = choose|i: int| 0 <= i < codes.len() && codes[i] == c;
        lemma_bits_code_bound(sets[i]@);
    }
    lemma_len_subset(codes.to_set(), set_int_range(0, two_to(n) as int));
}

/// Whether the bit vectors `a` and `b` are equal.
pub fn same_bits(a: &Vec<bool>, b: &Vec<bool>) -> (same: bool)
    ensures
        same == (a@ == b@),
{
    if a.len() != b.len() {
        return false;
    }
    let mut i: usize = 0;
    while i < a.len()
        invariant
            a@.len() == b@.len(),
            i <= a@.len(),
            forall|k: int| 0 <= k < i ==> a@[k] == b@[k],
        decreases a@.len() - i,
    {
        if a[i] != b[i] {
            return false;
        }
        i += 1;
    }
    assert(a@ =~= b@);
    true
}

/// The place of `target` among `sets`, if it is one of them.
pub fn find_bits(sets: &Vec<Vec<bool>>, target: &Vec<bool>) -> (place: Option<usize>)
    ensures
        match place {
            Some(i) => i < sets@.len() && sets@[i as int]@ == target@,
            None => forall|i: int| 0 <= i < sets@.len() ==> (#[trigger] sets@[i])@ != target@,
        },
{
    let mut i: usize = 0;
    while i < sets.len()
        invariant
            i <= sets@.len(),
            forall|k: int| 0 <= k < i ==> (#[trigger] sets@[k])@ != target@,
        decreases sets@.len() - i,
    {
        if same_bits(&sets[i], target) {
            return Some(i);
        }
        i += 1;
    }
    None
}

} // verus!
