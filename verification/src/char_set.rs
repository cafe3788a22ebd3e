//! Finite sets of characters, kept as strictly increasing vectors.
use vstd::prelude::*;

verus! {

/// A finite set of characters. The elements are stored in increasing order,
/// each one once, so that two equal sets are stored alike.
#[derive(Debug, PartialEq, Eq)]
pub struct CharSet {
    pub items: Vec<char>,
}

/// Whether `s` is strictly increasing.
pub open spec fn increasing(s: Seq<char>) -> bool {
    forall|i: int, j: int| 0 <= i < j < s.len() ==> s[i] < s[j]
}

impl View for CharSet {
    type V = Set<char>;

    open spec fn view(&self) -> Set<char> {
        self.items@.to_set()
    }
}

impl CharSet {
    /// The elements are stored in strictly increasing order.
    pub open spec fn wf(&self) -> bool {
        increasing(self.items@)
    }

    /// The empty set.
    pub fn new() -> (set: Self)
        ensures
            set.wf(),
            set@ == Set::<char>::empty(),
            set.items@.len() == 0,
    {
        let set = CharSet { items: Vec::new() };
        assert(set.items@.to_set() =~= Set::<char>::empty());
        set
    }

    /// The number of elements.
    pub fn len(&self) -> (n: usize)
        requires
            self.wf(),
        ensures
            n == self@.len(),
            n == self.items@.len(),
    {
        proof {
            self.lemma_len();
        }
        self.items.len()
    }

    /// A set that is stored in increasing order has as many elements as its
    /// vector is long.
    pub proof fn lemma_len(&self)
        requires
            self.wf(),
        ensures
            self@.len() == self.items@.len(),
            self@.finite(),
    {
        assert(self.items@.no_duplicates());
        self.items@.unique_seq_to_set();
    }

    /// The number of elements of `self` below `c`: the place of `c` if it is
    /// an element, or the place where it would be inserted.
    fn position(&self, c: char) -> (idx: usize)
        requires
            self.wf(),
        ensures
            idx <= self.items@.len(),
            forall|i: int| 0 <= i < idx ==> self.items@[i] < c,
            forall|i: int| idx <= i < self.items@.len() ==> self.items@[i] >= c,
    {
        let mut idx: usize = 0;
        while idx < self.items.len() && self.items[idx] < c
            invariant
                self.wf(),
                idx <= self.items@.len(),
                forall|i: int| 0 <= i < idx ==> self.items@[i] < c,
            decreases self.items@.len() - idx,
        {
            idx += 1;
        }
        idx
    }

    /// The place of `c` among the elements in increasing order, if it is
    /// one.
    pub fn index_of(&self, c: char) -> (place: Option<usize>)
        requires
            self.wf(),
        ensures
            match place {
                Some(i) => i < self.items@.len() && self.items@[i as int] == c,
                None => !self@.contains(c),
            },
    {
        let idx = self.position(c);
        if idx < self.items.len() && self.items[idx] == c {
            Some(idx)
        } else {
            None
        }
    }

    /// Whether `c` is an element.
    pub fn contains(&self, c: char) -> (b: bool)
        requires
            self.wf(),
        ensures
            b == self@.contains(c),
    {
        let idx = self.position(c);
        let b = idx < self.items.len() && self.items[idx] == c;
        proof {
            if b {
                assert(self.items@[idx as int] == c);
            }
        }
        b
    }

    /// Adds `c`. The result tells whether `c` is new to the set.
    pub fn insert(&mut self, c: char) -> (added: bool)
        requires
            old(self).wf(),
        ensures
            final(self).wf(),
            final(self)@ == old(self)@.insert(c),
            added == !old(self)@.contains(c),
    {
        let idx = self.position(c);
        if idx < self.items.len() && self.items[idx] == c {
            assert(self.items@[idx as int] == c);
            assert(self@ =~= old(self)@.insert(c));
            false
        } else {
            let ghost before = self.items@;
            self.items.insert(idx, c);
            proof {
                let after = self.items@;
                assert(after == before.insert(idx as int, c));
                assert forall|x: char| after.to_set().contains(x) <==> before.to_set().insert(
                    c,
                ).contains(x) by {
                    if after.contains(x) {
                        let i = choose|i: int| 0 <= i < after.len() && after[i] == x;
                        if i < idx {
                            assert(before[i] == x);
                        } else if i > idx {
                            assert(before[i - 1] == x);
                        }
                    }
                    if before.contains(x) {
                        let i = choose|i: int| 0 <= i < before.len() && before[i] == x;
                        if i < idx {
                            assert(after[i] == x);
                        } else {
                            assert(after[i + 1] == x);
                        }
                    }
                    if x == c {
                        assert(after[idx as int] == x);
                    }
                }
                assert(self@ =~= old(self)@.insert(c));
                assert forall|i: int, j: int| 0 <= i < j < after.len() implies after[i]
                    < after[j] by {
                    let a = if i < idx { i } else { i - 1 };
                    let b = if j < idx { j } else { j - 1 };
                    if i != idx && j != idx {
                        assert(before[a] < before[b]);
                    }
                }
            }
            true
        }
    }

    /// Takes `c` out. The result tells whether `c` was an element.
    pub fn remove(&mut self, c: char) -> (removed: bool)
        requires
            old(self).wf(),
        ensures
            final(self).wf(),
            final(self)@ == old(self)@.remove(c),
            removed == old(self)@.contains(c),
    {
        let idx = self.position(c);
        if idx < self.items.len() && self.items[idx] == c {
            let ghost before = self.items@;
            let _ = self.items.remove(idx);
            proof {
                let after = self.items@;
                assert(after == before.remove(idx as int));
                assert(before[idx as int] == c);
                assert forall|x: char| after.to_set().contains(x) <==> before.to_set().remove(
                    c,
                ).contains(x) by {
                    if after.contains(x) {
                        let i = choose|i: int| 0 <= i < after.len() && after[i] == x;
                        if i < idx {
                            assert(before[i] == x);
                        } else {
                            assert(before[i + 1] == x);
                        }
                    }
                    if before.contains(x) && x != c {
                        let i = choose|i: int| 0 <= i < before.len() && before[i] == x;
                        if i < idx {
                            assert(after[i] == x);
                        } else {
                            assert(after[i - 1] == x);
                        }
                    }
                }
                assert(self@ =~= old(self)@.remove(c));
                assert forall|i: int, j: int| 0 <= i < j < after.len() implies after[i]
                    < after[j] by {
                    let a = if i < idx { i } else { i + 1 };
                    let b = if j < idx { j } else { j + 1 };
                    assert(before[a] < before[b]);
                }
            }
            true
        } else {
            assert(self@ =~= old(self)@.remove(c));
            false
        }
    }

    /// Whether every element of `self` is one of `other`.
    pub fn is_subset(&self, other: &CharSet) -> (b: bool)
        requires
            self.wf(),
            other.wf(),
        ensures
            b == self@.subset_of(other@),
    {
        let mut i: usize = 0;
        while i < self.items.len()
            invariant
                self.wf(),
                other.wf(),
                i <= self.items@.len(),
                forall|k: int| 0 <= k < i ==> other@.contains(self.items@[k]),
            decreases self.items@.len() - i,
        {
            if !other.contains(self.items[i]) {
                assert(self@.contains(self.items@[i as int]));
                return false;
            }
            i += 1;
        }
        true
    }

    /// Adds every element of `other`. The result tells whether any was new.
    pub fn union_with(&mut self, other: &CharSet) -> (changed: bool)
        requires
            old(self).wf(),
            other.wf(),
        ensures
            final(self).wf(),
            final(self)@ == old(self)@.union(other@),
            changed == !other@.subset_of(old(self)@),
    {
        let mut changed = false;
        let mut i: usize = 0;
        while i < other.items.len()
            invariant
                self.wf(),
                other.wf(),
                i <= other.items@.len(),
                self@ == old(self)@.union(other.items@.subrange(0, i as int).to_set()),
                changed == !other.items@.subrange(0, i as int).to_set().subset_of(old(self)@),
            decreases other.items@.len() - i,
        {
            let ghost seen = other.items@.subrange(0, i as int);
            let added = self.insert(other.items[i]);
            proof {
                let next = other.items@.subrange(0, i as int + 1);
                assert(next == seen.push(other.items@[i as int]));
                assert(next.to_set() =~= seen.to_set().insert(other.items@[i as int])) by {
                    assert forall|x: char| next.to_set().contains(x) <==> seen.to_set().insert(
                        other.items@[i as int],
                    ).contains(x) by {
                        if next.contains(x) {
                            let k = choose|k: int| 0 <= k < next.len() && next[k] == x;
                            if k < i {
                                assert(seen[k] == x);
                            }
                        }
                        if seen.contains(x) {
                            let k = choose|k: int| 0 <= k < seen.len() && seen[k] == x;
                            assert(next[k] == x);
                        }
                        assert(next[i as int] == other.items@[i as int]);
                    }
                }
                assert(self@ =~= old(self)@.union(next.to_set()));
                if added {
                    assert(next.to_set().contains(other.items@[i as int]));
                }
            }
            changed = changed || added;
            i += 1;
        }
        assert(other.items@.subrange(0, i as int) == other.items@);
        changed
    }

    /// A copy of the set.
    pub fn duplicate(&self) -> (copy: Self)
        ensures
            copy.items@ == self.items@,
    {
        CharSet { items: self.items.clone() }
    }
}

} // verus!
