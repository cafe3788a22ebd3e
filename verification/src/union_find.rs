//! Disjoint sets with union by rank and path compression.
use vstd::prelude::*;

verus! {

/// A partition of the numbers below `parent.len()`. Every set is a tree:
/// `parent` leads from an element towards the head of its set, which is its
/// own parent. Ranks grow strictly towards the head.
#[derive(Debug)]
pub struct DisjointUnionFind {
    pub parent: Vec<usize>,
    pub rank: Vec<usize>,
    pub num_sets: usize,
}

/// The number of indices below `k` that are their own parent.
pub open spec fn count_heads(parent: Seq<usize>, k: nat) -> nat
    decreases k,
{
    if k == 0 {
        0
    } else {
        count_heads(parent, (k - 1) as nat) + if parent[k - 1] == k - 1 {
            1nat
        } else {
            0nat
        }
    }
}

/// Changing the parent of `i` changes the number of heads by what `i`
/// itself was or becomes.
pub proof fn lemma_count_heads_update(parent: Seq<usize>, i: int, p: usize, k: nat)
    requires
        0 <= i < parent.len(),
        k <= parent.len(),
    ensures
        count_heads(parent.update(i, p), k) + (if i < k && parent[i] == i {
            1nat
        } else {
            0nat
        }) == count_heads(parent, k) + (if i < k && p == i {
            1nat
        } else {
            0nat
        }),
    decreases k,
{
    if k > 0 {
        lemma_count_heads_update(parent, i, p, (k - 1) as nat);
    }
}

/// There are at least as many heads below `k` as there are among any two
/// indices below `k`.
pub proof fn lemma_count_heads_two(parent: Seq<usize>, a: int, b: int, k: nat)
    requires
        0 <= a < k,
        0 <= b < k,
        a != b,
        k <= parent.len(),
        parent[a] == a,
        parent[b] == b,
    ensures
        count_heads(parent, k) >= 2,
    decreases k,
{
    if a == k - 1 {
        lemma_count_heads_one(parent, b, (k - 1) as nat);
    } else if b == k - 1 {
        lemma_count_heads_one(parent, a, (k - 1) as nat);
    } else {
        lemma_count_heads_two(parent, a, b, (k - 1) as nat);
    }
}

/// A head below `k` is counted.
pub proof fn lemma_count_heads_one(parent: Seq<usize>, a: int, k: nat)
    requires
        0 <= a < k,
        k <= parent.len(),
        parent[a] == a,
    ensures
        count_heads(parent, k) >= 1,
    decreases k,
{
    if a != k - 1 {
        lemma_count_heads_one(parent, a, (k - 1) as nat);
    }
}

impl DisjointUnionFind {
    /// The number of elements.
    pub open spec fn size(&self) -> nat {
        self.parent@.len()
    }

    /// Every parent is an element, ranks grow strictly from an element to
    /// its parent, and `num_sets` counts the heads.
    pub open spec fn wf(&self) -> bool {
        &&& self.rank@.len() == self.parent@.len()
        &&& forall|i: int|
            0 <= i < self.parent@.len() ==> {
                &&& (#[trigger] self.parent@[i]) < self.parent@.len()
                &&& self.parent@[i] != i ==> self.rank@[i] < self.rank@[self.parent@[i] as int]
            }
        &&& forall|i: int|
            0 <= i < self.parent@.len() ==> (#[trigger] self.rank@[i]) + self.num_sets
                <= self.parent@.len()
        &&& self.num_sets == count_heads(self.parent@, self.parent@.len())
    }

    /// The head of the set of `a`.
    pub open spec fn root(&self, a: nat) -> nat
        decreases self.parent@.len() - self.rank@[a as int],
        when self.wf() && a < self.parent@.len()
    {
        if self.parent@[a as int] == a {
            a
        } else {
            self.root(self.parent@[a as int] as nat)
        }
    }

    /// Whether `a` and `b` are in one set.
    pub open spec fn same_set(&self, a: nat, b: nat) -> bool {
        self.root(a) == self.root(b)
    }

    /// The head of a set is an element and its own parent, and its rank is
    /// the highest of the way to it.
    pub proof fn lemma_root(&self, a: nat)
        requires
            self.wf(),
            a < self.size(),
        ensures
            self.root(a) < self.size(),
            self.parent@[self.root(a) as int] == self.root(a),
            self.root(self.root(a)) == self.root(a),
            self.rank@[a as int] <= self.rank@[self.root(a) as int],
            self.root(a) != a ==> self.rank@[a as int] < self.rank@[self.root(a) as int],
            self.root(a) != a ==> self.parent@[a as int] != a,
        decreases self.parent@.len() - self.rank@[a as int],
    {
        if self.parent@[a as int] != a {
            self.lemma_root(self.parent@[a as int] as nat);
        }
    }

    /// A partition of the numbers below `size` into sets of one element.
    pub fn new(size: usize) -> (sets: Self)
        ensures
            sets.wf(),
            sets.size() == size,
            sets.num_sets == size,
            forall|a: nat| a < size ==> sets.root(a) == a,
    {
        let mut parent: Vec<usize> = Vec::new();
        let mut i: usize = 0;
        while i < size
            invariant
                i <= size,
                parent@.len() == i,
                forall|k: int| 0 <= k < i ==> parent@[k] == k,
                count_heads(parent@, i as nat) == i,
            decreases size - i,
        {
            let ghost before = parent@;
            parent.push(i);
            proof {
                lemma_count_heads_prefix(before, parent@, i as nat);
            }
            i += 1;
        }
        let sets = Self { parent, rank: vec![0; size], num_sets: size };
        assert(sets.wf());
        assert forall|a: nat| a < size implies sets.root(a) == a by {
            assert(sets.parent@[a as int] == a);
        }
        sets
    }

    /// Finds the head of the set of `a`, and makes it the parent of every
    /// element on the way. The partition stays as it is.
    pub fn find(&mut self, a: usize) -> (head: usize)
        requires
            old(self).wf(),
            a < old(self).size(),
        ensures
            final(self).wf(),
            final(self).size() == old(self).size(),
            final(self).num_sets == old(self).num_sets,
            final(self).rank == old(self).rank,
            head == old(self).root(a as nat),
            head < old(self).size(),
            final(self).parent@[head as int] == head,
            final(self).parent@[a as int] == head,
            forall|x: nat| x < old(self).size() ==> final(self).root(x) == old(self).root(x),
        decreases old(self).parent@.len() - old(self).rank@[a as int],
    {
        let p = self.parent[a];
        proof {
            old(self).lemma_root(a as nat);
        }
        if p != a {
            let head = self.find(p);
            let ghost mid = *self;
            proof {
                mid.lemma_root(a as nat);
                assert(mid.root(a as nat) == old(self).root(a as nat));
                old(self).lemma_root(a as nat);
                old(self).lemma_root(p as nat);
                lemma_count_heads_update(mid.parent@, a as int, head, mid.size());
            }
            self.parent.set(a, head);
            proof {
                assert(self.wf());
                assert forall|x: nat| x < old(self).size() implies self.root(x) == old(
                    self,
                ).root(x) by {
                    lemma_compress(mid, *self, a as nat, x);
                }
            }
            head
        } else {
            a
        }
    }

    /// Makes one set of the sets of `a` and `b`.
    pub fn join(&mut self, a: usize, b: usize)
        requires
            old(self).wf(),
            a < old(self).size(),
            b < old(self).size(),
        ensures
            final(self).wf(),
            final(self).size() == old(self).size(),
            forall|x: nat, y: nat|
                x < old(self).size() && y < old(self).size() ==> (#[trigger] final(self).same_set(
                    x,
                    y,
                ) <==> old(self).same_set(x, y) || (old(self).same_set(x, a as nat) && old(
                    self,
                ).same_set(y, b as nat)) || (old(self).same_set(x, b as nat) && old(
                    self,
                ).same_set(y, a as nat))),
            final(self).num_sets == if old(self).same_set(a as nat, b as nat) {
                old(self).num_sets as int
            } else {
                old(self).num_sets - 1
            },
    {
        let ghost first = a as nat;
        let ghost second = b as nat;
        let a = self.find(a);
        let ghost mid = *self;
        let b = self.find(b);
        let ghost found = *self;
        proof {
            mid.lemma_root(a as nat);
            assert(mid.root(a as nat) == a);
            assert(found.root(a as nat) == a);
            found.lemma_root(a as nat);
            found.lemma_root(b as nat);
            assert(found.root(b as nat) == b);
            assert(a == old(self).root(first));
            assert(b == old(self).root(second));
            assert(forall|x: nat| x < found.size() ==> found.root(x) == old(self).root(x));
        }
        if a == b {
            return ;
        }
        proof {
            lemma_count_heads_two(found.parent@, a as int, b as int, found.size());
        }
        let rank_a = self.rank[a];
        let rank_b = self.rank[b];
        if rank_a < rank_b {
            proof {
                lemma_count_heads_update(found.parent@, a as int, b, found.size());
            }
            self.parent.set(a, b);
            self.num_sets = self.num_sets - 1;
            proof {
                assert(self.wf());
                assert forall|x: nat| x < found.size() implies self.root(x) == (if found.root(x)
                    == a {
                    b as nat
                } else {
                    found.root(x)
                }) by {
                    lemma_link(found, *self, a as nat, b as nat, x);
                }
            }
        } else {
            proof {
                lemma_count_heads_update(found.parent@, b as int, a, found.size());
            }
            if rank_a == rank_b {
                let n = self.parent.len();
                assert(found.rank@[a as int] + found.num_sets <= n);
                assert(found.num_sets >= 2);
                self.rank.set(a, rank_a + 1);
            }
            self.parent.set(b, a);
            self.num_sets = self.num_sets - 1;
            proof {
                assert(self.wf());
                assert forall|x: nat| x < found.size() implies self.root(x) == (if found.root(x)
                    == b {
                    a as nat
                } else {
                    found.root(x)
                }) by {
                    lemma_link(found, *self, b as nat, a as nat, x);
                }
            }
        }
    }

    /// The number of sets.
    pub fn get_size(&self) -> (n: usize)
        ensures
            n == self.num_sets,
    {
        self.num_sets
    }

    /// Whether `a` is the head of its set.
    pub fn is_head(&self, a: &usize) -> (b: bool)
        requires
            self.wf(),
            *a < self.size(),
        ensures
            b == (self.root(*a as nat) == *a),
    {
        proof {
            self.lemma_root(*a as nat);
        }
        self.parent[*a] == *a
    }
}

/// A sequence that was extended by one element counts the heads of its old
/// part as before.
pub proof fn lemma_count_heads_prefix(before: Seq<usize>, after: Seq<usize>, k: nat)
    requires
        k <= before.len(),
        before.len() <= after.len(),
        forall|i: int| 0 <= i < before.len() ==> before[i] == after[i],
    ensures
        count_heads(before, k) == count_heads(after, k),
    decreases k,
{
    if k > 0 {
        lemma_count_heads_prefix(before, after, (k - 1) as nat);
    }
}

/// Where the parent of `a` becomes the head of its set, every element keeps
/// its head.
pub proof fn lemma_compress(
    before: DisjointUnionFind,
    after: DisjointUnionFind,
    a: nat,
    x: nat,
)
    requires
        before.wf(),
        after.wf(),
        a < before.size(),
        x < before.size(),
        after.rank == before.rank,
        after.parent@ == before.parent@.update(a as int, before.root(a) as usize),
    ensures
        after.root(x) == before.root(x),
    decreases before.parent@.len() - before.rank@[x as int],
{
    before.lemma_root(a);
    before.lemma_root(x);
    if x == a {
        let head = before.root(a);
        if head != a {
            lemma_compress(before, after, a, head);
        }
    } else if before.parent@[x as int] != x {
        lemma_compress(before, after, a, before.parent@[x as int] as nat);
    }
}

/// Where the head `child` gets the head `head` as its parent, the elements
/// of the set of `child` get `head` as their head, and all others keep
/// theirs.
pub proof fn lemma_link(
    before: DisjointUnionFind,
    after: DisjointUnionFind,
    child: nat,
    head: nat,
    x: nat,
)
    requires
        before.wf(),
        after.wf(),
        child < before.size(),
        head < before.size(),
        x < before.size(),
        child != head,
        before.parent@[child as int] == child,
        before.parent@[head as int] == head,
        after.parent@ == before.parent@.update(child as int, head as usize),
        after.rank@.len() == before.rank@.len(),
    ensures
        after.root(x) == if before.root(x) == child {
            head
        } else {
            before.root(x)
        },
    decreases before.parent@.len() - before.rank@[x as int],
{
    before.lemma_root(x);
    if x == child {
        assert(after.parent@[head as int] == head);
        assert(after.root(head) == head);
    } else if before.parent@[x as int] != x {
        lemma_link(before, after, child, head, before.parent@[x as int] as nat);
    }
}

} // verus!
