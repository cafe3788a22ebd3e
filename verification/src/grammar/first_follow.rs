//! The FIRST and FOLLOW sets of the nonterminals of a grammar.
use vstd::prelude::*;
use vstd::set_lib::lemma_len_subset;
use crate::char_set::CharSet;
use crate::consts::{NonTerminal, EPSILON, STRING_END};
use crate::grammar::production::{production_seq, Letter, Production, Rule};
use crate::grammar::simplification::{closed_within, spec_non_terminals, spec_nullable};
use crate::grammar::Grammar;

verus! {

/// For each nonterminal the set of the terminals that a word derived from
/// it can begin with.
pub type FirstTable = Vec<CharSet>;

/// For each nonterminal the set of the terminals that can follow it.
pub type FollowTable = Vec<CharSet>;

/// The rows of a table as sets.
pub open spec fn table_sets(table: Seq<CharSet>) -> Seq<Set<char>> {
    table.map_values(|row: CharSet| row@)
}

/// Whether every row of the table is stored in order.
pub open spec fn table_wf(table: Seq<CharSet>) -> bool {
    forall|n: int| 0 <= n < table.len() ==> (#[trigger] table[n]).wf()
}

/// Whether every nonterminal of `rules` is below `num`.
pub open spec fn indices_below(rules: Seq<Rule>, num: nat) -> bool {
    &&& forall|i: int| 0 <= i < rules.len() ==> (#[trigger] rules[i]).0 < num
    &&& forall|i: int, j: int|
        0 <= i < rules.len() && 0 <= j < rules[i].1.len() && (#[trigger] rules[i].1[j])
            is NonTerminal ==> rules[i].1[j]->NonTerminal_0 < num
}

/// Whether `letter` derives the empty word: it is the empty word, or a
/// nonterminal that `nullable` marks.
pub open spec fn letter_nullable(letter: Letter, nullable: Seq<bool>) -> bool {
    match letter {
        Letter::NonTerminal(n) => n < nullable.len() && nullable[n as int],
        Letter::Terminal(c) => c == EPSILON,
    }
}

/// Whether each of the first `j` letters of `rhs` derives the empty word.
pub open spec fn prefix_nullable(rhs: Seq<Letter>, j: int, nullable: Seq<bool>) -> bool {
    forall|k: int| 0 <= k < j ==> letter_nullable(#[trigger] rhs[k], nullable)
}

/// What `letter` gives to the FIRST set of a nonterminal whose right-hand
/// side it stands in, behind letters that derive the empty word: itself if
/// it is a terminal (but not the empty word), else its own FIRST set.
pub open spec fn letter_gives(letter: Letter, sets: Seq<Set<char>>) -> Set<char> {
    match letter {
        Letter::NonTerminal(n) => if n < sets.len() {
            sets[n as int]
        } else {
            Set::empty()
        },
        Letter::Terminal(c) => if c == EPSILON {
            Set::empty()
        } else {
            set![c]
        },
    }
}

/// What the right-hand side `rhs` gives to the FIRST set of its left-hand
/// side: what each letter gives that stands behind letters that derive the
/// empty word.
pub open spec fn rule_gives(rhs: Seq<Letter>, nullable: Seq<bool>, sets: Seq<Set<char>>) -> Set<
    char,
> {
    Set::new(
        |c: char|
            exists|j: int|
                0 <= j < rhs.len() && prefix_nullable(rhs, j, nullable) && #[trigger] letter_gives(
                    rhs[j],
                    sets,
                ).contains(c),
    )
}

/// Whether the table holds, for every production, what its right-hand side
/// gives to its left-hand side.
pub open spec fn closed_first(rules: Seq<Rule>, nullable: Seq<bool>, sets: Seq<Set<char>>) -> bool {
    forall|i: int|
        0 <= i < rules.len() ==> rule_gives((#[trigger] rules[i]).1, nullable, sets).subset_of(
            sets[rules[i].0 as int],
        )
}

/// The FIRST sets without the empty word: the least table of `num` rows
/// that is closed in the sense of `closed_first`. A row holds what the row
/// of every such table holds.
pub open spec fn spec_first_base(rules: Seq<Rule>, nullable: Seq<bool>, num: nat) -> Seq<Set<char>> {
    Seq::new(
        num,
        |n: int|
            Set::new(
                |c: char|
                    forall|t: Seq<Set<char>>|
                        t.len() == num && #[trigger] closed_first(rules, nullable, t)
                            ==> t[n].contains(c),
            ),
    )
}

/// The FIRST sets: those without the empty word, and the empty word in the
/// row of every nonterminal that derives it.
pub open spec fn spec_first(rules: Seq<Rule>, nullable: Seq<bool>, num: nat) -> Seq<Set<char>> {
    Seq::new(
        num,
        |n: int|
            if n < nullable.len() && nullable[n] {
                spec_first_base(rules, nullable, num)[n].insert(EPSILON)
            } else {
                spec_first_base(rules, nullable, num)[n]
            },
    )
}

/// The sum of the sizes of the rows.
pub open spec fn total_items(table: Seq<CharSet>) -> nat
    decreases table.len(),
{
    if table.len() == 0 {
        0
    } else {
        total_items(table.drop_last()) + table.last().items@.len()
    }
}

/// Where no row has more than `limit` elements, the sizes sum up to no
/// more than `limit` for each row.
pub proof fn lemma_total_items_bound(table: Seq<CharSet>, limit: nat)
    requires
        forall|n: int| 0 <= n < table.len() ==> (#[trigger] table[n]).items@.len() <= limit,
    ensures
        total_items(table) <= table.len() * limit,
    decreases table.len(),
{
    if table.len() > 0 {
        lemma_total_items_bound(table.drop_last(), limit);
        assert(table.last() == table[table.len() - 1]);
        assert((table.len() - 1) * limit + limit == table.len() * limit) by (nonlinear_arith);
    }
}

/// Where one row has grown and the others have kept their size, the sum of
/// the sizes has grown as much.
pub proof fn lemma_total_items_update(before: Seq<CharSet>, after: Seq<CharSet>, n: int)
    requires
        0 <= n < before.len(),
        after.len() == before.len(),
        forall|m: int|
            0 <= m < before.len() && m != n ==> (#[trigger] after[m]).items@.len()
                == before[m].items@.len(),
    ensures
        total_items(after) + before[n].items@.len() == total_items(before) + after[n].items@.len(),
    decreases before.len(),
{
    if n == before.len() - 1 {
        lemma_total_items_same(before.drop_last(), after.drop_last());
    } else {
        lemma_total_items_update(before.drop_last(), after.drop_last(), n);
        assert(after.last() == after[after.len() - 1]);
        assert(before.last() == before[before.len() - 1]);
    }
}

/// Tables whose rows have the same sizes have the same sum of sizes.
pub proof fn lemma_total_items_same(a: Seq<CharSet>, b: Seq<CharSet>)
    requires
        a.len() == b.len(),
        forall|m: int| 0 <= m < a.len() ==> (#[trigger] a[m]).items@.len() == b[m].items@.len(),
    ensures
        total_items(a) == total_items(b),
    decreases a.len(),
{
    if a.len() > 0 {
        lemma_total_items_same(a.drop_last(), b.drop_last());
        assert(a.last() == a[a.len() - 1]);
        assert(b.last() == b[b.len() - 1]);
    }
}

/// A set that is stored in order and lies within another has no more
/// elements than that one.
pub proof fn lemma_subset_size(small: CharSet, large: CharSet)
    requires
        small.wf(),
        large.wf(),
        small@.subset_of(large@),
    ensures
        small.items@.len() <= large.items@.len(),
{
    small.lemma_len();
    large.lemma_len();
    lemma_len_subset(small@, large@);
}

/// A set that is stored in order and lies properly within another has
/// fewer elements than that one.
pub proof fn lemma_proper_subset_size(small: CharSet, large: CharSet)
    requires
        small.wf(),
        large.wf(),
        small@.subset_of(large@),
        small@ != large@,
    ensures
        small.items@.len() < large.items@.len(),
{
    small.lemma_len();
    large.lemma_len();
    if forall|c: char| large@.contains(c) ==> small@.contains(c) {
        assert(small@ =~= large@);
    }
    let x = choose|x: char| large@.contains(x) && !small@.contains(x);
    lemma_len_subset(small@, large@.remove(x));
}

/// What the first `upto` letters of `rhs` give to the FIRST set of the
/// left-hand side, see `rule_gives`.
pub open spec fn prefix_gives(
    rhs: Seq<Letter>,
    nullable: Seq<bool>,
    sets: Seq<Set<char>>,
    upto: int,
) -> Set<char> {
    Set::new(
        |c: char|
            exists|j: int|
                0 <= j < upto && j < rhs.len() && prefix_nullable(rhs, j, nullable)
                    && #[trigger] letter_gives(rhs[j], sets).contains(c),
    )
}

impl Production {
    /// Adds to the FIRST set of the left-hand side what the right-hand side
    /// gives to it: what each letter gives that stands behind letters that
    /// derive the empty word. The result tells whether the set has grown.
    pub fn update_first_table(&self, first_table: &mut FirstTable, nullable: &Vec<bool>) -> (has_changed:
        bool)
        requires
            table_wf(old(first_table)@),
            self.lhs < old(first_table)@.len(),
            nullable@.len() == old(first_table)@.len(),
            forall|j: int|
                0 <= j < self.rhs@.len() && (#[trigger] self.rhs@[j]) is NonTerminal
                    ==> self.rhs@[j]->NonTerminal_0 < old(first_table)@.len(),
        ensures
            table_wf(final(first_table)@),
            final(first_table)@.len() == old(first_table)@.len(),
            forall|m: int|
                0 <= m < old(first_table)@.len() && m != self.lhs ==> (#[trigger] final(first_table)@[m]).items@ == old(first_table)@[m].items@,
            final(first_table)@[self.lhs as int]@ == old(first_table)@[self.lhs as int]@.union(
                rule_gives(self.rhs@, nullable@, table_sets(old(first_table)@)),
            ),
            has_changed == (final(first_table)@[self.lhs as int]@ != old(first_table)@[self.lhs as int]@),
    {
        let ghost start = first_table@;
        let ghost sets = table_sets(first_table@);
        let ghost base = first_table@[self.lhs as int]@;
        let mut has_changed = false;
        let mut stop = false;
        let mut j: usize = 0;
        proof {
            assert(base.union(prefix_gives(self.rhs@, nullable@, sets, 0)) =~= base);
        }
        while j < self.rhs.len() && !stop
            invariant
                start == old(first_table)@,
                sets == table_sets(start),
                base == start[self.lhs as int]@,
                table_wf(first_table@),
                first_table@.len() == start.len(),
                self.lhs < start.len(),
                nullable@.len() == start.len(),
                forall|k: int|
                    0 <= k < self.rhs@.len() && (#[trigger] self.rhs@[k]) is NonTerminal
                        ==> self.rhs@[k]->NonTerminal_0 < start.len(),
                j <= self.rhs@.len(),
                forall|m: int|
                    0 <= m < start.len() && m != self.lhs ==> (#[trigger] first_table@[m]).items@
                        == start[m].items@,
                first_table@[self.lhs as int]@ == base.union(
                    prefix_gives(self.rhs@, nullable@, sets, j as int),
                ),
                has_changed == (first_table@[self.lhs as int]@ != base),
                !stop ==> prefix_nullable(self.rhs@, j as int, nullable@),
                stop ==> prefix_gives(self.rhs@, nullable@, sets, j as int) == rule_gives(
                    self.rhs@,
                    nullable@,
                    sets,
                ),
            decreases self.rhs@.len() - j,
        {
            let ghost row_before = first_table@[self.lhs as int]@;
            let ghost given = prefix_gives(self.rhs@, nullable@, sets, j as int);
            let ghost letter = self.rhs@[j as int];
            match self.rhs[j] {
                Letter::NonTerminal(idx) => {
                    let set_to_join = first_table[idx].duplicate();
                    proof {
                        assert(first_table@[idx as int].wf());
                        assert(set_to_join.wf());
                        assert(set_to_join@ == first_table@[idx as int]@);
                    }
                    let grown = first_table[self.lhs].union_with(&set_to_join);
                    has_changed = has_changed || grown;
                    if !nullable[idx] {
                        stop = true;
                    }
                    proof {
                        assert(sets[idx as int] == start[idx as int]@);
                        if idx != self.lhs {
                            assert(first_table@[idx as int].items@ == start[idx as int].items@);
                            assert(set_to_join@ == letter_gives(letter, sets));
                        } else {
                            assert(letter_gives(letter, sets) == base);
                        }
                    }
                },
                Letter::Terminal(ch) => {
                    if ch != EPSILON {
                        let grown = first_table[self.lhs].insert(ch);
                        has_changed = has_changed || grown;
                        stop = true;
                    }
                },
            }
            proof {
                let next = prefix_gives(self.rhs@, nullable@, sets, j as int + 1);
                assert forall|c: char| next.contains(c) <==> given.contains(c) || letter_gives(
                    letter,
                    sets,
                ).contains(c) by {
                    if next.contains(c) {
                        let k = choose|k: int|
                            0 <= k < j + 1 && k < self.rhs@.len() && prefix_nullable(
                                self.rhs@,
                                k,
                                nullable@,
                            ) && #[trigger] letter_gives(self.rhs@[k], sets).contains(c);
                        if k < j {
                            assert(letter_gives(self.rhs@[k], sets).contains(c));
                        }
                    }
                    if given.contains(c) {
                        let k = choose|k: int|
                            0 <= k < j && k < self.rhs@.len() && prefix_nullable(
                                self.rhs@,
                                k,
                                nullable@,
                            ) && #[trigger] letter_gives(self.rhs@[k], sets).contains(c);
                        assert(letter_gives(self.rhs@[k], sets).contains(c));
                    }
                    if letter_gives(letter, sets).contains(c) {
                        assert(letter_gives(self.rhs@[j as int], sets).contains(c));
                    }
                }
                assert(first_table@[self.lhs as int]@ =~= base.union(next));
                if stop {
                    assert(!letter_nullable(letter, nullable@));
                    assert forall|c: char| rule_gives(self.rhs@, nullable@, sets).contains(
                        c,
                    ) implies next.contains(c) by {
                        let k = choose|k: int|
                            0 <= k < self.rhs@.len() && prefix_nullable(self.rhs@, k, nullable@)
                                && #[trigger] letter_gives(self.rhs@[k], sets).contains(c);
                        if k > j {
                            assert(letter_nullable(self.rhs@[j as int], nullable@));
                        }
                        assert(letter_gives(self.rhs@[k], sets).contains(c));
                    }
                    assert(next =~= rule_gives(self.rhs@, nullable@, sets));
                } else {
                    assert(letter_nullable(letter, nullable@));
                    assert forall|k: int| 0 <= k < j + 1 implies letter_nullable(
                        #[trigger] self.rhs@[k],
                        nullable@,
                    ) by {
                        if k < j {
                            assert(letter_nullable(self.rhs@[k], nullable@));
                        }
                    }
                }
                let row_after = first_table@[self.lhs as int]@;
                assert(row_after =~= row_before.union(letter_gives(letter, sets)));
                assert(base.subset_of(row_before));
                if row_after == base {
                    assert(row_before =~= base);
                }
                if letter_gives(letter, sets).subset_of(row_before) {
                    assert(row_after =~= row_before);
                } else {
                    let x = choose|x: char|
                        letter_gives(letter, sets).contains(x) && !row_before.contains(x);
                    assert(row_after.contains(x));
                }
            }
            j += 1;
        }
        proof {
            if !stop {
                assert(prefix_gives(self.rhs@, nullable@, sets, j as int) =~= rule_gives(
                    self.rhs@,
                    nullable@,
                    sets,
                ));
            }
        }
        has_changed
    }
}

/// Whether the `j`-th letter of the right-hand side of the `i`-th of
/// `rules` is the terminal `c`.
pub open spec fn terminal_at(rules: Seq<Rule>, i: int, j: int, c: char) -> bool {
    0 <= i < rules.len() && 0 <= j < rules[i].1.len() && rules[i].1[j] == Letter::Terminal(c)
}

/// The terminals of the right-hand sides of `rules`.
pub open spec fn spec_terminals(rules: Seq<Rule>) -> Set<char> {
    Set::new(|c: char| exists|i: int, j: int| #[trigger] terminal_at(rules, i, j, c))
}

/// The terminals of the right-hand sides of `productions`.
pub fn terminals_of(productions: &Vec<Production>) -> (set: CharSet)
    ensures
        set.wf(),
        set@ == spec_terminals(production_seq(productions@)),
{
    let ghost rules = production_seq(productions@);
    let mut set = CharSet::new();
    let mut i: usize = 0;
    while i < productions.len()
        invariant
            rules == production_seq(productions@),
            i <= productions@.len(),
            set.wf(),
            forall|c: char, p: int, j: int|
                p < i && #[trigger] terminal_at(rules, p, j, c) ==> set@.contains(c),
            forall|c: char| #[trigger] set@.contains(c) ==> spec_terminals(rules).contains(c),
        decreases productions@.len() - i,
    {
        let mut j: usize = 0;
        while j < productions[i].rhs.len()
            invariant
                rules == production_seq(productions@),
                i < productions@.len(),
                j <= productions@[i as int].rhs@.len(),
                set.wf(),
                forall|c: char, p: int, k: int|
                    (p < i || (p == i && k < j)) && #[trigger] terminal_at(rules, p, k, c)
                        ==> set@.contains(c),
                forall|c: char| #[trigger] set@.contains(c) ==> spec_terminals(rules).contains(c),
            decreases productions@[i as int].rhs@.len() - j,
        {
            match productions[i].rhs[j] {
                Letter::Terminal(c) => {
                    let _ = set.insert(c);
                    assert(terminal_at(rules, i as int, j as int, c));
                },
                Letter::NonTerminal(_) => {},
            }
            j += 1;
        }
        i += 1;
    }
    proof {
        assert forall|c: char| spec_terminals(rules).contains(c) implies set@.contains(c) by {
            let (p, k) = choose|p: int, k: int| #[trigger] terminal_at(rules, p, k, c);
            assert(p < i && terminal_at(rules, p, k, c));
        }
        assert(set@ =~= spec_terminals(rules));
    }
    set
}

/// Whether every row of `small` lies within the row of `large`.
pub open spec fn rows_within(small: Seq<Set<char>>, large: Seq<Set<char>>) -> bool {
    &&& small.len() == large.len()
    &&& forall|n: int| 0 <= n < small.len() ==> (#[trigger] small[n]).subset_of(large[n])
}

/// What a right-hand side gives over a table, it gives over every table
/// with larger rows.
pub proof fn lemma_rule_gives_monotone(
    rhs: Seq<Letter>,
    nullable: Seq<bool>,
    small: Seq<Set<char>>,
    large: Seq<Set<char>>,
)
    requires
        rows_within(small, large),
    ensures
        rule_gives(rhs, nullable, small).subset_of(rule_gives(rhs, nullable, large)),
{
    assert forall|c: char| rule_gives(rhs, nullable, small).contains(c) implies rule_gives(
        rhs,
        nullable,
        large,
    ).contains(c) by {
        let j = choose|j: int|
            0 <= j < rhs.len() && prefix_nullable(rhs, j, nullable) && #[trigger] letter_gives(
                rhs[j],
                small,
            ).contains(c);
        match rhs[j] {
            Letter::NonTerminal(n) => {
                assert(small[n as int].subset_of(large[n as int]));
            },
            Letter::Terminal(_) => {},
        }
        assert(letter_gives(rhs[j], large).contains(c));
    }
}

/// The table of `num` empty rows.
pub fn empty_table(num: usize) -> (table: Vec<CharSet>)
    ensures
        table@.len() == num,
        table_wf(table@),
        forall|n: int| 0 <= n < num ==> (#[trigger] table@[n])@ == Set::<char>::empty(),
        forall|n: int| 0 <= n < num ==> (#[trigger] table@[n]).items@.len() == 0,
{
    let mut table: Vec<CharSet> = Vec::new();
    let mut n: usize = 0;
    while n < num
        invariant
            n <= num,
            table@.len() == n,
            table_wf(table@),
            forall|m: int| 0 <= m < n ==> (#[trigger] table@[m])@ == Set::<char>::empty(),
            forall|m: int| 0 <= m < n ==> (#[trigger] table@[m]).items@.len() == 0,
        decreases num - n,
    {
        table.push(CharSet::new());
        n += 1;
    }
    table
}

/// The FIRST sets of the nonterminals below `num_non_terminal`, where
/// `nullable` marks those that derive the empty word. Every production
/// adds what its right-hand side gives, round by round, until a round adds
/// nothing; then every nonterminal that derives the empty word gets it.
pub fn compute_first(grammar: &Grammar, num_non_terminal: usize, nullable: &Vec<bool>) -> (first_table:
    FirstTable)
    requires
        indices_below(grammar.rules(), num_non_terminal as nat),
        nullable@.len() == num_non_terminal,
    ensures
        first_table@.len() == num_non_terminal,
        table_wf(first_table@),
        table_sets(first_table@) == spec_first(
            grammar.rules(),
            nullable@,
            num_non_terminal as nat,
        ),
{
    let ghost rules = grammar.rules();
    let ghost num = num_non_terminal as nat;
    let ghost least = spec_first_base(rules, nullable@, num);
    let productions = grammar.get_productions();
    let universe = terminals_of(productions);
    let limit = universe.len();
    let ghost cap = num * limit;
    let mut first_table = empty_table(num_non_terminal);
    let mut has_changed = true;
    proof {
        lemma_total_items_bound(first_table@, limit as nat);
    }
    while has_changed
        invariant
            rules == grammar.rules(),
            rules == production_seq(productions@),
            num == num_non_terminal,
            least == spec_first_base(rules, nullable@, num),
            indices_below(rules, num),
            nullable@.len() == num,
            universe.wf(),
            universe@ == spec_terminals(rules),
            limit == universe.items@.len(),
            cap == num * limit,
            first_table@.len() == num,
            table_wf(first_table@),
            rows_within(table_sets(first_table@), least),
            forall|n: int| 0 <= n < num ==> (#[trigger] first_table@[n])@.subset_of(universe@),
            total_items(first_table@) <= cap,
            !has_changed ==> closed_first(rules, nullable@, table_sets(first_table@)),
        decreases
                cap - total_items(first_table@) + if has_changed {
                    1nat
                } else {
                    0nat
                },
    {
        has_changed = false;
        let ghost round_total = total_items(first_table@);
        let ghost round_sets = table_sets(first_table@);
        let mut p: usize = 0;
        while p < productions.len()
            invariant
                rules == production_seq(productions@),
                num == num_non_terminal,
                least == spec_first_base(rules, nullable@, num),
                indices_below(rules, num),
                nullable@.len() == num,
                universe.wf(),
                universe@ == spec_terminals(rules),
                limit == universe.items@.len(),
                cap == num * limit,
                p <= productions@.len(),
                first_table@.len() == num,
                table_wf(first_table@),
                rows_within(table_sets(first_table@), least),
                forall|n: int| 0 <= n < num ==> (#[trigger] first_table@[n])@.subset_of(universe@),
                total_items(first_table@) <= cap,
                has_changed ==> total_items(first_table@) > round_total,
                !has_changed ==> total_items(first_table@) == round_total,
                !has_changed ==> table_sets(first_table@) == round_sets,
                !has_changed ==> forall|q: int|
                    0 <= q < p ==> rule_gives((#[trigger] rules[q]).1, nullable@, round_sets).subset_of(
                        round_sets[rules[q].0 as int],
                    ),
            decreases productions@.len() - p,
        {
            let ghost before = first_table@;
            let ghost before_sets = table_sets(first_table@);
            let ghost rule = rules[p as int];
            proof {
                assert(rule == productions@[p as int]@);
                assert forall|j: int|
                    0 <= j < productions@[p as int].rhs@.len() && (
                    #[trigger] productions@[p as int].rhs@[j]) is NonTerminal implies productions@[p as int].rhs@[j]->NonTerminal_0
                    < num by {
                    assert(rules[p as int].1[j] is NonTerminal);
                }
            }
            let changed = productions[p].update_first_table(&mut first_table, nullable);
            proof {
                let lhs = rule.0 as int;
                let gives = rule_gives(rule.1, nullable@, before_sets);
                let after_sets = table_sets(first_table@);
                assert(first_table@[lhs]@ == before[lhs]@.union(gives));
                // What was added is in the least table.
                assert forall|c: char| gives.contains(c) implies least[lhs].contains(c) by {
                    assert forall|t: Seq<Set<char>>|
                        t.len() == num && #[trigger] closed_first(
                            rules,
                            nullable@,
                            t,
                        ) implies t[lhs].contains(c) by {
                        assert forall|n: int| 0 <= n < before_sets.len() implies (
                        #[trigger] before_sets[n]).subset_of(t[n]) by {
                            assert forall|x: char| before_sets[n].contains(x) implies t[n].contains(
                                x,
                            ) by {
                                assert(before_sets[n].subset_of(least[n]));
                                assert(least[n].contains(x));
                            }
                        }
                        lemma_rule_gives_monotone(rule.1, nullable@, before_sets, t);
                        assert(rule_gives(rules[p as int].1, nullable@, t).subset_of(
                            t[rules[p as int].0 as int],
                        ));
                    }
                }
                assert forall|n: int| 0 <= n < after_sets.len() implies (
                #[trigger] after_sets[n]).subset_of(least[n]) by {
                    if n != lhs {
                        assert(first_table@[n].items@ == before[n].items@);
                        assert(after_sets[n] == before_sets[n]);
                    } else {
                        assert(before_sets[n].subset_of(least[n]));
                    }
                }
                // What was added is a terminal of the grammar.
                assert forall|c: char| gives.contains(c) implies universe@.contains(c) by {
                    let j = choose|j: int|
                        0 <= j < rule.1.len() && prefix_nullable(rule.1, j, nullable@)
                            && #[trigger] letter_gives(rule.1[j], before_sets).contains(c);
                    match rule.1[j] {
                        Letter::NonTerminal(n) => {
                            assert(before[n as int]@.subset_of(universe@));
                        },
                        Letter::Terminal(x) => {
                            assert(terminal_at(rules, p as int, j, c));
                        },
                    }
                }
                assert forall|n: int| 0 <= n < num implies (#[trigger] first_table@[n])@.subset_of(
                    universe@,
                ) by {
                    if n != lhs {
                        assert(first_table@[n].items@ == before[n].items@);
                        assert(before[n]@.subset_of(universe@));
                    } else {
                        assert(before[n]@.subset_of(universe@));
                    }
                }
                assert forall|n: int| 0 <= n < first_table@.len() implies (
                #[trigger] first_table@[n]).items@.len() <= limit by {
                    lemma_subset_size(first_table@[n], universe);
                }
                lemma_total_items_bound(first_table@, limit as nat);
                lemma_total_items_update(before, first_table@, lhs);
                if changed {
                    lemma_proper_subset_size(before[lhs], first_table@[lhs]);
                } else {
                    assert(first_table@[lhs]@ == before[lhs]@);
                    before[lhs].lemma_len();
                    first_table@[lhs].lemma_len();
                    assert(after_sets =~= before_sets) by {
                        assert forall|n: int| 0 <= n < after_sets.len() implies after_sets[n]
                            == before_sets[n] by {
                            if n != lhs {
                                assert(first_table@[n].items@ == before[n].items@);
                            }
                        }
                    }
                    assert(gives.subset_of(before_sets[lhs]));
                }
            }
            has_changed = has_changed || changed;
            p += 1;
        }
    }
    proof {
        let sets = table_sets(first_table@);
        assert forall|n: int| 0 <= n < num implies sets[n] == least[n] by {
            assert(sets[n].subset_of(least[n]));
            assert forall|c: char| least[n].contains(c) implies sets[n].contains(c) by {
                assert(closed_first(rules, nullable@, sets));
            }
            assert(sets[n] =~= least[n]);
        }
    }
    let mut i: usize = 0;
    while i < num_non_terminal
        invariant
            num == num_non_terminal,
            least == spec_first_base(rules, nullable@, num),
            nullable@.len() == num,
            i <= num_non_terminal,
            first_table@.len() == num,
            table_wf(first_table@),
            forall|n: int|
                0 <= n < i ==> (#[trigger] first_table@[n])@ == spec_first(rules, nullable@, num)[n],
            forall|n: int| i <= n < num ==> (#[trigger] first_table@[n])@ == least[n],
        decreases num_non_terminal - i,
    {
        if nullable[i] {
            let _ = first_table[i].insert(EPSILON);
        }
        i += 1;
    }
    assert(table_sets(first_table@) =~= spec_first(rules, nullable@, num));
    first_table
}

/// The FIRST set of a letter: the set of its row for a nonterminal, the
/// letter itself for a terminal.
pub open spec fn letter_first(sets: Seq<Set<char>>, letter: Letter) -> Set<char> {
    match letter {
        Letter::NonTerminal(n) => if n < sets.len() {
            sets[n as int]
        } else {
            Set::empty()
        },
        Letter::Terminal(c) => set![c],
    }
}

/// The FIRST set of the letters of `letters` from `from` on: what the
/// letters give up to the first one that does not derive the empty word,
/// and the empty word if they all derive it.
pub open spec fn spec_first_of(sets: Seq<Set<char>>, letters: Seq<Letter>, from: int) -> Set<char>
    decreases letters.len() - from,
{
    if from < 0 || from >= letters.len() {
        set![EPSILON]
    } else {
        let first = letter_first(sets, letters[from]);
        if first.contains(EPSILON) {
            first.remove(EPSILON).union(spec_first_of(sets, letters, from + 1))
        } else {
            first
        }
    }
}

/// The FIRST set of `letter`.
pub fn get_first_letter(first: &FirstTable, letter: &Letter) -> (set: CharSet)
    requires
        table_wf(first@),
        *letter matches Letter::NonTerminal(n) ==> n < first@.len(),
    ensures
        set.wf(),
        set@ == letter_first(table_sets(first@), *letter),
{
    match letter {
        Letter::NonTerminal(idx) => {
            assert(first@[*idx as int].wf());
            first[*idx].duplicate()
        },
        Letter::Terminal(ch) => {
            let mut set = CharSet::new();
            let _ = set.insert(*ch);
            assert(set@ =~= set![*ch]);
            set
        },
    }
}

/// The FIRST set of the letters of `letters` from `from` on.
pub fn get_first(first: &FirstTable, letters: &Vec<Letter>, from: usize) -> (set: CharSet)
    requires
        table_wf(first@),
        forall|j: int|
            from <= j < letters@.len() && (#[trigger] letters@[j]) is NonTerminal
                ==> letters@[j]->NonTerminal_0 < first@.len(),
    ensures
        set.wf(),
        set@ == spec_first_of(table_sets(first@), letters@, from as int),
{
    let ghost sets = table_sets(first@);
    let ghost whole = spec_first_of(sets, letters@, from as int);
    let mut out = CharSet::new();
    let mut j: usize = from;
    while j < letters.len()
        invariant
            sets == table_sets(first@),
            table_wf(first@),
            forall|k: int|
                from <= k < letters@.len() && (#[trigger] letters@[k]) is NonTerminal
                    ==> letters@[k]->NonTerminal_0 < first@.len(),
            from <= j,
            out.wf(),
            !out@.contains(EPSILON),
            whole == spec_first_of(sets, letters@, from as int),
            whole == out@.union(spec_first_of(sets, letters@, j as int)),
        decreases letters@.len() - j,
    {
        let letter = letters[j];
        let mut set = get_first_letter(first, &letter);
        let ghost given = set@;
        let ghost before = out@;
        let ghost rest = spec_first_of(sets, letters@, j as int + 1);
        if !set.remove(EPSILON) {
            let _ = out.union_with(&set);
            assert(out@ =~= whole);
            return out;
        }
        let _ = out.union_with(&set);
        proof {
            assert(out@.union(rest) =~= before.union(given.remove(EPSILON).union(rest)));
        }
        j += 1;
    }
    let ghost before = out@;
    let _ = out.insert(EPSILON);
    assert(out@ =~= before.union(set![EPSILON]));
    out
}

/// What the letters behind the `j`-th letter of `rhs` give to the FOLLOW
/// set of that letter, where `own` is the FOLLOW set of the left-hand
/// side: their FIRST set without the empty word, and `own` if they all
/// derive the empty word.
pub open spec fn follow_gives(sets: Seq<Set<char>>, rhs: Seq<Letter>, j: int, own: Set<char>) -> Set<
    char,
> {
    let behind = spec_first_of(sets, rhs, j + 1);
    if behind.contains(EPSILON) {
        behind.remove(EPSILON).union(own)
    } else {
        behind
    }
}

/// Whether the table `t` holds, for every nonterminal of the right-hand
/// side of `rule`, what the letters behind it give.
pub open spec fn rule_closed_follow(rule: Rule, first: Seq<Set<char>>, t: Seq<Set<char>>) -> bool {
    forall|j: int|
        0 <= j < rule.1.len() && (#[trigger] rule.1[j]) is NonTerminal ==> follow_gives(
            first,
            rule.1,
            j,
            t[rule.0 as int],
        ).subset_of(t[rule.1[j]->NonTerminal_0 as int])
}

/// Whether the table `t` holds the end of the input for `start` and is
/// closed under every production in the sense of `rule_closed_follow`.
pub open spec fn closed_follow(
    start: usize,
    rules: Seq<Rule>,
    first: Seq<Set<char>>,
    t: Seq<Set<char>>,
) -> bool {
    &&& t[start as int].contains(STRING_END)
    &&& forall|i: int| 0 <= i < rules.len() ==> rule_closed_follow(#[trigger] rules[i], first, t)
}

/// The FOLLOW sets: the least table of `num` rows that is closed in the
/// sense of `closed_follow`. A row holds what the row of every such table
/// holds.
pub open spec fn spec_follow(start: usize, rules: Seq<Rule>, first: Seq<Set<char>>, num: nat) -> Seq<
    Set<char>,
> {
    Seq::new(
        num,
        |n: int|
            Set::new(
                |c: char|
                    forall|t: Seq<Set<char>>|
                        t.len() == num && #[trigger] closed_follow(start, rules, first, t)
                            ==> t[n].contains(c),
            ),
    )
}

/// The table after one pass over a right-hand side from its `j`-th letter
/// on: every nonterminal, from left to right, gets what the letters behind
/// it give, where the FOLLOW set of the left-hand side counts as it is at
/// that moment.
pub open spec fn spec_follow_pass(
    rhs: Seq<Letter>,
    lhs: usize,
    first: Seq<Set<char>>,
    table: Seq<Set<char>>,
    j: int,
) -> Seq<Set<char>>
    decreases rhs.len() - j,
{
    if j < 0 || j >= rhs.len() {
        table
    } else {
        match rhs[j] {
            Letter::NonTerminal(b) => spec_follow_pass(
                rhs,
                lhs,
                first,
                table.update(
                    b as int,
                    table[b as int].union(follow_gives(first, rhs, j, table[lhs as int])),
                ),
                j + 1,
            ),
            Letter::Terminal(_) => spec_follow_pass(rhs, lhs, first, table, j + 1),
        }
    }
}

/// What the letters behind a letter give over a set, they give over every
/// larger set.
pub proof fn lemma_follow_gives_monotone(
    sets: Seq<Set<char>>,
    rhs: Seq<Letter>,
    j: int,
    small: Set<char>,
    large: Set<char>,
)
    requires
        small.subset_of(large),
    ensures
        follow_gives(sets, rhs, j, small).subset_of(follow_gives(sets, rhs, j, large)),
{
}

impl Production {
    /// Adds to the FOLLOW set of every nonterminal of the right-hand side
    /// what the letters behind it give: their FIRST set without the empty
    /// word, and the FOLLOW set of the left-hand side if they all derive
    /// the empty word. The letters are taken from left to right, and a set
    /// that has grown counts as it is. The result tells whether a set has
    /// grown.
    pub fn update_follow_table(&self, first: &FirstTable, follow: &mut FollowTable) -> (has_changed:
        bool)
        requires
            table_wf(first@),
            table_wf(old(follow)@),
            first@.len() == old(follow)@.len(),
            self.lhs < old(follow)@.len(),
            forall|j: int|
                0 <= j < self.rhs@.len() && (#[trigger] self.rhs@[j]) is NonTerminal
                    ==> self.rhs@[j]->NonTerminal_0 < old(follow)@.len(),
        ensures
            table_wf(final(follow)@),
            final(follow)@.len() == old(follow)@.len(),
            table_sets(final(follow)@) == spec_follow_pass(
                self.rhs@,
                self.lhs,
                table_sets(first@),
                table_sets(old(follow)@),
                0,
            ),
            rows_within(table_sets(old(follow)@), table_sets(final(follow)@)),
            has_changed == (table_sets(final(follow)@) != table_sets(old(follow)@)),
            forall|t: Seq<Set<char>>|
                rows_within(table_sets(old(follow)@), t) && #[trigger] rule_closed_follow(
                    self@,
                    table_sets(first@),
                    t,
                ) ==> rows_within(table_sets(final(follow)@), t),
            forall|j: int|
                0 <= j < self.rhs@.len() && (#[trigger] self.rhs@[j]) is NonTerminal
                    ==> follow_gives(
                    table_sets(first@),
                    self.rhs@,
                    j,
                    old(follow)@[self.lhs as int]@,
                ).subset_of(final(follow)@[self.rhs@[j]->NonTerminal_0 as int]@),
    {
        let ghost start = follow@;
        let ghost start_sets = table_sets(follow@);
        let ghost first_sets = table_sets(first@);
        let ghost num = follow@.len();
        let mut has_changed = false;
        let mut j: usize = 0;
        while j < self.rhs.len()
            invariant
                start == old(follow)@,
                start_sets == table_sets(start),
                first_sets == table_sets(first@),
                num == start.len(),
                table_wf(first@),
                table_wf(follow@),
                first@.len() == num,
                follow@.len() == num,
                self.lhs < num,
                forall|k: int|
                    0 <= k < self.rhs@.len() && (#[trigger] self.rhs@[k]) is NonTerminal
                        ==> self.rhs@[k]->NonTerminal_0 < num,
                j <= self.rhs@.len(),
                spec_follow_pass(self.rhs@, self.lhs, first_sets, table_sets(follow@), j as int)
                    == spec_follow_pass(self.rhs@, self.lhs, first_sets, start_sets, 0),
                rows_within(start_sets, table_sets(follow@)),
                has_changed == (table_sets(follow@) != start_sets),
                forall|t: Seq<Set<char>>|
                    rows_within(start_sets, t) && #[trigger] rule_closed_follow(
                        self@,
                        first_sets,
                        t,
                    ) ==> rows_within(table_sets(follow@), t),
                forall|k: int|
                    0 <= k < j && (#[trigger] self.rhs@[k]) is NonTerminal ==> follow_gives(
                        first_sets,
                        self.rhs@,
                        k,
                        start[self.lhs as int]@,
                    ).subset_of(follow@[self.rhs@[k]->NonTerminal_0 as int]@),
            decreases self.rhs@.len() - j,
        {
            match self.rhs[j] {
                Letter::NonTerminal(idx) => {
                    let ghost before = follow@;
                    let ghost before_sets = table_sets(follow@);
                    let mut res = get_first(first, &self.rhs, j + 1);
                    if res.remove(EPSILON) {
                        assert(follow@[self.lhs as int].wf());
                        let own = follow[self.lhs].duplicate();
                        let _ = res.union_with(&own);
                    }
                    let ghost gives = res@;
                    assert(follow@[idx as int].wf());
                    let grown = follow[idx].union_with(&res);
                    has_changed = has_changed || grown;
                    proof {
                        let after_sets = table_sets(follow@);
                        assert(gives == follow_gives(
                            first_sets,
                            self.rhs@,
                            j as int,
                            before[self.lhs as int]@,
                        ));
                        assert(follow@[idx as int]@ == before[idx as int]@.union(gives));
                        assert(after_sets =~= before_sets.update(
                            idx as int,
                            before_sets[idx as int].union(gives),
                        )) by {
                            assert forall|n: int| 0 <= n < num implies after_sets[n]
                                == before_sets.update(
                                idx as int,
                                before_sets[idx as int].union(gives),
                            )[n] by {
                                if n != idx {
                                    assert(follow@[n] == before[n]);
                                }
                            }
                        }
                        assert forall|n: int| 0 <= n < num implies (
                        #[trigger] before_sets[n]).subset_of(after_sets[n]) by {
                            if n != idx {
                                assert(follow@[n] == before[n]);
                            }
                        }
                        assert forall|n: int| 0 <= n < num implies (
                        #[trigger] start_sets[n]).subset_of(after_sets[n]) by {
                            assert(start_sets[n].subset_of(before_sets[n]));
                            assert(before_sets[n].subset_of(after_sets[n]));
                        }
                        assert(table_wf(follow@)) by {
                            assert forall|n: int| 0 <= n < follow@.len() implies (
                            #[trigger] follow@[n]).wf() by {
                                if n != idx {
                                    assert(follow@[n] == before[n]);
                                }
                            }
                        }
                        // The table has changed if and only if it differs from the one at the start.
                        if after_sets == start_sets {
                            assert(before_sets =~= start_sets) by {
                                assert forall|n: int| 0 <= n < num implies before_sets[n]
                                    == start_sets[n] by {
                                    assert(start_sets[n].subset_of(before_sets[n]));
                                    assert(before_sets[n].subset_of(after_sets[n]));
                                    assert(before_sets[n] =~= start_sets[n]);
                                }
                            }
                            assert(after_sets[idx as int] == before_sets[idx as int]);
                        }
                        if !grown {
                            assert(follow@[idx as int]@ =~= before[idx as int]@);
                            assert(after_sets =~= before_sets) by {
                                assert forall|n: int| 0 <= n < num implies after_sets[n]
                                    == before_sets[n] by {
                                    if n != idx {
                                        assert(follow@[n] == before[n]);
                                    }
                                }
                            }
                        } else {
                            let x = choose|x: char| gives.contains(x) && !before[idx as int]@.contains(x);
                            assert(after_sets[idx as int].contains(x));
                            assert(!before_sets[idx as int].contains(x));
                        }
                        // What was added is in every closed table above the one at the start.
                        assert forall|t: Seq<Set<char>>|
                            rows_within(start_sets, t) && #[trigger] rule_closed_follow(
                                self@,
                                first_sets,
                                t,
                            ) implies rows_within(after_sets, t) by {
                            assert(rows_within(before_sets, t));
                            assert(self@.1[j as int] is NonTerminal);
                            assert(before_sets[self.lhs as int].subset_of(t[self.lhs as int]));
                            lemma_follow_gives_monotone(
                                first_sets,
                                self.rhs@,
                                j as int,
                                before[self.lhs as int]@,
                                t[self.lhs as int],
                            );
                            assert forall|n: int| 0 <= n < after_sets.len() implies (
                            #[trigger] after_sets[n]).subset_of(t[n]) by {
                                assert(before_sets[n].subset_of(t[n]));
                                if n != idx {
                                    assert(follow@[n] == before[n]);
                                }
                            }
                        }
                        assert forall|k: int|
                            0 <= k < j + 1 && (#[trigger] self.rhs@[k]) is NonTerminal implies follow_gives(
                            first_sets,
                            self.rhs@,
                            k,
                            start[self.lhs as int]@,
                        ).subset_of(follow@[self.rhs@[k]->NonTerminal_0 as int]@) by {
                            let target = self.rhs@[k]->NonTerminal_0 as int;
                            assert(before_sets[target].subset_of(after_sets[target]));
                            if k == j {
                                assert(start_sets[self.lhs as int].subset_of(
                                    before_sets[self.lhs as int],
                                ));
                                lemma_follow_gives_monotone(
                                    first_sets,
                                    self.rhs@,
                                    j as int,
                                    start[self.lhs as int]@,
                                    before[self.lhs as int]@,
                                );
                            }
                        }
                    }
                },
                Letter::Terminal(_) => {},
            }
            j += 1;
        }
        has_changed
    }
}

/// The FIRST set of a sequence of letters lies within every set that holds
/// the empty word and the FIRST set of each letter.
pub proof fn lemma_first_of_within(
    sets: Seq<Set<char>>,
    letters: Seq<Letter>,
    from: int,
    bound: Set<char>,
)
    requires
        bound.contains(EPSILON),
        forall|k: int|
            0 <= k < letters.len() ==> letter_first(sets, #[trigger] letters[k]).subset_of(bound),
    ensures
        spec_first_of(sets, letters, from).subset_of(bound),
    decreases letters.len() - from,
{
    if from < 0 || from >= letters.len() {
    } else {
        lemma_first_of_within(sets, letters, from + 1, bound);
        assert(letter_first(sets, letters[from]).subset_of(bound));
    }
}

/// The set of the terminals of the grammar, of the elements of the rows of
/// `first` and of the end of the input: every FOLLOW set lies within it.
fn follow_universe(productions: &Vec<Production>, first: &FirstTable) -> (universe: CharSet)
    requires
        table_wf(first@),
    ensures
        universe.wf(),
        universe@.contains(STRING_END),
        spec_terminals(production_seq(productions@)).subset_of(universe@),
        forall|n: int| 0 <= n < first@.len() ==> (#[trigger] first@[n])@.subset_of(universe@),
{
    let mut universe = terminals_of(productions);
    let _ = universe.insert(STRING_END);
    let mut n: usize = 0;
    while n < first.len()
        invariant
            table_wf(first@),
            n <= first@.len(),
            universe.wf(),
            universe@.contains(STRING_END),
            spec_terminals(production_seq(productions@)).subset_of(universe@),
            forall|m: int| 0 <= m < n ==> (#[trigger] first@[m])@.subset_of(universe@),
        decreases first@.len() - n,
    {
        assert(first@[n as int].wf());
        let _ = universe.union_with(&first[n]);
        n += 1;
    }
    universe
}

/// The FOLLOW sets of the nonterminals below `num_non_terminal`, from
/// their FIRST sets. The start symbol gets the end of the input; then
/// every production adds to the nonterminals of its right-hand side what
/// the letters behind them give, round by round, until a round adds
/// nothing.
pub fn compute_follow(grammar: &Grammar, num_non_terminal: usize, first: &FirstTable) -> (follow_table:
    FollowTable)
    requires
        indices_below(grammar.rules(), num_non_terminal as nat),
        grammar.start_symbol < num_non_terminal,
        first@.len() == num_non_terminal,
        table_wf(first@),
    ensures
        follow_table@.len() == num_non_terminal,
        table_wf(follow_table@),
        table_sets(follow_table@) == spec_follow(
            grammar.start_symbol,
            grammar.rules(),
            table_sets(first@),
            num_non_terminal as nat,
        ),
{
    let ghost rules = grammar.rules();
    let ghost num = num_non_terminal as nat;
    let ghost first_sets = table_sets(first@);
    let ghost start = grammar.start_symbol;
    let ghost least = spec_follow(start, rules, first_sets, num);
    let productions = grammar.get_productions();
    let universe = follow_universe(productions, first);
    let limit = universe.len();
    let ghost cap = num * limit;
    let ghost top = Seq::new(num, |n: int| universe@);
    let mut follow_table = empty_table(num_non_terminal);
    let _ = follow_table[grammar.get_start_symbol()].insert(STRING_END);
    proof {
        assert forall|n: int| 0 <= n < num implies (#[trigger] follow_table@[n])@.subset_of(
            universe@,
        ) by {}
        assert forall|n: int| 0 <= n < follow_table@.len() implies (
        #[trigger] follow_table@[n]).items@.len() <= limit by {
            lemma_subset_size(follow_table@[n], universe);
        }
        lemma_total_items_bound(follow_table@, limit as nat);
        assert forall|n: int| 0 <= n < num implies (#[trigger] table_sets(
            follow_table@,
        )[n]).subset_of(least[n]) by {}
    }
    let mut has_changed = true;
    while has_changed
        invariant
            rules == grammar.rules(),
            rules == production_seq(productions@),
            num == num_non_terminal,
            start == grammar.start_symbol,
            start < num,
            first_sets == table_sets(first@),
            least == spec_follow(start, rules, first_sets, num),
            top == Seq::new(num, |n: int| universe@),
            indices_below(rules, num),
            first@.len() == num,
            table_wf(first@),
            universe.wf(),
            universe@.contains(STRING_END),
            spec_terminals(rules).subset_of(universe@),
            forall|n: int| 0 <= n < first@.len() ==> (#[trigger] first@[n])@.subset_of(universe@),
            limit == universe.items@.len(),
            cap == num * limit,
            follow_table@.len() == num,
            table_wf(follow_table@),
            follow_table@[start as int]@.contains(STRING_END),
            rows_within(table_sets(follow_table@), least),
            rows_within(table_sets(follow_table@), top),
            total_items(follow_table@) <= cap,
            !has_changed ==> forall|q: int|
                0 <= q < rules.len() ==> rule_closed_follow(
                    #[trigger] rules[q],
                    first_sets,
                    table_sets(follow_table@),
                ),
        decreases
                cap - total_items(follow_table@) + if has_changed {
                    1nat
                } else {
                    0nat
                },
    {
        has_changed = false;
        let ghost round_total = total_items(follow_table@);
        let ghost round_sets = table_sets(follow_table@);
        let mut p: usize = 0;
        while p < productions.len()
            invariant
                rules == production_seq(productions@),
                num == num_non_terminal,
                start < num,
                first_sets == table_sets(first@),
                least == spec_follow(start, rules, first_sets, num),
                top == Seq::new(num, |n: int| universe@),
                indices_below(rules, num),
                first@.len() == num,
                table_wf(first@),
                universe.wf(),
                universe@.contains(STRING_END),
                spec_terminals(rules).subset_of(universe@),
                forall|n: int|
                    0 <= n < first@.len() ==> (#[trigger] first@[n])@.subset_of(universe@),
                limit == universe.items@.len(),
                cap == num * limit,
                p <= productions@.len(),
                follow_table@.len() == num,
                table_wf(follow_table@),
                follow_table@[start as int]@.contains(STRING_END),
                rows_within(table_sets(follow_table@), least),
                rows_within(table_sets(follow_table@), top),
                total_items(follow_table@) <= cap,
                has_changed ==> total_items(follow_table@) > round_total,
                !has_changed ==> total_items(follow_table@) == round_total,
                !has_changed ==> table_sets(follow_table@) == round_sets,
                !has_changed ==> forall|q: int|
                    0 <= q < p ==> rule_closed_follow(#[trigger] rules[q], first_sets, round_sets),
            decreases productions@.len() - p,
        {
            let ghost before = follow_table@;
            let ghost before_sets = table_sets(follow_table@);
            let ghost rule = rules[p as int];
            proof {
                assert(rule == productions@[p as int]@);
                assert forall|j: int|
                    0 <= j < productions@[p as int].rhs@.len() && (
                    #[trigger] productions@[p as int].rhs@[j]) is NonTerminal implies productions@[p as int].rhs@[j]->NonTerminal_0
                    < num by {
                    assert(rules[p as int].1[j] is NonTerminal);
                }
            }
            let changed = productions[p].update_follow_table(first, &mut follow_table);
            proof {
                let after_sets = table_sets(follow_table@);
                // The least table is closed, and so is the table of the universe.
                assert(rows_within(after_sets, least)) by {
                    assert forall|n: int| 0 <= n < after_sets.len() implies (
                    #[trigger] after_sets[n]).subset_of(least[n]) by {
                        assert forall|c: char| after_sets[n].contains(c) implies least[n].contains(
                            c,
                        ) by {
                            assert forall|t: Seq<Set<char>>|
                                t.len() == num && #[trigger] closed_follow(
                                    start,
                                    rules,
                                    first_sets,
                                    t,
                                ) implies t[n].contains(c) by {
                                assert forall|m: int| 0 <= m < before_sets.len() implies (
                                #[trigger] before_sets[m]).subset_of(t[m]) by {
                                    assert forall|x: char|
                                        before_sets[m].contains(x) implies t[m].contains(x) by {
                                        assert(before_sets[m].subset_of(least[m]));
                                        assert(least[m].contains(x));
                                    }
                                }
                                assert(rule_closed_follow(rules[p as int], first_sets, t));
                                assert(rows_within(after_sets, t));
                                assert(after_sets[n].subset_of(t[n]));
                            }
                        }
                    }
                }
                assert(rule_closed_follow(rule, first_sets, top)) by {
                    assert forall|j: int|
                        0 <= j < rule.1.len() && (#[trigger] rule.1[j]) is NonTerminal implies follow_gives(
                        first_sets,
                        rule.1,
                        j,
                        top[rule.0 as int],
                    ).subset_of(top[rule.1[j]->NonTerminal_0 as int]) by {
                        let bound = universe@.insert(EPSILON);
                        assert forall|k: int| 0 <= k < rule.1.len() implies letter_first(
                            first_sets,
                            #[trigger] rule.1[k],
                        ).subset_of(bound) by {
                            match rule.1[k] {
                                Letter::NonTerminal(n) => {
                                    assert(rules[p as int].1[k] is NonTerminal);
                                    assert(first@[n as int]@.subset_of(universe@));
                                },
                                Letter::Terminal(c) => {
                                    assert(terminal_at(rules, p as int, k, c));
                                    assert(spec_terminals(rules).contains(c));
                                },
                            }
                        }
                        lemma_first_of_within(first_sets, rule.1, j + 1, bound);
                        assert(rules[p as int].1[j] is NonTerminal);
                    }
                }
                assert(rows_within(after_sets, top));
                assert forall|n: int| 0 <= n < follow_table@.len() implies (
                #[trigger] follow_table@[n]).items@.len() <= limit by {
                    assert(after_sets[n].subset_of(top[n]));
                    lemma_subset_size(follow_table@[n], universe);
                }
                lemma_total_items_bound(follow_table@, limit as nat);
                assert(before_sets[start as int].subset_of(after_sets[start as int]));
                lemma_total_items_grow(before, follow_table@);
                if !changed {
                    assert(forall|j: int|
                        0 <= j < rule.1.len() && (#[trigger] rule.1[j]) is NonTerminal
                            ==> follow_gives(
                            first_sets,
                            rule.1,
                            j,
                            before_sets[rule.0 as int],
                        ).subset_of(after_sets[rule.1[j]->NonTerminal_0 as int]));
                }
            }
            has_changed = has_changed || changed;
            p += 1;
        }
    }
    proof {
        let sets = table_sets(follow_table@);
        assert(closed_follow(start, rules, first_sets, sets));
        assert forall|n: int| 0 <= n < num implies sets[n] == least[n] by {
            assert(sets[n].subset_of(least[n]));
            assert(sets[n] =~= least[n]);
        }
        assert(sets =~= least);
    }
    follow_table
}

/// Where every row has grown or stayed, the sum of the sizes has not
/// fallen; it has risen if a row has grown.
pub proof fn lemma_total_items_grow(before: Seq<CharSet>, after: Seq<CharSet>)
    requires
        table_wf(before),
        table_wf(after),
        rows_within(table_sets(before), table_sets(after)),
    ensures
        total_items(before) <= total_items(after),
        table_sets(before) != table_sets(after) ==> total_items(before) < total_items(after),
        table_sets(before) == table_sets(after) ==> total_items(before) == total_items(after),
    decreases before.len(),
{
    if before.len() > 0 {
        let n = before.len() - 1;
        assert(before.last() == before[n]);
        assert(after.last() == after[n]);
        assert(table_sets(before)[n].subset_of(table_sets(after)[n]));
        assert forall|m: int| 0 <= m < n implies (#[trigger] table_sets(
            before.drop_last(),
        )[m]).subset_of(table_sets(after.drop_last())[m]) by {
            assert(table_sets(before)[m].subset_of(table_sets(after)[m]));
        }
        lemma_total_items_grow(before.drop_last(), after.drop_last());
        lemma_subset_size(before[n], after[n]);
        if before[n]@ != after[n]@ {
            lemma_proper_subset_size(before[n], after[n]);
        } else {
            before[n].lemma_len();
            after[n].lemma_len();
        }
        assert(total_items(before) == total_items(before.drop_last()) + before[n].items@.len());
        assert(total_items(after) == total_items(after.drop_last()) + after[n].items@.len());
        if table_sets(before) != table_sets(after) {
            if before[n]@ == after[n]@ {
                if table_sets(before.drop_last()) == table_sets(after.drop_last()) {
                    assert(table_sets(before) =~= table_sets(after)) by {
                        assert forall|m: int| 0 <= m < before.len() implies table_sets(before)[m]
                            == table_sets(after)[m] by {
                            if m < n {
                                assert(table_sets(before.drop_last())[m] == table_sets(
                                    after.drop_last(),
                                )[m]);
                            }
                        }
                    }
                }
            }
        }
        if table_sets(before) == table_sets(after) {
            assert(table_sets(before)[n] == table_sets(after)[n]);
            assert(table_sets(before.drop_last()) =~= table_sets(after.drop_last())) by {
                assert forall|m: int| 0 <= m < n implies table_sets(before.drop_last())[m]
                    == table_sets(after.drop_last())[m] by {
                    assert(table_sets(before)[m] == table_sets(after)[m]);
                }
            }
        }
    } else {
        assert(table_sets(before) =~= table_sets(after));
    }
}

/// For each nonterminal below `num`, whether it derives the empty word.
pub open spec fn spec_nullable_flags(rules: Seq<Rule>, num: nat) -> Seq<bool> {
    Seq::new(num, |n: int| spec_nullable(rules).contains(n as usize))
}

/// Every nonterminal that derives the empty word has a production.
pub proof fn lemma_nullable_has_production(rules: Seq<Rule>, n: usize)
    requires
        spec_nullable(rules).contains(n),
    ensures
        spec_non_terminals(rules).contains(n),
{
    assert(closed_within(rules, spec_non_terminals(rules), false));
}

/// For each nonterminal below `num_non_terminal`, whether it derives the
/// empty word.
pub fn compute_nullable(grammar: &Grammar, num_non_terminal: usize) -> (out: Vec<bool>)
    requires
        indices_below(grammar.rules(), num_non_terminal as nat),
    ensures
        out@ == spec_nullable_flags(grammar.rules(), num_non_terminal as nat),
{
    let ghost rules = grammar.rules();
    let nullable = grammar.get_nullable();
    let mut out = vec![false; num_non_terminal];
    let mut i: usize = 0;
    while i < nullable.items.len()
        invariant
            rules == grammar.rules(),
            indices_below(rules, num_non_terminal as nat),
            nullable.wf(),
            nullable@ == spec_nullable(rules),
            i <= nullable.items@.len(),
            out@.len() == num_non_terminal,
            forall|n: int|
                0 <= n < num_non_terminal ==> (#[trigger] out@[n] <==> exists|k: int|
                    0 <= k < i && nullable.items@[k] == n),
        decreases nullable.items@.len() - i,
    {
        let non_terminal = nullable.items[i];
        proof {
            assert(nullable.items@.contains(non_terminal));
            assert(nullable@.contains(non_terminal));
            lemma_nullable_has_production(rules, non_terminal);
            let p = choose|p: int| 0 <= p < rules.len() && (#[trigger] rules[p]).0 == non_terminal;
            assert(rules[p].0 < num_non_terminal);
        }
        let ghost before = out@;
        out.set(non_terminal, true);
        proof {
            assert forall|n: int| 0 <= n < num_non_terminal implies (#[trigger] out@[n]
                <==> exists|k: int| 0 <= k < i + 1 && nullable.items@[k] == n) by {
                if out@[n] {
                    if before[n] {
                        let k = choose|k: int| 0 <= k < i && nullable.items@[k] == n;
                        assert(nullable.items@[k] == n);
                    } else {
                        assert(nullable.items@[i as int] == n);
                    }
                }
                if exists|k: int| 0 <= k < i + 1 && nullable.items@[k] == n {
                    let k = choose|k: int| 0 <= k < i + 1 && nullable.items@[k] == n;
                    if k < i {
                        assert(before[n]);
                    }
                }
            }
        }
        i += 1;
    }
    proof {
        let flags = spec_nullable_flags(rules, num_non_terminal as nat);
        assert forall|n: int| 0 <= n < num_non_terminal implies out@[n] == flags[n] by {
            if out@[n] {
                let k = choose|k: int| 0 <= k < i && nullable.items@[k] == n;
                assert(nullable.items@.contains(n as usize));
            }
            if flags[n] {
                assert(nullable@.contains(n as usize));
                assert(nullable.items@.contains(n as usize));
                let k = choose|k: int|
                    0 <= k < nullable.items@.len() && nullable.items@[k] == n as usize;
                assert(nullable.items@[k] == n);
            }
        }
        assert(out@ =~= flags);
    }
    out
}

/// The FIRST and FOLLOW sets of a grammar, and which of its nonterminals
/// derive the empty word. The nonterminals are the numbers below the number
/// of nonterminals that have a production.
#[derive(Debug)]
pub struct FirstFollowTable {
    pub first: FirstTable,
    pub follow: FollowTable,
    pub nullable: Vec<bool>,
}

impl FirstFollowTable {
    /// The tables are stored in order and have a row for each nonterminal.
    pub open spec fn wf(&self) -> bool {
        &&& table_wf(self.first@)
        &&& table_wf(self.follow@)
        &&& self.first@.len() == self.nullable@.len()
        &&& self.follow@.len() == self.nullable@.len()
    }

    /// Whether these are the tables of `grammar`.
    pub open spec fn is_table_of(&self, grammar: &Grammar) -> bool {
        let rules = grammar.rules();
        let num = spec_non_terminals(rules).len();
        &&& self.wf()
        &&& self.nullable@ == spec_nullable_flags(rules, num)
        &&& table_sets(self.first@) == spec_first(rules, self.nullable@, num)
        &&& table_sets(self.follow@) == spec_follow(
            grammar.start_symbol,
            rules,
            table_sets(self.first@),
            num,
        )
    }

    /// The tables of `grammar`, whose nonterminals must be the numbers
    /// below the number of nonterminals that have a production.
    pub fn from_grammar(grammar: &Grammar) -> (table: Self)
        requires
            grammar.is_numbered(),
        ensures
            table.is_table_of(grammar),
    {
        let non_terminals = grammar.get_non_terminal();
        let num_non_terminal = non_terminals.len();
        let nullable = compute_nullable(grammar, num_non_terminal);
        let first = compute_first(grammar, num_non_terminal, &nullable);
        let follow = compute_follow(grammar, num_non_terminal, &first);
        FirstFollowTable { first, follow, nullable }
    }

    /// The FOLLOW set of `non_terminal`.
    pub fn get_follow(&self, non_terminal: NonTerminal) -> (set: CharSet)
        requires
            self.wf(),
            non_terminal < self.follow@.len(),
        ensures
            set.wf(),
            set@ == self.follow@[non_terminal as int]@,
    {
        assert(self.follow@[non_terminal as int].wf());
        self.follow[non_terminal].duplicate()
    }

    /// The FIRST set of `letter`.
    pub fn get_first(&self, letter: &Letter) -> (set: CharSet)
        requires
            self.wf(),
            *letter matches Letter::NonTerminal(n) ==> n < self.first@.len(),
        ensures
            set.wf(),
            set@ == letter_first(table_sets(self.first@), *letter),
    {
        get_first_letter(&self.first, letter)
    }

    /// Whether each of the letters of `letters` from `from` on derives the
    /// empty word.
    pub fn is_nullable(&self, letters: &Vec<Letter>, from: usize) -> (b: bool)
        ensures
            b == forall|k: int|
                from <= k < letters@.len() ==> letter_nullable(
                    #[trigger] letters@[k],
                    self.nullable@,
                ),
    {
        let mut k: usize = from;
        while k < letters.len()
            invariant
                from <= k,
                forall|l: int|
                    from <= l < k && l < letters@.len() ==> letter_nullable(
                        #[trigger] letters@[l],
                        self.nullable@,
                    ),
            decreases letters@.len() - k,
        {
            let ok = match letters[k] {
                Letter::NonTerminal(idx) => idx < self.nullable.len() && self.nullable[idx],
                Letter::Terminal(ch) => ch == EPSILON,
            };
            if !ok {
                return false;
            }
            k += 1;
        }
        true
    }
}

/// Whether every nonterminal of `letters` is below `num`.
pub open spec fn letters_below(letters: Seq<Letter>, num: nat) -> bool {
    forall|j: int|
        0 <= j < letters.len() && (#[trigger] letters[j]) is NonTerminal
            ==> letters[j]->NonTerminal_0 < num
}

/// Whether every nonterminal of `letters` is below `num`.
pub fn are_letters_below(letters: &Vec<Letter>, num: usize) -> (b: bool)
    ensures
        b == letters_below(letters@, num as nat),
{
    let mut j: usize = 0;
    while j < letters.len()
        invariant
            j <= letters@.len(),
            forall|k: int|
                0 <= k < j && (#[trigger] letters@[k]) is NonTerminal
                    ==> letters@[k]->NonTerminal_0 < num,
        decreases letters@.len() - j,
    {
        match letters[j] {
            Letter::NonTerminal(n) => {
                if n >= num {
                    return false;
                }
            },
            Letter::Terminal(_) => {},
        }
        j += 1;
    }
    true
}

impl Grammar {
    /// Whether the tables of the grammar can be made: the start symbol and
    /// every nonterminal of a production is a number below the number of
    /// nonterminals that have a production.
    pub open spec fn is_numbered(&self) -> bool {
        &&& indices_below(self.rules(), spec_non_terminals(self.rules()).len())
        &&& self.start_symbol < spec_non_terminals(self.rules()).len()
    }

    /// Whether the tables of the grammar can be made.
    pub fn has_numbered_non_terminals(&self) -> (b: bool)
        ensures
            b == self.is_numbered(),
    {
        let ghost rules = self.rules();
        let num = self.get_non_terminal().len();
        if self.start_symbol >= num {
            return false;
        }
        let mut i: usize = 0;
        while i < self.productions.len()
            invariant
                rules == self.rules(),
                num == spec_non_terminals(rules).len(),
                i <= self.productions@.len(),
                forall|p: int| 0 <= p < i ==> (#[trigger] rules[p]).0 < num,
                forall|p: int| 0 <= p < i ==> letters_below((#[trigger] rules[p]).1, num as nat),
            decreases self.productions@.len() - i,
        {
            if self.productions[i].lhs >= num || !are_letters_below(&self.productions[i].rhs, num) {
                proof {
                    if indices_below(rules, num as nat) {
                        assert(rules[i as int].0 < num);
                        assert forall|j: int|
                            0 <= j < rules[i as int].1.len() && (#[trigger] rules[i as int].1[j])
                                is NonTerminal implies rules[i as int].1[j]->NonTerminal_0 < num by {}
                    }
                }
                return false;
            }
            i += 1;
        }
        proof {
            assert forall|p: int, j: int|
                0 <= p < rules.len() && 0 <= j < rules[p].1.len() && (#[trigger] rules[p].1[j])
                    is NonTerminal implies rules[p].1[j]->NonTerminal_0 < num by {
                assert(letters_below(rules[p].1, num as nat));
            }
        }
        true
    }
}

} // verus!
