//! The analysis of a grammar: which nonterminals derive the empty word,
//! which derive a word at all, which are reached from the start; and the
//! removal of useless productions and of unit productions.
use vstd::prelude::*;
use crate::grammar::production::{
    copy_letters, is_unit, letters_are_within, letters_within, production_seq, same_letters,
    Letter, Production, Rule,
};
use crate::grammar::Grammar;
use crate::index_set::IndexSet;
use crate::state_set::{count_false, lemma_count_false_set};

verus! {

/// Whether `set` holds the left-hand side of every production whose
/// right-hand side is made of nonterminals of `set` and of terminals (of the
/// empty word only, unless `any_terminal` holds).
pub open spec fn closed_within(rules: Seq<Rule>, set: Set<usize>, any_terminal: bool) -> bool {
    forall|i: int|
        0 <= i < rules.len() && letters_within((#[trigger] rules[i]).1, set, any_terminal)
            ==> set.contains(rules[i].0)
}

/// The least set that is closed in the sense of `closed_within`: the
/// nonterminals that every such set holds.
pub open spec fn spec_least_within(rules: Seq<Rule>, any_terminal: bool) -> Set<usize> {
    Set::new(
        |n: usize|
            forall|s: Set<usize>| #[trigger] closed_within(rules, s, any_terminal) ==> s.contains(n),
    )
}

/// The nonterminals that derive the empty word: the least set that holds a
/// nonterminal with a production whose right-hand side is made of the empty
/// word and of nonterminals of the set.
pub open spec fn spec_nullable(rules: Seq<Rule>) -> Set<usize> {
    spec_least_within(rules, false)
}

/// The generators, that is the nonterminals that derive a word of
/// terminals: the least set that holds a nonterminal with a production
/// whose right-hand side is made of terminals and of nonterminals of the
/// set.
pub open spec fn spec_generators(rules: Seq<Rule>) -> Set<usize> {
    spec_least_within(rules, true)
}

/// Whether `set` holds `start` and, with the left-hand side of a
/// production, the nonterminals of its right-hand side. Where `units_only`
/// holds, only the unit productions count.
pub open spec fn closed_reach(
    start: usize,
    rules: Seq<Rule>,
    set: Set<usize>,
    units_only: bool,
) -> bool {
    &&& set.contains(start)
    &&& forall|i: int, j: int|
        0 <= i < rules.len() && 0 <= j < rules[i].1.len() && set.contains(rules[i].0) && (
        #[trigger] rules[i].1[j]) is NonTerminal && (!units_only || is_unit(rules[i].1))
            ==> set.contains(rules[i].1[j]->NonTerminal_0)
}

/// The least set that is closed in the sense of `closed_reach`: the
/// nonterminals that every such set holds.
pub open spec fn spec_reach(start: usize, rules: Seq<Rule>, units_only: bool) -> Set<usize> {
    Set::new(
        |n: usize|
            forall|s: Set<usize>| #[trigger]
                closed_reach(start, rules, s, units_only) ==> s.contains(n),
    )
}

/// The nonterminals that are reached from `start`: `start` itself, and the
/// nonterminals of the right-hand sides of the productions of a nonterminal
/// that is reached.
pub open spec fn spec_reachable(start: usize, rules: Seq<Rule>) -> Set<usize> {
    spec_reach(start, rules, false)
}

/// The nonterminals that `from` derives by unit productions alone, `from`
/// itself among them.
pub open spec fn spec_unit_reach(from: usize, rules: Seq<Rule>) -> Set<usize> {
    spec_reach(from, rules, true)
}

/// Whether the left-hand side of `rule` and the nonterminals of its
/// right-hand side are all in `set`.
pub open spec fn rule_within(rule: Rule, set: Set<usize>) -> bool {
    set.contains(rule.0) && letters_within(rule.1, set, true)
}

/// The productions of `rules` that are within `set`, in their order.
pub open spec fn keep_within(rules: Seq<Rule>, set: Set<usize>) -> Seq<Rule> {
    rules.filter(|rule: Rule| rule_within(rule, set))
}

/// What is left of `rules` when the useless productions are taken out:
/// first those with a nonterminal that is no generator, then, of the rest,
/// those with a nonterminal that is not reached from `start`.
pub open spec fn spec_remove_useless(start: usize, rules: Seq<Rule>) -> Seq<Rule> {
    let generating = keep_within(rules, spec_generators(rules));
    keep_within(generating, spec_reachable(start, generating))
}

/// The left-hand sides of the productions.
pub open spec fn spec_non_terminals(rules: Seq<Rule>) -> Set<usize> {
    Set::new(|n: usize| exists|i: int| 0 <= i < rules.len() && (#[trigger] rules[i]).0 == n)
}

/// A right-hand side that is within a set is within every larger set.
pub proof fn lemma_letters_within_monotone(
    rhs: Seq<Letter>,
    small: Set<usize>,
    large: Set<usize>,
    any_terminal: bool,
)
    requires
        letters_within(rhs, small, any_terminal),
        small.subset_of(large),
    ensures
        letters_within(rhs, large, any_terminal),
{
    assert forall|i: int| 0 <= i < rhs.len() implies crate::grammar::production::letter_within(
        #[trigger] rhs[i],
        large,
        any_terminal,
    ) by {
        assert(crate::grammar::production::letter_within(rhs[i], small, any_terminal));
    }
}

/// The least set that holds the left-hand side of every production whose
/// right-hand side is within the set. A production whose right-hand side is
/// within the set found so far adds its left-hand side, round by round,
/// until a round adds nothing.
pub fn least_within(productions: &Vec<Production>, any_terminal: bool) -> (set: IndexSet)
    ensures
        set.wf(),
        set@ == spec_least_within(production_seq(productions@), any_terminal),
{
    let ghost rules = production_seq(productions@);
    let n = productions.len();
    let mut set = IndexSet::new();
    let mut fired = vec![false; n];
    let mut has_changed = true;
    while has_changed
        invariant
            rules == production_seq(productions@),
            n == productions@.len(),
            set.wf(),
            fired@.len() == n,
            set@.subset_of(spec_least_within(rules, any_terminal)),
            forall|p: int| 0 <= p < n && fired@[p] ==> set@.contains((#[trigger] rules[p]).0),
            !has_changed ==> forall|p: int|
                0 <= p < n && !fired@[p] ==> !letters_within(
                    (#[trigger] rules[p]).1,
                    set@,
                    any_terminal,
                ),
        decreases
                count_false(fired@) + if has_changed {
                    1nat
                } else {
                    0nat
                },
    {
        has_changed = false;
        let ghost start_false = count_false(fired@);
        let mut p: usize = 0;
        while p < n
            invariant
                rules == production_seq(productions@),
                n == productions@.len(),
                p <= n,
                set.wf(),
                fired@.len() == n,
                set@.subset_of(spec_least_within(rules, any_terminal)),
                forall|q: int| 0 <= q < n && fired@[q] ==> set@.contains((#[trigger] rules[q]).0),
                has_changed ==> count_false(fired@) < start_false,
                !has_changed ==> count_false(fired@) == start_false,
                !has_changed ==> forall|q: int|
                    0 <= q < p && !fired@[q] ==> !letters_within(
                        (#[trigger] rules[q]).1,
                        set@,
                        any_terminal,
                    ),
            decreases n - p,
        {
            if !fired[p] && letters_are_within(&productions[p].rhs, &set, any_terminal) {
                let ghost before = set@;
                proof {
                    lemma_count_false_set(fired@, p as int);
                    let lhs = rules[p as int].0;
                    assert forall|s: Set<usize>| #[trigger]
                        closed_within(rules, s, any_terminal) implies s.contains(lhs) by {
                        assert forall|x: usize| before.contains(x) implies s.contains(x) by {
                            assert(spec_least_within(rules, any_terminal).contains(x));
                        }
                        lemma_letters_within_monotone(rules[p as int].1, before, s, any_terminal);
                    }
                    assert(spec_least_within(rules, any_terminal).contains(lhs));
                }
                fired.set(p, true);
                let _ = set.insert(productions[p].lhs);
                has_changed = true;
            }
            p += 1;
        }
    }
    proof {
        assert(closed_within(rules, set@, any_terminal)) by {
            assert forall|i: int|
                0 <= i < rules.len() && letters_within(
                    (#[trigger] rules[i]).1,
                    set@,
                    any_terminal,
                ) implies set@.contains(rules[i].0) by {
                assert(fired@[i]);
            }
        }
        assert(set@ =~= spec_least_within(rules, any_terminal));
    }
    set
}

impl Grammar {
    /// The nonterminals that have a production.
    pub fn get_non_terminal(&self) -> (set: IndexSet)
        ensures
            set.wf(),
            set@ == spec_non_terminals(self.rules()),
    {
        let mut set = IndexSet::new();
        let mut i: usize = 0;
        while i < self.productions.len()
            invariant
                i <= self.productions@.len(),
                set.wf(),
                forall|n: usize|
                    set@.contains(n) <==> exists|k: int|
                        0 <= k < i && (#[trigger] self.rules()[k]).0 == n,
            decreases self.productions@.len() - i,
        {
            let ghost before = set@;
            let _ = set.insert(self.productions[i].lhs);
            proof {
                assert forall|n: usize| set@.contains(n) <==> exists|k: int|
                    0 <= k < i + 1 && (#[trigger] self.rules()[k]).0 == n by {
                    if set@.contains(n) {
                        if before.contains(n) {
                            let k = choose|k: int| 0 <= k < i && (#[trigger] self.rules()[k]).0 == n;
                            assert(self.rules()[k].0 == n);
                        } else {
                            assert(self.rules()[i as int].0 == n);
                        }
                    }
                    if exists|k: int| 0 <= k < i + 1 && (#[trigger] self.rules()[k]).0 == n {
                        let k = choose|k: int|
                            0 <= k < i + 1 && (#[trigger] self.rules()[k]).0 == n;
                        if k < i {
                            assert(self.rules()[k].0 == n);
                            assert(before.contains(n));
                        }
                    }
                }
            }
            i += 1;
        }
        assert(set@ =~= spec_non_terminals(self.rules()));
        set
    }

    /// The nonterminals that derive the empty word, in increasing order.
    pub fn get_nullable(&self) -> (set: IndexSet)
        ensures
            set.wf(),
            set@ == spec_nullable(self.rules()),
    {
        least_within(&self.productions, false)
    }

    /// The generators: the nonterminals that derive a word of terminals, in
    /// increasing order.
    pub fn get_generators(&self) -> (set: IndexSet)
        ensures
            set.wf(),
            set@ == spec_generators(self.rules()),
    {
        least_within(&self.productions, true)
    }
}

/// Adds the nonterminals of `rhs` to `set`.
pub fn add_non_terminals(rhs: &Vec<Letter>, set: &mut IndexSet)
    requires
        old(set).wf(),
    ensures
        final(set).wf(),
        forall|x: usize|
            final(set)@.contains(x) <==> old(set)@.contains(x) || exists|j: int|
                0 <= j < rhs@.len() && #[trigger] rhs@[j] == Letter::NonTerminal(x),
{
    let mut j: usize = 0;
    while j < rhs.len()
        invariant
            j <= rhs@.len(),
            set.wf(),
            forall|x: usize|
                set@.contains(x) <==> old(set)@.contains(x) || exists|k: int|
                    0 <= k < j && #[trigger] rhs@[k] == Letter::NonTerminal(x),
        decreases rhs@.len() - j,
    {
        let ghost before = set@;
        match rhs[j] {
            Letter::NonTerminal(n) => {
                let _ = set.insert(n);
            },
            Letter::Terminal(_) => {},
        }
        proof {
            assert forall|x: usize| set@.contains(x) <==> old(set)@.contains(x) || exists|k: int|
                0 <= k < j + 1 && #[trigger] rhs@[k] == Letter::NonTerminal(x) by {
                if set@.contains(x) && !old(set)@.contains(x) {
                    if before.contains(x) {
                        let k = choose|k: int|
                            0 <= k < j && #[trigger] rhs@[k] == Letter::NonTerminal(x);
                        assert(rhs@[k] == Letter::NonTerminal(x));
                    } else {
                        assert(rhs@[j as int] == Letter::NonTerminal(x));
                    }
                }
                if exists|k: int| 0 <= k < j + 1 && #[trigger] rhs@[k] == Letter::NonTerminal(x) {
                    let k = choose|k: int|
                        0 <= k < j + 1 && #[trigger] rhs@[k] == Letter::NonTerminal(x);
                    if k < j {
                        assert(rhs@[k] == Letter::NonTerminal(x));
                        assert(before.contains(x));
                    }
                }
            }
        }
        j += 1;
    }
}

/// Whether `rhs` is a single nonterminal.
pub fn is_unit_rhs(rhs: &Vec<Letter>) -> (b: bool)
    ensures
        b == is_unit(rhs@),
{
    if rhs.len() != 1 {
        return false;
    }
    match rhs[0] {
        Letter::NonTerminal(_) => true,
        Letter::Terminal(_) => false,
    }
}

/// The nonterminals that are reached from `start` through the right-hand
/// sides of the productions, or of the unit productions only where
/// `units_only` holds. A production whose left-hand side is reached adds
/// the nonterminals of its right-hand side, round by round, until a round
/// adds nothing.
pub fn reach(start: usize, productions: &Vec<Production>, units_only: bool) -> (set: IndexSet)
    ensures
        set.wf(),
        set@ == spec_reach(start, production_seq(productions@), units_only),
{
    let ghost rules = production_seq(productions@);
    let n = productions.len();
    let mut set = IndexSet::new();
    let _ = set.insert(start);
    let mut expanded = vec![false; n];
    let mut has_changed = true;
    while has_changed
        invariant
            rules == production_seq(productions@),
            n == productions@.len(),
            set.wf(),
            expanded@.len() == n,
            set@.contains(start),
            set@.subset_of(spec_reach(start, rules, units_only)),
            forall|p: int, j: int|
                0 <= p < n && expanded@[p] && 0 <= j < rules[p].1.len() && (
                #[trigger] rules[p].1[j]) is NonTerminal ==> set@.contains(
                    rules[p].1[j]->NonTerminal_0,
                ),
            !has_changed ==> forall|p: int|
                0 <= p < n && !expanded@[p] ==> !(set@.contains((#[trigger] rules[p]).0) && (
                !units_only || is_unit(rules[p].1))),
        decreases
                count_false(expanded@) + if has_changed {
                    1nat
                } else {
                    0nat
                },
    {
        has_changed = false;
        let ghost start_false = count_false(expanded@);
        let mut p: usize = 0;
        while p < n
            invariant
                rules == production_seq(productions@),
                n == productions@.len(),
                p <= n,
                set.wf(),
                expanded@.len() == n,
                set@.contains(start),
                set@.subset_of(spec_reach(start, rules, units_only)),
                forall|q: int, j: int|
                    0 <= q < n && expanded@[q] && 0 <= j < rules[q].1.len() && (
                    #[trigger] rules[q].1[j]) is NonTerminal ==> set@.contains(
                        rules[q].1[j]->NonTerminal_0,
                    ),
                has_changed ==> count_false(expanded@) < start_false,
                !has_changed ==> count_false(expanded@) == start_false,
                !has_changed ==> forall|q: int|
                    0 <= q < p && !expanded@[q] ==> !(set@.contains((#[trigger] rules[q]).0) && (
                    !units_only || is_unit(rules[q].1))),
            decreases n - p,
        {
            if !expanded[p] && set.contains(productions[p].lhs) && (!units_only || is_unit_rhs(
                &productions[p].rhs,
            )) {
                let ghost before = set@;
                proof {
                    lemma_count_false_set(expanded@, p as int);
                }
                expanded.set(p, true);
                add_non_terminals(&productions[p].rhs, &mut set);
                proof {
                    let rule = rules[p as int];
                    assert forall|x: usize| set@.contains(x) implies spec_reach(
                        start,
                        rules,
                        units_only,
                    ).contains(x) by {
                        if !before.contains(x) {
                            let j = choose|j: int|
                                0 <= j < rule.1.len() && #[trigger] rule.1[j]
                                    == Letter::NonTerminal(x);
                            assert forall|s: Set<usize>| #[trigger]
                                closed_reach(start, rules, s, units_only) implies s.contains(
                                x,
                            ) by {
                                assert(spec_reach(start, rules, units_only).contains(rule.0));
                                assert(rules[p as int].1[j] is NonTerminal);
                            }
                        }
                    }
                    assert forall|q: int, j: int|
                        0 <= q < n && expanded@[q] && 0 <= j < rules[q].1.len() && (
                        #[trigger] rules[q].1[j]) is NonTerminal implies set@.contains(
                        rules[q].1[j]->NonTerminal_0,
                    ) by {
                        if q == p {
                            assert(rule.1[j] == Letter::NonTerminal(rule.1[j]->NonTerminal_0));
                        } else {
                            assert(before.contains(rules[q].1[j]->NonTerminal_0));
                        }
                    }
                }
                has_changed = true;
            }
            p += 1;
        }
    }
    proof {
        assert(closed_reach(start, rules, set@, units_only)) by {
            assert forall|i: int, j: int|
                0 <= i < rules.len() && 0 <= j < rules[i].1.len() && set@.contains(rules[i].0) && (
                #[trigger] rules[i].1[j]) is NonTerminal && (!units_only || is_unit(
                    rules[i].1,
                )) implies set@.contains(rules[i].1[j]->NonTerminal_0) by {
                assert(set@.contains(rules[i].0));
                assert(expanded@[i]);
            }
        }
        assert(set@ =~= spec_reach(start, rules, units_only));
    }
    set
}

/// The productions that are within `set`, in their order.
pub fn retain_within(productions: &Vec<Production>, set: &IndexSet) -> (kept: Vec<Production>)
    requires
        set.wf(),
    ensures
        production_seq(kept@) == keep_within(production_seq(productions@), set@),
{
    let ghost rules = production_seq(productions@);
    let mut kept: Vec<Production> = Vec::new();
    let mut i: usize = 0;
    while i < productions.len()
        invariant
            rules == production_seq(productions@),
            set.wf(),
            i <= productions@.len(),
            production_seq(kept@) == keep_within(rules.subrange(0, i as int), set@),
        decreases productions@.len() - i,
    {
        let ghost before = production_seq(kept@);
        let keep = set.contains(productions[i].lhs) && letters_are_within(
            &productions[i].rhs,
            set,
            true,
        );
        proof {
            let head = rules.subrange(0, i as int);
            let longer = rules.subrange(0, i as int + 1);
            assert(longer.drop_last() == head);
            assert(longer.last() == rules[i as int]);
            reveal(Seq::filter);
        }
        if keep {
            kept.push(productions[i].duplicate());
            assert(production_seq(kept@) =~= before.push(rules[i as int]));
        }
        i += 1;
    }
    assert(rules.subrange(0, i as int) == rules);
    kept
}

impl Grammar {
    /// The nonterminals that are reached from the start symbol, in
    /// increasing order.
    pub fn get_reachable(&self) -> (set: IndexSet)
        ensures
            set.wf(),
            set@ == spec_reachable(self.start_symbol, self.rules()),
    {
        reach(self.start_symbol, &self.productions, false)
    }

    /// Takes out the useless productions: first those with a nonterminal
    /// that is no generator, then, of the rest, those with a nonterminal
    /// that is not reached from the start symbol.
    pub fn remove_useless(&mut self)
        ensures
            final(self).start_symbol == old(self).start_symbol,
            final(self).rules() == spec_remove_useless(old(self).start_symbol, old(self).rules()),
            final(self).nullable is None,
    {
        let generators = self.get_generators();
        self.productions = retain_within(&self.productions, &generators);
        let reachable = self.get_reachable();
        self.productions = retain_within(&self.productions, &reachable);
        self.nullable = None;
    }
}

/// Whether `rhs` is the right-hand side of a production of a nonterminal of
/// `sources`; a unit production counts only where `keep_units` holds.
pub open spec fn derived_rule(
    rules: Seq<Rule>,
    sources: Set<usize>,
    rhs: Seq<Letter>,
    keep_units: bool,
) -> bool {
    &&& keep_units || !is_unit(rhs)
    &&& exists|p: int|
        0 <= p < rules.len() && sources.contains((#[trigger] rules[p]).0) && rules[p].1 == rhs
}

/// The right-hand sides of the productions of the nonterminals of
/// `sources`, each one once, in the order of `rules`, as productions of
/// `lhs`. Unit productions are left out unless `keep_units` holds.
pub open spec fn spec_alternatives(
    rules: Seq<Rule>,
    lhs: usize,
    sources: Set<usize>,
    keep_units: bool,
) -> Seq<Rule>
    decreases rules.len(),
{
    if rules.len() == 0 {
        Seq::empty()
    } else {
        let before = spec_alternatives(rules.drop_last(), lhs, sources, keep_units);
        let last = rules.last();
        if sources.contains(last.0) && (keep_units || !is_unit(last.1)) && !before.contains(
            (lhs, last.1),
        ) {
            before.push((lhs, last.1))
        } else {
            before
        }
    }
}

/// The productions without unit productions for the nonterminals `heads`:
/// for each of them in turn, what `spec_alternatives` gives for the
/// nonterminals that it derives by unit productions alone.
pub open spec fn spec_without_units(rules: Seq<Rule>, heads: Seq<usize>) -> Seq<Rule>
    decreases heads.len(),
{
    if heads.len() == 0 {
        Seq::empty()
    } else {
        spec_without_units(rules, heads.drop_last()) + spec_alternatives(
            rules,
            heads.last(),
            spec_unit_reach(heads.last(), rules),
            false,
        )
    }
}

/// Whether `rhs` is the right-hand side of one of `productions`.
fn has_alternative(productions: &Vec<Production>, rhs: &Vec<Letter>) -> (b: bool)
    ensures
        b == exists|k: int| 0 <= k < productions@.len() && (#[trigger] productions@[k]).rhs@ == rhs@,
{
    let mut k: usize = 0;
    while k < productions.len()
        invariant
            k <= productions@.len(),
            forall|l: int| 0 <= l < k ==> (#[trigger] productions@[l]).rhs@ != rhs@,
        decreases productions@.len() - k,
    {
        if same_letters(&productions[k].rhs, rhs) {
            return true;
        }
        k += 1;
    }
    false
}

/// The productions of the nonterminals of `sources`, each right-hand side
/// once, in the order of `productions`, as productions of `lhs`. Unit
/// productions are left out unless `keep_units` holds.
pub fn alternatives(
    productions: &Vec<Production>,
    lhs: usize,
    sources: &IndexSet,
    keep_units: bool,
) -> (out: Vec<Production>)
    requires
        sources.wf(),
    ensures
        production_seq(out@) == spec_alternatives(
            production_seq(productions@),
            lhs,
            sources@,
            keep_units,
        ),
        forall|k: int| 0 <= k < out@.len() ==> (#[trigger] out@[k]).lhs == lhs,
        forall|rhs: Seq<Letter>|
            (exists|k: int| 0 <= k < out@.len() && (#[trigger] out@[k]).rhs@ == rhs)
                <==> derived_rule(production_seq(productions@), sources@, rhs, keep_units),
        forall|k: int, l: int|
            0 <= k < l < out@.len() ==> (#[trigger] out@[k]).rhs@ != (#[trigger] out@[l]).rhs@,
{
    let ghost rules = production_seq(productions@);
    let mut out: Vec<Production> = Vec::new();
    let mut p: usize = 0;
    while p < productions.len()
        invariant
            rules == production_seq(productions@),
            sources.wf(),
            p <= productions@.len(),
            production_seq(out@) == spec_alternatives(
                rules.subrange(0, p as int),
                lhs,
                sources@,
                keep_units,
            ),
            forall|k: int| 0 <= k < out@.len() ==> (#[trigger] out@[k]).lhs == lhs,
            forall|rhs: Seq<Letter>|
                (exists|k: int| 0 <= k < out@.len() && (#[trigger] out@[k]).rhs@ == rhs)
                    <==> derived_rule(rules.subrange(0, p as int), sources@, rhs, keep_units),
            forall|k: int, l: int|
                0 <= k < l < out@.len() ==> (#[trigger] out@[k]).rhs@ != (#[trigger] out@[l]).rhs@,
        decreases productions@.len() - p,
    {
        let ghost before = out@;
        let ghost head = rules.subrange(0, p as int);
        let ghost longer = rules.subrange(0, p as int + 1);
        let production = &productions[p];
        let counts = sources.contains(production.lhs) && (keep_units || !is_unit_rhs(
            &production.rhs,
        ));
        let mut added = false;
        let ghost views_before = production_seq(out@);
        if counts {
            if !has_alternative(&out, &production.rhs) {
                out.push(Production { lhs, rhs: copy_letters(&production.rhs) });
                added = true;
            }
        }
        proof {
            let this = rules[p as int];
            assert(longer[p as int] == this);
            assert(longer.drop_last() == head);
            assert(longer.last() == this);
            if views_before.contains((lhs, this.1)) {
                let k = choose|k: int|
                    0 <= k < views_before.len() && views_before[k] == (lhs, this.1);
                assert(before[k].rhs@ == this.1);
            }
            if exists|k: int| 0 <= k < before.len() && (#[trigger] before[k]).rhs@ == this.1 {
                let k = choose|k: int| 0 <= k < before.len() && (#[trigger] before[k]).rhs@ == this.1;
                assert(views_before[k] == (lhs, this.1));
            }
            if added {
                assert(production_seq(out@) =~= views_before.push((lhs, this.1)));
            }
            assert forall|rhs: Seq<Letter>|
                (exists|k: int| 0 <= k < out@.len() && (#[trigger] out@[k]).rhs@ == rhs)
                    <==> derived_rule(longer, sources@, rhs, keep_units) by {
                if exists|k: int| 0 <= k < out@.len() && (#[trigger] out@[k]).rhs@ == rhs {
                    let k = choose|k: int| 0 <= k < out@.len() && (#[trigger] out@[k]).rhs@ == rhs;
                    if k < before.len() {
                        assert(before[k].rhs@ == rhs);
                        assert(derived_rule(head, sources@, rhs, keep_units));
                        let q = choose|q: int|
                            0 <= q < head.len() && sources@.contains((#[trigger] head[q]).0)
                                && head[q].1 == rhs;
                        assert(longer[q] == head[q]);
                    } else {
                        assert(longer[p as int].1 == rhs);
                    }
                }
                if derived_rule(longer, sources@, rhs, keep_units) {
                    let q = choose|q: int|
                        0 <= q < longer.len() && sources@.contains((#[trigger] longer[q]).0)
                            && longer[q].1 == rhs;
                    if q < p {
                        assert(head[q] == longer[q]);
                        assert(derived_rule(head, sources@, rhs, keep_units));
                        let k = choose|k: int|
                            0 <= k < before.len() && (#[trigger] before[k]).rhs@ == rhs;
                        assert(out@[k].rhs@ == rhs);
                    } else {
                        assert(counts);
                        if added {
                            assert(out@[before.len() as int].rhs@ == rhs);
                        } else {
                            let k = choose|k: int|
                                0 <= k < before.len() && (#[trigger] before[k]).rhs@
                                    == production.rhs@;
                            assert(out@[k].rhs@ == rhs);
                        }
                    }
                }
            }
        }
        p += 1;
    }
    assert(rules.subrange(0, p as int) == rules);
    out
}

impl Grammar {
    /// The pairs of a nonterminal `a` that has a production and a
    /// nonterminal `b` that `a` derives by unit productions alone (`a`
    /// itself is one), in increasing order.
    pub fn get_unitary_couples(&self) -> (couples: Vec<(usize, usize)>)
        ensures
            forall|a: usize, b: usize| #[trigger]
                couples@.contains((a, b)) <==> spec_non_terminals(self.rules()).contains(a)
                    && spec_unit_reach(a, self.rules()).contains(b),
            forall|k: int, l: int|
                0 <= k < l < couples@.len() ==> couples@[k].0 < couples@[l].0 || (couples@[k].0
                    == couples@[l].0 && couples@[k].1 < couples@[l].1),
    {
        let non_terminals = self.get_non_terminal();
        let mut couples: Vec<(usize, usize)> = Vec::new();
        let mut i: usize = 0;
        while i < non_terminals.items.len()
            invariant
                non_terminals.wf(),
                non_terminals@ == spec_non_terminals(self.rules()),
                i <= non_terminals.items@.len(),
                forall|a: usize, b: usize| #[trigger]
                    couples@.contains((a, b)) <==> (exists|k: int|
                        0 <= k < i && non_terminals.items@[k] == a) && spec_unit_reach(
                        a,
                        self.rules(),
                    ).contains(b),
                forall|k: int, l: int|
                    0 <= k < l < couples@.len() ==> couples@[k].0 < couples@[l].0 || (couples@[k].0
                        == couples@[l].0 && couples@[k].1 < couples@[l].1),
                forall|k: int|
                    0 <= k < couples@.len() && i < non_terminals.items@.len() ==> (
                    #[trigger] couples@[k]).0 < non_terminals.items@[i as int],
            decreases non_terminals.items@.len() - i,
        {
            let from = non_terminals.items[i];
            let reached = reach(from, &self.productions, true);
            let ghost outer = couples@;
            let mut j: usize = 0;
            while j < reached.items.len()
                invariant
                    non_terminals.wf(),
                    i < non_terminals.items@.len(),
                    from == non_terminals.items@[i as int],
                    reached.wf(),
                    reached@ == spec_unit_reach(from, self.rules()),
                    j <= reached.items@.len(),
                    couples@ == outer + Seq::new(j as nat, |k: int| (from, reached.items@[k])),
                decreases reached.items@.len() - j,
            {
                couples.push((from, reached.items[j]));
                assert(couples@ =~= outer + Seq::new(
                    (j + 1) as nat,
                    |k: int| (from, reached.items@[k]),
                ));
                j += 1;
            }
            proof {
                let group = Seq::new(j as nat, |k: int| (from, reached.items@[k]));
                assert forall|a: usize, b: usize| #[trigger]
                    couples@.contains((a, b)) <==> (exists|k: int|
                        0 <= k < i + 1 && non_terminals.items@[k] == a) && spec_unit_reach(
                        a,
                        self.rules(),
                    ).contains(b) by {
                    if couples@.contains((a, b)) {
                        let k = choose|k: int| 0 <= k < couples@.len() && couples@[k] == (a, b);
                        if k < outer.len() {
                            assert(outer[k] == (a, b));
                            assert(outer.contains((a, b)));
                            let w = choose|w: int| 0 <= w < i && non_terminals.items@[w] == a;
                            assert(non_terminals.items@[w] == a);
                        } else {
                            assert(group[k - outer.len()] == (a, b));
                            assert(reached.items@.contains(b));
                            assert(non_terminals.items@[i as int] == a);
                        }
                    }
                    if (exists|k: int| 0 <= k < i + 1 && non_terminals.items@[k] == a)
                        && spec_unit_reach(a, self.rules()).contains(b) {
                        let w = choose|w: int| 0 <= w < i + 1 && non_terminals.items@[w] == a;
                        if w < i {
                            assert(outer.contains((a, b)));
                            let k = choose|k: int| 0 <= k < outer.len() && outer[k] == (a, b);
                            assert(couples@[k] == (a, b));
                        } else {
                            assert(reached@.contains(b));
                            let k = choose|k: int|
                                0 <= k < reached.items@.len() && reached.items@[k] == b;
                            assert(couples@[outer.len() + k] == (a, b));
                        }
                    }
                }
                assert forall|k: int, l: int| 0 <= k < l < couples@.len() implies couples@[k].0
                    < couples@[l].0 || (couples@[k].0 == couples@[l].0 && couples@[k].1
                    < couples@[l].1) by {
                    if l < outer.len() {
                        assert(outer[k] == couples@[k] && outer[l] == couples@[l]);
                    } else if k < outer.len() {
                        assert(outer[k].0 < from);
                    } else {
                        assert(reached.items@[k - outer.len()] < reached.items@[l - outer.len()]);
                    }
                }
                assert forall|k: int|
                    0 <= k < couples@.len() && i + 1 < non_terminals.items@.len() implies (
                #[trigger] couples@[k]).0 < non_terminals.items@[i + 1] by {
                    assert(non_terminals.items@[i as int] < non_terminals.items@[i + 1]);
                    if k < outer.len() {
                        assert(outer[k].0 < from);
                    }
                }
            }
            i += 1;
        }
        proof {
            assert forall|a: usize, b: usize| #[trigger]
                couples@.contains((a, b)) <==> spec_non_terminals(self.rules()).contains(a)
                    && spec_unit_reach(a, self.rules()).contains(b) by {
                if non_terminals@.contains(a) {
                    let k = choose|k: int|
                        0 <= k < non_terminals.items@.len() && non_terminals.items@[k] == a;
                    assert(non_terminals.items@[k] == a);
                }
                if exists|k: int| 0 <= k < i && non_terminals.items@[k] == a {
                    assert(non_terminals.items@.contains(a));
                }
            }
        }
        couples
    }

    /// Replaces the unit productions: a nonterminal `a` with a production
    /// gets, in place of its unit productions, every production that is no
    /// unit production of every nonterminal that `a` derives by unit
    /// productions alone. The productions come out grouped by their
    /// left-hand sides in increasing order, each one once.
    pub fn remove_unitary_cycles(&mut self)
        ensures
            final(self).start_symbol == old(self).start_symbol,
            final(self).nullable is None,
            forall|a: usize, rhs: Seq<Letter>| #[trigger]
                final(self).rules().contains((a, rhs)) <==> spec_non_terminals(
                    old(self).rules(),
                ).contains(a) && derived_rule(
                    old(self).rules(),
                    spec_unit_reach(a, old(self).rules()),
                    rhs,
                    false,
                ),
            final(self).rules().no_duplicates(),
            forall|k: int, l: int|
                0 <= k < l < final(self).rules().len() ==> (#[trigger] final(self).rules()[k]).0
                    <= (#[trigger] final(self).rules()[l]).0,
            exists|heads: Seq<usize>|
                crate::index_set::increasing_indices(heads) && heads.to_set() == spec_non_terminals(
                    old(self).rules(),
                ) && final(self).rules() == #[trigger] spec_without_units(old(self).rules(), heads),
    {
        let ghost rules = self.rules();
        let non_terminals = self.get_non_terminal();
        let mut out: Vec<Production> = Vec::new();
        assert(non_terminals.items@.subrange(0, 0) =~= Seq::<usize>::empty());
        let mut i: usize = 0;
        while i < non_terminals.items.len()
            invariant
                rules == production_seq(self.productions@),
                non_terminals.wf(),
                non_terminals@ == spec_non_terminals(rules),
                i <= non_terminals.items@.len(),
                production_seq(out@) == spec_without_units(
                    rules,
                    non_terminals.items@.subrange(0, i as int),
                ),
                forall|a: usize, rhs: Seq<Letter>| #[trigger]
                    production_seq(out@).contains((a, rhs)) <==> (exists|k: int|
                        0 <= k < i && non_terminals.items@[k] == a) && derived_rule(
                        rules,
                        spec_unit_reach(a, rules),
                        rhs,
                        false,
                    ),
                production_seq(out@).no_duplicates(),
                forall|k: int, l: int|
                    0 <= k < l < out@.len() ==> (#[trigger] out@[k]).lhs <= (#[trigger] out@[l]).lhs,
                forall|k: int|
                    0 <= k < out@.len() && i < non_terminals.items@.len() ==> (#[trigger] out@[k]).lhs
                        < non_terminals.items@[i as int],
            decreases non_terminals.items@.len() - i,
        {
            let from = non_terminals.items[i];
            let reached = reach(from, &self.productions, true);
            let mut group = alternatives(&self.productions, from, &reached, false);
            let ghost outer = out@;
            let ghost added = group@;
            out.append(&mut group);
            proof {
                let all = production_seq(out@);
                let old_all = production_seq(outer);
                assert(out@ == outer + added);
                let heads = non_terminals.items@.subrange(0, i as int + 1);
                assert(heads.drop_last() == non_terminals.items@.subrange(0, i as int));
                assert(heads.last() == from);
                assert(all =~= old_all + production_seq(added));
                assert forall|a: usize, rhs: Seq<Letter>| #[trigger]
                    all.contains((a, rhs)) <==> (exists|k: int|
                        0 <= k < i + 1 && non_terminals.items@[k] == a) && derived_rule(
                        rules,
                        spec_unit_reach(a, rules),
                        rhs,
                        false,
                    ) by {
                    if all.contains((a, rhs)) {
                        let k = choose|k: int| 0 <= k < all.len() && all[k] == (a, rhs);
                        if k < outer.len() {
                            assert(old_all[k] == (a, rhs));
                            assert(old_all.contains((a, rhs)));
                            let w = choose|w: int| 0 <= w < i && non_terminals.items@[w] == a;
                            assert(non_terminals.items@[w] == a);
                        } else {
                            assert(added[k - outer.len()].rhs@ == rhs);
                            assert(added[k - outer.len()].lhs == from);
                            assert(non_terminals.items@[i as int] == a);
                        }
                    }
                    if (exists|k: int| 0 <= k < i + 1 && non_terminals.items@[k] == a)
                        && derived_rule(rules, spec_unit_reach(a, rules), rhs, false) {
                        let w = choose|w: int| 0 <= w < i + 1 && non_terminals.items@[w] == a;
                        if w < i {
                            assert(old_all.contains((a, rhs)));
                            let k = choose|k: int| 0 <= k < old_all.len() && old_all[k] == (a, rhs);
                            assert(all[k] == (a, rhs));
                        } else {
                            let k = choose|k: int|
                                0 <= k < added.len() && (#[trigger] added[k]).rhs@ == rhs;
                            assert(added[k].lhs == from);
                            assert(all[outer.len() + k] == (a, rhs));
                        }
                    }
                }
                assert forall|k: int, l: int|
                    0 <= k < all.len() && 0 <= l < all.len() && k != l implies all[k]
                    != all[l] by {
                    if k < outer.len() && l < outer.len() {
                        assert(old_all[k] != old_all[l]);
                    } else if k < outer.len() {
                        assert(outer[k].lhs < from);
                        assert(added[l - outer.len()].lhs == from);
                    } else if l < outer.len() {
                        assert(outer[l].lhs < from);
                        assert(added[k - outer.len()].lhs == from);
                    } else {
                        let x = k - outer.len();
                        let y = l - outer.len();
                        if x < y {
                            assert(added[x].rhs@ != added[y].rhs@);
                        } else {
                            assert(added[y].rhs@ != added[x].rhs@);
                        }
                    }
                }
                assert forall|k: int, l: int| 0 <= k < l < out@.len() implies (
                #[trigger] out@[k]).lhs <= (#[trigger] out@[l]).lhs by {
                    if l < outer.len() {
                        assert(outer[k].lhs <= outer[l].lhs);
                    } else if k < outer.len() {
                        assert(outer[k].lhs < from);
                        assert(added[l - outer.len()].lhs == from);
                    } else {
                        assert(added[k - outer.len()].lhs == from);
                        assert(added[l - outer.len()].lhs == from);
                    }
                }
                assert forall|k: int|
                    0 <= k < out@.len() && i + 1 < non_terminals.items@.len() implies (
                #[trigger] out@[k]).lhs < non_terminals.items@[i + 1] by {
                    assert(non_terminals.items@[i as int] < non_terminals.items@[i + 1]);
                    if k < outer.len() {
                        assert(outer[k].lhs < from);
                    } else {
                        assert(added[k - outer.len()].lhs == from);
                    }
                }
            }
            i += 1;
        }
        proof {
            let all = production_seq(out@);
            assert forall|a: usize, rhs: Seq<Letter>| #[trigger]
                all.contains((a, rhs)) <==> spec_non_terminals(rules).contains(a) && derived_rule(
                    rules,
                    spec_unit_reach(a, rules),
                    rhs,
                    false,
                ) by {
                if non_terminals@.contains(a) {
                    let k = choose|k: int|
                        0 <= k < non_terminals.items@.len() && non_terminals.items@[k] == a;
                    assert(non_terminals.items@[k] == a);
                }
                if exists|k: int| 0 <= k < i && non_terminals.items@[k] == a {
                    assert(non_terminals.items@.contains(a));
                }
            }
            assert forall|k: int, l: int| 0 <= k < l < all.len() implies all[k].0 <= all[l].0 by {
                assert(out@[k].lhs <= out@[l].lhs);
            }
            assert(non_terminals.items@.subrange(0, i as int) == non_terminals.items@);
            assert(all == spec_without_units(rules, non_terminals.items@));
        }
        self.productions = out;
        self.nullable = None;
    }
}

impl Grammar {
    /// For each nonterminal with a production, in increasing order, its
    /// right-hand sides: each one once, in the order of the productions.
    pub fn productions_to_adj_list(&self) -> (adj_list: Vec<(usize, Vec<Production>)>)
        ensures
            adj_list@.len() == spec_non_terminals(self.rules()).len(),
            forall|k: int, l: int|
                0 <= k < l < adj_list@.len() ==> (#[trigger] adj_list@[k]).0 < (
                #[trigger] adj_list@[l]).0,
            forall|k: int|
                0 <= k < adj_list@.len() ==> spec_non_terminals(self.rules()).contains(
                    (#[trigger] adj_list@[k]).0,
                ),
            forall|k: int, rhs: Seq<Letter>|
                0 <= k < adj_list@.len() ==> (#[trigger] production_seq(adj_list@[k].1@).contains(
                    (adj_list@[k].0, rhs),
                ) <==> self.rules().contains((adj_list@[k].0, rhs))),
            forall|k: int|
                0 <= k < adj_list@.len() ==> (#[trigger] production_seq(
                    adj_list@[k].1@,
                )).no_duplicates(),
            forall|k: int|
                0 <= k < adj_list@.len() ==> #[trigger] production_seq(adj_list@[k].1@)
                    == spec_alternatives(self.rules(), adj_list@[k].0, set![adj_list@[k].0], true),
    {
        let ghost rules = self.rules();
        let non_terminals = self.get_non_terminal();
        proof {
            non_terminals.lemma_len();
        }
        let mut adj_list: Vec<(usize, Vec<Production>)> = Vec::new();
        let mut i: usize = 0;
        while i < non_terminals.items.len()
            invariant
                rules == self.rules(),
                non_terminals.wf(),
                non_terminals@ == spec_non_terminals(rules),
                i <= non_terminals.items@.len(),
                adj_list@.len() == i,
                forall|k: int| 0 <= k < i ==> (#[trigger] adj_list@[k]).0 == non_terminals.items@[k],
                forall|k: int, rhs: Seq<Letter>|
                    0 <= k < i ==> (#[trigger] production_seq(adj_list@[k].1@).contains(
                        (adj_list@[k].0, rhs),
                    ) <==> rules.contains((adj_list@[k].0, rhs))),
                forall|k: int|
                    0 <= k < i ==> (#[trigger] production_seq(adj_list@[k].1@)).no_duplicates(),
                forall|k: int|
                    0 <= k < i ==> #[trigger] production_seq(adj_list@[k].1@) == spec_alternatives(
                        rules,
                        adj_list@[k].0,
                        set![adj_list@[k].0],
                        true,
                    ),
            decreases non_terminals.items@.len() - i,
        {
            let from = non_terminals.items[i];
            let mut only = IndexSet::new();
            let _ = only.insert(from);
            assert(only@ =~= set![from]);
            let group = alternatives(&self.productions, from, &only, true);
            proof {
                let views = production_seq(group@);
                assert forall|rhs: Seq<Letter>| #[trigger]
                    views.contains((from, rhs)) <==> rules.contains((from, rhs)) by {
                    if views.contains((from, rhs)) {
                        let k = choose|k: int| 0 <= k < views.len() && views[k] == (from, rhs);
                        assert(group@[k].rhs@ == rhs);
                        assert(derived_rule(rules, only@, rhs, true));
                        let p = choose|p: int|
                            0 <= p < rules.len() && only@.contains((#[trigger] rules[p]).0)
                                && rules[p].1 == rhs;
                        assert(rules[p] == (from, rhs));
                    }
                    if rules.contains((from, rhs)) {
                        let p = choose|p: int| 0 <= p < rules.len() && rules[p] == (from, rhs);
                        assert(only@.contains(rules[p].0));
                        assert(derived_rule(rules, only@, rhs, true));
                        let k = choose|k: int|
                            0 <= k < group@.len() && (#[trigger] group@[k]).rhs@ == rhs;
                        assert(group@[k].lhs == from);
                        assert(views[k] == (from, rhs));
                    }
                }
                assert forall|k: int, l: int|
                    0 <= k < views.len() && 0 <= l < views.len() && k != l implies views[k]
                    != views[l] by {
                    if k < l {
                        assert(group@[k].rhs@ != group@[l].rhs@);
                    } else {
                        assert(group@[l].rhs@ != group@[k].rhs@);
                    }
                }
            }
            adj_list.push((from, group));
            i += 1;
        }
        proof {
            assert forall|k: int, l: int| 0 <= k < l < adj_list@.len() implies (
            #[trigger] adj_list@[k]).0 < (#[trigger] adj_list@[l]).0 by {
                assert(non_terminals.items@[k] < non_terminals.items@[l]);
            }
            assert forall|k: int| 0 <= k < adj_list@.len() implies spec_non_terminals(
                rules,
            ).contains((#[trigger] adj_list@[k]).0) by {
                assert(non_terminals.items@.contains(non_terminals.items@[k]));
            }
        }
        adj_list
    }

    /// Adds a new start symbol, one above the highest nonterminal with a
    /// production, whose one production leads to the old start symbol.
    pub fn add_fake_initial_state(&mut self)
        requires
            old(self).productions@.len() > 0,
            forall|i: int|
                0 <= i < old(self).productions@.len() ==> (#[trigger] old(self).productions@[i]).lhs
                    < usize::MAX,
        ensures
            final(self).nullable is None,
            final(self).rules() == old(self).rules().push(
                (final(self).start_symbol, seq![Letter::NonTerminal(old(self).start_symbol)]),
            ),
            spec_non_terminals(old(self).rules()).contains(
                (final(self).start_symbol - 1) as usize,
            ),
            forall|n: usize|
                spec_non_terminals(old(self).rules()).contains(n) ==> n < final(self).start_symbol,
    {
        let non_terminals = self.get_non_terminal();
        let ghost rules = self.rules();
        proof {
            assert(spec_non_terminals(rules).contains(rules[0].0));
            assert(non_terminals@.contains(rules[0].0));
            assert(non_terminals.items@.contains(rules[0].0));
        }
        let highest = non_terminals.items[non_terminals.items.len() - 1];
        proof {
            assert(non_terminals.items@[non_terminals.items@.len() - 1] == highest);
            assert(non_terminals.items@.contains(highest));
            assert(non_terminals@.contains(highest));
            assert(spec_non_terminals(rules).contains(highest));
            let p = choose|p: int| 0 <= p < rules.len() && (#[trigger] rules[p]).0 == highest;
            assert(old(self).productions@[p].lhs < usize::MAX);
            assert(rules[p] == old(self).productions@[p]@);
            assert forall|n: usize| spec_non_terminals(rules).contains(n) implies n
                <= highest by {
                assert(non_terminals@.contains(n));
                assert(non_terminals.items@.contains(n));
                let k = choose|k: int|
                    0 <= k < non_terminals.items@.len() && non_terminals.items@[k] == n;
                if k < non_terminals.items@.len() - 1 {
                    assert(non_terminals.items@[k] < non_terminals.items@[non_terminals.items@.len()
                        - 1]);
                }
            }
        }
        let new_state = highest + 1;
        let mut rhs: Vec<Letter> = Vec::new();
        rhs.push(Letter::NonTerminal(self.start_symbol));
        let ghost letters = rhs@;
        let ghost before = self.productions@;
        self.productions.push(Production { lhs: new_state, rhs });
        proof {
            assert(letters =~= seq![Letter::NonTerminal(old(self).start_symbol)]);
            assert(production_seq(self.productions@) =~= production_seq(before).push(
                (new_state, letters),
            ));
        }
        self.start_symbol = new_state;
        self.nullable = None;
    }
}

} // verus!
