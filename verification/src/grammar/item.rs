//! Items: productions with a dot that parts what was read from what is
//! expected, and the sets of items of a parser.
use vstd::prelude::*;
use crate::consts::{NonTerminal, Terminal, EPSILON, ITEM_SEP};
use crate::char_set::CharSet;
use crate::grammar::first_follow::{
    are_letters_below, get_first_letter, indices_below, letter_first, letters_below, spec_first, spec_nullable_flags, table_sets,
    table_wf, terminals_of, spec_terminals, terminal_at, FirstFollowTable, FirstTable,
};
use crate::grammar::production::{
    copy_letters, production_seq, same_letters, Letter, Production, Rule,
};
use crate::grammar::simplification::spec_non_terminals;
use crate::grammar::Grammar;
use crate::minimize::{lemma_total_false_set, total_false};
use crate::state_set::{count_false, lemma_count_false_set};

verus! {

/// A production whose right-hand side holds the dot (the terminal
/// `ITEM_SEP`), with the terminal that may follow it, if that is known.
#[derive(Debug, Clone, PartialEq, Eq, PartialOrd, Ord)]
pub struct Item {
    pub production: Production,
    pub look_ahead: Option<Terminal>,
}

/// An item as a mathematical value.
pub type ItemView = (Rule, Option<Terminal>);

impl View for Item {
    type V = ItemView;

    open spec fn view(&self) -> ItemView {
        (self.production@, self.look_ahead)
    }
}

/// The items as mathematical values.
pub open spec fn item_seq(items: Seq<Item>) -> Seq<ItemView> {
    items.map_values(|item: Item| item@)
}

/// The dot.
pub open spec fn dot() -> Letter {
    Letter::Terminal(ITEM_SEP)
}

/// The items of the production `rule`: one for each place of the dot,
/// from the front to the end. The production of the empty word has one
/// item, whose right-hand side is the dot alone.
pub open spec fn spec_itemize(rule: Rule) -> Seq<Rule> {
    if rule.1 == seq![Letter::Terminal(EPSILON)] {
        seq![(rule.0, seq![dot()])]
    } else {
        Seq::new(rule.1.len() + 1, |i: int| (rule.0, rule.1.insert(i, dot())))
    }
}

/// The items of the productions `rules`, production by production.
pub open spec fn spec_itemization(rules: Seq<Rule>) -> Seq<Rule>
    decreases rules.len(),
{
    if rules.len() == 0 {
        Seq::empty()
    } else {
        spec_itemization(rules.drop_last()) + spec_itemize(rules.last())
    }
}

/// The place of the dot in `rhs`: the first place that holds it, or the
/// length of `rhs` where none does.
pub open spec fn dot_place(rhs: Seq<Letter>) -> int
    decreases rhs.len(),
{
    if rhs.len() == 0 {
        0
    } else if rhs[0] == dot() {
        0
    } else {
        1 + dot_place(rhs.drop_first())
    }
}

/// The place of the dot is within the right-hand side or at its end; it
/// holds the dot, and no place before it does.
pub proof fn lemma_dot_place(rhs: Seq<Letter>)
    ensures
        0 <= dot_place(rhs) <= rhs.len(),
        dot_place(rhs) < rhs.len() ==> rhs[dot_place(rhs)] == dot(),
        forall|k: int| 0 <= k < dot_place(rhs) ==> rhs[k] != dot(),
    decreases rhs.len(),
{
    if rhs.len() == 0 {
    } else if rhs[0] == dot() {
    } else {
        lemma_dot_place(rhs.drop_first());
        assert forall|k: int| 0 <= k < dot_place(rhs) implies rhs[k] != dot() by {
            if k > 0 {
                assert(rhs.drop_first()[k - 1] == rhs[k]);
            }
        }
    }
}

/// The one place that holds the dot and has none before it.
pub proof fn lemma_dot_place_unique(rhs: Seq<Letter>, at: int)
    requires
        0 <= at <= rhs.len(),
        at < rhs.len() ==> rhs[at] == dot(),
        forall|k: int| 0 <= k < at ==> rhs[k] != dot(),
    ensures
        dot_place(rhs) == at,
{
    lemma_dot_place(rhs);
    let place = dot_place(rhs);
    if place < at {
        assert(rhs[place] != dot());
    } else if at < place {
        assert(rhs[at] != dot());
    }
}

/// The letter that the dot of `rhs` stands before, if there is one.
pub open spec fn after_dot(rhs: Seq<Letter>) -> Option<Letter> {
    if dot_place(rhs) + 1 < rhs.len() {
        Some(rhs[dot_place(rhs) + 1])
    } else {
        None
    }
}

/// `rhs` with the dot moved over the letter it stands before.
pub open spec fn advance(rhs: Seq<Letter>) -> Seq<Letter> {
    let place = dot_place(rhs);
    rhs.update(place, rhs[place + 1]).update(place + 1, dot())
}

/// The place of the dot in `rhs`.
pub fn find_dot(rhs: &Vec<Letter>) -> (place: usize)
    ensures
        place == dot_place(rhs@),
{
    let mut place: usize = 0;
    while place < rhs.len()
        invariant
            place <= rhs@.len(),
            forall|k: int| 0 <= k < place ==> rhs@[k] != dot(),
        decreases rhs@.len() - place,
    {
        if rhs[place] == Letter::Terminal(ITEM_SEP) {
            proof {
                lemma_dot_place_unique(rhs@, place as int);
            }
            return place;
        }
        place += 1;
    }
    proof {
        lemma_dot_place_unique(rhs@, place as int);
    }
    place
}

/// `rhs` with the dot put in at `at`.
fn with_dot(rhs: &Vec<Letter>, at: usize) -> (out: Vec<Letter>)
    requires
        at <= rhs@.len(),
    ensures
        out@ == rhs@.insert(at as int, dot()),
{
    let mut out = copy_letters(rhs);
    out.insert(at, Letter::Terminal(ITEM_SEP));
    out
}

/// Whether `item` is one of `items`.
pub fn contains_item(items: &Vec<Item>, item: &Item) -> (b: bool)
    ensures
        b == item_seq(items@).contains(item@),
{
    let mut k: usize = 0;
    while k < items.len()
        invariant
            k <= items@.len(),
            forall|l: int| 0 <= l < k ==> item_seq(items@)[l] != item@,
        decreases items@.len() - k,
    {
        let other = &items[k];
        let same_look_ahead = match (other.look_ahead, item.look_ahead) {
            (Some(a), Some(b)) => a == b,
            (None, None) => true,
            _ => false,
        };
        if other.production.lhs == item.production.lhs && same_look_ahead && same_letters(
            &other.production.rhs,
            &item.production.rhs,
        ) {
            assert(item_seq(items@)[k as int] == item@);
            return true;
        }
        k += 1;
    }
    false
}

impl Item {
    /// The items of all the productions, production by production.
    pub fn get_itemization(productions: &Vec<Production>) -> (items: Vec<Production>)
        ensures
            production_seq(items@) == spec_itemization(production_seq(productions@)),
    {
        let ghost rules = production_seq(productions@);
        let mut itemized_transitions: Vec<Production> = Vec::new();
        let mut i: usize = 0;
        while i < productions.len()
            invariant
                rules == production_seq(productions@),
                i <= productions@.len(),
                production_seq(itemized_transitions@) == spec_itemization(
                    rules.subrange(0, i as int),
                ),
            decreases productions@.len() - i,
        {
            let ghost before = production_seq(itemized_transitions@);
            let mut group = Item::itemize(&productions[i]);
            let ghost added = production_seq(group@);
            itemized_transitions.append(&mut group);
            proof {
                let longer = rules.subrange(0, i as int + 1);
                assert(longer.drop_last() == rules.subrange(0, i as int));
                assert(longer.last() == rules[i as int]);
                assert(production_seq(itemized_transitions@) =~= before + added);
            }
            i += 1;
        }
        assert(rules.subrange(0, i as int) == rules);
        itemized_transitions
    }

    /// The items of one production: one for each place of the dot.
    pub fn itemize(production: &Production) -> (items: Vec<Production>)
        ensures
            production_seq(items@) == spec_itemize(production@),
    {
        let mut itemized_prod: Vec<Production> = Vec::new();
        if production.rhs.len() == 1 && production.rhs[0] == Letter::Terminal(EPSILON) {
            let mut rhs: Vec<Letter> = Vec::new();
            rhs.push(Letter::Terminal(ITEM_SEP));
            let ghost letters = rhs@;
            itemized_prod.push(Production { lhs: production.lhs, rhs });
            proof {
                assert(production.rhs@ =~= seq![Letter::Terminal(EPSILON)]);
                assert(letters =~= seq![dot()]);
                assert(production_seq(itemized_prod@) =~= seq![(production.lhs, seq![dot()])]);
            }
            return itemized_prod;
        }
        proof {
            if production.rhs@ == seq![Letter::Terminal(EPSILON)] {
                assert(production.rhs@.len() == 1);
                assert(production.rhs@[0] == Letter::Terminal(EPSILON));
            }
        }
        let mut i: usize = 0;
        while i <= production.rhs.len()
            invariant
                i <= production.rhs@.len() + 1,
                production_seq(itemized_prod@) == Seq::new(
                    i as nat,
                    |k: int| (production.lhs, production.rhs@.insert(k, dot())),
                ),
            decreases production.rhs@.len() + 1 - i,
        {
            let rhs = with_dot(&production.rhs, i);
            let longer = rhs.len();
            assert(longer == production.rhs@.len() + 1);
            let ghost before = production_seq(itemized_prod@);
            let ghost letters = rhs@;
            itemized_prod.push(Production { lhs: production.lhs, rhs });
            proof {
                assert(production_seq(itemized_prod@) =~= before.push((production.lhs, letters)));
                assert(before.push((production.lhs, letters)) =~= Seq::new(
                    (i + 1) as nat,
                    |k: int| (production.lhs, production.rhs@.insert(k, dot())),
                ));
            }
            i += 1;
        }
        itemized_prod
    }
}

/// Whether the dot of `item` stands before `letter`.
pub open spec fn goes_on(item: ItemView, letter: Letter) -> bool {
    after_dot(item.0.1) == Some(letter)
}

/// `item` with the dot moved over the letter it stands before.
pub open spec fn moved(item: ItemView) -> ItemView {
    ((item.0.0, advance(item.0.1)), item.1)
}

/// Whether `x` is an item of `items` whose dot stands before `letter`,
/// with the dot moved over it.
pub open spec fn is_moved_item(items: Seq<ItemView>, letter: Letter, x: ItemView) -> bool {
    exists|k: int| 0 <= k < items.len() && goes_on(#[trigger] items[k], letter) && moved(items[k]) == x
}

/// The items of `items` whose dot stands before `letter`, with the dot
/// moved over it; each one once, in the order of `items`.
pub open spec fn spec_goto(items: Seq<ItemView>, letter: Letter) -> Seq<ItemView>
    decreases items.len(),
{
    if items.len() == 0 {
        Seq::empty()
    } else {
        let before = spec_goto(items.drop_last(), letter);
        if goes_on(items.last(), letter) && !before.contains(moved(items.last())) {
            before.push(moved(items.last()))
        } else {
            before
        }
    }
}

impl Item {
    /// A copy of the item.
    pub fn duplicate(&self) -> (copy: Self)
        ensures
            copy@ == self@,
    {
        Item { production: self.production.duplicate(), look_ahead: self.look_ahead }
    }

    /// The items of `items` whose dot stands before `letter`, with the dot
    /// moved over it; each one once, in the order of `items`.
    pub fn goto(items: &Vec<Item>, letter: &Letter) -> (goto_items: Vec<Item>)
        ensures
            item_seq(goto_items@) == spec_goto(item_seq(items@), *letter),
            item_seq(goto_items@).no_duplicates(),
            forall|x: ItemView| #[trigger]
                item_seq(goto_items@).contains(x) <==> is_moved_item(item_seq(items@), *letter, x),
    {
        let ghost views = item_seq(items@);
        let mut goto_items: Vec<Item> = Vec::new();
        let mut i: usize = 0;
        while i < items.len()
            invariant
                views == item_seq(items@),
                i <= items@.len(),
                item_seq(goto_items@) == spec_goto(views.subrange(0, i as int), *letter),
                item_seq(goto_items@).no_duplicates(),
                forall|x: ItemView| #[trigger]
                    item_seq(goto_items@).contains(x) <==> is_moved_item(
                        views.subrange(0, i as int),
                        *letter,
                        x,
                    ),
            decreases items@.len() - i,
        {
            let item = &items[i];
            let ghost before = item_seq(goto_items@);
            let ghost head = views.subrange(0, i as int);
            let ghost longer = views.subrange(0, i as int + 1);
            let item_sep_pos = find_dot(&item.production.rhs);
            let mut added = false;
            if item_sep_pos < item.production.rhs.len() && item_sep_pos + 1
                < item.production.rhs.len() && item.production.rhs[item_sep_pos + 1] == *letter {
                let mut new_item = item.duplicate();
                let follower = new_item.production.rhs[item_sep_pos + 1];
                new_item.production.rhs.set(item_sep_pos, follower);
                new_item.production.rhs.set(item_sep_pos + 1, Letter::Terminal(ITEM_SEP));
                assert(new_item@ == moved(item@));
                if !contains_item(&goto_items, &new_item) {
                    goto_items.push(new_item);
                    added = true;
                    proof {
                        assert(item_seq(goto_items@) =~= before.push(moved(item@)));
                    }
                }
            }
            proof {
                let after = item_seq(goto_items@);
                assert(longer[i as int] == views[i as int]);
                assert(views[i as int] == item@);
                assert(longer.drop_last() == head);
                assert(longer.last() == item@);
                lemma_dot_place(item.production.rhs@);
                assert forall|x: ItemView| #[trigger]
                    after.contains(x) <==> is_moved_item(longer, *letter, x) by {
                    if after.contains(x) {
                        let k = choose|k: int| 0 <= k < after.len() && after[k] == x;
                        if k < before.len() {
                            assert(before[k] == x);
                            assert(before.contains(x));
                            let l = choose|l: int|
                                0 <= l < head.len() && goes_on(#[trigger] head[l], *letter)
                                    && moved(head[l]) == x;
                            assert(longer[l] == head[l]);
                        } else {
                            assert(goes_on(longer[i as int], *letter));
                        }
                    }
                    if is_moved_item(longer, *letter, x) {
                        let l = choose|l: int|
                            0 <= l < longer.len() && goes_on(#[trigger] longer[l], *letter)
                                && moved(longer[l]) == x;
                        if l < i {
                            assert(head[l] == longer[l]);
                            assert(is_moved_item(head, *letter, x));
                            assert(before.contains(x));
                            let k = choose|k: int| 0 <= k < before.len() && before[k] == x;
                            assert(after[k] == x);
                        } else {
                            if added {
                                assert(after[before.len() as int] == x);
                            } else {
                                assert(before.contains(x));
                                let k = choose|k: int| 0 <= k < before.len() && before[k] == x;
                                assert(after[k] == x);
                            }
                        }
                    }
                }
                if added {
                    assert forall|a: int, b: int|
                        0 <= a < after.len() && 0 <= b < after.len() && a != b implies after[a]
                        != after[b] by {
                        if a < before.len() && b < before.len() {
                            assert(before[a] != before[b]);
                        } else if a < before.len() {
                            assert(before.contains(before[a]));
                        } else {
                            assert(before.contains(before[b]));
                        }
                    }
                }
            }
            i += 1;
        }
        assert(views.subrange(0, i as int) == views);
        goto_items
    }
}

/// The nonterminal that the dot of `item` stands before, with the letter
/// behind that nonterminal, if there is one.
pub open spec fn expects(item: ItemView) -> Option<(NonTerminal, Option<Letter>)> {
    let rhs = item.0.1;
    let place = dot_place(rhs);
    if place + 1 < rhs.len() && rhs[place + 1] is NonTerminal {
        Some(
            (
                rhs[place + 1]->NonTerminal_0,
                if place + 2 < rhs.len() {
                    Some(rhs[place + 2])
                } else {
                    None
                },
            ),
        )
    } else {
        None
    }
}

/// The terminals that may follow an item that was made for a nonterminal
/// in front of `next`, by an item that `own` may follow: the FIRST set of
/// `next`; `own` where there is no `next`; and both, without the empty
/// word, where `next` derives the empty word.
pub open spec fn look_ahead_chars(first: Seq<Set<char>>, own: Terminal, next: Option<Letter>) -> Set<
    char,
> {
    match next {
        None => set![own],
        Some(letter) => {
            let given = letter_first(first, letter);
            if given.contains(EPSILON) {
                given.remove(EPSILON).insert(own)
            } else {
                given
            }
        },
    }
}

/// What may follow an item made by an item that `own` may follow: nothing
/// is known where `own` is not, else see `look_ahead_chars`.
pub open spec fn look_aheads(first: Seq<Set<char>>, own: Option<Terminal>, next: Option<Letter>) -> Set<
    Option<Terminal>,
> {
    match own {
        None => set![None::<Terminal>],
        Some(a) => Set::new(
            |la: Option<Terminal>| la is Some && look_ahead_chars(first, a, next).contains(la->Some_0),
        ),
    }
}

/// The item of the production `rule` with the dot in front, which `la` may
/// follow.
pub open spec fn made_item(rule: Rule, la: Option<Terminal>) -> ItemView {
    ((rule.0, seq![dot()] + rule.1), la)
}

/// Whether `item` asks for the item of the `p`-th production with `la`: its
/// dot stands before the left-hand side of that production, and `la` may
/// follow.
pub open spec fn yields(
    rules: Seq<Rule>,
    first: Seq<Set<char>>,
    item: ItemView,
    p: int,
    la: Option<Terminal>,
) -> bool {
    &&& 0 <= p < rules.len()
    &&& expects(item) is Some
    &&& expects(item)->Some_0.0 == rules[p].0
    &&& look_aheads(first, item.1, expects(item)->Some_0.1).contains(la)
}

/// Whether `set` holds every item that one of its items asks for.
pub open spec fn closed_items(rules: Seq<Rule>, first: Seq<Set<char>>, set: Set<ItemView>) -> bool {
    forall|item: ItemView, p: int, la: Option<Terminal>|
        set.contains(item) && #[trigger] yields(rules, first, item, p, la) ==> set.contains(
            made_item(rules[p], la),
        )
}

/// The closure of `seeds`: the least set that holds them and every item
/// that one of its items asks for.
pub open spec fn spec_closure(seeds: Set<ItemView>, rules: Seq<Rule>, first: Seq<Set<char>>) -> Set<
    ItemView,
> {
    Set::new(
        |x: ItemView|
            forall|s: Set<ItemView>|
                seeds.subset_of(s) && #[trigger] closed_items(rules, first, s) ==> s.contains(x),
    )
}

/// The FIRST sets of the grammar with the productions `rules`.
pub open spec fn grammar_first(rules: Seq<Rule>) -> Seq<Set<char>> {
    let num = spec_non_terminals(rules).len();
    spec_first(rules, spec_nullable_flags(rules, num), num)
}

/// Whether the terminals of `item` are in `universe` and its nonterminals
/// below `num`.
pub open spec fn item_within(item: ItemView, universe: Set<char>, num: nat) -> bool {
    &&& item.1 matches Some(c) ==> universe.contains(c)
    &&& forall|j: int|
        0 <= j < item.0.1.len() ==> match #[trigger] item.0.1[j] {
            Letter::Terminal(c) => universe.contains(c),
            Letter::NonTerminal(n) => n < num,
        }
}

/// The nonterminal that the dot of `rhs` stands before, with the letter
/// behind that nonterminal.
pub fn expected(rhs: &Vec<Letter>) -> (r: Option<(NonTerminal, Option<Letter>)>)
    ensures
        forall|lhs: NonTerminal, la: Option<Terminal>| r == #[trigger] expects(((lhs, rhs@), la)),
{
    let place = find_dot(rhs);
    if place < rhs.len() && place + 1 < rhs.len() {
        match rhs[place + 1] {
            Letter::NonTerminal(n) => {
                let next = if place + 2 < rhs.len() {
                    Some(rhs[place + 2])
                } else {
                    None
                };
                Some((n, next))
            },
            Letter::Terminal(_) => None,
        }
    } else {
        None
    }
}

/// The terminals that may follow an item made in front of `next` by an
/// item that `own` may follow.
pub fn get_look_ahead_chars(first: &FirstTable, own: Terminal, next: Option<Letter>) -> (set: CharSet)
    requires
        table_wf(first@),
        next matches Some(Letter::NonTerminal(n)) ==> n < first@.len(),
    ensures
        set.wf(),
        set@ == look_ahead_chars(table_sets(first@), own, next),
{
    match next {
        None => {
            let mut set = CharSet::new();
            let _ = set.insert(own);
            assert(set@ =~= set![own]);
            set
        },
        Some(letter) => {
            let mut set = get_first_letter(first, &letter);
            if set.remove(EPSILON) {
                let _ = set.insert(own);
            }
            set
        },
    }
}

/// The item of `production` with the dot in front, which `la` may follow.
pub fn make_item(production: &Production, la: Option<Terminal>) -> (item: Item)
    ensures
        item@ == made_item(production@, la),
{
    let rhs = with_dot(&production.rhs, 0);
    assert(rhs@ =~= seq![dot()] + production.rhs@);
    Item { production: Production { lhs: production.lhs, rhs }, look_ahead: la }
}

/// What a closure is computed for: the productions, the FIRST sets, the
/// items to start from, the terminals that can occur and the number of
/// nonterminals.
pub struct ClosureGoal {
    pub rules: Seq<Rule>,
    pub first: Seq<Set<char>>,
    pub seeds: Set<ItemView>,
    pub universe: Seq<char>,
    pub num: nat,
}

/// Whether the items found so far are in order: each one once, all of them
/// in the closure and made of known symbols; and the tables of the items
/// made so far mark only items that were found.
pub open spec fn closure_inv(
    goal: ClosureGoal,
    result: Seq<ItemView>,
    done: Seq<Vec<bool>>,
    none_done: Seq<bool>,
) -> bool {
    &&& result.no_duplicates()
    &&& forall|x: ItemView| #[trigger]
        result.contains(x) ==> spec_closure(goal.seeds, goal.rules, goal.first).contains(x)
    &&& forall|x: ItemView| #[trigger]
        result.contains(x) ==> item_within(x, goal.universe.to_set(), goal.num)
    &&& done.len() == goal.rules.len()
    &&& none_done.len() == goal.rules.len()
    &&& forall|p: int| 0 <= p < done.len() ==> (#[trigger] done[p])@.len() == goal.universe.len()
    &&& forall|p: int, k: int|
        0 <= p < goal.rules.len() && 0 <= k < goal.universe.len() && (#[trigger] done[p]@[k])
            ==> result.contains(made_item(goal.rules[p], Some(goal.universe[k])))
    &&& forall|p: int|
        0 <= p < goal.rules.len() && (#[trigger] none_done[p]) ==> result.contains(
            made_item(goal.rules[p], None),
        )
}

/// Adds the item of the `p`-th production with `la`, unless it was made or
/// found before.
fn add_item(
    production: &Production,
    la: Option<Terminal>,
    p: usize,
    k: usize,
    result: &mut Vec<Item>,
    done: &mut Vec<Vec<bool>>,
    none_done: &mut Vec<bool>,
    Ghost(goal): Ghost<ClosureGoal>,
)
    requires
        closure_inv(goal, item_seq(old(result)@), old(done)@, old(none_done)@),
        p < goal.rules.len(),
        production@ == goal.rules[p as int],
        la matches Some(c) ==> k < goal.universe.len() && goal.universe[k as int] == c,
        spec_closure(goal.seeds, goal.rules, goal.first).contains(
            made_item(goal.rules[p as int], la),
        ),
        item_within(made_item(goal.rules[p as int], la), goal.universe.to_set(), goal.num),
    ensures
        closure_inv(goal, item_seq(final(result)@), final(done)@, final(none_done)@),
        old(result)@.len() <= final(result)@.len(),
        forall|i: int|
            0 <= i < old(result)@.len() ==> #[trigger] item_seq(final(result)@)[i] == item_seq(
                old(result)@,
            )[i],
        item_seq(final(result)@).contains(made_item(goal.rules[p as int], la)),
        total_false(final(done)@) + count_false(final(none_done)@) + final(result)@.len()
            <= total_false(old(done)@) + count_false(old(none_done)@) + old(result)@.len(),
{
    let ghost before = item_seq(result@);
    let ghost made = made_item(goal.rules[p as int], la);
    let known = match la {
        Some(_) => done[p][k],
        None => none_done[p],
    };
    if known {
        return ;
    }
    let ghost done_before = done@;
    match la {
        Some(_) => {
            assert(done@[p as int]@.len() == goal.universe.len());
            done[p].set(k, true);
            proof {
                lemma_total_false_set(done_before, done@, p as int, k as int);
            }
        },
        None => {
            proof {
                lemma_count_false_set(none_done@, p as int);
            }
            none_done.set(p, true);
        },
    }
    let item = make_item(production, la);
    if !contains_item(result, &item) {
        result.push(item);
        proof {
            let after = item_seq(result@);
            assert(after =~= before.push(made));
            assert forall|a: int, b: int|
                0 <= a < after.len() && 0 <= b < after.len() && a != b implies after[a]
                != after[b] by {
                if a < before.len() && b < before.len() {
                    assert(before[a] != before[b]);
                } else if a < before.len() {
                    assert(before.contains(before[a]));
                } else {
                    assert(before.contains(before[b]));
                }
            }
        }
    }
    proof {
        let after = item_seq(result@);
        assert forall|x: ItemView| before.contains(x) implies after.contains(x) by {
            let i = choose|i: int| 0 <= i < before.len() && before[i] == x;
            assert(after[i] == x);
        }
        assert forall|x: ItemView| #[trigger] after.contains(x) implies before.contains(x) || x
            == made by {
            let i = choose|i: int| 0 <= i < after.len() && after[i] == x;
            if i < before.len() {
                assert(before[i] == x);
            }
        }
        assert(after.contains(made)) by {
            if before.contains(made) {
            } else {
                assert(after[before.len() as int] == made);
            }
        }
        assert forall|q: int| 0 <= q < done@.len() implies (#[trigger] done@[q])@.len()
            == goal.universe.len() by {
            if q != p {
                assert(done@[q] == done_before[q]);
            }
        }
        assert forall|q: int, l: int|
            0 <= q < goal.rules.len() && 0 <= l < goal.universe.len() && (
            #[trigger] done@[q]@[l]) implies after.contains(
            made_item(goal.rules[q], Some(goal.universe[l])),
        ) by {
            if la is Some && q == p && l == k {
            } else {
                if q != p {
                    assert(done@[q] == done_before[q]);
                }
                assert(done_before[q]@[l]);
                assert(before.contains(made_item(goal.rules[q], Some(goal.universe[l]))));
            }
        }
        assert forall|q: int|
            0 <= q < goal.rules.len() && (#[trigger] none_done@[q]) implies after.contains(
            made_item(goal.rules[q], None),
        ) by {
            if la is None && q == p {
            } else {
                assert(old(none_done)@[q]);
                assert(before.contains(made_item(goal.rules[q], None)));
            }
        }
    }
}

/// The terminals that can occur in a closure: those of the productions,
/// of the FIRST sets and of the items to start from, and the dot.
fn closure_universe(productions: &Vec<Production>, first: &FirstTable, items: &Vec<Item>) -> (universe:
    CharSet)
    requires
        table_wf(first@),
    ensures
        universe.wf(),
        universe@.contains(ITEM_SEP),
        spec_terminals(production_seq(productions@)).subset_of(universe@),
        forall|n: int| 0 <= n < first@.len() ==> (#[trigger] first@[n])@.subset_of(universe@),
        forall|i: int|
            0 <= i < items@.len() ==> ((#[trigger] items@[i]).look_ahead matches Some(c)
                ==> universe@.contains(c)),
        forall|i: int, j: int|
            0 <= i < items@.len() && 0 <= j < items@[i].production.rhs@.len() ==> (
            #[trigger] items@[i].production.rhs@[j] matches Letter::Terminal(c)
                ==> universe@.contains(c)),
{
    let mut universe = terminals_of(productions);
    let _ = universe.insert(ITEM_SEP);
    let mut n: usize = 0;
    while n < first.len()
        invariant
            table_wf(first@),
            n <= first@.len(),
            universe.wf(),
            universe@.contains(ITEM_SEP),
            spec_terminals(production_seq(productions@)).subset_of(universe@),
            forall|m: int| 0 <= m < n ==> (#[trigger] first@[m])@.subset_of(universe@),
        decreases first@.len() - n,
    {
        assert(first@[n as int].wf());
        let _ = universe.union_with(&first[n]);
        n += 1;
    }
    let mut i: usize = 0;
    while i < items.len()
        invariant
            i <= items@.len(),
            universe.wf(),
            universe@.contains(ITEM_SEP),
            spec_terminals(production_seq(productions@)).subset_of(universe@),
            forall|m: int| 0 <= m < first@.len() ==> (#[trigger] first@[m])@.subset_of(universe@),
            forall|l: int|
                0 <= l < i ==> ((#[trigger] items@[l]).look_ahead matches Some(c)
                    ==> universe@.contains(c)),
            forall|l: int, j: int|
                0 <= l < i && 0 <= j < items@[l].production.rhs@.len() ==> (
                #[trigger] items@[l].production.rhs@[j] matches Letter::Terminal(c)
                    ==> universe@.contains(c)),
        decreases items@.len() - i,
    {
        match items[i].look_ahead {
            Some(c) => {
                let _ = universe.insert(c);
            },
            None => {},
        }
        let mut j: usize = 0;
        while j < items[i].production.rhs.len()
            invariant
                i < items@.len(),
                j <= items@[i as int].production.rhs@.len(),
                universe.wf(),
                universe@.contains(ITEM_SEP),
                spec_terminals(production_seq(productions@)).subset_of(universe@),
                forall|m: int|
                    0 <= m < first@.len() ==> (#[trigger] first@[m])@.subset_of(universe@),
                forall|l: int|
                    0 <= l < i + 1 ==> ((#[trigger] items@[l]).look_ahead matches Some(c)
                        ==> universe@.contains(c)),
                forall|l: int, k: int|
                    0 <= l < i && 0 <= k < items@[l].production.rhs@.len() ==> (
                    #[trigger] items@[l].production.rhs@[k] matches Letter::Terminal(c)
                        ==> universe@.contains(c)),
                forall|k: int|
                    0 <= k < j ==> (#[trigger] items@[i as int].production.rhs@[k] matches Letter::Terminal(
                        c,
                    ) ==> universe@.contains(c)),
            decreases items@[i as int].production.rhs@.len() - j,
        {
            match items[i].production.rhs[j] {
                Letter::Terminal(c) => {
                    let _ = universe.insert(c);
                },
                Letter::NonTerminal(_) => {},
            }
            j += 1;
        }
        i += 1;
    }
    universe
}

/// The items of `items`, each one once, in their order.
fn distinct_items(items: &Vec<Item>) -> (out: Vec<Item>)
    ensures
        item_seq(out@).no_duplicates(),
        item_seq(out@).to_set() == item_seq(items@).to_set(),
{
    let ghost views = item_seq(items@);
    let mut out: Vec<Item> = Vec::new();
    let mut i: usize = 0;
    while i < items.len()
        invariant
            views == item_seq(items@),
            i <= items@.len(),
            item_seq(out@).no_duplicates(),
            forall|x: ItemView| #[trigger]
                item_seq(out@).contains(x) <==> views.subrange(0, i as int).contains(x),
        decreases items@.len() - i,
    {
        let ghost before = item_seq(out@);
        let ghost head = views.subrange(0, i as int);
        let ghost longer = views.subrange(0, i as int + 1);
        let item = items[i].duplicate();
        let mut added = false;
        if !contains_item(&out, &item) {
            out.push(item);
            added = true;
        }
        proof {
            let after = item_seq(out@);
            let this = views[i as int];
            assert(longer[i as int] == this);
            if added {
                assert(after =~= before.push(this));
                assert forall|a: int, b: int|
                    0 <= a < after.len() && 0 <= b < after.len() && a != b implies after[a]
                    != after[b] by {
                    if a < before.len() && b < before.len() {
                        assert(before[a] != before[b]);
                    } else if a < before.len() {
                        assert(before.contains(before[a]));
                    } else {
                        assert(before.contains(before[b]));
                    }
                }
            }
            assert forall|x: ItemView| #[trigger] after.contains(x) <==> longer.contains(x) by {
                if after.contains(x) {
                    let k = choose|k: int| 0 <= k < after.len() && after[k] == x;
                    if k < before.len() {
                        assert(before[k] == x);
                        assert(before.contains(x));
                        let l = choose|l: int| 0 <= l < head.len() && head[l] == x;
                        assert(longer[l] == x);
                    }
                }
                if longer.contains(x) {
                    let l = choose|l: int| 0 <= l < longer.len() && longer[l] == x;
                    if l < i {
                        assert(head[l] == x);
                        assert(head.contains(x));
                        assert(before.contains(x));
                        let k = choose|k: int| 0 <= k < before.len() && before[k] == x;
                        assert(after[k] == x);
                    } else {
                        if added {
                            assert(after[before.len() as int] == x);
                        } else {
                            assert(before.contains(x));
                            let k = choose|k: int| 0 <= k < before.len() && before[k] == x;
                            assert(after[k] == x);
                        }
                    }
                }
            }
        }
        i += 1;
    }
    proof {
        assert(views.subrange(0, i as int) == views);
        assert(item_seq(out@).to_set() =~= views.to_set());
    }
    out
}

/// What a sequence holds, every sequence that begins with it holds.
pub proof fn lemma_prefix_contains(before: Seq<ItemView>, after: Seq<ItemView>)
    requires
        before.len() <= after.len(),
        forall|i: int| 0 <= i < before.len() ==> #[trigger] after[i] == before[i],
    ensures
        forall|x: ItemView| before.contains(x) ==> #[trigger] after.contains(x),
{
    assert forall|x: ItemView| before.contains(x) implies #[trigger] after.contains(x) by {
        let i = choose|i: int| 0 <= i < before.len() && before[i] == x;
        assert(after[i] == x);
    }
}

/// The closure holds every item that one of its items asks for.
pub proof fn lemma_closure_step(
    seeds: Set<ItemView>,
    rules: Seq<Rule>,
    first: Seq<Set<char>>,
    item: ItemView,
    p: int,
    la: Option<Terminal>,
)
    requires
        spec_closure(seeds, rules, first).contains(item),
        yields(rules, first, item, p, la),
    ensures
        spec_closure(seeds, rules, first).contains(made_item(rules[p], la)),
{
    assert forall|s: Set<ItemView>|
        seeds.subset_of(s) && #[trigger] closed_items(rules, first, s) implies s.contains(
        made_item(rules[p], la),
    ) by {
        assert(s.contains(item));
        assert(yields(rules, first, item, p, la));
    }
}

/// An item that is asked for by an item of known symbols is made of known
/// symbols.
pub proof fn lemma_made_within(goal: ClosureGoal, item: ItemView, p: int, la: Option<Terminal>)
    requires
        indices_below(goal.rules, goal.num),
        goal.first.len() == goal.num,
        goal.universe.to_set().contains(ITEM_SEP),
        spec_terminals(goal.rules).subset_of(goal.universe.to_set()),
        forall|n: int|
            0 <= n < goal.first.len() ==> (#[trigger] goal.first[n]).subset_of(
                goal.universe.to_set(),
            ),
        item_within(item, goal.universe.to_set(), goal.num),
        yields(goal.rules, goal.first, item, p, la),
    ensures
        item_within(made_item(goal.rules[p], la), goal.universe.to_set(), goal.num),
{
    let universe = goal.universe.to_set();
    let made = made_item(goal.rules[p], la);
    let rhs = item.0.1;
    let place = dot_place(rhs);
    lemma_dot_place(rhs);
    assert forall|j: int| 0 <= j < made.0.1.len() implies match #[trigger] made.0.1[j] {
        Letter::Terminal(c) => universe.contains(c),
        Letter::NonTerminal(n) => n < goal.num,
    } by {
        if j > 0 {
            assert(made.0.1[j] == goal.rules[p].1[j - 1]);
            match goal.rules[p].1[j - 1] {
                Letter::Terminal(c) => {
                    assert(terminal_at(goal.rules, p, j - 1, c));
                    assert(spec_terminals(goal.rules).contains(c));
                },
                Letter::NonTerminal(n) => {
                    assert(goal.rules[p].1[j - 1] is NonTerminal);
                },
            }
        }
    }
    if la is Some {
        let a = item.1->Some_0;
        let next = expects(item)->Some_0.1;
        let c = la->Some_0;
        assert(look_ahead_chars(goal.first, a, next).contains(c));
        if next is Some {
            assert(rhs[place + 2] == next->Some_0);
            match next->Some_0 {
                Letter::NonTerminal(n) => {
                    assert(n < goal.num);
                    assert(goal.first[n as int].subset_of(universe));
                },
                Letter::Terminal(t) => {},
            }
        }
    }
}

/// Adds the items of the `p`-th production that the item `source` asks
/// for, unless they were made or found before.
fn add_production_items(
    production: &Production,
    p: usize,
    las: &Option<CharSet>,
    universe: &CharSet,
    result: &mut Vec<Item>,
    done: &mut Vec<Vec<bool>>,
    none_done: &mut Vec<bool>,
    Ghost(goal): Ghost<ClosureGoal>,
    Ghost(source): Ghost<ItemView>,
)
    requires
        closure_inv(goal, item_seq(old(result)@), old(done)@, old(none_done)@),
        universe.wf(),
        goal.universe == universe.items@,
        p < goal.rules.len(),
        production@ == goal.rules[p as int],
        spec_closure(goal.seeds, goal.rules, goal.first).contains(source),
        expects(source) is Some,
        expects(source)->Some_0.0 == goal.rules[p as int].0,
        match *las {
            None => source.1 is None,
            Some(set) => source.1 is Some && set.wf() && set@ == look_ahead_chars(
                goal.first,
                source.1->Some_0,
                expects(source)->Some_0.1,
            ),
        },
        forall|la: Option<Terminal>| #[trigger]
            yields(goal.rules, goal.first, source, p as int, la) ==> item_within(
                made_item(goal.rules[p as int], la),
                goal.universe.to_set(),
                goal.num,
            ),
    ensures
        closure_inv(goal, item_seq(final(result)@), final(done)@, final(none_done)@),
        old(result)@.len() <= final(result)@.len(),
        forall|i: int|
            0 <= i < old(result)@.len() ==> #[trigger] item_seq(final(result)@)[i] == item_seq(
                old(result)@,
            )[i],
        forall|la: Option<Terminal>| #[trigger]
            yields(goal.rules, goal.first, source, p as int, la) ==> item_seq(
                final(result)@,
            ).contains(made_item(goal.rules[p as int], la)),
        total_false(final(done)@) + count_false(final(none_done)@) + final(result)@.len()
            <= total_false(old(done)@) + count_false(old(none_done)@) + old(result)@.len(),
{
    let ghost rule = goal.rules[p as int];
    match las {
        None => {
            proof {
                assert(yields(goal.rules, goal.first, source, p as int, None));
                lemma_closure_step(goal.seeds, goal.rules, goal.first, source, p as int, None);
            }
            add_item(production, None, p, 0, result, done, none_done, Ghost(goal));
            proof {
                assert forall|la: Option<Terminal>| #[trigger]
                    yields(goal.rules, goal.first, source, p as int, la) implies item_seq(
                    result@,
                ).contains(made_item(rule, la)) by {
                    assert(la == None::<Terminal>);
                }
            }
        },
        Some(set) => {
            let mut j: usize = 0;
            while j < set.items.len()
                invariant
                    closure_inv(goal, item_seq(result@), done@, none_done@),
                    universe.wf(),
                    goal.universe == universe.items@,
                    p < goal.rules.len(),
                    rule == goal.rules[p as int],
                    production@ == rule,
                    spec_closure(goal.seeds, goal.rules, goal.first).contains(source),
                    expects(source) is Some,
                    expects(source)->Some_0.0 == rule.0,
                    source.1 is Some,
                    set.wf(),
                    set@ == look_ahead_chars(
                        goal.first,
                        source.1->Some_0,
                        expects(source)->Some_0.1,
                    ),
                    forall|la: Option<Terminal>| #[trigger]
                        yields(goal.rules, goal.first, source, p as int, la) ==> item_within(
                            made_item(rule, la),
                            goal.universe.to_set(),
                            goal.num,
                        ),
                    j <= set.items@.len(),
                    old(result)@.len() <= result@.len(),
                    forall|i: int|
                        0 <= i < old(result)@.len() ==> #[trigger] item_seq(result@)[i] == item_seq(
                            old(result)@,
                        )[i],
                    forall|l: int|
                        0 <= l < j ==> item_seq(result@).contains(
                            made_item(rule, Some(#[trigger] set.items@[l])),
                        ),
                    total_false(done@) + count_false(none_done@) + result@.len() <= total_false(
                        old(done)@,
                    ) + count_false(old(none_done)@) + old(result)@.len(),
                decreases set.items@.len() - j,
            {
                let c = set.items[j];
                let ghost before = item_seq(result@);
                proof {
                    assert(set.items@.contains(c));
                    assert(set@.contains(c));
                    assert(yields(goal.rules, goal.first, source, p as int, Some(c)));
                    lemma_closure_step(
                        goal.seeds,
                        goal.rules,
                        goal.first,
                        source,
                        p as int,
                        Some(c),
                    );
                    assert(item_within(made_item(rule, Some(c)), goal.universe.to_set(), goal.num));
                    assert(universe@.contains(c));
                }
                match universe.index_of(c) {
                    Some(k) => {
                        add_item(production, Some(c), p, k, result, done, none_done, Ghost(goal));
                    },
                    None => {},
                }
                proof {
                    lemma_prefix_contains(before, item_seq(result@));
                }
                j += 1;
            }
            proof {
                assert forall|la: Option<Terminal>| #[trigger]
                    yields(goal.rules, goal.first, source, p as int, la) implies item_seq(
                    result@,
                ).contains(made_item(rule, la)) by {
                    let c = la->Some_0;
                    assert(set@.contains(c));
                    assert(set.items@.contains(c));
                    let l = choose|l: int| 0 <= l < set.items@.len() && set.items@[l] == c;
                    assert(item_seq(result@).contains(made_item(rule, Some(set.items@[l]))));
                }
            }
        },
    }
}

/// Whether every nonterminal of the items is a number below the number of
/// nonterminals of `grammar` that have a production.
pub open spec fn items_fit(items: Seq<Item>, grammar: &Grammar) -> bool {
    forall|i: int|
        0 <= i < items.len() ==> letters_below(
            (#[trigger] items[i]).production.rhs@,
            spec_non_terminals(grammar.rules()).len(),
        )
}

/// Adds the items that the `i`-th item found asks for, unless they were
/// made or found before.
fn expand_item(
    i: usize,
    productions: &Vec<Production>,
    first: &FirstTable,
    universe: &CharSet,
    result: &mut Vec<Item>,
    done: &mut Vec<Vec<bool>>,
    none_done: &mut Vec<bool>,
    Ghost(goal): Ghost<ClosureGoal>,
)
    requires
        closure_inv(goal, item_seq(old(result)@), old(done)@, old(none_done)@),
        i < old(result)@.len(),
        goal.rules == production_seq(productions@),
        goal.first == table_sets(first@),
        table_wf(first@),
        first@.len() == goal.num,
        indices_below(goal.rules, goal.num),
        universe.wf(),
        goal.universe == universe.items@,
        universe@.contains(ITEM_SEP),
        spec_terminals(goal.rules).subset_of(universe@),
        forall|n: int| 0 <= n < first@.len() ==> (#[trigger] first@[n])@.subset_of(universe@),
    ensures
        closure_inv(goal, item_seq(final(result)@), final(done)@, final(none_done)@),
        old(result)@.len() <= final(result)@.len(),
        forall|k: int|
            0 <= k < old(result)@.len() ==> #[trigger] item_seq(final(result)@)[k] == item_seq(
                old(result)@,
            )[k],
        forall|p: int, la: Option<Terminal>| #[trigger]
            yields(goal.rules, goal.first, item_seq(old(result)@)[i as int], p, la) ==> item_seq(
                final(result)@,
            ).contains(made_item(goal.rules[p], la)),
        total_false(final(done)@) + count_false(final(none_done)@) + final(result)@.len()
            <= total_false(old(done)@) + count_false(old(none_done)@) + old(result)@.len(),
{
    let item = result[i].duplicate();
    let ghost source = item@;
    proof {
        assert(item_seq(result@)[i as int] == source);
        assert(item_seq(result@).contains(source));
        assert forall|lhs: NonTerminal, la: Option<Terminal>|
            expects(((lhs, item.production.rhs@), la)) == expects(source) by {}
    }
    let (non_terminal, next) = match expected(&item.production.rhs) {
        Some(found) => found,
        None => {
            return ;
        },
    };
    proof {
        assert(expects(source) == Some((non_terminal, next)));
        lemma_dot_place(source.0.1);
        assert(item_within(source, goal.universe.to_set(), goal.num));
        if next is Some {
            assert(source.0.1[dot_place(source.0.1) + 2] == next->Some_0);
        }
    }
    let las = match item.look_ahead {
        None => None,
        Some(a) => Some(get_look_ahead_chars(first, a, next)),
    };
    let mut p: usize = 0;
    while p < productions.len()
        invariant
            closure_inv(goal, item_seq(result@), done@, none_done@),
            goal.rules == production_seq(productions@),
            goal.first == table_sets(first@),
            first@.len() == goal.num,
            indices_below(goal.rules, goal.num),
            universe.wf(),
            goal.universe == universe.items@,
            universe@.contains(ITEM_SEP),
            spec_terminals(goal.rules).subset_of(universe@),
            forall|n: int| 0 <= n < first@.len() ==> (#[trigger] first@[n])@.subset_of(universe@),
            p <= productions@.len(),
            source == item_seq(old(result)@)[i as int],
            spec_closure(goal.seeds, goal.rules, goal.first).contains(source),
            item_within(source, goal.universe.to_set(), goal.num),
            expects(source) == Some((non_terminal, next)),
            match las {
                None => source.1 is None,
                Some(set) => source.1 is Some && set.wf() && set@ == look_ahead_chars(
                    goal.first,
                    source.1->Some_0,
                    next,
                ),
            },
            old(result)@.len() <= result@.len(),
            forall|k: int|
                0 <= k < old(result)@.len() ==> #[trigger] item_seq(result@)[k] == item_seq(
                    old(result)@,
                )[k],
            forall|q: int, la: Option<Terminal>|
                q < p && #[trigger] yields(goal.rules, goal.first, source, q, la) ==> item_seq(
                    result@,
                ).contains(made_item(goal.rules[q], la)),
            total_false(done@) + count_false(none_done@) + result@.len() <= total_false(
                old(done)@,
            ) + count_false(old(none_done)@) + old(result)@.len(),
        decreases productions@.len() - p,
    {
        let ghost before = item_seq(result@);
        if productions[p].lhs == non_terminal {
            proof {
                assert(goal.rules[p as int] == productions@[p as int]@);
                assert forall|la: Option<Terminal>| #[trigger]
                    yields(goal.rules, goal.first, source, p as int, la) implies item_within(
                    made_item(goal.rules[p as int], la),
                    goal.universe.to_set(),
                    goal.num,
                ) by {
                    assert forall|n: int| 0 <= n < goal.first.len() implies (
                    #[trigger] goal.first[n]).subset_of(goal.universe.to_set()) by {
                        assert(first@[n]@.subset_of(universe@));
                    }
                    lemma_made_within(goal, source, p as int, la);
                }
            }
            add_production_items(
                &productions[p],
                p,
                &las,
                universe,
                result,
                done,
                none_done,
                Ghost(goal),
                Ghost(source),
            );
        }
        proof {
            lemma_prefix_contains(before, item_seq(result@));
            assert forall|q: int, la: Option<Terminal>|
                q < p + 1 && #[trigger] yields(
                    goal.rules,
                    goal.first,
                    source,
                    q,
                    la,
                ) implies item_seq(result@).contains(made_item(goal.rules[q], la)) by {
                if q < p {
                    assert(before.contains(made_item(goal.rules[q], la)));
                } else {
                    assert(goal.rules[p as int] == productions@[p as int]@);
                }
            }
        }
        p += 1;
    }
}

impl Item {
    /// The closure of `items` in `grammar`: the least set of items that
    /// holds `items` and, for every item of it whose dot stands before a
    /// nonterminal, the items of the productions of that nonterminal with
    /// the dot in front. Where the item carries a terminal that may follow
    /// it, the new items carry each terminal of the FIRST set of the letter
    /// behind the nonterminal; the terminal of the item takes the place of
    /// the empty word there, and of a letter that is missing. Each item comes
    /// once, those of `items` first.
    ///
    /// The nonterminals of `grammar` and of `items` must be the numbers
    /// below the number of nonterminals that have a production.
    pub fn closure(items: &Vec<Item>, grammar: &Grammar) -> (closure_items: Vec<Item>)
        requires
            grammar.is_numbered(),
            items_fit(items@, grammar),
        ensures
            item_seq(closure_items@).no_duplicates(),
            item_seq(closure_items@).to_set() == spec_closure(
                item_seq(items@).to_set(),
                grammar.rules(),
                grammar_first(grammar.rules()),
            ),
            exists|n: int|
                0 <= n <= closure_items@.len() && #[trigger] item_seq(closure_items@).subrange(
                    0,
                    n,
                ).to_set() == item_seq(items@).to_set(),
    {
        let ghost rules = grammar.rules();
        let ghost num = spec_non_terminals(rules).len();
        let ghost seeds = item_seq(items@).to_set();
        let tables = FirstFollowTable::from_grammar(grammar);
        let productions = grammar.get_productions();
        let universe = closure_universe(productions, &tables.first, items);
        let mut closure_items = distinct_items(items);
        let ghost first_items = item_seq(closure_items@);
        let ghost goal = ClosureGoal {
            rules,
            first: table_sets(tables.first@),
            seeds,
            universe: universe.items@,
            num,
        };
        let mut done: Vec<Vec<bool>> = Vec::new();
        let mut row: usize = 0;
        while row < productions.len()
            invariant
                row <= productions@.len(),
                done@.len() == row,
                forall|p: int| 0 <= p < row ==> (#[trigger] done@[p])@.len() == universe.items@.len(),
                forall|p: int, k: int|
                    0 <= p < row && 0 <= k < universe.items@.len() ==> !(#[trigger] done@[p]@[k]),
            decreases productions@.len() - row,
        {
            done.push(vec![false; universe.items.len()]);
            row += 1;
        }
        let mut none_done = vec![false; productions.len()];
        proof {
            assert(goal.first == grammar_first(rules));
            let found = item_seq(closure_items@);
            assert forall|x: ItemView| #[trigger] found.contains(x) implies spec_closure(
                seeds,
                rules,
                goal.first,
            ).contains(x) && item_within(x, goal.universe.to_set(), num) by {
                assert(found.to_set().contains(x));
                assert(seeds.contains(x));
                let i = choose|i: int| 0 <= i < items@.len() && item_seq(items@)[i] == x;
                assert(items@[i]@ == x);
                assert forall|j: int| 0 <= j < x.0.1.len() implies match #[trigger] x.0.1[j] {
                    Letter::Terminal(c) => goal.universe.to_set().contains(c),
                    Letter::NonTerminal(n) => n < num,
                } by {
                    assert(x.0.1[j] == items@[i].production.rhs@[j]);
                    match items@[i].production.rhs@[j] {
                        Letter::Terminal(c) => {
                            assert(universe@.contains(c));
                        },
                        Letter::NonTerminal(n) => {
                            assert(letters_below(items@[i].production.rhs@, num));
                            assert(items@[i].production.rhs@[j] is NonTerminal);
                        },
                    }
                }
                if x.1 is Some {
                    assert(universe@.contains(x.1->Some_0));
                }
            }
        }
        let mut i: usize = 0;
        while i < closure_items.len()
            invariant
                closure_inv(goal, item_seq(closure_items@), done@, none_done@),
                goal.rules == rules,
                goal.seeds == seeds,
                goal.num == num,
                rules == production_seq(productions@),
                goal.first == table_sets(tables.first@),
                table_wf(tables.first@),
                tables.first@.len() == num,
                indices_below(rules, num),
                universe.wf(),
                goal.universe == universe.items@,
                universe@.contains(ITEM_SEP),
                spec_terminals(rules).subset_of(universe@),
                forall|n: int|
                    0 <= n < tables.first@.len() ==> (#[trigger] tables.first@[n])@.subset_of(
                        universe@,
                    ),
                i <= closure_items@.len(),
                first_items.len() <= closure_items@.len(),
                forall|k: int|
                    0 <= k < first_items.len() ==> #[trigger] item_seq(closure_items@)[k]
                        == first_items[k],
                forall|x: ItemView| seeds.contains(x) ==> #[trigger] item_seq(closure_items@).contains(x),
                forall|k: int, p: int, la: Option<Terminal>|
                    0 <= k < i && #[trigger] yields(
                        rules,
                        goal.first,
                        item_seq(closure_items@)[k],
                        p,
                        la,
                    ) ==> item_seq(closure_items@).contains(made_item(rules[p], la)),
            decreases total_false(done@) + count_false(none_done@) + closure_items@.len() - i,
        {
            let ghost before = item_seq(closure_items@);
            expand_item(
                i,
                productions,
                &tables.first,
                &universe,
                &mut closure_items,
                &mut done,
                &mut none_done,
                Ghost(goal),
            );
            proof {
                let after = item_seq(closure_items@);
                lemma_prefix_contains(before, after);
                assert forall|k: int, p: int, la: Option<Terminal>|
                    0 <= k < i + 1 && #[trigger] yields(
                        rules,
                        goal.first,
                        after[k],
                        p,
                        la,
                    ) implies after.contains(made_item(rules[p], la)) by {
                    assert(after[k] == before[k]);
                    if k < i {
                        assert(yields(rules, goal.first, before[k], p, la));
                        assert(before.contains(made_item(rules[p], la)));
                    }
                }
                assert forall|x: ItemView| seeds.contains(x) implies #[trigger] after.contains(
                    x,
                ) by {
                    assert(before.contains(x));
                }
            }
            i += 1;
        }
        proof {
            let found = item_seq(closure_items@);
            let set = found.to_set();
            assert(seeds.subset_of(set)) by {
                assert forall|x: ItemView| seeds.contains(x) implies set.contains(x) by {
                    assert(found.contains(x));
                }
            }
            assert(closed_items(rules, goal.first, set)) by {
                assert forall|item: ItemView, p: int, la: Option<Terminal>|
                    set.contains(item) && #[trigger] yields(
                        rules,
                        goal.first,
                        item,
                        p,
                        la,
                    ) implies set.contains(made_item(rules[p], la)) by {
                    let k = choose|k: int| 0 <= k < found.len() && found[k] == item;
                    assert(yields(rules, goal.first, found[k], p, la));
                    assert(found.contains(made_item(rules[p], la)));
                }
            }
            assert forall|x: ItemView| set.contains(x) <==> spec_closure(
                seeds,
                rules,
                goal.first,
            ).contains(x) by {
                if set.contains(x) {
                    assert(found.contains(x));
                }
            }
            assert(set =~= spec_closure(seeds, rules, goal.first));
            assert(found.subrange(0, first_items.len() as int) =~= first_items);
            assert(first_items.to_set() == seeds);
        }
        closure_items
    }
}

impl Item {
    /// Whether the closure of `items` in `grammar` can be made: every
    /// nonterminal of the items is a number below the number of
    /// nonterminals of `grammar` that have a production.
    pub fn fit(items: &Vec<Item>, grammar: &Grammar) -> (b: bool)
        ensures
            b == items_fit(items@, grammar),
    {
        let num = grammar.get_non_terminal().len();
        let mut i: usize = 0;
        while i < items.len()
            invariant
                num == spec_non_terminals(grammar.rules()).len(),
                i <= items@.len(),
                forall|k: int|
                    0 <= k < i ==> letters_below((#[trigger] items@[k]).production.rhs@, num as nat),
            decreases items@.len() - i,
        {
            if !are_letters_below(&items[i].production.rhs, num) {
                return false;
            }
            i += 1;
        }
        true
    }
}

} // verus!
