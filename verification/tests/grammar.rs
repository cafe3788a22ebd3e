use formal_languages::consts::{EPSILON, ITEM_SEP, STRING_END};
use formal_languages::dfa::DFA;
use formal_languages::grammar::first_follow::{
    compute_first, compute_follow, compute_nullable, get_first, get_first_letter,
    FirstFollowTable,
};
use formal_languages::grammar::item::{find_dot, Item};
use formal_languages::grammar::production::{Letter, Production};
use formal_languages::grammar::Grammar;

fn nt(n: usize) -> Letter {
    Letter::NonTerminal(n)
}

fn t(c: char) -> Letter {
    Letter::Terminal(c)
}

fn rule(lhs: usize, rhs: Vec<Letter>) -> Production {
    Production { lhs, rhs }
}

fn get_test_grammar() -> Grammar {
    // S -> Ab | c
    // A -> aA | ε
    // S = 0
    // A = 1
    Grammar::new(
        0,
        vec![
            rule(0, vec![nt(1), t('b')]),
            rule(0, vec![t('c')]),
            rule(1, vec![t('a'), nt(1)]),
            rule(1, vec![t(EPSILON)]),
        ],
    )
}

#[test]
fn first_test() {
    let grammar = get_test_grammar();

    let first_follow = FirstFollowTable::from_grammar(&grammar);
    let first = first_follow.get_first(&Letter::NonTerminal(0));

    assert_eq!(first.len(), 3);
    assert!(first.contains('a'));
    assert!(first.contains('b'));
    assert!(first.contains('c'));

    let first = first_follow.get_first(&Letter::NonTerminal(1));
    assert_eq!(first.len(), 2);
    assert!(first.contains('a'));
    assert!(first.contains(EPSILON));
}

#[test]
fn first_cycle_test() {
    let grammar = Grammar::new(0, vec![rule(0, vec![nt(1)]), rule(1, vec![nt(0)])]);

    let first_follow = FirstFollowTable::from_grammar(&grammar);
    let first = first_follow.get_first(&Letter::NonTerminal(0));

    assert_eq!(first.len(), 0);
}

#[test]
fn follow_test() {
    let grammar = get_test_grammar();
    let first_follow = FirstFollowTable::from_grammar(&grammar);

    let follow = first_follow.get_follow(0);
    assert_eq!(follow.len(), 1);
    assert!(follow.contains(STRING_END));

    let follow = first_follow.get_follow(1);
    assert_eq!(follow.len(), 1);
    assert!(follow.contains('b'));
}

fn check_dfa_conversion() {
    // this dfa should recognize ba*
    let dfa: DFA<usize> = DFA::from_state(
        3,
        0,
        vec![1],
        vec![
            vec![('a', 2), ('b', 1)],
            vec![('a', 1), ('b', 2)],
            vec![('a', 2), ('b', 2)],
        ],
        None,
    );

    let grammar = Grammar::from_dfa(&dfa);

    let result = Grammar::new(
        0,
        vec![
            rule(0, vec![t('a'), nt(2)]),
            rule(0, vec![t('b'), nt(1)]),
            rule(1, vec![t('a'), nt(1)]),
            rule(1, vec![t('b'), nt(2)]),
            rule(2, vec![t('a'), nt(2)]),
            rule(2, vec![t('b'), nt(2)]),
            rule(1, vec![t(EPSILON)]),
        ],
    );

    assert_eq!(grammar, result);
}

fn check_nullable() {
    let grammar = get_test_grammar();

    let nullable = grammar.get_nullable();
    assert_eq!(nullable.len(), 1);
    assert!(nullable.contains(1));
}

#[test]
fn grammar_test_dfa_conversion() {
    check_dfa_conversion();
}

#[test]
fn semplification_test_dfa_conversion() {
    check_dfa_conversion();
}

#[test]
fn helper_test_nullable() {
    check_nullable();
}

#[test]
fn semplification_test_nullable() {
    check_nullable();
}

#[test]
fn test_remove_useless() {
    // S -> AB | a
    // B -> b

    // S = 0
    // B = 1
    // A = 2
    let mut grammar = Grammar::new(
        0,
        vec![rule(0, vec![nt(1), nt(2)]), rule(0, vec![t('a')]), rule(1, vec![t('b')])],
    );

    grammar.remove_useless();

    let result = Grammar::new(0, vec![rule(0, vec![t('a')])]);

    assert_eq!(grammar, result);
}

#[test]
fn test_remove_unitary_cycles() {
    // E -> E + T | T
    // T -> T * F | F
    // F -> (E) | a

    let mut grammar = Grammar::new(
        0,
        vec![
            rule(0, vec![nt(0), t('+'), nt(1)]),
            rule(0, vec![nt(1)]),
            rule(1, vec![nt(1), t('*'), nt(2)]),
            rule(1, vec![nt(2)]),
            rule(2, vec![t('('), nt(0), t(')')]),
            rule(2, vec![t('a')]),
        ],
    );

    let result = Grammar::new(
        // E -> E + T | T * F | (E) | a
        // T -> T * F | (E) | a
        // F -> (E) | a
        0,
        vec![
            rule(0, vec![nt(0), t('+'), nt(1)]),
            rule(0, vec![nt(1), t('*'), nt(2)]),
            rule(0, vec![t('('), nt(0), t(')')]),
            rule(0, vec![t('a')]),
            rule(1, vec![nt(1), t('*'), nt(2)]),
            rule(1, vec![t('('), nt(0), t(')')]),
            rule(1, vec![t('a')]),
            rule(2, vec![t('('), nt(0), t(')')]),
            rule(2, vec![t('a')]),
        ],
    );

    grammar.remove_unitary_cycles();

    assert_eq!(grammar, result);
}

#[test]
fn test_itemization() {
    let productions = vec![
        rule(0, vec![nt(1), t('b')]),
        rule(0, vec![t('c')]),
        rule(1, vec![t('a'), nt(1)]),
        rule(1, vec![t(EPSILON)]),
    ];

    let items = Item::get_itemization(&productions);

    let result_productions = vec![
        rule(0, vec![t(ITEM_SEP), nt(1), t('b')]),
        rule(0, vec![nt(1), t(ITEM_SEP), t('b')]),
        rule(0, vec![nt(1), t('b'), t(ITEM_SEP)]),
        rule(0, vec![t(ITEM_SEP), t('c')]),
        rule(0, vec![t('c'), t(ITEM_SEP)]),
        rule(1, vec![t(ITEM_SEP), t('a'), nt(1)]),
        rule(1, vec![t('a'), t(ITEM_SEP), nt(1)]),
        rule(1, vec![t('a'), nt(1), t(ITEM_SEP)]),
        rule(1, vec![t(ITEM_SEP)]),
    ];

    assert!(items.iter().all(|item| result_productions.contains(item)));
    assert!(result_productions.iter().all(|item| items.contains(item)));
    // The items come production by production, the dot moving to the right.
    assert_eq!(items, result_productions);
    assert_eq!(Item::itemize(&productions[3]), vec![rule(1, vec![t(ITEM_SEP)])]);
}

#[test]
fn closure_0() {
    // S -> (S)
    // S -> A
    // A -> a
    let mut grammar = Grammar::new(
        0,
        vec![
            rule(0, vec![t('('), nt(0), t(')')]),
            rule(0, vec![nt(1)]),
            rule(1, vec![t('a')]),
        ],
    );
    grammar.add_fake_initial_state();

    let start_item = vec![Item {
        production: rule(2, vec![t(ITEM_SEP), nt(0)]),
        look_ahead: None,
    }];
    let closure = Item::closure(&start_item, &grammar)
        .into_iter()
        .map(|item| item.production)
        .collect::<Vec<_>>();

    let result = vec![
        rule(2, vec![t(ITEM_SEP), nt(0)]),
        rule(0, vec![t(ITEM_SEP), t('('), nt(0), t(')')]),
        rule(0, vec![t(ITEM_SEP), nt(1)]),
        rule(1, vec![t(ITEM_SEP), t('a')]),
    ];

    assert!(closure.iter().all(|item| result.contains(item)));
    assert!(result.iter().all(|item| closure.contains(item)));
    assert_eq!(closure.len(), result.len());
}

#[test]
fn closure_1() {
    // S -> CC
    // C -> cC
    // C -> d

    let mut grammar = Grammar::new(
        0,
        vec![
            rule(0, vec![nt(1), nt(1)]),
            rule(1, vec![t('c'), nt(1)]),
            rule(1, vec![t('d')]),
        ],
    );

    grammar.add_fake_initial_state();

    let start_item = vec![Item {
        production: rule(2, vec![t(ITEM_SEP), nt(0)]),
        look_ahead: Some(STRING_END),
    }];

    let closure: Vec<Item> = Item::closure(&start_item, &grammar).into_iter().collect();

    let result = vec![
        Item { production: rule(2, vec![t(ITEM_SEP), nt(0)]), look_ahead: Some(STRING_END) },
        Item {
            production: rule(0, vec![t(ITEM_SEP), nt(1), nt(1)]),
            look_ahead: Some(STRING_END),
        },
        Item { production: rule(1, vec![t(ITEM_SEP), t('c'), nt(1)]), look_ahead: Some('c') },
        Item { production: rule(1, vec![t(ITEM_SEP), t('c'), nt(1)]), look_ahead: Some('d') },
        Item { production: rule(1, vec![t(ITEM_SEP), t('d')]), look_ahead: Some('c') },
        Item { production: rule(1, vec![t(ITEM_SEP), t('d')]), look_ahead: Some('d') },
    ];

    assert!(closure.iter().all(|item| result.contains(item)));
    assert!(result.iter().all(|item| closure.contains(item)));
    assert_eq!(closure.len(), result.len());
}

#[test]
fn goto() {
    // S -> (S)
    // S -> ()
    let mut grammar = Grammar::new(
        0,
        vec![rule(0, vec![t('('), nt(0), t(')')]), rule(0, vec![t('('), t(')')])],
    );
    grammar.add_fake_initial_state();

    let start_item = vec![Item {
        production: rule(1, vec![t(ITEM_SEP), nt(0)]),
        look_ahead: None,
    }];

    let closure = Item::closure(&start_item, &grammar);
    let goto = Item::goto(&closure, &Letter::Terminal('('))
        .into_iter()
        .map(|item| item.production)
        .collect::<Vec<_>>();

    // result should be
    // S -> (.S)
    // S -> (.)
    let result = vec![
        rule(0, vec![t('('), t(ITEM_SEP), nt(0), t(')')]),
        rule(0, vec![t('('), t(ITEM_SEP), t(')')]),
    ];

    assert!(goto.iter().all(|item| result.contains(item)));
    assert!(result.iter().all(|item| goto.contains(item)));

    // SECOND PART OF TEST, APPLY CLOSURE TO GOTO'S OUTPUT
    let goto_items = goto
        .into_iter()
        .map(|item| Item { production: item, look_ahead: None })
        .collect::<Vec<_>>();

    let closure = Item::closure(&goto_items, &grammar)
        .into_iter()
        .map(|item| item.production)
        .collect::<Vec<_>>();

    let result = vec![
        rule(0, vec![t('('), t(ITEM_SEP), nt(0), t(')')]),
        rule(0, vec![t('('), t(ITEM_SEP), t(')')]),
        rule(0, vec![t(ITEM_SEP), t('('), nt(0), t(')')]),
        rule(0, vec![t(ITEM_SEP), t('('), t(')')]),
    ];

    assert!(closure.iter().all(|item| result.contains(item)));
    assert!(result.iter().all(|item| closure.contains(item)));
    assert_eq!(closure.len(), result.len());
}

#[test]
fn closure_gives_a_nonterminal_every_look_ahead() {
    // S -> A c | A d, A -> a: both terminals may follow the items of A.
    let grammar = Grammar::new(
        0,
        vec![rule(0, vec![nt(1), t('c')]), rule(0, vec![nt(1), t('d')]), rule(1, vec![t('a')])],
    );
    let seeds = vec![
        Item { production: rule(0, vec![t(ITEM_SEP), nt(1), t('c')]), look_ahead: Some('$') },
        Item { production: rule(0, vec![t(ITEM_SEP), nt(1), t('d')]), look_ahead: Some('$') },
        Item { production: rule(0, vec![t(ITEM_SEP), nt(1), t('c')]), look_ahead: Some('$') },
    ];
    let closure = Item::closure(&seeds, &grammar);
    let made = |la: char| Item {
        production: rule(1, vec![t(ITEM_SEP), t('a')]),
        look_ahead: Some(la),
    };
    assert_eq!(closure.len(), 4);
    assert_eq!(closure[0], seeds[0]);
    assert_eq!(closure[1], seeds[1]);
    assert!(closure.contains(&made('c')));
    assert!(closure.contains(&made('d')));
}

#[test]
fn closure_falls_back_to_the_look_ahead_of_the_item() {
    // S -> A B, A -> a, B -> b | ε: behind A stands B, which derives the empty word.
    let grammar = Grammar::new(
        0,
        vec![
            rule(0, vec![nt(1), nt(2)]),
            rule(1, vec![t('a')]),
            rule(2, vec![t('b')]),
            rule(2, vec![t(EPSILON)]),
        ],
    );
    let seeds = vec![Item {
        production: rule(0, vec![t(ITEM_SEP), nt(1), nt(2)]),
        look_ahead: Some('$'),
    }];
    let closure = Item::closure(&seeds, &grammar);
    let mut look_aheads: Vec<Option<char>> =
        closure.iter().filter(|i| i.production.lhs == 1).map(|i| i.look_ahead).collect();
    look_aheads.sort();
    assert_eq!(look_aheads, vec![Some('$'), Some('b')]);

    // S -> . A: nothing stands behind A.
    let grammar = Grammar::new(0, vec![rule(0, vec![nt(1)]), rule(1, vec![t('a')])]);
    let seeds =
        vec![Item { production: rule(0, vec![t(ITEM_SEP), nt(1)]), look_ahead: Some('x') }];
    let closure = Item::closure(&seeds, &grammar);
    assert_eq!(
        closure[1],
        Item { production: rule(1, vec![t(ITEM_SEP), t('a')]), look_ahead: Some('x') }
    );
}

#[test]
fn goto_moves_the_dot_and_keeps_the_look_ahead() {
    let items = vec![
        Item { production: rule(0, vec![t('a'), t(ITEM_SEP), nt(1), t('b')]), look_ahead: Some('x') },
        Item { production: rule(0, vec![t(ITEM_SEP), t('a')]), look_ahead: None },
        Item { production: rule(0, vec![nt(1), t(ITEM_SEP)]), look_ahead: None },
        Item { production: rule(0, vec![nt(1)]), look_ahead: None },
    ];
    assert_eq!(
        Item::goto(&items, &nt(1)),
        vec![Item {
            production: rule(0, vec![t('a'), nt(1), t(ITEM_SEP), t('b')]),
            look_ahead: Some('x'),
        }]
    );
    assert_eq!(Item::goto(&items, &t('b')), vec![]);
    assert_eq!(find_dot(&items[0].production.rhs), 1);
    assert_eq!(find_dot(&items[3].production.rhs), 1);
}

#[test]
fn first_sets_of_the_sample_grammar() {
    let grammar = get_test_grammar();
    let flags = compute_nullable(&grammar, 2);
    assert_eq!(flags, vec![false, true]);
    let first = compute_first(&grammar, 2, &flags);
    assert_eq!(first[0].items, vec!['a', 'b', 'c']);
    assert_eq!(first[1].items, vec!['a', EPSILON]);
    let follow = compute_follow(&grammar, 2, &first);
    assert_eq!(follow[0].items, vec![STRING_END]);
    assert_eq!(follow[1].items, vec!['b']);
    assert_eq!(get_first_letter(&first, &t('x')).items, vec!['x']);
    // A derives the empty word, so what follows it counts too.
    assert_eq!(get_first(&first, &vec![nt(1), t('x'), t('y')], 0).items, vec!['a', 'x']);
    assert_eq!(get_first(&first, &vec![nt(1), nt(1)], 0).items, vec!['a', EPSILON]);
    assert_eq!(get_first(&first, &vec![nt(0), t('x')], 0).items, vec!['a', 'b', 'c']);
    assert_eq!(get_first(&first, &vec![t('x')], 1).items, vec![EPSILON]);
}

#[test]
fn follow_takes_over_the_follow_of_the_left_hand_side() {
    // S -> A B, A -> a, B -> b | ε
    let grammar = Grammar::new(
        0,
        vec![
            rule(0, vec![nt(1), nt(2)]),
            rule(1, vec![t('a')]),
            rule(2, vec![t('b')]),
            rule(2, vec![t(EPSILON)]),
        ],
    );
    let table = FirstFollowTable::from_grammar(&grammar);
    assert_eq!(table.nullable, vec![false, false, true]);
    assert_eq!(table.get_follow(1).items, vec![STRING_END, 'b']);
    assert_eq!(table.get_follow(2).items, vec![STRING_END]);
    assert!(table.is_nullable(&vec![nt(2), t(EPSILON)], 0));
    assert!(!table.is_nullable(&vec![nt(2), nt(1)], 0));
    assert!(table.is_nullable(&vec![nt(1), nt(2)], 1));
}

#[test]
fn sets_of_nonterminals() {
    // S -> A B | a, A -> A, B -> b, C -> c
    let grammar = Grammar::new(
        0,
        vec![
            rule(0, vec![nt(1), nt(2)]),
            rule(0, vec![t('a')]),
            rule(1, vec![nt(1)]),
            rule(2, vec![t('b')]),
            rule(3, vec![t('c')]),
        ],
    );
    assert_eq!(grammar.get_non_terminal().items, vec![0, 1, 2, 3]);
    assert_eq!(grammar.get_generators().items, vec![0, 2, 3]);
    assert_eq!(grammar.get_reachable().items, vec![0, 1, 2]);
    assert_eq!(grammar.get_nullable().items, Vec::<usize>::new());
    assert_eq!(grammar.get_start_symbol(), 0);
    assert_eq!(grammar.get_productions().len(), 5);
}

#[test]
fn generators_are_found_in_any_order_of_the_productions() {
    // S -> A, A -> B, B -> b: the generators are found from the last production back.
    let mut grammar = Grammar::new(
        0,
        vec![rule(0, vec![nt(1)]), rule(1, vec![nt(2)]), rule(2, vec![t('b')])],
    );
    assert_eq!(grammar.get_generators().items, vec![0, 1, 2]);
    grammar.remove_useless();
    assert_eq!(grammar.get_productions().len(), 3);
}

#[test]
fn unit_couples_and_their_removal() {
    // A -> B, B -> C, C -> c
    let mut grammar = Grammar::new(
        0,
        vec![rule(0, vec![nt(1)]), rule(1, vec![nt(2)]), rule(2, vec![t('c')])],
    );
    assert_eq!(
        grammar.get_unitary_couples(),
        vec![(0, 0), (0, 1), (0, 2), (1, 1), (1, 2), (2, 2)]
    );
    grammar.nullable = Some(grammar.get_nullable());
    grammar.remove_unitary_cycles();
    assert_eq!(
        grammar,
        Grammar::new(
            0,
            vec![rule(0, vec![t('c')]), rule(1, vec![t('c')]), rule(2, vec![t('c')])]
        )
    );
}

#[test]
fn adjacency_list_and_new_start() {
    let mut grammar = Grammar::new(
        3,
        vec![
            rule(5, vec![t('a')]),
            rule(3, vec![nt(5)]),
            rule(5, vec![t('b')]),
            rule(5, vec![t('a')]),
        ],
    );
    let adj = grammar.productions_to_adj_list();
    assert_eq!(adj.len(), 2);
    assert_eq!(adj[0], (3, vec![rule(3, vec![nt(5)])]));
    assert_eq!(adj[1], (5, vec![rule(5, vec![t('a')]), rule(5, vec![t('b')])]));
    grammar.add_fake_initial_state();
    assert_eq!(grammar.get_start_symbol(), 6);
    assert_eq!(grammar.get_productions()[4], rule(6, vec![nt(3)]));
}

#[test]
fn numbered_grammars_are_told() {
    assert!(get_test_grammar().has_numbered_non_terminals());
    // The nonterminal 2 has no production.
    let grammar = Grammar::new(0, vec![rule(0, vec![nt(1), nt(2)]), rule(1, vec![t('b')])]);
    assert!(!grammar.has_numbered_non_terminals());
    let grammar = Grammar::new(5, vec![rule(0, vec![t('b')])]);
    assert!(!grammar.has_numbered_non_terminals());
    let items = vec![Item { production: rule(0, vec![t(ITEM_SEP), nt(7)]), look_ahead: None }];
    assert!(!Item::fit(&items, &get_test_grammar()));
    let items = vec![Item { production: rule(0, vec![t(ITEM_SEP), nt(1)]), look_ahead: None }];
    assert!(Item::fit(&items, &get_test_grammar()));
}

#[test]
fn letters_of_a_production() {
    let letters = vec![nt(4), t('x')];
    assert_eq!(Production::get_nth_if_non_terminal(&letters, 0), Some(4));
    assert_eq!(Production::get_nth_if_non_terminal(&letters, 1), None);
    assert_eq!(Production::get_nth_if_non_terminal(&letters, 2), None);
    assert_eq!(Production::get_nth(&letters, 1), Some(t('x')));
    assert_eq!(Production::get_nth(&letters, 2), None);
    let nullable = Grammar::new(0, vec![rule(1, vec![t(EPSILON)])]).get_nullable();
    assert!(rule(0, vec![nt(1), t(EPSILON)]).check_is_nullable(&nullable));
    assert!(!rule(0, vec![nt(1), t('a')]).check_is_nullable(&nullable));
    assert_eq!(rule(2, vec![nt(1)]).duplicate(), rule(2, vec![nt(1)]));
}
