use lr_parsing_tools::automata::{
    BuildItemSets, ItemModel, LALR1ABuilder, LR0ABuilder, LR0Item, LR1ABuilder, LR1Item,
    LRAutomaton, NonterminalTransition, StateReductionPair, LALR1A, LR0A, LR1A,
};
use lr_parsing_tools::grammar::{Grammar, GrammarBuilder, Symbol, Symbol::Terminal as Word,
    Symbol::Variable as Var};

fn cc_grammar() -> Grammar {
    // S -> C C, C -> c C | d
    GrammarBuilder::new()
        .rule(&[&[Var(1), Var(1)]])
        .rule(&[&[Word(0), Var(1)], &[Word(1)]])
        .build()
        .unwrap()
}

fn expression_grammar() -> Grammar {
    GrammarBuilder::new()
        .rule(&[&[Var(2), Var(1)]])
        .rule(&[&[Word(0), Var(2), Var(1)], &[Word(1), Var(2), Var(1)], &[]])
        .rule(&[&[Var(4), Var(3)]])
        .rule(&[&[Word(2), Var(4), Var(3)], &[Word(3), Var(4), Var(3)], &[]])
        .rule(&[&[Word(4), Var(0), Word(5)], &[Word(6)], &[Word(7)]])
        .build()
        .unwrap()
}

#[test]
fn parentheses_grammar() {
    let wordnames = &["c", "d"];
    let varnames = &["S", "C", "S'"];
    let grammar = cc_grammar();

    let lalr1a = LALR1A::new(&grammar);

    for i in 0..lalr1a.state_count() {
        for k in 0..lalr1a.item_count(i) {
            let item = lalr1a.item_core(i, k);
            let (lhs, rhs) = grammar.productions().get(item.production);
            let mut line = format!("[{} -->", varnames[lhs]);
            for symbol in rhs {
                match *symbol {
                    Word(a) => line += &format!(" {}", wordnames[a]),
                    Var(a) => line += &format!(" {}", varnames[a]),
                }
            }
            line += &format!(", {{");
            for lookahead in lalr1a.lookaheads(i, k) {
                match lookahead {
                    Some(a) => line += &format!(" {},", wordnames[a]),
                    None => line += &format!(" #,"),
                }
            }
            println!("{} }}]", line);
        }
        println!("----------------");
    }
}

#[test]
fn lr0_items_tell_kernel_complete_and_dot() {
    let grammar = cc_grammar();
    // production 1 is C -> c C
    let at_start = LR0Item::new(1, 0);
    assert!(!at_start.is_kernel_item(&grammar));
    assert!(!at_start.is_complete(&grammar));
    assert_eq!(at_start.symbol_at_dot(&grammar), Some(Word(0)));
    assert_eq!(at_start.symbol_after_dot(&grammar), Some(Var(1)));
    let at_end = LR0Item::new(1, 2);
    assert!(at_end.is_kernel_item(&grammar));
    assert!(at_end.is_complete(&grammar));
    assert_eq!(at_end.symbol_at_dot(&grammar), None);
    assert_eq!(at_end.symbol_after_dot(&grammar), None);
    // the augmented start production is a kernel item with the dot at the start
    assert!(LR0Item::new(3, 0).is_kernel_item(&grammar));
    assert_eq!(LR0Item::new(1, 1).symbol_after_dot(&grammar), None);
    let item = LR1Item::new(2, 1, Some(4));
    assert_eq!(item.lr0_item, LR0Item { production: 2, pos: 1 });
    assert_eq!(item.lookahead, Some(4));
}

#[test]
fn lr0_automaton_of_cc_grammar() {
    let grammar = cc_grammar();
    let automaton = LR0A::new(&grammar);
    let states = automaton.states();
    assert_eq!(states.len(), 7);
    // state 0: the closure of S' -> . S
    assert_eq!(
        states[0].items,
        [LR0Item::new(0, 0), LR0Item::new(1, 0), LR0Item::new(2, 0), LR0Item::new(3, 0)]
    );
    // transitions in the order of the items: C, c, d, S
    assert_eq!(states[0].next.get(&Var(1)), Some(1));
    assert_eq!(states[0].next.get(&Word(0)), Some(2));
    assert_eq!(states[0].next.get(&Word(1)), Some(3));
    assert_eq!(states[0].next.get(&Var(0)), Some(4));
    assert_eq!(states[0].next.get(&Var(2)), None);
    assert_eq!(states[0].next.len(), 4);
    assert_eq!(states[0].next.entry(0), (Var(1), 1));
    assert!(states[0].next.contains_key(&Word(1)));
    // the state behind S holds the complete start item only
    assert_eq!(states[4].items, [LR0Item::new(3, 1)]);
    assert_eq!(states[4].next.len(), 0);
    assert!(std::ptr::eq(automaton.grammar(), &grammar));
}

#[test]
fn item_sets_are_pairwise_different_and_ascending() {
    let grammar = expression_grammar();
    let automaton = LR1A::new(&grammar);
    let mut seen: Vec<Vec<(LR0Item, Option<usize>)>> = Vec::new();
    for state in 0..automaton.state_count() {
        let items: Vec<(LR0Item, Option<usize>)> = (0..automaton.item_count(state))
            .map(|k| (automaton.item_core(state, k), automaton.lookaheads(state, k)[0]))
            .collect();
        for pair in items.windows(2) {
            let a = LR1Item { lr0_item: pair[0].0, lookahead: pair[0].1 };
            let b = LR1Item { lr0_item: pair[1].0, lookahead: pair[1].1 };
            assert!(a < b);
        }
        assert!(!seen.contains(&items));
        seen.push(items);
    }
    let automaton = LR0A::new(&grammar);
    let states = automaton.states();
    for (i, a) in states.iter().enumerate() {
        for (j, b) in states.iter().enumerate() {
            assert_eq!(a.items == b.items, i == j);
        }
    }
}

#[test]
fn closure_of_a_closure_adds_nothing() {
    let grammar = expression_grammar();
    let builder = LR0ABuilder::new(&grammar);
    let seed = vec![LR0Item::new(8, 1), LR0Item::new(0, 0)];
    let once = builder.closure(&seed);
    let twice = builder.closure(&once);
    assert_eq!(once, twice);
    assert!(once.len() > seed.len());
    let builder = LR1ABuilder::new(&grammar);
    let seed = vec![LR1Item::new(8, 1, Some(5)), LR1Item::new(11, 0, None)];
    let once = builder.closure(&seed);
    let twice = builder.closure(&once);
    assert_eq!(once, twice);
    assert!(once.len() > seed.len());
}

#[test]
fn lr0_closure_brings_in_the_productions_of_the_variable_at_the_dot() {
    let grammar = cc_grammar();
    let builder = LR0ABuilder::new(&grammar);
    let closed = builder.closure(&vec![LR0Item::new(1, 1)]);
    assert_eq!(closed, [LR0Item::new(1, 0), LR0Item::new(1, 1), LR0Item::new(2, 0)]);
    assert_eq!(builder.start_item(), LR0Item::new(3, 0));
    assert_eq!(builder.advance(&LR0Item::new(1, 0)), LR0Item::new(1, 1));
    assert_eq!(builder.symbol_at_dot(&LR0Item::new(1, 1)), Some(Var(1)));
    assert!(builder.precedes(&LR0Item::new(1, 1), &LR0Item::new(2, 0)));
    assert!(!builder.precedes(&LR0Item::new(2, 0), &LR0Item::new(2, 0)));
    assert_eq!(builder.expand(&LR0Item::new(0, 1)), [LR0Item::new(1, 0), LR0Item::new(2, 0)]);
    let next = builder.goto(&closed, &Word(0));
    assert_eq!(next, [LR0Item::new(1, 0), LR0Item::new(1, 1), LR0Item::new(2, 0)]);
    let next = builder.goto(&closed, &Var(1));
    assert_eq!(next, [LR0Item::new(1, 2)]);
}

#[test]
fn lr1_closure_hands_on_what_can_begin_the_rest() {
    let grammar = cc_grammar();
    let builder = LR1ABuilder::new(&grammar);
    // [S -> . C C, $] brings in the productions of C with what can begin "C $"
    let closed = builder.closure(&vec![LR1Item::new(0, 0, None)]);
    assert_eq!(
        closed,
        [
            LR1Item::new(0, 0, None),
            LR1Item::new(1, 0, Some(0)),
            LR1Item::new(1, 0, Some(1)),
            LR1Item::new(2, 0, Some(0)),
            LR1Item::new(2, 0, Some(1)),
        ]
    );
    // [S -> C . C, $] hands on its own lookahead
    let closed = builder.closure(&vec![LR1Item::new(0, 1, None)]);
    assert_eq!(
        closed,
        [LR1Item::new(0, 1, None), LR1Item::new(1, 0, None), LR1Item::new(2, 0, None)]
    );
    assert_eq!(builder.start_item(), LR1Item::new(3, 0, None));
    assert!(builder.precedes(&LR1Item::new(1, 0, None), &LR1Item::new(1, 0, Some(0))));
}

#[test]
fn lr1_closure_looks_past_nullable_variables() {
    // S -> A B C d, A -> a, B -> b | , C -> c |
    let grammar = GrammarBuilder::new()
        .rule(&[&[Var(1), Var(2), Var(3), Word(3)]])
        .rule(&[&[Word(0)]])
        .rule(&[&[Word(1)], &[]])
        .rule(&[&[Word(2)], &[]])
        .build()
        .unwrap();
    let builder = LR1ABuilder::new(&grammar);
    let closed = builder.closure(&vec![LR1Item::new(0, 0, None)]);
    // behind A come b, c (past the nullable B) and d (past B and C)
    assert_eq!(
        closed,
        [
            LR1Item::new(0, 0, None),
            LR1Item::new(1, 0, Some(1)),
            LR1Item::new(1, 0, Some(2)),
            LR1Item::new(1, 0, Some(3)),
        ]
    );
}

#[test]
fn lr1_automaton_of_cc_grammar_has_ten_states() {
    let grammar = cc_grammar();
    let automaton = LR1A::new(&grammar);
    assert_eq!(automaton.state_count(), 10);
    assert_eq!(automaton.transition(0, Var(0)), Some(4));
    assert_eq!(automaton.transition(0, Var(2)), None);
    assert!(std::ptr::eq(LR1A::grammar(&automaton), &grammar));
}

#[test]
fn lalr_lookaheads_of_cc_grammar() {
    let grammar = cc_grammar();
    let automaton = LALR1A::new(&grammar);
    assert_eq!(automaton.state_count(), 7);
    let mut found = Vec::new();
    for state in 0..automaton.state_count() {
        for k in 0..automaton.item_count(state) {
            let item = automaton.item_core(state, k);
            if item.is_complete(&grammar) {
                found.push((item.production, automaton.lookaheads(state, k)));
                assert_eq!(
                    automaton.reduction_lookaheads(StateReductionPair { state,
                        production: item.production }),
                    Some(LRAutomaton::lookaheads(&automaton, state, k))
                );
            } else {
                assert!(LRAutomaton::lookaheads(&automaton, state, k).is_empty());
            }
        }
    }
    found.sort();
    assert_eq!(
        found,
        [
            (0, vec![None]),
            (1, vec![None, Some(0), Some(1)]),
            (2, vec![None, Some(0), Some(1)]),
            // the augmented start production is accepted, not reduced
            (3, vec![]),
        ]
    );
    assert_eq!(automaton.reduction_lookaheads(StateReductionPair { state: 0, production: 0 }),
        None);
    assert_eq!(automaton.states().len(), 7);
}

#[test]
fn lalr_relations_of_cc_grammar() {
    let grammar = cc_grammar();
    let builder = LALR1ABuilder::new(&grammar);
    let transitions = builder.nonterminal_transitions().to_vec();
    assert_eq!(
        transitions,
        [
            NonterminalTransition { state: 0, var: 1 },
            NonterminalTransition { state: 0, var: 0 },
            NonterminalTransition { state: 1, var: 1 },
            NonterminalTransition { state: 2, var: 1 },
        ]
    );
    let direct: Vec<Vec<Option<usize>>> = builder
        .direct_read()
        .iter()
        .map(|set| (0..set.len()).map(|i| set.get(i)).collect())
        .collect();
    assert_eq!(
        direct,
        [vec![Some(0), Some(1)], vec![None], vec![], vec![]]
    );
    // nothing derives the empty string, so nothing is read through
    assert_eq!(builder.reads(), vec![Vec::<usize>::new(); 4]);
    let read: Vec<usize> = builder.read().iter().map(|set| set.len()).collect();
    assert_eq!(read, [2, 1, 0, 0]);
    // S -> C C: (1, C) includes (0, S); C -> c C: (2, C) includes (0, C), (1, C) and itself
    let includes = builder.includes();
    assert_eq!(includes[2], [1]);
    let mut of_inner = includes[3].clone();
    of_inner.sort();
    assert_eq!(of_inner, [0, 2, 3]);
    assert!(includes[0].is_empty());
    assert!(includes[1].is_empty());
    let follow: Vec<Vec<Option<usize>>> = builder
        .follow()
        .iter()
        .map(|set| (0..set.len()).map(|i| set.get(i)).collect())
        .collect();
    assert_eq!(
        follow,
        [
            vec![Some(0), Some(1)],
            vec![None],
            vec![None],
            vec![None, Some(0), Some(1)],
        ]
    );
    let lookback = builder.lookback();
    let lookahead = builder.lookahead();
    assert_eq!(lookback.len(), 7);
    assert_eq!(lookahead.len(), 7);
    // state 4 holds S' -> S . which looks back at no transition
    assert_eq!(lookback[4].len(), 1);
    assert_eq!(lookback[4][0].len(), 0);
}

fn cores_of(automaton: &impl LRAutomaton, state: usize) -> Vec<LR0Item> {
    let mut cores: Vec<LR0Item> =
        (0..automaton.item_count(state)).map(|k| automaton.item_core(state, k)).collect();
    cores.dedup();
    cores
}

#[test]
fn lalr_lookaheads_agree_with_lr1_on_expression_grammar() {
    let grammar = expression_grammar();
    let lalr = LALR1A::new(&grammar);
    let lr1 = LR1A::new(&grammar);
    for state in 0..lalr.state_count() {
        let cores = cores_of(&lalr, state);
        for k in 0..lalr.item_count(state) {
            let item = lalr.item_core(state, k);
            if !item.is_complete(&grammar) || item.production == grammar.productions().len() - 1 {
                continue;
            }
            let mut expected: Vec<Option<usize>> = Vec::new();
            for other in 0..lr1.state_count() {
                if cores_of(&lr1, other) != cores {
                    continue;
                }
                for j in 0..lr1.item_count(other) {
                    if lr1.item_core(other, j) == item {
                        expected.extend(lr1.lookaheads(other, j));
                    }
                }
            }
            expected.sort();
            expected.dedup();
            assert_eq!(LRAutomaton::lookaheads(&lalr, state, k), expected);
        }
    }
}

#[test]
fn goto_is_a_function() {
    let grammar = expression_grammar();
    let automaton = LR0A::new(&grammar);
    for state in automaton.states() {
        for k in 0..state.next.len() {
            let (symbol, target) = state.next.entry(k);
            assert_eq!(state.next.get(&symbol), Some(target));
            for j in 0..k {
                assert!(state.next.entry(j).0 != symbol);
            }
        }
    }
}

#[test]
fn epsilon_productions_do_not_hang_the_construction() {
    // S -> A S | , A -> a |
    let grammar = GrammarBuilder::new()
        .rule(&[&[Var(1), Word(0), Var(0)], &[]])
        .rule(&[&[Word(1)], &[]])
        .build()
        .unwrap();
    assert!(LR0A::new(&grammar).states().len() > 1);
    assert!(LR1A::new(&grammar).state_count() > 1);
    assert!(LALR1A::new(&grammar).state_count() > 1);
    let symbol: Symbol = Var(0);
    assert_eq!(symbol, Symbol::Variable(0));
}
