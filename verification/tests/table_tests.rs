use lr_parsing_tools::automata::{LR0Item, LRAutomaton, LALR1A, LR1A};
use lr_parsing_tools::grammar::{Grammar, GrammarBuilder, Symbol::Terminal as Word,
    Symbol::Variable as Var};
use lr_parsing_tools::table::strategy::{LALR1, LR1};
use lr_parsing_tools::table::{
    accept_is_clear, Action, Conflict, ConstructionError, Event, LR1Table, LR1TableConstruction,
    NaiveLR1Table, Parse, ParseError, Reduction, START_STATE,
};

fn parentheses() -> Grammar {
    GrammarBuilder::new()
        .rule(&[&[Var(0), Var(1)], &[Var(1)]])
        .rule(&[&[Word(0), Var(0), Word(1)], &[Word(0), Word(1)]])
        .build()
        .unwrap()
}

fn run<T, E>(
    table: &NaiveLR1Table,
    input: Vec<Result<T, E>>,
    classify: impl Fn(&T) -> usize,
) -> Result<Vec<Event<T>>, ParseError<E>> {
    let mut parse = Parse::new(table, input, classify);
    let mut events = Vec::new();
    loop {
        match parse.next() {
            None => return Ok(events),
            Some(Ok(event)) => events.push(event),
            Some(Err(error)) => return Err(error),
        }
    }
}

#[test]
fn tests_parentheses_grammar() {
    let grammar = parentheses();

    let parser = LR1::construct(&grammar, |conflict: Conflict| Err(conflict)).unwrap();

    // ad hoc ground truth
    let is_valid = |input: &[usize]| -> bool {
        if input.is_empty() {
            false
        } else {
            let mut counter = 0_isize;
            for word in input {
                if *word == 0 {
                    counter += 1;
                } else {
                    counter -= 1;
                    if counter < 0 {
                        return false;
                    }
                }
            }
            counter == 0
        }
    };

    for sentence in all_sentences(2, 12) {
        let input: Vec<Result<usize, ()>> = sentence.iter().copied().map(Ok::<_, ()>).collect();
        let valid = is_valid(&sentence);
        let parse = run(&parser, input, |a: &usize| *a);

        assert!(
            parse.is_ok() == valid,
            "Input {:?} is {}",
            sentence.iter().map(|&i| (&["(", ")"])[i]).collect::<String>(),
            if valid { "valid" } else { "invalid" }
        );
    }
}

#[test]
fn parentheses_grammar_2() {
    let grammar = parentheses();

    let parser = LR1::construct(&grammar, |conflict: Conflict| Err(conflict)).unwrap();

    let input: Vec<Result<usize, ()>> = vec![0, 0, 1, 1].into_iter().map(Ok::<_, ()>).collect();

    let nodes = run(&parser, input, |a: &usize| *a).unwrap();

    assert_eq!(nodes[0], Event::Shift(0));
    assert_eq!(nodes[1], Event::Shift(0));
    assert_eq!(nodes[2], Event::Shift(1));
    assert_eq!(nodes[3], Event::Reduce { var: 1, child_count: 2, production: 3 });
    assert_eq!(nodes[4], Event::Reduce { var: 0, child_count: 1, production: 1 });
    assert_eq!(nodes[5], Event::Shift(1));
    assert_eq!(nodes[6], Event::Reduce { var: 1, child_count: 3, production: 2 });
    assert_eq!(nodes[7], Event::Reduce { var: 0, child_count: 1, production: 1 });
    assert_eq!(nodes.len(), 8);
}

// =================
// === UTILITIES ===
// =================

fn all_sentences(termcount: usize, maxlen: usize) -> Vec<Vec<usize>> {
    let mut all = Vec::new();
    let mut ws: Vec<Vec<usize>> = vec![Vec::new()];
    for _ in 0..=maxlen {
        all.extend(ws.iter().cloned());
        ws = ws
            .iter()
            .flat_map(|w| (0..termcount).map(move |b| w.iter().copied().chain(std::iter::once(b)).collect()))
            .collect();
    }
    all
}

#[test]
fn table_layout_of_parentheses_grammar() {
    let grammar = parentheses();
    let table = LR1::construct(&grammar, |conflict: Conflict| Err(conflict)).unwrap();
    assert_eq!(START_STATE, 0);
    assert_eq!(table.word_count(), 2);
    assert_eq!(table.reduction(0), Reduction { var: 0, count: 2 });
    assert_eq!(table.reduction(1), Reduction { var: 0, count: 1 });
    assert_eq!(table.reduction(2), Reduction { var: 1, count: 3 });
    assert_eq!(table.reduction(3), Reduction { var: 1, count: 2 });
    assert_eq!(table.reduction(4), Reduction { var: 2, count: 1 });
    // the initial state shifts on "(" and has nothing for ")" and end of input
    assert!(matches!(table.action(0, Some(0)), Action::Shift(_)));
    assert_eq!(table.action(0, Some(1)), Action::Invalid);
    assert_eq!(table.action(0, None), Action::Invalid);
    // the state behind S accepts on end of input
    let after_s = table.goto(0, 0).unwrap();
    assert_eq!(table.action(after_s, None), Action::Accept);
    assert!(table.goto(0, 1).is_some());
}

#[test]
fn empty_input_is_rejected_by_parentheses() {
    let grammar = parentheses();
    let table = LR1::construct(&grammar, |conflict: Conflict| Err(conflict)).unwrap();
    let result = run(&table, Vec::<Result<usize, ()>>::new(), |a: &usize| *a);
    assert_eq!(result, Err(ParseError::InvalidAction { step: 0, state: 0, word: None }));
}

#[test]
fn invalid_action_names_step_state_and_word() {
    let grammar = parentheses();
    let table = LR1::construct(&grammar, |conflict: Conflict| Err(conflict)).unwrap();
    let input: Vec<Result<usize, ()>> = vec![Ok(0), Ok(1), Ok(1)];
    match run(&table, input, |a: &usize| *a) {
        Err(ParseError::InvalidAction { step, word, .. }) => {
            assert_eq!(step, 2);
            assert_eq!(word, Some(1));
        },
        _ => panic!(),
    }
}

#[test]
fn token_without_column_is_an_invalid_action() {
    let grammar = parentheses();
    let table = LR1::construct(&grammar, |conflict: Conflict| Err(conflict)).unwrap();
    let input: Vec<Result<usize, ()>> = vec![Ok(0), Ok(7)];
    match run(&table, input, |a: &usize| *a) {
        Err(ParseError::InvalidAction { step, word, .. }) => {
            assert_eq!(step, 1);
            assert_eq!(word, Some(7));
        },
        _ => panic!(),
    }
}

#[test]
fn input_error_is_passed_on() {
    let grammar = parentheses();
    let table = LR1::construct(&grammar, |conflict: Conflict| Err(conflict)).unwrap();
    let input: Vec<Result<usize, &str>> = vec![Ok(0), Err("bad"), Ok(1)];
    let mut parse = Parse::new(&table, input, |a: &usize| *a);
    assert_eq!(parse.next(), Some(Err(ParseError::InputError("bad"))));
    // the shift is still due, and takes the token behind the error
    assert_eq!(parse.next(), Some(Ok(Event::Shift(0))));
    assert_eq!(parse.next(), Some(Ok(Event::Shift(1))));
    assert_eq!(parse.next(), Some(Ok(Event::Reduce { var: 1, child_count: 2, production: 3 })));
    assert_eq!(parse.next(), Some(Ok(Event::Reduce { var: 0, child_count: 1, production: 1 })));
    assert_eq!(parse.next(), None);
}

#[test]
fn input_error_in_front_leaves_the_parser_at_its_start() {
    let grammar = parentheses();
    let table = LR1::construct(&grammar, |conflict: Conflict| Err(conflict)).unwrap();
    let input: Vec<Result<usize, &str>> = vec![Err("first")];
    let mut parse = Parse::new(&table, input, |a: &usize| *a);
    assert_eq!(parse.next(), Some(Err(ParseError::InputError("first"))));
    assert!(!parse.started());
    // the parser begins on what is left: the end of the input
    assert_eq!(
        parse.next(),
        Some(Err(ParseError::InvalidAction { step: 0, state: 0, word: None }))
    );
    assert!(parse.started());

    let input: Vec<Result<usize, &str>> = vec![Err("first"), Ok(0), Ok(1)];
    let mut parse = Parse::new(&table, input, |a: &usize| *a);
    assert_eq!(parse.next(), Some(Err(ParseError::InputError("first"))));
    assert_eq!(parse.next(), Some(Ok(Event::Shift(0))));
    assert_eq!(parse.steps(), 1);
}

#[test]
fn new_parser_has_not_begun() {
    let grammar = parentheses();
    let table = LR1::construct(&grammar, |conflict: Conflict| Err(conflict)).unwrap();
    let input: Vec<Result<usize, ()>> = vec![Ok(0), Ok(1)];
    // a classifier that must not be asked before the first step
    let asked = std::cell::Cell::new(0_usize);
    let classify = |a: &usize| {
        asked.set(asked.get() + 1);
        *a
    };
    let mut parse = Parse::new(&table, input, classify);
    assert!(!parse.started());
    assert!(parse.wants_token());
    assert_eq!(parse.steps(), 0);
    assert_eq!(asked.get(), 0);
    // the first step takes two tokens: one to begin on, one behind the shift
    assert_eq!(parse.next(), Some(Ok(Event::Shift(0))));
    assert_eq!(asked.get(), 2);
    assert!(parse.started());
    assert_eq!(parse.steps(), 1);
}

#[test]
fn parser_handed_its_tokens_one_by_one() {
    let grammar = parentheses();
    let table = LALR1::construct(&grammar, |conflict: Conflict| Err(conflict)).unwrap();
    let sentence: Vec<usize> = vec![0, 0, 1, 1, 0, 1];
    let expected =
        run(&table, sentence.iter().map(|w| Ok::<usize, ()>(*w)).collect(), |a: &usize| *a)
            .unwrap();

    let mut tokens = sentence.iter().map(|w| Ok::<usize, ()>(*w));
    let mut taken = 0_usize;
    let mut parse = Parse::new(&table, Vec::new(), |a: &usize| *a);
    taken += 1;
    assert_eq!(parse.enter(tokens.next()), Ok(()));
    assert!(parse.started());
    let mut events = Vec::new();
    loop {
        let item = if parse.wants_token() {
            taken += 1;
            tokens.next()
        } else {
            None
        };
        match parse.advance(item) {
            None => break,
            Some(Ok(event)) => {
                // a token is only asked for by a shift
                if let Event::Shift(_) = event {
                    assert_eq!(taken, parse.steps() + 1);
                }
                events.push(event);
            },
            Some(Err(_)) => panic!(),
        }
    }
    assert_eq!(events, expected);
    // once more after the last token, for the end of the input
    assert_eq!(taken, sentence.len() + 1);
}

#[test]
fn parser_handed_an_error_keeps_its_state() {
    let grammar = parentheses();
    let table = LR1::construct(&grammar, |conflict: Conflict| Err(conflict)).unwrap();
    let mut parse = Parse::new(&table, Vec::new(), |a: &usize| *a);
    assert_eq!(parse.enter(Some(Err("early"))), Err("early"));
    assert!(!parse.started());
    assert_eq!(parse.enter(Some(Ok(0))), Ok(()));
    assert!(parse.wants_token());
    assert_eq!(parse.advance(Some(Err("late"))), Some(Err(ParseError::InputError("late"))));
    assert!(parse.wants_token());
    assert_eq!(parse.steps(), 0);
    assert_eq!(parse.advance(Some(Ok(1))), Some(Ok(Event::Shift(0))));
    assert_eq!(parse.advance(None), Some(Ok(Event::Shift(1))));
    assert!(!parse.wants_token());
    assert_eq!(
        parse.advance(None),
        Some(Ok(Event::Reduce { var: 1, child_count: 2, production: 3 }))
    );
}

#[test]
fn conflict_allows_its_own_actions_only() {
    let shift_reduce = Conflict::ShiftReduce { word: 4, next_state: 7, production: 2 };
    assert!(shift_reduce.allows(&Action::Shift(7)));
    assert!(shift_reduce.allows(&Action::Reduce(2)));
    assert!(shift_reduce.allows(&Action::Invalid));
    assert!(!shift_reduce.allows(&Action::Shift(4)));
    assert!(!shift_reduce.allows(&Action::Reduce(7)));
    assert!(!shift_reduce.allows(&Action::Accept));
    let reduce_reduce = Conflict::ReduceReduce { production1: 3, production2: 5 };
    assert!(reduce_reduce.allows(&Action::Reduce(3)));
    assert!(reduce_reduce.allows(&Action::Reduce(5)));
    assert!(reduce_reduce.allows(&Action::Invalid));
    assert!(!reduce_reduce.allows(&Action::Reduce(4)));
    assert!(!reduce_reduce.allows(&Action::Shift(3)));
    assert!(!reduce_reduce.allows(&Action::Accept));
}

#[test]
fn classifier_decides_the_column() {
    let grammar = parentheses();
    let table = LR1::construct(&grammar, |conflict: Conflict| Err(conflict)).unwrap();
    let input: Vec<Result<char, ()>> = "()".chars().map(Ok).collect();
    let events = run(&table, input, |c: &char| if *c == '(' { 0 } else { 1 }).unwrap();
    assert_eq!(
        events,
        [
            Event::Shift('('),
            Event::Shift(')'),
            Event::Reduce { var: 1, child_count: 2, production: 3 },
            Event::Reduce { var: 0, child_count: 1, production: 1 },
        ]
    );
}

fn nullable_start() -> Grammar {
    // S -> A B, A -> a | , B -> b |
    GrammarBuilder::new()
        .rule(&[&[Var(1), Var(2)]])
        .rule(&[&[Word(0)], &[]])
        .rule(&[&[Word(1)], &[]])
        .build()
        .unwrap()
}

#[test]
fn empty_input_with_nullable_start_only_reduces() {
    let grammar = nullable_start();
    let table = LR1::construct(&grammar, |conflict: Conflict| Err(conflict)).unwrap();
    let events = run(&table, Vec::<Result<usize, ()>>::new(), |a: &usize| *a).unwrap();
    assert_eq!(
        events,
        [
            Event::Reduce { var: 1, child_count: 0, production: 2 },
            Event::Reduce { var: 2, child_count: 0, production: 4 },
            Event::Reduce { var: 0, child_count: 2, production: 0 },
        ]
    );
}

fn dangling_else() -> Grammar {
    // S -> i S | i S e S | x
    GrammarBuilder::new()
        .rule(&[&[Word(0), Var(0)], &[Word(0), Var(0), Word(1), Var(0)], &[Word(2)]])
        .build()
        .unwrap()
}

#[test]
fn conflict_is_reported_with_its_state() {
    let grammar = dangling_else();
    let result = LR1::construct(&grammar, |conflict: Conflict| Err(conflict));
    match result {
        Err(ConstructionError {
            state,
            conflict: Conflict::ShiftReduce { word, next_state, production },
        }) => {
            assert_eq!(word, 1);
            assert_eq!(production, 0);
            // the state holds both items in conflict
            let automaton = LR1A::new(&grammar);
            assert!(state < automaton.state_count());
            let items: Vec<LR0Item> =
                (0..automaton.item_count(state)).map(|k| automaton.item_core(state, k)).collect();
            assert!(items.contains(&LR0Item::new(0, 2)));
            assert!(items.contains(&LR0Item::new(1, 2)));
            assert_eq!(automaton.transition(state, Word(1)), Some(next_state));
        },
        _ => panic!(),
    }
}

#[test]
fn resolver_settles_a_conflict() {
    let grammar = dangling_else();
    // prefer the shift: the else goes with the nearest if
    let table = LR1::construct(&grammar, |conflict: Conflict| match conflict {
        Conflict::ShiftReduce { next_state, .. } => Ok(Action::Shift(next_state)),
        other => Err(other),
    })
    .unwrap();
    let input: Vec<Result<usize, ()>> = vec![Ok(0), Ok(0), Ok(2), Ok(1), Ok(2)];
    let events = run(&table, input, |a: &usize| *a).unwrap();
    let reductions: Vec<usize> = events
        .iter()
        .filter_map(|event| match event {
            Event::Reduce { production, .. } => Some(*production),
            _ => None,
        })
        .collect();
    assert_eq!(reductions, [2, 2, 1, 0]);
}

#[test]
fn lalr_table_parses_parentheses() {
    let grammar = parentheses();
    let lalr = LALR1::construct(&grammar, |conflict: Conflict| Err(conflict)).unwrap();
    let input: Vec<Result<usize, ()>> = vec![0, 0, 1, 1].into_iter().map(Ok::<_, ()>).collect();
    let nodes = run(&lalr, input, |a: &usize| *a).unwrap();
    assert_eq!(
        nodes,
        [
            Event::Shift(0),
            Event::Shift(0),
            Event::Shift(1),
            Event::Reduce { var: 1, child_count: 2, production: 3 },
            Event::Reduce { var: 0, child_count: 1, production: 1 },
            Event::Shift(1),
            Event::Reduce { var: 1, child_count: 3, production: 2 },
            Event::Reduce { var: 0, child_count: 1, production: 1 },
        ]
    );
}

#[test]
fn what_the_lalr_table_accepts_the_lr1_table_accepts() {
    let grammar = parentheses();
    let lalr = LALR1::construct(&grammar, |conflict: Conflict| Err(conflict)).unwrap();
    let lr1 = LR1::construct(&grammar, |conflict: Conflict| Err(conflict)).unwrap();
    for sentence in all_sentences(2, 8) {
        let input = || -> Vec<Result<usize, ()>> { sentence.iter().copied().map(Ok).collect() };
        let by_lalr = run(&lalr, input(), |a: &usize| *a);
        let by_lr1 = run(&lr1, input(), |a: &usize| *a);
        if let Ok(events) = by_lalr {
            assert_eq!(by_lr1, Ok(events));
        }
    }
}

#[test]
fn table_entries_name_states_and_productions_that_exist() {
    let grammar = dangling_else();
    let table = LALR1::construct(&grammar, |conflict: Conflict| match conflict {
        Conflict::ShiftReduce { next_state, .. } => Ok(Action::Shift(next_state)),
        other => Err(other),
    })
    .unwrap();
    let states = LALR1A::new(&grammar).state_count();
    assert!(states > 0);
    for state in 0..states {
        for word in [None, Some(0), Some(1), Some(2)] {
            match table.action(state, word) {
                Action::Shift(next) => {
                    assert!(next < states);
                    assert!(word.is_some());
                },
                Action::Reduce(production) => assert!(production < 3),
                _ => {},
            }
        }
        if let Some(next) = table.goto(state, 0) {
            assert!(next < states);
        }
    }
}

#[test]
fn reduce_reduce_conflict_is_reported() {
    // S -> A | B, A -> a, B -> a
    let grammar = GrammarBuilder::new()
        .rule(&[&[Var(1)], &[Var(2)]])
        .rule(&[&[Word(0)]])
        .rule(&[&[Word(0)]])
        .build()
        .unwrap();
    let result = LR1::construct(&grammar, |conflict: Conflict| Err(conflict));
    match result {
        Err(ConstructionError { conflict, .. }) => {
            assert_eq!(conflict, Conflict::ReduceReduce { production1: 2, production2: 3 });
        },
        _ => panic!(),
    }
    // settled for the production entered first, the table is built
    let table = LR1::construct(&grammar, |conflict: Conflict| match conflict {
        Conflict::ReduceReduce { production1, .. } => Ok(Action::Reduce(production1)),
        other => Err(other),
    })
    .unwrap();
    let events = run(&table, vec![Ok::<usize, ()>(0)], |a: &usize| *a).unwrap();
    assert_eq!(
        events,
        [
            Event::Shift(0),
            Event::Reduce { var: 1, child_count: 1, production: 2 },
            Event::Reduce { var: 0, child_count: 1, production: 0 },
        ]
    );
}

#[test]
fn resolver_may_leave_an_entry_without_action() {
    // the construction enters what the resolver answers
    let grammar = dangling_else();
    let table = LALR1::construct(&grammar, |_: Conflict| Ok(Action::Invalid)).unwrap();
    // without the entry in conflict, the else is never taken
    let input: Vec<Result<usize, ()>> = vec![Ok(0), Ok(2), Ok(1), Ok(2)];
    assert!(matches!(
        run(&table, input, |a: &usize| *a),
        Err(ParseError::InvalidAction { word: Some(1), .. })
    ));
    let input: Vec<Result<usize, ()>> = vec![Ok(0), Ok(2)];
    assert!(run(&table, input, |a: &usize| *a).is_ok());
}

#[test]
fn reductions_in_reverse_are_a_rightmost_derivation() {
    let grammar = parentheses();
    let table = LR1::construct(&grammar, |conflict: Conflict| Err(conflict)).unwrap();
    let sentence = vec![0, 1, 0, 0, 1, 1];
    let input: Vec<Result<usize, ()>> = sentence.iter().copied().map(Ok).collect();
    let events = run(&table, input, |a: &usize| *a).unwrap();
    let mut form = vec![Var(0)];
    for event in events.iter().rev() {
        if let Event::Reduce { var, production, .. } = event {
            let at = form.iter().rposition(|s| matches!(s, Var(_))).unwrap();
            assert_eq!(form[at], Var(*var));
            assert!(form[at + 1..].iter().all(|s| matches!(s, Word(_))));
            let rhs = grammar.productions().get(*production).1.to_vec();
            form.splice(at..=at, rhs);
        }
    }
    let derived: Vec<usize> = form
        .iter()
        .map(|s| match s {
            Word(t) => *t,
            Var(_) => panic!(),
        })
        .collect();
    assert_eq!(derived, sentence);
}

#[test]
fn parser_on_built_tables_never_misses_a_goto() {
    let grammar = parentheses();
    for table in [
        LR1::construct(&grammar, |conflict: Conflict| Err(conflict)).unwrap(),
        LALR1::construct(&grammar, |conflict: Conflict| Err(conflict)).unwrap(),
    ] {
        for sentence in all_sentences(2, 6) {
            let input: Vec<Result<usize, ()>> = sentence.iter().copied().map(Ok).collect();
            match run(&table, input, |a: &usize| *a) {
                Err(ParseError::InvalidGoto { .. }) => panic!(),
                _ => {},
            }
        }
    }
}

#[test]
fn every_item_has_the_entry_it_asks_for() {
    // with a resolver that hands every conflict back, no two items compete
    let grammar = parentheses();
    let automaton = LR1A::new(&grammar);
    let table = NaiveLR1Table::build(&automaton, |conflict: Conflict| Err(conflict)).unwrap();
    let start_production = grammar.production_total() - 1;
    let mut shifts = 0_usize;
    let mut reductions = 0_usize;
    for state in 0..automaton.state_count() {
        for k in 0..automaton.item_count(state) {
            let item = automaton.item_core(state, k);
            match item.symbol_at_dot(&grammar) {
                Some(Word(word)) => {
                    let next = automaton.transition(state, Word(word)).unwrap();
                    assert_eq!(table.action(state, Some(word)), Action::Shift(next));
                    shifts += 1;
                },
                Some(Var(_)) => {},
                None if item.production == start_production => {
                    assert_eq!(table.action(state, None), Action::Accept);
                },
                None => {
                    for lookahead in automaton.lookaheads(state, k) {
                        assert_eq!(
                            table.action(state, lookahead),
                            Action::Reduce(item.production)
                        );
                        reductions += 1;
                    }
                },
            }
        }
    }
    assert!(shifts > 0);
    assert!(reductions > 0);
}

#[test]
fn sentence_is_parsed_in_as_many_steps_as_its_tree_has_leaves_and_productions() {
    let grammar = parentheses();
    for table in [
        LR1::construct(&grammar, |conflict: Conflict| Err(conflict)).unwrap(),
        LALR1::construct(&grammar, |conflict: Conflict| Err(conflict)).unwrap(),
    ] {
        // ( ( ) ) ( ): six leaves; A -> (), S -> A, A -> (S), S -> A, A -> (), S -> S A
        let input: Vec<Result<usize, ()>> = vec![Ok(0), Ok(0), Ok(1), Ok(1), Ok(0), Ok(1)];
        let mut parse = Parse::new(&table, input, |a: &usize| *a);
        let mut productions = Vec::new();
        for _ in 0..12 {
            match parse.next() {
                Some(Ok(Event::Reduce { production, .. })) => productions.push(production),
                Some(Ok(Event::Shift(_))) => {},
                _ => panic!(),
            }
        }
        assert_eq!(parse.next(), None);
        // the productions of the tree, each after those of its subtrees
        assert_eq!(productions, [3, 1, 2, 1, 3, 0]);
    }
}

#[test]
fn conflict_handed_back_ends_the_construction() {
    let grammar = dangling_else();
    let automaton = LR1A::new(&grammar);
    let asked = std::cell::RefCell::new(Vec::new());
    let result = NaiveLR1Table::build(&automaton, |conflict: Conflict| {
        asked.borrow_mut().push(conflict);
        Err(conflict)
    });
    // the resolver is asked once, and its answer comes back
    let seen = asked.borrow();
    assert_eq!(seen.len(), 1);
    match result {
        Err(error) => assert_eq!(error.conflict, seen[0]),
        Ok(_) => panic!(),
    }
    // a resolver that settles every conflict is asked at least as often
    let settled = std::cell::Cell::new(0_usize);
    let table = NaiveLR1Table::build(&automaton, |conflict: Conflict| {
        settled.set(settled.get() + 1);
        match conflict {
            Conflict::ShiftReduce { next_state, .. } => Ok(Action::Shift(next_state)),
            Conflict::ReduceReduce { production1, .. } => Ok(Action::Reduce(production1)),
        }
    });
    assert!(table.is_ok());
    assert!(settled.get() >= 1);
}

#[test]
fn accepting_competes_with_no_reduction_in_an_lr1_grammar() {
    let grammar = parentheses();
    assert!(accept_is_clear(&LR1A::new(&grammar)));
    assert!(accept_is_clear(&LALR1A::new(&grammar)));
    let grammar = nullable_start();
    assert!(accept_is_clear(&LR1A::new(&grammar)));
}

#[test]
fn accepting_competes_with_a_reduction_where_the_start_derives_itself() {
    // S -> A | a, A -> S: at the end of the input, S is both all there is
    // and an A
    let grammar =
        GrammarBuilder::new().rule(&[&[Var(1)], &[Word(0)]]).rule(&[&[Var(0)]]).build().unwrap();
    let automaton = LR1A::new(&grammar);
    assert!(!accept_is_clear(&automaton));
    // the table is built all the same: the resolver is not asked
    let asked = std::cell::Cell::new(0_usize);
    let table = NaiveLR1Table::build(&automaton, |conflict: Conflict| {
        asked.set(asked.get() + 1);
        Err(conflict)
    });
    assert!(table.is_ok());
    assert_eq!(asked.get(), 0);
}

#[test]
fn lalr_and_lr1_tables_agree_on_what_they_accept() {
    for grammar in [parentheses(), nullable_start()] {
        let lalr = LALR1::construct(&grammar, |conflict: Conflict| Err(conflict)).unwrap();
        let lr1 = LR1::construct(&grammar, |conflict: Conflict| Err(conflict)).unwrap();
        for sentence in all_sentences(2, 8) {
            let input =
                || -> Vec<Result<usize, ()>> { sentence.iter().copied().map(Ok).collect() };
            let by_lalr = run(&lalr, input(), |a: &usize| *a);
            let by_lr1 = run(&lr1, input(), |a: &usize| *a);
            assert_eq!(by_lalr.is_ok(), by_lr1.is_ok());
            if by_lr1.is_ok() {
                assert_eq!(by_lalr, by_lr1);
            }
        }
    }
}
