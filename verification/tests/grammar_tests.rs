#![allow(non_upper_case_globals)]

use lr_parsing_tools::grammar::{Grammar, GrammarBuildError, GrammarBuilder, Symbol};

fn rr_expr_grammar() -> Grammar {
    const add: Symbol = Symbol::Terminal(0);
    const sub: Symbol = Symbol::Terminal(1);
    const mul: Symbol = Symbol::Terminal(2);
    const div: Symbol = Symbol::Terminal(3);
    const lparen: Symbol = Symbol::Terminal(4);
    const rparen: Symbol = Symbol::Terminal(5);
    const name: Symbol = Symbol::Terminal(6);
    const num: Symbol = Symbol::Terminal(7);
    // ---
    const Expr: Symbol = Symbol::Variable(0);
    const Expr_: Symbol = Symbol::Variable(1);
    const Term: Symbol = Symbol::Variable(2);
    const Term_: Symbol = Symbol::Variable(3);
    const Factor: Symbol = Symbol::Variable(4);

    // Expr : Term Expr_,
    // Expr_ : + Term Expr_
    //       | - Term Expr_
    //       | ,
    // Term : Factor Term_,
    // Term_ : * Factor Term_
    //       | / Factor Term_
    //       | ,
    // Factor : ( Expr )
    //        | name
    //        | num,
    GrammarBuilder::new()
        .rule(&[&[Term, Expr_]])
        .rule(&[&[add, Term, Expr_], &[sub, Term, Expr_], &[]])
        .rule(&[&[Factor, Term_]])
        .rule(&[&[mul, Factor, Term_], &[div, Factor, Term_], &[]])
        .rule(&[&[lparen, Expr, rparen], &[name], &[num]])
        .build()
        .unwrap()
}

// ---
const Expr: usize = 0;
const Expr_: usize = 1;
const Term: usize = 2;
const Term_: usize = 3;
const Factor: usize = 4;

#[test]
fn test_nullability() {
    let grammar = rr_expr_grammar();
    let nullable = grammar.nullability();
    assert!(!nullable.get(Expr));
    assert!(nullable.get(Expr_));
    assert!(!nullable.get(Term));
    assert!(nullable.get(Term_));
    assert!(!nullable.get(Factor));
}

#[test]
fn test_first() {
    const add: usize = 0;
    const sub: usize = 1;
    const mul: usize = 2;
    const div: usize = 3;
    const lparen: usize = 4;
    const name: usize = 6;
    const num: usize = 7;

    let grammar = rr_expr_grammar();
    let (first, _) = grammar.first_set();
    assert_eq!(&first.get(Expr), &[lparen, name, num]);
    assert_eq!(&first.get(Expr_), &[add, sub]);
    assert_eq!(&first.get(Term), &[lparen, name, num]);
    assert_eq!(&first.get(Term_), &[mul, div]);
    assert_eq!(&first.get(Factor), &[lparen, name, num]);
    println!("first = {:?}", first);
}

#[test]
fn test_follow() {
    const add: Option<usize> = Some(0);
    const sub: Option<usize> = Some(1);
    const mul: Option<usize> = Some(2);
    const div: Option<usize> = Some(3);
    const rparen: Option<usize> = Some(5);
    const eof: Option<usize> = None;

    let grammar = rr_expr_grammar();
    let (follow, _, _) = grammar.follow_set();
    assert_eq!(&follow.get(Expr), &[eof, rparen]);
    assert_eq!(&follow.get(Expr_), &[eof, rparen]);
    assert_eq!(&follow.get(Term), &[eof, add, sub, rparen]);
    assert_eq!(&follow.get(Term_), &[eof, add, sub, rparen]);
    assert_eq!(&follow.get(Factor), &[eof, add, sub, mul, div, rparen]);
}

#[test]
fn grammar_layout_of_expression_grammar() {
    let grammar = rr_expr_grammar();
    assert_eq!(grammar.word_count(), 8);
    assert_eq!(grammar.rules().len(), 6);
    assert_eq!(grammar.productions().len(), 12);
    // productions in declaration order, each with its own variable
    let lhs: Vec<usize> = (0..12).map(|p| grammar.productions().get(p).0).collect();
    assert_eq!(lhs, [0, 1, 1, 1, 2, 3, 3, 3, 4, 4, 4, 5]);
    assert_eq!(grammar.productions().get(3).1, &[] as &[Symbol]);
    assert_eq!(
        grammar.productions().get(8).1,
        &[Symbol::Terminal(4), Symbol::Variable(0), Symbol::Terminal(5)]
    );
    // the augmented start production comes last
    assert_eq!(grammar.productions().get(11), (5, &[Symbol::Variable(0)][..]));
    let range = grammar.rules().get(3).alt_indices();
    assert_eq!((range.start, range.end), (5, 8));
}

#[test]
fn grammar_cursors_walk_in_order() {
    let grammar = rr_expr_grammar();
    let mut rules = grammar.rules().into_iter();
    let mut count = 0;
    let mut productions_seen = 0;
    while let Some(rule) = rules.next() {
        let mut alts = rule.alts();
        while let Some(alt) = alts.next() {
            assert_eq!(alt, grammar.productions().get(productions_seen).1);
            productions_seen += 1;
        }
        count += 1;
    }
    assert_eq!(count, 6);
    assert_eq!(productions_seen, 12);
    let mut productions = grammar.productions().into_iter();
    let mut index = 0;
    while let Some((lhs, rhs)) = productions.next() {
        assert_eq!((lhs, rhs), grammar.productions().get(index));
        index += 1;
    }
    assert_eq!(index, 12);
}

#[test]
fn grammar_without_terminals_has_no_words() {
    let grammar = GrammarBuilder::new().rule(&[&[]]).build().unwrap();
    assert_eq!(grammar.word_count(), 0);
    assert_eq!(grammar.rules().len(), 2);
}

#[test]
fn grammar_word_count_is_largest_terminal_plus_one() {
    let grammar = GrammarBuilder::new()
        .rule(&[&[Symbol::Terminal(2)], &[Symbol::Terminal(9), Symbol::Variable(0)]])
        .build()
        .unwrap();
    assert_eq!(grammar.word_count(), 10);
}

#[test]
fn build_reports_first_unresolved_variable() {
    let result = GrammarBuilder::new()
        .rule(&[&[Symbol::Terminal(0)], &[Symbol::Variable(1)]])
        .rule(&[&[Symbol::Terminal(1)], &[Symbol::Terminal(0), Symbol::Variable(7),
            Symbol::Variable(9)]])
        .build();
    match result {
        Err(error) => assert_eq!(
            error,
            GrammarBuildError::InvalidVariable { rule: 1, production: 1, pos: 1, variable: 7 }
        ),
        Ok(_) => panic!(),
    }
}

#[test]
fn build_rejects_reference_to_the_start_variable() {
    // the augmented start variable is added after the check
    let result = GrammarBuilder::new().rule(&[&[Symbol::Variable(1)]]).build();
    match result {
        Err(error) => assert_eq!(
            error,
            GrammarBuildError::InvalidVariable { rule: 0, production: 0, pos: 0, variable: 1 }
        ),
        Ok(_) => panic!(),
    }
}

#[test]
fn start_variable_is_nullable_as_the_first_variable_is() {
    let grammar = rr_expr_grammar();
    let nullable = grammar.nullability();
    assert_eq!(nullable.get(5), nullable.get(0));
    let grammar = GrammarBuilder::new()
        .rule(&[&[Symbol::Variable(1), Symbol::Variable(1)]])
        .rule(&[&[], &[Symbol::Terminal(0)]])
        .build()
        .unwrap();
    let nullable = grammar.nullability();
    assert!(nullable.get(0));
    assert!(nullable.get(1));
    assert!(nullable.get(2));
}

#[test]
fn first_sets_are_ascending_and_in_range() {
    let grammar = rr_expr_grammar();
    let (first, _) = grammar.first_set();
    for var in 0..grammar.rules().len() {
        let set = first.get(var);
        assert!(set.windows(2).all(|pair| pair[0] < pair[1]));
        assert!(set.iter().all(|&t| t < grammar.word_count()));
    }
    // the augmented start variable begins as the first variable does
    assert_eq!(first.get(5), first.get(0));
}

#[test]
fn first_with_cyclic_dependencies() {
    // A -> B c, B -> A d | e
    let grammar = GrammarBuilder::new()
        .rule(&[&[Symbol::Variable(1), Symbol::Terminal(0)]])
        .rule(&[&[Symbol::Variable(0), Symbol::Terminal(1)], &[Symbol::Terminal(2)]])
        .build()
        .unwrap();
    let (first, nullable) = grammar.first_set();
    assert!(!nullable.get(0));
    assert!(!nullable.get(1));
    assert_eq!(&first.get(0), &[2]);
    assert_eq!(&first.get(1), &[2]);
}

#[test]
fn first_looks_past_nullable_variables() {
    // S -> A B c, A -> a | , B -> b |
    let grammar = GrammarBuilder::new()
        .rule(&[&[Symbol::Variable(1), Symbol::Variable(2), Symbol::Terminal(2)]])
        .rule(&[&[Symbol::Terminal(0)], &[]])
        .rule(&[&[Symbol::Terminal(1)], &[]])
        .build()
        .unwrap();
    let (follow, first, nullable) = grammar.follow_set();
    assert!(!nullable.get(0));
    assert_eq!(&first.get(0), &[0, 1, 2]);
    assert_eq!(&follow.get(1), &[Some(1), Some(2)]);
    assert_eq!(&follow.get(2), &[Some(2)]);
    assert_eq!(&follow.get(0), &[None]);
}

#[test]
fn follow_of_start_holds_end_of_input() {
    let grammar = rr_expr_grammar();
    let (follow, _, _) = grammar.follow_set();
    assert!(follow.get(5).contains(&None));
    assert!(follow.get(0).contains(&None));
    assert_eq!(&follow.get(5), &[None]);
}
