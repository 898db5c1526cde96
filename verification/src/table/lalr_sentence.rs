use vstd::prelude::*;
use super::competing::{
    accept_clear, accept_free, end_free, lemma_end_kept, lemma_wishes_granted, rejects_all, wish,
};
use super::construct::{Conflict, ConstructionError};
use super::parse::initial;
use super::machine::{
    accepts_in, due, lemma_runs_join, lemma_steps_len, lemma_trace_join, lemma_trace_len, moved,
    runs, steps_all, steps_of, trace, Config, Move,
};
use super::sentence::{
    lemma_accepted_by_lr1, lemma_run_tree, lemma_table_for, table_for, table_of_lr1,
};
use super::tracking::{classes_of, lemma_parsed_run, lemma_tracked_run, parsed, parses_as};
use super::table::{
    built_from, drawn, Action, LR1Table, NaiveLR1Table, Reduction, START_STATE,
};
use crate::automata::{
    derives_in, dr_set, follow_set, holds, includes_at, includes_fn, is_transition, la_set,
    lemma_state_step, lemma_transition_items, lemma_walk, lookback_rel, read_set, reads_fn,
    reads_rel, target_of, walk, ItemModel, LR0ABuilder, LR0Item, LRAutomaton,
    NonterminalTransition, LALR1A, LR0A, LR1A,
};
use crate::grammar::{
    derives, fringe, fringe_of, head_of, lemma_fringe_part, lemma_tree_nullable, symbol_nullable,
    tail_nullable, weight, weight_of, Symbol, Tree,
};
use crate::index_set::{class_of, class_ok, column_of};
use crate::transitive_closure::{rel_reach_in, rel_reaches};

verus! {

/// The table is that of the LALR(1) automaton of a grammar with a rule,
/// built with a resolver that hands every conflict back, and accepting
/// competes with no reduction: the grammar is LALR(1).
pub open spec fn table_of_lalr<F: Fn(Conflict) -> Result<Action, Conflict>>(
    a: &LALR1A,
    f: F,
    table: NaiveLR1Table,
) -> bool {
    &&& a.is_lalr()
    &&& a.lr0().grammar_of().var_count() >= 2
    &&& rejects_all(f)
    &&& built_from(a, f, Ok::<NaiveLR1Table, ConstructionError>(table))
    &&& accept_clear(a)
}

/// An item of a state of the automaton, by its index.
proof fn lemma_item_index(a: &LALR1A, state: int, it: LR0Item) -> (k: int)
    requires
        a.is_lalr(),
        0 <= state < a.state_total(),
        holds(a.lr0(), state, it),
    ensures
        0 <= k < a.cores(state).len(),
        a.cores(state)[k] == it,
        LR0ABuilder::item_ok(a.lr0().grammar_of(), it),
{
    let items = a.lr0().item_sets()[state]@;
    assert(items.contains(it));
    let k = choose|k: int| 0 <= k < items.len() && items[k] == it;
    k
}

/// A state of an LALR(1) table shifts on the terminal at the dot of each
/// of its items, to the state that the automaton goes to.
proof fn lemma_shift_entry<F: Fn(Conflict) -> Result<Action, Conflict>>(
    a: &LALR1A,
    f: F,
    table: NaiveLR1Table,
    state: int,
    it: LR0Item,
    word: usize,
)
    requires
        table_of_lalr(a, f, table),
        0 <= state < a.state_total(),
        holds(a.lr0(), state, it),
        it.dot(a.lr0().grammar_of()) == Some(Symbol::Terminal(word)),
    ensures
        word + 1 < table.column_total(),
        a.target(state, Symbol::Terminal(word)) is Some,
        table.action_at(state, word + 1) == Action::Shift(
            a.target(state, Symbol::Terminal(word)).unwrap(),
        ),
{
    let k = lemma_item_index(a, state, it);
    a.lemma_item(state, k);
    lemma_wishes_granted(a, f, state, table.row(state), k, 0);
}

/// A state of an LALR(1) table reduces by the production of each of its
/// complete items, on each lookahead of the reduction.
proof fn lemma_reduce_entry<F: Fn(Conflict) -> Result<Action, Conflict>>(
    a: &LALR1A,
    f: F,
    table: NaiveLR1Table,
    state: int,
    it: LR0Item,
    la: Option<usize>,
)
    requires
        table_of_lalr(a, f, table),
        0 <= state < a.state_total(),
        holds(a.lr0(), state, it),
        it.dot(a.lr0().grammar_of()) is None,
        a.lr0().grammar_of().lhs_of(it.production as int) != a.lr0().grammar_of().start_var(),
        la_set(a.lr0(), state, it.production as int).contains(la),
    ensures
        0 <= column_of(la) < table.column_total(),
        table.action_at(state, column_of(la)) == Action::Reduce(it.production),
{
    let k = lemma_item_index(a, state, it);
    a.lemma_item(state, k);
    let set = a.lookahead_sets()[state]@[k];
    set.lemma_members();
    assert(a.lookahead_sets()[state]@[k]@ == la_set(a.lr0(), state, it.production as int));
    assert(set@.contains(la));
    assert(set.wf());
    assert(forall|la: Option<usize>|
        set@.contains(la) <==> class_ok(la) && set.columns().contains(column_of(la) as usize));
    assert(class_ok(la));
    assert(set.columns().contains(column_of(la) as usize));
    let col = column_of(la) as usize;
    let m = choose|m: int| 0 <= m < set.columns().len() && set.columns()[m] == col;
    assert(a.lookahead_seq(state, k)[m] == class_of(col as int));
    assert(class_of(col as int) == la);
    assert(wish(a, state, k, m) == Some((column_of(la), Action::Reduce(it.production))));
    assert(accept_free(a, state) || end_free(a, state));
    lemma_wishes_granted(a, f, state, table.row(state), k, m);
}

/// A state of an LALR(1) table that holds the complete item of the
/// augmented start production accepts at the end of the input.
proof fn lemma_accept_entry<F: Fn(Conflict) -> Result<Action, Conflict>>(
    a: &LALR1A,
    f: F,
    table: NaiveLR1Table,
    state: int,
    it: LR0Item,
)
    requires
        table_of_lalr(a, f, table),
        0 <= state < a.state_total(),
        holds(a.lr0(), state, it),
        it.dot(a.lr0().grammar_of()) is None,
        a.lr0().grammar_of().lhs_of(it.production as int) == a.lr0().grammar_of().start_var(),
    ensures
        table.action_at(state, 0) == Action::Accept,
{
    let k = lemma_item_index(a, state, it);
    assert(!accept_free(a, state));
    assert(accept_free(a, state) || end_free(a, state));
    lemma_end_kept(a, f, state, a.cores(state).len(), table.row(state), k);
}

/// What follows a transition follows the transitions that include it.
proof fn lemma_follow_included(
    lr0: &LR0A,
    x: NonterminalTransition,
    y: NonterminalTransition,
    alt: int,
    i: int,
    la: Option<usize>,
)
    requires
        includes_at(lr0, x, y, alt, i),
        follow_set(lr0, y).contains(la),
    ensures
        follow_set(lr0, x).contains(la),
{
    let u = choose|u: NonterminalTransition| #[trigger]
        rel_reaches(includes_fn(lr0), y, u) && read_set(lr0, u).contains(la);
    let n = choose|n: nat| rel_reach_in(includes_fn(lr0), y, u, n);
    assert(includes_fn(lr0)(x, y));
    assert(rel_reach_in(includes_fn(lr0), x, u, n + 1));
    assert(rel_reaches(includes_fn(lr0), x, u));
}

/// What can be read behind a transition follows it.
proof fn lemma_follow_read(lr0: &LR0A, x: NonterminalTransition, la: Option<usize>)
    requires
        read_set(lr0, x).contains(la),
    ensures
        follow_set(lr0, x).contains(la),
{
    assert(rel_reach_in(includes_fn(lr0), x, x, 0));
    assert(rel_reaches(includes_fn(lr0), x, x));
}

/// The first terminal of the sentence of a tree can be read behind a
/// transition that leads to a state with the tree's symbol at the dot of
/// an item.
proof fn lemma_tree_read(
    lr0: &LR0A,
    r: int,
    it: LR0Item,
    tree: Tree,
    v: NonterminalTransition,
)
    requires
        lr0.wf(),
        0 <= r < lr0.item_sets().len(),
        holds(lr0, r, it),
        it.dot(lr0.grammar_of()) is Some,
        derives(lr0.grammar_of(), tree, it.dot(lr0.grammar_of()).unwrap()),
        is_transition(lr0, v),
        target_of(lr0, v) == r,
        fringe(tree).len() > 0,
    ensures
        read_set(lr0, v).contains(Some(fringe(tree)[0])),
    decreases tree, 0nat,
{
    let g = lr0.grammar_of();
    let x = it.dot(g).unwrap();
    lemma_state_step::<LR0Item, LR0ABuilder>(g, lr0.item_sets(), lr0.goto_maps(), r, it, x);
    match tree {
        Tree::Leaf(t) => {
            assert(dr_set(lr0, v).contains(Some(t)));
            assert(rel_reach_in(reads_fn(lr0), v, v, 0));
            assert(rel_reaches(reads_fn(lr0), v, v));
        },
        Tree::Node(p, kids) => {
            let t = NonterminalTransition { state: r as usize, var: g.lhs_of(p as int) as usize };
            lemma_transition_items(lr0, t, p as int);
            lemma_kids_read(lr0, r, p, kids, 0, v);
        },
    }
}

/// The first terminal of the sentences of the trees of the rest of a
/// production can be read behind a transition that leads to a state which
/// holds the production with the dot before that rest.
proof fn lemma_kids_read(
    lr0: &LR0A,
    r: int,
    p: usize,
    kids: Seq<Tree>,
    from: int,
    v: NonterminalTransition,
)
    requires
        lr0.wf(),
        0 <= r < lr0.item_sets().len(),
        p < lr0.grammar_of().production_count(),
        kids.len() == lr0.grammar_of().rhs(p as int).len(),
        forall|i: int|
            0 <= i < kids.len() ==> derives(
                lr0.grammar_of(),
                #[trigger] kids[i],
                lr0.grammar_of().rhs(p as int)[i],
            ),
        0 <= from <= kids.len(),
        holds(lr0, r, LR0Item { production: p, pos: from as usize }),
        is_transition(lr0, v),
        target_of(lr0, v) == r,
        fringe_of(kids, from).len() > 0,
    ensures
        read_set(lr0, v).contains(Some(fringe_of(kids, from)[0])),
    decreases kids, kids.len() - from,
{
    let g = lr0.grammar_of();
    let it = LR0Item { production: p, pos: from as usize };
    let x = g.rhs(p as int)[from];
    assert(it.dot(g) == Some(x));
    assert(derives(g, kids[from], x));
    if fringe(kids[from]).len() > 0 {
        lemma_tree_read(lr0, r, it, kids[from], v);
    } else {
        lemma_state_step::<LR0Item, LR0ABuilder>(g, lr0.item_sets(), lr0.goto_maps(), r, it, x);
        match kids[from] {
            Tree::Leaf(_) => {},
            Tree::Node(q, _) => {
                let c = g.lhs_of(q as int) as usize;
                lemma_tree_nullable(g, kids[from], c);
                let u = NonterminalTransition { state: r as usize, var: c };
                assert(reads_rel(lr0, v, u));
                assert(fringe_of(kids, from) =~= fringe_of(kids, from + 1));
                assert(LR0ABuilder::advanced(it) == LR0Item {
                    production: p,
                    pos: (from + 1) as usize,
                });
                let la = Some(fringe_of(kids, from)[0]);
                lemma_kids_read(lr0, target_of(lr0, u), p, kids, from + 1, u);
                let w = choose|w: NonterminalTransition| #[trigger]
                    rel_reaches(reads_fn(lr0), u, w) && dr_set(lr0, w).contains(la);
                let n = choose|n: nat| rel_reach_in(reads_fn(lr0), u, w, n);
                assert(reads_fn(lr0)(v, u));
                assert(rel_reach_in(reads_fn(lr0), v, w, n + 1));
                assert(rel_reaches(reads_fn(lr0), v, w));
            },
        }
    }
}

/// The trees of the rest of a production without leaves: the rest can
/// vanish.
proof fn lemma_tail_vanishes(lr0: &LR0A, p: usize, kids: Seq<Tree>, from: int)
    requires
        lr0.wf(),
        p < lr0.grammar_of().production_count(),
        kids.len() == lr0.grammar_of().rhs(p as int).len(),
        forall|i: int|
            0 <= i < kids.len() ==> derives(
                lr0.grammar_of(),
                #[trigger] kids[i],
                lr0.grammar_of().rhs(p as int)[i],
            ),
        0 <= from <= kids.len(),
        fringe_of(kids, from).len() == 0,
    ensures
        tail_nullable(lr0.grammar_of(), p as int, from),
{
    let g = lr0.grammar_of();
    assert forall|u: int| from <= u < g.rhs(p as int).len() implies symbol_nullable(
        g,
        #[trigger] g.rhs(p as int)[u],
    ) by {
        lemma_fringe_part(kids, from, u);
        assert(derives(g, kids[u], g.rhs(p as int)[u]));
        match kids[u] {
            Tree::Leaf(_) => {},
            Tree::Node(q, _) => {
                lemma_tree_nullable(g, kids[u], g.lhs_of(q as int) as usize);
            },
        }
    }
}

/// The parser works through a derivation tree on an LALR(1) table. Where
/// the state on top holds an item with the tree's symbol at the dot, the
/// input begins with the sentence of the tree, and what follows the
/// sentence can follow the transition on the symbol, as many shifts and
/// reductions as the tree has leaves and productions consume the sentence
/// and enter, above the states there were, the state that the automaton
/// goes to on the symbol.
pub proof fn lemma_lalr_tree_run<F: Fn(Conflict) -> Result<Action, Conflict>>(
    a: &LALR1A,
    f: F,
    table: NaiveLR1Table,
    tree: Tree,
    it: LR0Item,
    c: Config,
    z: Seq<usize>,
)
    requires
        table_of_lalr(a, f, table),
        c.stack.len() >= 1,
        c.stack.last() < a.state_total(),
        holds(a.lr0(), c.stack.last() as int, it),
        it.dot(a.lr0().grammar_of()) is Some,
        derives(a.lr0().grammar_of(), tree, it.dot(a.lr0().grammar_of()).unwrap()),
        c.rest == fringe(tree) + z,
        it.dot(a.lr0().grammar_of()) matches Some(Symbol::Variable(b)) ==> follow_set(
            a.lr0(),
            NonterminalTransition { state: c.stack.last(), var: b },
        ).contains(head_of(z, None)),
    ensures
        a.target(c.stack.last() as int, it.dot(a.lr0().grammar_of()).unwrap()) matches Some(q)
            && q < a.state_total() && runs(
            &table,
            c,
            weight(tree),
            Config { stack: c.stack.push(q), rest: z },
        ),
        trace(&table, c, weight(tree)) == steps_of(tree),
    decreases tree, 0nat,
{
    let lr0 = a.lr0();
    let g = lr0.grammar_of();
    let top = c.stack.last() as int;
    let x = it.dot(g).unwrap();
    let k = lemma_item_index(a, top, it);
    lemma_state_step::<LR0Item, LR0ABuilder>(g, lr0.item_sets(), lr0.goto_maps(), top, it, x);
    let q = a.target(top, x).unwrap();
    let after = Config { stack: c.stack.push(q), rest: z };
    match tree {
        Tree::Leaf(t) => {
            lemma_shift_entry(a, f, table, top, it, t);
            assert(c.rest[0] == t);
            assert(c.rest.skip(1) =~= z);
            assert(due(&table, c) == Action::Shift(q));
            assert(moved(&table, c) == after);
            assert(runs(&table, after, 0, after));
            assert(trace(&table, after, 0) =~= Seq::<Move>::empty());
            assert(trace(&table, c, 1) =~= seq![Move::Shift]);
        },
        Tree::Node(p, kids) => {
            let var = g.lhs_of(p as int);
            let la = head_of(z, None);
            let t = NonterminalTransition { state: c.stack.last(), var: var as usize };
            lemma_transition_items(lr0, t, p as int);
            let d = lemma_lalr_kids_run(a, f, table, p, kids, la, 0, t, c, z);
            lemma_walk(lr0, top, p as int, kids.len());
            let done = LR0Item { production: p, pos: kids.len() as usize };
            assert(var != g.start_var()) by {
                let r = it.production as int;
                let i = it.pos as int;
                assert(g.rhs(r)[i] == Symbol::Variable(var as usize));
                if r < g.production_count() - 1 {
                    assert(g.rhs(r)[i].var_below(g.var_count() - 1));
                }
            }
            assert(lookback_rel(lr0, t, d.stack.last() as int, p as int));
            assert(la_set(lr0, d.stack.last() as int, p as int).contains(la));
            lemma_reduce_entry(a, f, table, d.stack.last() as int, done, la);
            assert(due(&table, d) == Action::Reduce(p));
            let r = table.reduction_at(p as int);
            assert(r == Reduction { var: var as usize, count: kids.len() as usize });
            let base = d.stack.take(d.stack.len() - r.count);
            assert(base =~= c.stack);
            assert(table.goto_at(top, var) == a.target(top, Symbol::Variable(var as usize)));
            assert(moved(&table, d) == after);
            assert(runs(&table, after, 0, after));
            assert(runs(&table, d, 1, after));
            lemma_runs_join(&table, c, weight_of(kids, 0), d, 1, after);
            lemma_trace_join(&table, c, weight_of(kids, 0), d, 1);
            assert(trace(&table, after, 0) =~= Seq::<Move>::empty());
            assert(trace(&table, d, 1) =~= seq![Move::Reduce(p)]);
            assert(trace(&table, c, weight(tree)) =~= steps_of(tree));
        },
    }
}

/// The parser works through the trees of the rest of a production on an
/// LALR(1) table. Where the state on top is the one that the symbols in
/// front of that rest lead to from the state of a transition on the
/// production's variable, the input begins with the sentences of the
/// trees, and what follows them follows that transition, as many shifts
/// and reductions as the trees have leaves and productions consume the
/// sentences and enter, above the states there were, one state for each
/// tree, the last of which is the one that the production leads to.
pub proof fn lemma_lalr_kids_run<F: Fn(Conflict) -> Result<Action, Conflict>>(
    a: &LALR1A,
    f: F,
    table: NaiveLR1Table,
    p: usize,
    kids: Seq<Tree>,
    la: Option<usize>,
    from: int,
    t: NonterminalTransition,
    c: Config,
    z: Seq<usize>,
) -> (d: Config)
    requires
        table_of_lalr(a, f, table),
        is_transition(a.lr0(), t),
        a.lr0().grammar_of().rule_start(t.var as int) <= p < a.lr0().grammar_of().rule_start(
            t.var + 1,
        ),
        kids.len() == a.lr0().grammar_of().rhs(p as int).len(),
        forall|i: int|
            0 <= i < kids.len() ==> derives(
                a.lr0().grammar_of(),
                #[trigger] kids[i],
                a.lr0().grammar_of().rhs(p as int)[i],
            ),
        0 <= from <= kids.len(),
        c.stack.len() >= 1,
        c.stack.last() == walk(a.lr0(), t.state as int, p as int, from as nat),
        c.rest == fringe_of(kids, from) + z,
        la == head_of(z, None),
        follow_set(a.lr0(), t).contains(la),
    ensures
        d.stack.len() == c.stack.len() + kids.len() - from,
        d.stack.take(c.stack.len() as int) == c.stack,
        d.rest == z,
        d.stack.last() == walk(a.lr0(), t.state as int, p as int, kids.len()),
        runs(&table, c, weight_of(kids, from), d),
        trace(&table, c, weight_of(kids, from)) == steps_all(kids, from),
    decreases kids, kids.len() - from,
{
    let lr0 = a.lr0();
    let g = lr0.grammar_of();
    lemma_transition_items(lr0, t, p as int);
    if from < kids.len() {
        lemma_walk(lr0, t.state as int, p as int, from as nat);
        lemma_walk(lr0, t.state as int, p as int, (from + 1) as nat);
        let top = c.stack.last() as int;
        let it = LR0Item { production: p, pos: from as usize };
        let x = g.rhs(p as int)[from];
        let behind = fringe_of(kids, from + 1) + z;
        assert(it.dot(g) == Some(x));
        assert(derives(g, kids[from], x));
        assert(c.rest =~= fringe(kids[from]) + behind);
        if let Symbol::Variable(b) = x {
            let u = NonterminalTransition { state: c.stack.last(), var: b };
            if fringe_of(kids, from + 1).len() == 0 {
                lemma_tail_vanishes(lr0, p, kids, from + 1);
                assert(includes_at(lr0, u, t, p as int, from));
                lemma_follow_included(lr0, u, t, p as int, from, la);
                assert(head_of(behind, None) == la);
            } else {
                lemma_kids_read(lr0, target_of(lr0, u), p, kids, from + 1, u);
                lemma_follow_read(lr0, u, Some(fringe_of(kids, from + 1)[0]));
                assert(head_of(behind, None) == Some(fringe_of(kids, from + 1)[0]));
            }
        }
        lemma_lalr_tree_run(a, f, table, kids[from], it, c, behind);
        let q = a.target(top, x).unwrap();
        let c1 = Config { stack: c.stack.push(q), rest: behind };
        let d = lemma_lalr_kids_run(a, f, table, p, kids, la, from + 1, t, c1, z);
        lemma_runs_join(&table, c, weight(kids[from]), c1, weight_of(kids, from + 1), d);
        lemma_trace_join(&table, c, weight(kids[from]), c1, weight_of(kids, from + 1));
        assert(d.stack.take(c.stack.len() as int) =~= d.stack.take(c1.stack.len() as int).take(
            c.stack.len() as int,
        ));
        d
    } else {
        assert(c.rest =~= z);
        assert(c.stack.take(c.stack.len() as int) =~= c.stack);
        assert(trace(&table, c, 0) =~= steps_all(kids, from));
        c
    }
}

/// A sentence of an LALR(1) grammar is accepted. Where `tree` derives a
/// sentence from the grammar's first variable, the parser that enters the
/// initial state with the sentence as input makes as many shifts and
/// reductions as the tree has leaves and productions, in the order of the
/// tree read from the bottom up; then the input is consumed, above the
/// initial state stands the state that the automaton goes to on that
/// variable, and the action due is to accept.
pub proof fn lemma_lalr_sentence_accepted<F: Fn(Conflict) -> Result<Action, Conflict>>(
    a: &LALR1A,
    f: F,
    table: NaiveLR1Table,
    tree: Tree,
)
    requires
        table_of_lalr(a, f, table),
        derives(a.lr0().grammar_of(), tree, Symbol::Variable(0)),
    ensures
        a.target(0, Symbol::Variable(0)) matches Some(q) && runs(
            &table,
            Config { stack: seq![START_STATE], rest: fringe(tree) },
            weight(tree),
            Config { stack: seq![START_STATE, q], rest: Seq::empty() },
        ) && due(&table, Config { stack: seq![START_STATE, q], rest: Seq::empty() })
            == Action::Accept,
        trace(&table, Config { stack: seq![START_STATE], rest: fringe(tree) }, weight(tree))
            == steps_of(tree),
{
    let lr0 = a.lr0();
    let g = lr0.grammar_of();
    let start = LR0ABuilder::start(g);
    let c = Config { stack: seq![START_STATE], rest: fringe(tree) };
    let z = Seq::<usize>::empty();
    assert(derives_in::<LR0Item, LR0ABuilder>(g, start, start, 0));
    assert(holds(lr0, 0, start));
    assert(start.dot(g) == Some(Symbol::Variable(0)));
    assert(c.rest =~= fringe(tree) + z);
    let t = NonterminalTransition { state: 0, var: 0 };
    lemma_state_step::<LR0Item, LR0ABuilder>(
        g,
        lr0.item_sets(),
        lr0.goto_maps(),
        0,
        start,
        Symbol::Variable(0),
    );
    assert(dr_set(lr0, t).contains(None));
    assert(rel_reach_in(reads_fn(lr0), t, t, 0));
    assert(rel_reaches(reads_fn(lr0), t, t));
    assert(read_set(lr0, t).contains(None));
    lemma_follow_read(lr0, t, None);
    lemma_lalr_tree_run(a, f, table, tree, start, c, z);
    let q = a.target(0, Symbol::Variable(0)).unwrap();
    lemma_accept_entry(a, f, table, q as int, LR0ABuilder::advanced(start));
    assert(c.stack.push(q) =~= seq![START_STATE, q]);
    a.lemma_shape();
}

/// A sentence of an LALR(1) grammar is parsed without error, by its
/// derivation. Where `tree` derives a sentence from the grammar's first
/// variable, and the input holds tokens of the classes of that sentence, a
/// parser made for the input on the grammar's LALR(1) table reports a
/// shift for each leaf of the tree and a reduction for each of its
/// productions, in the order of the tree read from the bottom up, and ends
/// at the step after them.
pub proof fn lemma_lalr_sentence_parsed<R: Fn(Conflict) -> Result<Action, Conflict>, T, E, F: Fn(
    &T,
) -> usize>(
    a: &LALR1A,
    resolver: R,
    table: NaiveLR1Table,
    tree: Tree,
    f: F,
    input: Seq<Result<T, E>>,
)
    requires
        table_of_lalr(a, resolver, table),
        derives(a.lr0().grammar_of(), tree, Symbol::Variable(0)),
        classes_of(f, input, fringe(tree)),
    ensures
        parses_as(&table, f, initial(input), steps_of(tree)),
{
    lemma_lalr_sentence_accepted(a, resolver, table, tree);
    let q = a.target(0, Symbol::Variable(0)).unwrap();
    let c = Config { stack: seq![START_STATE], rest: fringe(tree) };
    let d = Config { stack: seq![START_STATE, q], rest: Seq::empty() };
    lemma_tracked_run(&table, f, initial(input), c, weight(tree), d);
}

/// An accepting run on any table of an LALR(1) grammar is an accepting
/// run on the grammar's LALR(1) table. Where `n` shifts and reductions on
/// a well-formed table for the grammar, the LR(1) table or another, lead
/// from the initial state with input `w` to where the input is accepted,
/// the LALR(1) table accepts `w` after `n` steps too, and the parser does
/// the same on both tables, step by step.
pub proof fn lemma_accepted_by_lalr<P: LR1Table, F: Fn(Conflict) -> Result<Action, Conflict>>(
    other: &P,
    a: &LALR1A,
    f: F,
    table: NaiveLR1Table,
    w: Seq<usize>,
    n: nat,
    d: Config,
) -> (e: Config)
    requires
        other.wf(),
        other.var_total() >= 1,
        table_for(other, a.lr0().grammar_of()),
        table_of_lalr(a, f, table),
        runs(other, Config { stack: seq![START_STATE], rest: w }, n, d),
        due(other, d) == Action::Accept,
    ensures
        runs(&table, Config { stack: seq![START_STATE], rest: w }, n, e),
        due(&table, e) == Action::Accept,
        trace(&table, Config { stack: seq![START_STATE], rest: w }, n) == trace(
            other,
            Config { stack: seq![START_STATE], rest: w },
            n,
        ),
{
    let g = a.lr0().grammar_of();
    let c = Config { stack: seq![START_STATE], rest: w };
    other.lemma_start();
    let tree = lemma_run_tree(other, g, c, Seq::empty(), Seq::empty(), n, d);
    assert(fringe_of(Seq::<Tree>::empty(), 0) =~= Seq::<usize>::empty());
    assert(steps_all(Seq::<Tree>::empty(), 0) =~= Seq::<Move>::empty());
    assert(fringe(tree) =~= w);
    assert(steps_of(tree) =~= trace(other, c, n));
    lemma_lalr_sentence_accepted(a, f, table, tree);
    lemma_steps_len(tree);
    lemma_trace_len(other, c, n, d);
    let q = a.target(0, Symbol::Variable(0)).unwrap();
    Config { stack: seq![START_STATE, q], rest: Seq::empty() }
}

/// Every accepting run on a table of an LALR(1) grammar is an accepting
/// run on the grammar's LALR(1) table. Where some run of the parser on a
/// well-formed table for the grammar, the LR(1) table or another, reports
/// the events of `moves` for an input and then ends, every run of the
/// parser on the LALR(1) table reports the same events for that input,
/// and then ends.
pub proof fn lemma_parsed_by_lalr<
    P: LR1Table,
    R: Fn(Conflict) -> Result<Action, Conflict>,
    T,
    E,
    F: Fn(&T) -> usize,
>(
    other: &P,
    a: &LALR1A,
    resolver: R,
    table: NaiveLR1Table,
    f: F,
    input: Seq<Result<T, E>>,
    w: Seq<usize>,
    moves: Seq<Move>,
)
    requires
        other.wf(),
        other.var_total() >= 1,
        table_for(other, a.lr0().grammar_of()),
        table_of_lalr(a, resolver, table),
        classes_of(f, input, w),
        parsed(other, f, initial(input), moves),
    ensures
        parses_as(&table, f, initial(input), moves),
{
    let c = Config { stack: seq![START_STATE], rest: w };
    other.lemma_start();
    let d = lemma_parsed_run(other, f, initial(input), c, Seq::empty(), moves);
    let e = lemma_accepted_by_lalr(other, a, resolver, table, w, moves.len(), d);
    lemma_tracked_run(&table, f, initial(input), c, moves.len(), e);
}

/// The LALR(1) table and the LR(1) table of a grammar that is LALR(1)
/// agree on what they accept: an input is accepted after `n` shifts and
/// reductions on the one exactly if it is on the other, and then the
/// parser does the same on both tables, step by step.
pub proof fn lemma_tables_agree<
    F: Fn(Conflict) -> Result<Action, Conflict>,
    G: Fn(Conflict) -> Result<Action, Conflict>,
>(
    lalr: &LALR1A,
    f: F,
    by_lalr: NaiveLR1Table,
    lr1: &LR1A,
    g: G,
    by_lr1: NaiveLR1Table,
    w: Seq<usize>,
    n: nat,
)
    requires
        table_of_lalr(lalr, f, by_lalr),
        table_of_lr1(lr1, g, by_lr1),
        lalr.lr0().grammar_of() == lr1.source(),
    ensures
        accepts_in(&by_lalr, w, n) == accepts_in(&by_lr1, w, n),
        accepts_in(&by_lalr, w, n) ==> trace(
            &by_lalr,
            Config { stack: seq![START_STATE], rest: w },
            n,
        ) == trace(&by_lr1, Config { stack: seq![START_STATE], rest: w }, n),
{
    let c = Config { stack: seq![START_STATE], rest: w };
    lemma_table_for(lalr, f, by_lalr);
    lemma_table_for(lr1, g, by_lr1);
    assert(drawn(f));
    assert(drawn(g));
    if accepts_in(&by_lalr, w, n) {
        let d = choose|d: Config| #[trigger]
            runs(&by_lalr, c, n, d) && due(&by_lalr, d) == Action::Accept;
        let e = lemma_accepted_by_lr1(&by_lalr, lr1, g, by_lr1, w, n, d);
    }
    if accepts_in(&by_lr1, w, n) {
        let d = choose|d: Config| #[trigger]
            runs(&by_lr1, c, n, d) && due(&by_lr1, d) == Action::Accept;
        let e = lemma_accepted_by_lalr(&by_lr1, lalr, f, by_lalr, w, n, d);
    }
}

} // verus!
