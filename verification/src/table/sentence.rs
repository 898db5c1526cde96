use vstd::prelude::*;
use super::competing::{
    accept_clear, accept_free, end_free, lemma_end_kept, lemma_wishes_granted, rejects_all, wish,
};
use super::construct::{Conflict, ConstructionError};
use super::machine::{
    ahead, due, lemma_runs_join, lemma_steps_join, lemma_steps_len, lemma_trace_join,
    lemma_trace_len, moved, moves, runs, steps_all, steps_of, trace, Config, Move,
};
use super::parse::{initial, labelled, lemma_descend, lemma_left_start, on_path};
use super::table::{built_from, Action, LR1Table, NaiveLR1Table, Reduction, START_STATE};
use super::tracking::{classes_of, lemma_parsed_run, lemma_tracked_run, parsed, parses_as};
use crate::automata::{
    carried, derives_in, lemma_state_closed, lemma_state_step, ItemModel, LR0Item, LR1ABuilder,
    LR1Item, LRAutomaton, LR1A,
};
use crate::grammar::{
    derives, fringe, fringe_of, head_of, lemma_fringe_join, lemma_tree_feeds, tail_nullable,
    weight, weight_of, Grammar, Symbol, Tree,
};
use crate::index_set::column_of;

verus! {

/// The table is that of the canonical LR(1) automaton of a grammar with a
/// rule, built with a resolver that hands every conflict back, and
/// accepting competes with no reduction: the grammar is LR(1).
pub open spec fn table_of_lr1<F: Fn(Conflict) -> Result<Action, Conflict>>(
    a: &LR1A,
    f: F,
    table: NaiveLR1Table,
) -> bool {
    &&& a.is_canonical()
    &&& a.source().var_count() >= 2
    &&& rejects_all(f)
    &&& built_from(a, f, Ok::<NaiveLR1Table, ConstructionError>(table))
    &&& accept_clear(a)
}

/// An item of a state of the automaton, by its index.
proof fn lemma_item_index(a: &LR1A, state: int, it: LR1Item) -> (k: int)
    requires
        a.is_canonical(),
        0 <= state < a.state_total(),
        a.item_sets()[state]@.to_set().contains(it),
    ensures
        0 <= k < a.cores(state).len(),
        a.item_sets()[state]@[k] == it,
        a.cores(state)[k] == it.lr0_item,
        a.lookahead_seq(state, k) == seq![it.lookahead],
        LR1ABuilder::item_ok(a.source(), it),
{
    let items = a.item_sets()[state]@;
    assert(items.contains(it));
    let k = choose|k: int| 0 <= k < items.len() && items[k] == it;
    k
}

/// A state of an LR(1) table shifts on the terminal at the dot of each of
/// its items, to the state that the automaton goes to.
proof fn lemma_shift_entry<F: Fn(Conflict) -> Result<Action, Conflict>>(
    a: &LR1A,
    f: F,
    table: NaiveLR1Table,
    state: int,
    it: LR1Item,
    word: usize,
)
    requires
        table_of_lr1(a, f, table),
        0 <= state < a.state_total(),
        a.item_sets()[state]@.to_set().contains(it),
        it.lr0_item.dot(a.source()) == Some(Symbol::Terminal(word)),
    ensures
        word + 1 < table.column_total(),
        a.target(state, Symbol::Terminal(word)) is Some,
        table.action_at(state, word + 1) == Action::Shift(
            a.target(state, Symbol::Terminal(word)).unwrap(),
        ),
{
    let k = lemma_item_index(a, state, it);
    a.lemma_item(state, k);
    lemma_wishes_granted(a, f, state, table.row(state), k, 0);
}

/// A state of an LR(1) table reduces by the production of each of its
/// complete items, on the item's lookahead.
proof fn lemma_reduce_entry<F: Fn(Conflict) -> Result<Action, Conflict>>(
    a: &LR1A,
    f: F,
    table: NaiveLR1Table,
    state: int,
    it: LR1Item,
)
    requires
        table_of_lr1(a, f, table),
        0 <= state < a.state_total(),
        a.item_sets()[state]@.to_set().contains(it),
        it.lr0_item.dot(a.source()) is None,
        a.source().lhs_of(it.lr0_item.production as int) != a.source().start_var(),
    ensures
        0 <= column_of(it.lookahead) < table.column_total(),
        table.action_at(state, column_of(it.lookahead)) == Action::Reduce(it.lr0_item.production),
{
    let k = lemma_item_index(a, state, it);
    a.lemma_item(state, k);
    assert(wish(a, state, k, 0) == Some(
        (column_of(it.lookahead), Action::Reduce(it.lr0_item.production)),
    ));
    assert(accept_free(a, state) || end_free(a, state));
    lemma_wishes_granted(a, f, state, table.row(state), k, 0);
}

/// A state of an LR(1) table that holds the complete item of the
/// augmented start production accepts at the end of the input.
proof fn lemma_accept_entry<F: Fn(Conflict) -> Result<Action, Conflict>>(
    a: &LR1A,
    f: F,
    table: NaiveLR1Table,
    state: int,
    it: LR1Item,
)
    requires
        table_of_lr1(a, f, table),
        0 <= state < a.state_total(),
        a.item_sets()[state]@.to_set().contains(it),
        it.lr0_item.dot(a.source()) is None,
        a.source().lhs_of(it.lr0_item.production as int) == a.source().start_var(),
    ensures
        table.action_at(state, 0) == Action::Accept,
{
    let k = lemma_item_index(a, state, it);
    assert(!accept_free(a, state));
    assert(accept_free(a, state) || end_free(a, state));
    lemma_end_kept(a, f, state, a.cores(state).len(), table.row(state), k);
}

/// The parser works through a derivation tree. Where the state on top
/// holds an item with the tree's symbol at the dot, the input begins with
/// the sentence of the tree, and what follows the sentence can follow the
/// symbol in the item, as many shifts and reductions as the tree has
/// leaves and productions consume the sentence and enter, above the
/// states there were, the state that the automaton goes to on the symbol.
pub proof fn lemma_tree_run<F: Fn(Conflict) -> Result<Action, Conflict>>(
    a: &LR1A,
    f: F,
    table: NaiveLR1Table,
    tree: Tree,
    it: LR1Item,
    c: Config,
    z: Seq<usize>,
)
    requires
        table_of_lr1(a, f, table),
        c.stack.len() >= 1,
        c.stack.last() < a.state_total(),
        a.item_sets()[c.stack.last() as int]@.to_set().contains(it),
        it.lr0_item.dot(a.source()) is Some,
        derives(a.source(), tree, it.lr0_item.dot(a.source()).unwrap()),
        c.rest == fringe(tree) + z,
        carried(a.source(), it).contains(head_of(z, None)),
    ensures
        a.target(c.stack.last() as int, it.lr0_item.dot(a.source()).unwrap()) matches Some(q)
            && q < a.state_total() && runs(
            &table,
            c,
            weight(tree),
            Config { stack: c.stack.push(q), rest: z },
        ),
        trace(&table, c, weight(tree)) == steps_of(tree),
    decreases tree, 0nat,
{
    let g = a.source();
    let top = c.stack.last() as int;
    let x = it.lr0_item.dot(g).unwrap();
    let k = lemma_item_index(a, top, it);
    lemma_state_step::<LR1Item, LR1ABuilder>(g, a.item_sets(), a.goto_maps(), top, it, x);
    let q = a.target(top, x).unwrap();
    let after = Config { stack: c.stack.push(q), rest: z };
    match tree {
        Tree::Leaf(t) => {
            lemma_shift_entry(a, f, table, top, it, t);
            assert(c.rest[0] == t);
            assert(c.rest.skip(1) =~= z);
            assert(due(&table, c) == Action::Shift(q));
            assert(moved(&table, c) == after);
            assert(runs(&table, after, 0, after));
            assert(trace(&table, after, 0) =~= Seq::<Move>::empty());
            assert(trace(&table, c, 1) =~= seq![Move::Shift]);
        },
        Tree::Node(p, kids) => {
            let var = g.lhs_of(p as int);
            let la = head_of(z, None);
            let fresh = LR1Item { lr0_item: LR0Item { production: p, pos: 0 }, lookahead: la };
            assert(LR1ABuilder::derived(g, it, fresh));
            lemma_state_closed::<LR1Item, LR1ABuilder>(
                g,
                a.item_sets(),
                a.goto_maps(),
                top,
                it,
                fresh,
            );
            let d = lemma_kids_run(a, f, table, p, kids, la, 0, c, z);
            let done = LR1Item {
                lr0_item: LR0Item { production: p, pos: kids.len() as usize },
                lookahead: la,
            };
            assert(var != g.start_var()) by {
                let r = it.lr0_item.production as int;
                let i = it.lr0_item.pos as int;
                assert(g.rhs(r)[i] == Symbol::Variable(var as usize));
                if r < g.production_count() - 1 {
                    assert(g.rhs(r)[i].var_below(g.var_count() - 1));
                }
            }
            lemma_reduce_entry(a, f, table, d.stack.last() as int, done);
            assert(ahead(d) == la);
            assert(due(&table, d) == Action::Reduce(p));
            let r = table.reduction_at(p as int);
            assert(r == Reduction { var: var as usize, count: kids.len() as usize });
            let base = d.stack.take(d.stack.len() - r.count);
            assert(base =~= c.stack);
            assert(table.goto_at(top, var) == a.target(top, Symbol::Variable(var as usize)));
            assert(moves(&table, d));
            assert(moved(&table, d) == after);
            assert(runs(&table, after, 0, after));
            assert(runs(&table, d, 1, after));
            lemma_runs_join(&table, c, weight_of(kids, 0), d, 1, after);
            lemma_trace_join(&table, c, weight_of(kids, 0), d, 1);
            assert(trace(&table, after, 0) =~= Seq::<Move>::empty());
            assert(trace(&table, d, 1) =~= seq![Move::Reduce(p)]);
            assert(trace(&table, c, weight(tree)) =~= steps_of(tree));
        },
    }
}

/// The parser works through the trees of the rest of a production. Where
/// the state on top holds the item of the production with the dot before
/// that rest, the input begins with the sentences of the trees, and the
/// item's lookahead follows them, as many shifts and reductions as the
/// trees have leaves and productions consume the sentences and enter, above
/// the states there were, one state for each tree, the last of which holds
/// the complete item.
pub proof fn lemma_kids_run<F: Fn(Conflict) -> Result<Action, Conflict>>(
    a: &LR1A,
    f: F,
    table: NaiveLR1Table,
    p: usize,
    kids: Seq<Tree>,
    la: Option<usize>,
    from: int,
    c: Config,
    z: Seq<usize>,
) -> (d: Config)
    requires
        table_of_lr1(a, f, table),
        p < a.source().production_count(),
        kids.len() == a.source().rhs(p as int).len(),
        forall|i: int|
            0 <= i < kids.len() ==> derives(a.source(), #[trigger] kids[i], a.source().rhs(
                p as int,
            )[i]),
        0 <= from <= kids.len(),
        c.stack.len() >= 1,
        c.stack.last() < a.state_total(),
        a.item_sets()[c.stack.last() as int]@.to_set().contains(
            LR1Item { lr0_item: LR0Item { production: p, pos: from as usize }, lookahead: la },
        ),
        c.rest == fringe_of(kids, from) + z,
        la == head_of(z, None),
    ensures
        d.stack.len() == c.stack.len() + kids.len() - from,
        d.stack.take(c.stack.len() as int) == c.stack,
        d.rest == z,
        d.stack.last() < a.state_total(),
        a.item_sets()[d.stack.last() as int]@.to_set().contains(
            LR1Item {
                lr0_item: LR0Item { production: p, pos: kids.len() as usize },
                lookahead: la,
            },
        ),
        runs(&table, c, weight_of(kids, from), d),
        trace(&table, c, weight_of(kids, from)) == steps_all(kids, from),
    decreases kids, kids.len() - from,
{
    let g = a.source();
    if from < kids.len() {
        let top = c.stack.last() as int;
        let it = LR1Item { lr0_item: LR0Item { production: p, pos: from as usize }, lookahead: la };
        let x = g.rhs(p as int)[from];
        let behind = fringe_of(kids, from + 1) + z;
        assert(it.lr0_item.dot(g) == Some(x));
        assert(derives(g, kids[from], x));
        assert(c.rest =~= fringe(kids[from]) + behind);
        lemma_tree_feeds(g, p as int, kids, from + 1, la);
        assert(head_of(behind, None) == head_of(fringe_of(kids, from + 1), la));
        lemma_tree_run(a, f, table, kids[from], it, c, behind);
        let q = a.target(top, x).unwrap();
        let c1 = Config { stack: c.stack.push(q), rest: behind };
        lemma_state_step::<LR1Item, LR1ABuilder>(g, a.item_sets(), a.goto_maps(), top, it, x);
        let k = lemma_item_index(a, top, it);
        assert(LR1ABuilder::advanced(it) == LR1Item {
            lr0_item: LR0Item { production: p, pos: (from + 1) as usize },
            lookahead: la,
        });
        let d = lemma_kids_run(a, f, table, p, kids, la, from + 1, c1, z);
        lemma_runs_join(&table, c, weight(kids[from]), c1, weight_of(kids, from + 1), d);
        lemma_trace_join(&table, c, weight(kids[from]), c1, weight_of(kids, from + 1));
        assert(d.stack.take(c.stack.len() as int) =~= d.stack.take(c1.stack.len() as int).take(
            c.stack.len() as int,
        ));
        d
    } else {
        assert(c.rest =~= z);
        assert(c.stack.take(c.stack.len() as int) =~= c.stack);
        assert(trace(&table, c, 0) =~= steps_all(kids, from));
        c
    }
}

/// A sentence of an LR(1) grammar is accepted. Where `tree` derives a
/// sentence from the grammar's first variable, the parser that enters the
/// initial state with the sentence as input makes as many shifts and
/// reductions as the tree has leaves and productions; then the input is
/// consumed, above the initial state stands the state that the automaton
/// goes to on that variable, and the action due is to accept.
pub proof fn lemma_sentence_accepted<F: Fn(Conflict) -> Result<Action, Conflict>>(
    a: &LR1A,
    f: F,
    table: NaiveLR1Table,
    tree: Tree,
)
    requires
        table_of_lr1(a, f, table),
        derives(a.source(), tree, Symbol::Variable(0)),
    ensures
        a.target(0, Symbol::Variable(0)) matches Some(q) && runs(
            &table,
            Config { stack: seq![START_STATE], rest: fringe(tree) },
            weight(tree),
            Config { stack: seq![START_STATE, q], rest: Seq::empty() },
        ) && due(&table, Config { stack: seq![START_STATE, q], rest: Seq::empty() })
            == Action::Accept,
        trace(&table, Config { stack: seq![START_STATE], rest: fringe(tree) }, weight(tree))
            == steps_of(tree),
{
    let g = a.source();
    let start = LR1ABuilder::start(g);
    let c = Config { stack: seq![START_STATE], rest: fringe(tree) };
    let z = Seq::<usize>::empty();
    assert(derives_in::<LR1Item, LR1ABuilder>(g, start, start, 0));
    assert(a.item_sets()[0]@.to_set().contains(start));
    assert(start.lr0_item.dot(g) == Some(Symbol::Variable(0)));
    assert(c.rest =~= fringe(tree) + z);
    assert(tail_nullable(g, g.start_production(), 1));
    assert(carried(g, start).contains(None));
    lemma_tree_run(a, f, table, tree, start, c, z);
    let q = a.target(0, Symbol::Variable(0)).unwrap();
    lemma_state_step::<LR1Item, LR1ABuilder>(
        g,
        a.item_sets(),
        a.goto_maps(),
        0,
        start,
        Symbol::Variable(0),
    );
    lemma_accept_entry(a, f, table, q as int, LR1ABuilder::advanced(start));
    assert(c.stack.push(q) =~= seq![START_STATE, q]);
    a.lemma_shape();
}

/// The table is one for grammar `g`: its productions are those of `g`.
pub open spec fn table_for<P: LR1Table>(table: &P, g: &Grammar) -> bool {
    &&& table.production_total() == g.production_count()
    &&& forall|p: int|
        0 <= p < g.production_count() ==> #[trigger] table.rhs_of(p) == g.rhs(p)
            && table.reduction_at(p).var == g.lhs_of(p)
}

/// A table built from an automaton is one for the automaton's grammar.
pub proof fn lemma_table_for<A: LRAutomaton, F: Fn(Conflict) -> Result<Action, Conflict>>(
    a: &A,
    f: F,
    table: NaiveLR1Table,
)
    requires
        a.wf(),
        built_from(a, f, Ok::<NaiveLR1Table, ConstructionError>(table)),
    ensures
        table_for(&table, a.grammar_of()),
{
    let g = a.grammar_of();
    a.lemma_shape();
    assert forall|p: int| 0 <= p < g.production_count() implies #[trigger] table.rhs_of(p)
        == g.rhs(p) && table.reduction_at(p).var == g.lhs_of(p) by {
        assert(table.reduction_at(p) == Reduction {
            var: g.lhs_of(p) as usize,
            count: g.rhs(p).len() as usize,
        });
    }
}

/// An accepted run is a derivation read from the bottom up. Where the
/// states of `c` were entered on `symbols`, of which `forest` holds a
/// derivation tree each, and `n` shifts and reductions lead from `c` to
/// where the input is accepted, there is a derivation tree of the
/// grammar's first variable whose sentence is what the forest derives,
/// then the input of `c`, and which, read from the bottom up, is the
/// forest, then what the parser does in those `n` steps.
pub proof fn lemma_run_tree<P: LR1Table>(
    table: &P,
    g: &Grammar,
    c: Config,
    symbols: Seq<Symbol>,
    forest: Seq<Tree>,
    n: nat,
    d: Config,
) -> (tree: Tree)
    requires
        table.wf(),
        table.var_total() >= 1,
        table_for(table, g),
        on_path(table, c.stack, symbols),
        forest.len() == symbols.len(),
        forall|i: int| 0 <= i < forest.len() ==> derives(g, #[trigger] forest[i], symbols[i]),
        runs(table, c, n, d),
        due(table, d) == Action::Accept,
    ensures
        derives(g, tree, Symbol::Variable(0)),
        fringe(tree) == fringe_of(forest, 0) + c.rest,
        steps_of(tree) == steps_all(forest, 0) + trace(table, c, n),
    decreases n,
{
    let m = c.stack.len() - 1;
    let top = c.stack[m] as int;
    let col = column_of(ahead(c));
    if n == 0 {
        let last = table.production_total() - 1;
        table.lemma_rooted(top, col, 0, 0, 0);
        lemma_descend(table, c.stack, symbols, m, last, 1, 1);
        table.lemma_rooted(c.stack[m - 1] as int, 0, 0, last, 0);
        if m - 1 >= 1 {
            lemma_left_start(table, c.stack, symbols, m - 1);
        }
        assert(symbols =~= seq![Symbol::Variable(0)]);
        let tree = forest[0];
        assert(c.rest.len() == 0);
        assert(fringe_of(forest, 1) =~= Seq::<usize>::empty());
        assert(fringe(tree) =~= fringe_of(forest, 0) + c.rest);
        assert(steps_all(forest, 1) =~= Seq::<Move>::empty());
        assert(steps_of(tree) =~= steps_all(forest, 0) + trace(table, c, n));
        tree
    } else {
        let c1 = moved(table, c);
        match due(table, c) {
            Action::Shift(s) => {
                let t = c.rest[0];
                let symbols1 = symbols.push(Symbol::Terminal(t));
                let forest1 = forest.push(Tree::Leaf(t));
                table.lemma_entries(top, col, 0);
                assert forall|i: int| 0 <= i < symbols1.len() implies #[trigger] labelled(
                    table,
                    c1.stack,
                    symbols1,
                    i,
                ) by {
                    if i < symbols.len() {
                        assert(labelled(table, c.stack, symbols, i));
                    }
                }
                assert forall|i: int| 0 <= i < forest1.len() implies derives(
                    g,
                    #[trigger] forest1[i],
                    symbols1[i],
                ) by {
                    if i < forest.len() {
                        assert(derives(g, forest[i], symbols[i]));
                    }
                }
                let tree = lemma_run_tree(table, g, c1, symbols1, forest1, (n - 1) as nat, d);
                let one = seq![Tree::Leaf(t)];
                assert(forest1 =~= forest + one);
                lemma_fringe_join(forest, one, 0);
                lemma_steps_join(forest, one, 0);
                assert(one[0] == Tree::Leaf(t));
                assert(fringe(one[0]) =~= seq![t]);
                assert(steps_of(one[0]) =~= seq![Move::Shift]);
                assert(fringe_of(one, 1) =~= Seq::<usize>::empty());
                assert(fringe_of(one, 0) =~= seq![t]);
                assert(steps_all(one, 1) =~= Seq::<Move>::empty());
                assert(steps_all(one, 0) =~= seq![Move::Shift]);
                assert(c.rest =~= seq![t] + c1.rest);
                assert(fringe(tree) =~= fringe_of(forest, 0) + c.rest);
                assert(steps_of(tree) =~= steps_all(forest, 0) + trace(table, c, n));
                tree
            },
            Action::Reduce(p) => {
                let red = table.reduction_at(p as int);
                let count = red.count as int;
                table.lemma_grounded(top, col, 0, 0, 0);
                table.lemma_rooted(top, col, 0, p as int, count);
                table.lemma_entries(top, col, 0);
                lemma_descend(table, c.stack, symbols, m, p as int, count, count);
                let base = c.stack.take(c.stack.len() - count);
                let under = base.last() as int;
                let state = table.goto_at(under, red.var as int).unwrap();
                table.lemma_entries(under, 0, red.var as int);
                let stem = symbols.take(symbols.len() - count);
                let below = forest.take(forest.len() - count);
                let kids = forest.skip(forest.len() - count);
                let node = Tree::Node(p, kids);
                let symbols1 = stem.push(Symbol::Variable(red.var));
                let forest1 = below.push(node);
                assert(table.rhs_of(p as int) == g.rhs(p as int));
                assert forall|i: int| 0 <= i < symbols1.len() implies #[trigger] labelled(
                    table,
                    c1.stack,
                    symbols1,
                    i,
                ) by {
                    if i < stem.len() {
                        assert(labelled(table, c.stack, symbols, i));
                    }
                }
                assert forall|i: int| 0 <= i < kids.len() implies derives(
                    g,
                    #[trigger] kids[i],
                    g.rhs(p as int)[i],
                ) by {
                    let e = m - count + i;
                    assert(kids[i] == forest[e]);
                    assert(derives(g, forest[e], symbols[e]));
                    assert(symbols[e] == table.rhs_of(p as int)[count - (m - e)]);
                }
                assert(derives(g, node, Symbol::Variable(red.var)));
                assert forall|i: int| 0 <= i < forest1.len() implies derives(
                    g,
                    #[trigger] forest1[i],
                    symbols1[i],
                ) by {
                    if i < below.len() {
                        assert(derives(g, forest[i], symbols[i]));
                    }
                }
                let tree = lemma_run_tree(table, g, c1, symbols1, forest1, (n - 1) as nat, d);
                let one = seq![node];
                assert(forest1 =~= below + one);
                assert(forest =~= below + kids);
                lemma_fringe_join(below, one, 0);
                lemma_fringe_join(below, kids, 0);
                lemma_steps_join(below, one, 0);
                lemma_steps_join(below, kids, 0);
                assert(one[0] == node);
                assert(fringe(one[0]) =~= fringe_of(kids, 0));
                assert(steps_of(one[0]) =~= steps_all(kids, 0).push(Move::Reduce(p)));
                assert(fringe_of(one, 1) =~= Seq::<usize>::empty());
                assert(fringe_of(one, 0) =~= fringe_of(kids, 0));
                assert(steps_all(one, 1) =~= Seq::<Move>::empty());
                assert(steps_all(one, 0) =~= steps_all(kids, 0).push(Move::Reduce(p)));
                assert(fringe(tree) =~= fringe_of(forest, 0) + c.rest);
                assert(steps_of(tree) =~= steps_all(forest, 0) + trace(table, c, n));
                tree
            },
            _ => Tree::Leaf(0),
        }
    }
}

/// An accepting run on any table of a grammar is an accepting run on the
/// grammar's LR(1) table. Where `n` shifts and reductions on a
/// well-formed table for the grammar, the LALR(1) table or another, lead
/// from the initial state with input `w` to where the input is accepted,
/// the LR(1) table accepts `w` after `n` steps too, and the parser does
/// the same on both tables, step by step.
pub proof fn lemma_accepted_by_lr1<P: LR1Table, F: Fn(Conflict) -> Result<Action, Conflict>>(
    other: &P,
    a: &LR1A,
    f: F,
    table: NaiveLR1Table,
    w: Seq<usize>,
    n: nat,
    d: Config,
) -> (e: Config)
    requires
        other.wf(),
        other.var_total() >= 1,
        table_for(other, a.source()),
        table_of_lr1(a, f, table),
        runs(other, Config { stack: seq![START_STATE], rest: w }, n, d),
        due(other, d) == Action::Accept,
    ensures
        runs(&table, Config { stack: seq![START_STATE], rest: w }, n, e),
        due(&table, e) == Action::Accept,
        trace(&table, Config { stack: seq![START_STATE], rest: w }, n) == trace(
            other,
            Config { stack: seq![START_STATE], rest: w },
            n,
        ),
{
    let g = a.source();
    let c = Config { stack: seq![START_STATE], rest: w };
    other.lemma_start();
    let tree = lemma_run_tree(other, g, c, Seq::empty(), Seq::empty(), n, d);
    assert(fringe_of(Seq::<Tree>::empty(), 0) =~= Seq::<usize>::empty());
    assert(steps_all(Seq::<Tree>::empty(), 0) =~= Seq::<Move>::empty());
    assert(fringe(tree) =~= w);
    assert(steps_of(tree) =~= trace(other, c, n));
    lemma_sentence_accepted(a, f, table, tree);
    lemma_steps_len(tree);
    lemma_trace_len(other, c, n, d);
    let q = a.target(0, Symbol::Variable(0)).unwrap();
    Config { stack: seq![START_STATE, q], rest: Seq::empty() }
}

/// A sentence of an LR(1) grammar is parsed without error, by its
/// derivation. Where `tree` derives a sentence from the grammar's first
/// variable, and the input holds tokens of the classes of that sentence, a
/// parser made for the input on the grammar's table reports a shift for
/// each leaf of the tree and a reduction for each of its productions, in
/// the order of the tree read from the bottom up, and ends at the step
/// after them.
pub proof fn lemma_sentence_parsed<R: Fn(Conflict) -> Result<Action, Conflict>, T, E, F: Fn(
    &T,
) -> usize>(
    a: &LR1A,
    resolver: R,
    table: NaiveLR1Table,
    tree: Tree,
    f: F,
    input: Seq<Result<T, E>>,
)
    requires
        table_of_lr1(a, resolver, table),
        derives(a.source(), tree, Symbol::Variable(0)),
        classes_of(f, input, fringe(tree)),
    ensures
        parses_as(&table, f, initial(input), steps_of(tree)),
{
    lemma_sentence_accepted(a, resolver, table, tree);
    let q = a.target(0, Symbol::Variable(0)).unwrap();
    let c = Config { stack: seq![START_STATE], rest: fringe(tree) };
    let d = Config { stack: seq![START_STATE, q], rest: Seq::empty() };
    lemma_tracked_run(&table, f, initial(input), c, weight(tree), d);
}

/// Every accepting run on a table of a grammar is an accepting run on the
/// grammar's LR(1) table. Where some run of the parser on a well-formed
/// table for the grammar, the LALR(1) table or another, reports the
/// events of `moves` for an input and then ends, every run of the parser
/// on the LR(1) table reports the same events for that input, and then
/// ends.
pub proof fn lemma_parsed_by_lr1<
    P: LR1Table,
    R: Fn(Conflict) -> Result<Action, Conflict>,
    T,
    E,
    F: Fn(&T) -> usize,
>(
    other: &P,
    a: &LR1A,
    resolver: R,
    table: NaiveLR1Table,
    f: F,
    input: Seq<Result<T, E>>,
    w: Seq<usize>,
    moves: Seq<Move>,
)
    requires
        other.wf(),
        other.var_total() >= 1,
        table_for(other, a.source()),
        table_of_lr1(a, resolver, table),
        classes_of(f, input, w),
        parsed(other, f, initial(input), moves),
    ensures
        parses_as(&table, f, initial(input), moves),
{
    let c = Config { stack: seq![START_STATE], rest: w };
    other.lemma_start();
    let d = lemma_parsed_run(other, f, initial(input), c, Seq::empty(), moves);
    let e = lemma_accepted_by_lr1(other, a, resolver, table, w, moves.len(), d);
    lemma_tracked_run(&table, f, initial(input), c, moves.len(), e);
}

} // verus!
