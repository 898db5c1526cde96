use vstd::prelude::*;
use super::parse::looked_up;
use super::table::{Action, LR1Table, START_STATE};
use crate::grammar::{head_of, weight, weight_of, Tree};

verus! {

/// The parser's stack of states, the current one last, over the classes of
/// the tokens not yet shifted, the lookahead first.
pub ghost struct Config {
    pub stack: Seq<usize>,
    pub rest: Seq<usize>,
}

/// The class of the lookahead; none at the end of the input.
pub open spec fn ahead(c: Config) -> Option<usize> {
    head_of(c.rest, None)
}

/// The action that the table has for the state on top and the lookahead.
pub open spec fn due<P: LR1Table>(table: &P, c: Config) -> Action {
    looked_up(table, c.stack.last() as int, ahead(c))
}

/// The action due is a shift, with a token to shift, or a reduction that
/// leaves a state on the stack for which the table has a GOTO entry.
pub open spec fn moves<P: LR1Table>(table: &P, c: Config) -> bool {
    match due(table, c) {
        Action::Shift(_) => c.rest.len() > 0,
        Action::Reduce(p) => {
            let r = table.reduction_at(p as int);
            r.count < c.stack.len() && table.goto_at(
                c.stack[c.stack.len() - r.count - 1] as int,
                r.var as int,
            ) is Some
        },
        _ => false,
    }
}

/// What the action due makes of the stack and the input.
pub open spec fn moved<P: LR1Table>(table: &P, c: Config) -> Config {
    match due(table, c) {
        Action::Shift(s) => Config { stack: c.stack.push(s), rest: c.rest.skip(1) },
        Action::Reduce(p) => {
            let r = table.reduction_at(p as int);
            let base = c.stack.take(c.stack.len() - r.count);
            Config {
                stack: base.push(table.goto_at(base.last() as int, r.var as int).unwrap()),
                rest: c.rest,
            }
        },
        _ => c,
    }
}

/// `n` shifts and reductions lead from `c` to `d`.
pub open spec fn runs<P: LR1Table>(table: &P, c: Config, n: nat, d: Config) -> bool
    decreases n,
{
    if n == 0 {
        d == c
    } else {
        moves(table, c) && runs(table, moved(table, c), (n - 1) as nat, d)
    }
}

/// `n` shifts and reductions lead from the initial state, with input `w`,
/// to where the input is accepted.
pub open spec fn accepts_in<P: LR1Table>(table: &P, w: Seq<usize>, n: nat) -> bool {
    exists|d: Config| #[trigger]
        runs(table, Config { stack: seq![START_STATE], rest: w }, n, d) && due(table, d)
            == Action::Accept
}

/// One run after another is a run.
pub proof fn lemma_runs_join<P: LR1Table>(
    table: &P,
    c: Config,
    n: nat,
    d: Config,
    m: nat,
    e: Config,
)
    requires
        runs(table, c, n, d),
        runs(table, d, m, e),
    ensures
        runs(table, c, n + m, e),
    decreases n,
{
    if n > 0 {
        lemma_runs_join(table, moved(table, c), (n - 1) as nat, d, m, e);
    }
}

/// What the parser does in a step: it shifts a token of a class, or
/// reduces by a production.
pub ghost enum Move {
    Shift,
    Reduce(usize),
}

/// A tree read from the bottom up and from left to right: each leaf is a
/// shift, and each production a reduction, made once the trees below it
/// are read.
pub open spec fn steps_of(tree: Tree) -> Seq<Move>
    decreases tree, 0nat,
{
    match tree {
        Tree::Leaf(_) => seq![Move::Shift],
        Tree::Node(p, kids) => steps_all(kids, 0).push(Move::Reduce(p)),
    }
}

/// The trees `kids[from..]` read one after the other.
pub open spec fn steps_all(kids: Seq<Tree>, from: int) -> Seq<Move>
    decreases kids, kids.len() - from,
{
    if 0 <= from < kids.len() {
        steps_of(kids[from]) + steps_all(kids, from + 1)
    } else {
        Seq::empty()
    }
}

/// What the action due does, if it is a shift or a reduction.
pub open spec fn made<P: LR1Table>(table: &P, c: Config) -> Option<Move> {
    match due(table, c) {
        Action::Shift(_) => Some(Move::Shift),
        Action::Reduce(p) => Some(Move::Reduce(p)),
        _ => None,
    }
}

/// What the parser does in the first `n` steps from `c`.
pub open spec fn trace<P: LR1Table>(table: &P, c: Config, n: nat) -> Seq<Move>
    decreases n,
{
    if n == 0 {
        Seq::empty()
    } else {
        match made(table, c) {
            Some(m) => seq![m] + trace(table, moved(table, c), (n - 1) as nat),
            None => Seq::empty(),
        }
    }
}

/// What is done in one run after another is what is done in the first,
/// then what is done in the second.
pub proof fn lemma_trace_join<P: LR1Table>(table: &P, c: Config, n: nat, d: Config, m: nat)
    requires
        runs(table, c, n, d),
    ensures
        trace(table, c, n + m) == trace(table, c, n) + trace(table, d, m),
    decreases n,
{
    if n > 0 {
        lemma_trace_join(table, moved(table, c), (n - 1) as nat, d, m);
        assert(trace(table, c, n + m) =~= trace(table, c, n) + trace(table, d, m));
    } else {
        assert(trace(table, c, n + m) =~= trace(table, c, n) + trace(table, d, m));
    }
}

/// The moves of trees in a row are those of the first ones, then those of
/// the others.
pub proof fn lemma_steps_join(a: Seq<Tree>, b: Seq<Tree>, from: int)
    requires
        0 <= from <= a.len(),
    ensures
        steps_all(a + b, from) == steps_all(a, from) + steps_all(b, 0),
    decreases a.len() - from,
{
    if from < a.len() {
        lemma_steps_join(a, b, from + 1);
        assert((a + b)[from] == a[from]);
        assert(steps_all(a + b, from) =~= steps_all(a, from) + steps_all(b, 0));
    } else {
        lemma_steps_shift(a, b, 0);
        assert(steps_all(a + b, from) =~= steps_all(a, from) + steps_all(b, 0));
    }
}

/// Trees in front of a row do not change the moves of those behind them.
pub proof fn lemma_steps_shift(a: Seq<Tree>, b: Seq<Tree>, from: int)
    requires
        0 <= from <= b.len(),
    ensures
        steps_all(a + b, a.len() + from) == steps_all(b, from),
    decreases b.len() - from,
{
    if from < b.len() {
        lemma_steps_shift(a, b, from + 1);
        assert((a + b)[a.len() + from] == b[from]);
    }
}

/// A tree is read in as many moves as it has leaves and productions.
pub proof fn lemma_steps_len(tree: Tree)
    ensures
        steps_of(tree).len() == weight(tree),
    decreases tree, 0nat,
{
    match tree {
        Tree::Leaf(_) => {},
        Tree::Node(_, kids) => {
            lemma_steps_all_len(kids, 0);
        },
    }
}

/// Trees are read in as many moves as they have leaves and productions.
pub proof fn lemma_steps_all_len(kids: Seq<Tree>, from: int)
    ensures
        steps_all(kids, from).len() == weight_of(kids, from),
    decreases kids, kids.len() - from,
{
    if 0 <= from < kids.len() {
        lemma_steps_len(kids[from]);
        lemma_steps_all_len(kids, from + 1);
    }
}

/// A run of `n` steps does `n` things.
pub proof fn lemma_trace_len<P: LR1Table>(table: &P, c: Config, n: nat, d: Config)
    requires
        runs(table, c, n, d),
    ensures
        trace(table, c, n).len() == n,
    decreases n,
{
    if n > 0 {
        lemma_trace_len(table, moved(table, c), (n - 1) as nat, d);
    }
}

} // verus!
