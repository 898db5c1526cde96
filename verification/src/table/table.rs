use vstd::prelude::*;
use super::construct::{Conflict, ConstructionError};
use crate::automata::{LR0Item, LRAutomaton};
use crate::grammar::{Grammar, Symbol};
use crate::index_set::{class_ok, column, column_of};

verus! {

/// The state in which parsing starts.
pub const START_STATE: usize = 0;

/// An entry of the ACTION table.
#[derive(Debug, Clone, Copy, PartialEq, Eq, Structural)]
pub enum Action {
    Invalid,
    Accept,
    /// shift to a *state*
    Shift(usize),
    /// reduce via a *production*
    Reduce(usize),
}

/// What a reduction by a production does: how many symbols it takes off
/// and which variable it puts in their place.
#[derive(Debug, Clone, Copy, PartialEq, Eq, Structural)]
pub struct Reduction {
    pub var: usize,
    pub count: usize,
}

/// An LR(1) parsing table as the parser sees it.
pub trait LR1Table {
    /// The table's invariant: its layout, and that its entries name states,
    /// productions and variables that exist.
    spec fn wf(&self) -> bool;

    /// The table has an entry for every state and column it counts.
    spec fn shaped(&self) -> bool;

    /// A well-formed table has its entries.
    proof fn lemma_shaped(&self)
        requires
            self.wf(),
        ensures
            self.shaped(),
    ;

    /// Number of states.
    spec fn state_total(&self) -> int;

    /// Number of ACTION columns: one for end of input, then one per
    /// terminal class.
    spec fn column_total(&self) -> int;

    /// Number of GOTO columns.
    spec fn var_total(&self) -> int;

    /// Number of productions.
    spec fn production_total(&self) -> int;

    /// The ACTION entry of a state in a column; column 0 is end of input,
    /// column `t + 1` is terminal `t`.
    spec fn action_at(&self, state: int, column: int) -> Action;

    /// The GOTO entry of a state for a variable.
    spec fn goto_at(&self, state: int, var: int) -> Option<usize>;

    /// What a reduction by a production does.
    spec fn reduction_at(&self, production: int) -> Reduction;

    /// The entries name what exists: a shift leads to a state and does not
    /// stand in the end-of-input column, a reduction goes by a production
    /// whose variable has a GOTO column, and a GOTO entry leads to a state.
    proof fn lemma_entries(&self, state: int, column: int, var: int)
        requires
            self.wf(),
            0 <= state < self.state_total(),
        ensures
            self.column_total() >= 1,
            0 <= column < self.column_total() ==> action_fine(
                self.action_at(state, column),
                column,
                self.state_total(),
                self.production_total(),
            ),
            0 <= column < self.column_total()
                ==> (self.action_at(state, column) matches Action::Reduce(
                p,
            ) ==> self.reduction_at(p as int).var < self.var_total()),
            0 <= var < self.var_total() ==> (self.goto_at(state, var) matches Some(t) ==> t
                < self.state_total()),
    ;

    /// There is an initial state.
    proof fn lemma_start(&self)
        requires
            self.wf(),
        ensures
            self.state_total() >= 1,
    ;

    /// The state stands for a set of items that holds the item of
    /// `production` with the dot before position `pos`.
    spec fn holds_item(&self, state: int, production: int, pos: int) -> bool;

    /// The entries go back to items: a state reduces by a production only
    /// if it holds the production's complete item; an item with the dot
    /// behind the start, in a state that a shift or a GOTO entry leads to,
    /// stems from the item with the dot one position further left in the
    /// state before; the items of the initial state have the dot at the
    /// start; and a state that holds a production with the dot at the start
    /// has a GOTO entry for the production's variable, if that has a GOTO
    /// column.
    proof fn lemma_grounded(&self, state: int, column: int, var: int, production: int, pos: int)
        requires
            self.wf(),
            0 <= state < self.state_total(),
        ensures
            0 <= column < self.column_total()
                ==> (self.action_at(state, column) matches Action::Reduce(
                p,
            ) ==> self.holds_item(state, p as int, self.reduction_at(p as int).count as int)),
            0 <= column < self.column_total()
                ==> (self.action_at(state, column) matches Action::Shift(
                t,
            ) ==> (self.holds_item(t as int, production, pos) && pos >= 1 ==> self.holds_item(
                state,
                production,
                pos - 1,
            ))),
            0 <= var < self.var_total() ==> (self.goto_at(state, var) matches Some(t) ==> (
            self.holds_item(t as int, production, pos) && pos >= 1 ==> self.holds_item(
                state,
                production,
                pos - 1,
            ))),
            self.holds_item(0, production, pos) ==> pos == 0,
            self.holds_item(state, production, 0) && 0 <= production < self.production_total()
                && self.reduction_at(production).var < self.var_total() ==> self.goto_at(
                state,
                self.reduction_at(production).var as int,
            ) is Some,
    ;

    /// The right-hand side of a production.
    spec fn rhs_of(&self, production: int) -> Seq<Symbol>;

    /// The entries go back to the grammar: the last production is the
    /// augmented start production; a reduction takes off as many symbols as
    /// its production has; the items are items of the productions; a shift
    /// or GOTO entry leads to a state whose items with the dot behind the
    /// start have the entry's terminal or variable in front of the dot, and
    /// never to the initial state; the input is accepted only at its end,
    /// in a state that holds the complete item of the augmented start
    /// production; and, where there is a GOTO column, only the initial
    /// state holds that production with the dot at the start.
    proof fn lemma_rooted(&self, state: int, column: int, var: int, production: int, pos: int)
        requires
            self.wf(),
            0 <= state < self.state_total(),
        ensures
            self.production_total() >= 1,
            self.rhs_of(self.production_total() - 1) == seq![Symbol::Variable(0)],
            0 <= production < self.production_total() ==> self.reduction_at(production).count
                == self.rhs_of(production).len(),
            self.holds_item(state, production, pos) ==> 0 <= production < self.production_total()
                && 0 <= pos <= self.rhs_of(production).len(),
            0 <= column < self.column_total()
                ==> (self.action_at(state, column) matches Action::Shift(
                t,
            ) ==> t != 0 && (self.holds_item(t as int, production, pos) && pos >= 1 ==> column >= 1
                && self.rhs_of(production)[pos - 1] == Symbol::Terminal((column - 1) as usize))),
            0 <= var < self.var_total() ==> (self.goto_at(state, var) matches Some(t) ==> t != 0
                && (self.holds_item(t as int, production, pos) && pos >= 1 ==> self.rhs_of(
                production,
            )[pos - 1] == Symbol::Variable(var as usize))),
            0 <= column < self.column_total() && self.action_at(state, column) == Action::Accept
                ==> column == 0 && self.holds_item(state, self.production_total() - 1, 1),
            self.var_total() >= 1 && self.holds_item(state, self.production_total() - 1, 0)
                ==> state == 0,
    ;

    /// Number of terminal classes: the ACTION columns but the first.
    fn word_count(&self) -> (n: usize)
        requires
            self.shaped(),
        ensures
            n + 1 == self.column_total(),
    ;

    /// The action of `state` on `word`; `None` is end of input.
    fn action(&self, state: usize, word: Option<usize>) -> (action: Action)
        requires
            self.shaped(),
            state < self.state_total(),
            class_ok(word),
            column_of(word) < self.column_total(),
        ensures
            action == self.action_at(state as int, column_of(word)),
    ;

    /// The state that follows `state` once `var` has been recognised.
    fn goto(&self, state: usize, var: usize) -> (next: Option<usize>)
        requires
            self.shaped(),
            state < self.state_total(),
            var < self.var_total(),
        ensures
            next == self.goto_at(state as int, var as int),
    ;

    /// What a reduction by `production` does.
    fn reduction(&self, production: usize) -> (reduction: Reduction)
        requires
            self.shaped(),
            production < self.production_total(),
        ensures
            reduction == self.reduction_at(production as int),
    ;
}

/// A shift leads to one of `states` states and stands in the column of a
/// terminal; a reduction goes by one of `productions` productions.
pub open spec fn action_fine(action: Action, column: int, states: int, productions: int) -> bool {
    match action {
        Action::Shift(s) => s < states && column >= 1,
        Action::Reduce(p) => p < productions,
        _ => true,
    }
}

/// A row of `w` entries without actions.
pub open spec fn blank_row(w: int) -> Seq<Action> {
    Seq::new(w as nat, |c: int| Action::Invalid)
}

/// The terminal of a column, as a conflict reports it. The end-of-input
/// column has none: there the count wraps.
pub open spec fn word_before(column: int) -> usize {
    if column == 0 {
        usize::MAX
    } else {
        (column - 1) as usize
    }
}

/// What a shift on `word` to `next_state` makes of an entry: it replaces
/// anything but a reduction; against a reduction the resolver decides.
pub open spec fn shift_into<F: Fn(Conflict) -> Result<Action, Conflict>>(
    f: F,
    cell: Action,
    word: usize,
    next_state: usize,
    out: Result<Action, Conflict>,
) -> bool {
    match cell {
        Action::Reduce(production) => f.ensures(
            (Conflict::ShiftReduce { word, next_state, production },),
            out,
        ),
        _ => out == Ok::<Action, Conflict>(Action::Shift(next_state)),
    }
}

/// What a reduction by `production` makes of the entry in `column`: it
/// fills an entry without a shift or reduction; against either the
/// resolver decides.
pub open spec fn reduce_into<F: Fn(Conflict) -> Result<Action, Conflict>>(
    f: F,
    cell: Action,
    column: int,
    production: usize,
    out: Result<Action, Conflict>,
) -> bool {
    match cell {
        Action::Shift(next_state) => f.ensures(
            (Conflict::ShiftReduce { word: word_before(column), next_state, production },),
            out,
        ),
        Action::Reduce(production1) => f.ensures(
            (Conflict::ReduceReduce { production1, production2: production },),
            out,
        ),
        _ => out == Ok::<Action, Conflict>(Action::Reduce(production)),
    }
}

/// `row_out` is `row_in` with the entry in `column` settled for a
/// reduction by `production`.
pub open spec fn reduce_step<F: Fn(Conflict) -> Result<Action, Conflict>>(
    f: F,
    row_in: Seq<Action>,
    column: int,
    production: usize,
    row_out: Seq<Action>,
) -> bool {
    exists|act: Action| #[trigger]
        reduce_into(f, row_in[column], column, production, Ok::<Action, Conflict>(act))
            && row_out == row_in.update(column, act)
}

/// `row_out` is `row_in` with the entry of `word` settled for a shift to
/// `next_state`.
pub open spec fn shift_step<F: Fn(Conflict) -> Result<Action, Conflict>>(
    f: F,
    row_in: Seq<Action>,
    word: usize,
    next_state: usize,
    row_out: Seq<Action>,
) -> bool {
    exists|act: Action| #[trigger]
        shift_into(f, row_in[word + 1], word, next_state, Ok::<Action, Conflict>(act))
            && row_out == row_in.update(word + 1, act)
}

/// `row_out` is what the reductions of a complete item on its first `m`
/// lookaheads, all settled, make of `row_in`.
pub open spec fn la_ok<A: LRAutomaton, F: Fn(Conflict) -> Result<Action, Conflict>>(
    a: &A,
    f: F,
    state: int,
    item: int,
    m: nat,
    row_in: Seq<Action>,
    row_out: Seq<Action>,
) -> bool
    decreases m,
{
    if m == 0 {
        row_out == row_in
    } else {
        exists|mid: Seq<Action>, j: nat|
            j + 1 == m && la_ok(a, f, state, item, j, row_in, mid) && #[trigger] reduce_step(
                f,
                mid,
                column_of(a.lookahead_seq(state, item)[j as int]),
                a.cores(state)[item].production,
                row_out,
            )
    }
}

/// The reductions of a complete item fail with conflict `c`: after some
/// lookaheads were settled, the resolver hands `c` back for the next.
pub open spec fn la_err<A: LRAutomaton, F: Fn(Conflict) -> Result<Action, Conflict>>(
    a: &A,
    f: F,
    state: int,
    item: int,
    row_in: Seq<Action>,
    c: Conflict,
) -> bool {
    exists|m: nat, mid: Seq<Action>|
        m < a.lookahead_seq(state, item).len()
            && #[trigger] la_ok(a, f, state, item, m, row_in, mid)
            && reduce_into(
            f,
            mid[column_of(a.lookahead_seq(state, item)[m as int])],
            column_of(a.lookahead_seq(state, item)[m as int]),
            a.cores(state)[item].production,
            Err(c),
        )
}

/// `row_out` is what item `k` of `state` makes of `row_in`: an item with a
/// terminal at the dot shifts on it, a complete item reduces on its
/// lookaheads, the complete item of the augmented start production
/// accepts on end of input, and an item with a variable at the dot leaves
/// the row as it is.
pub open spec fn item_done<A: LRAutomaton, F: Fn(Conflict) -> Result<Action, Conflict>>(
    a: &A,
    f: F,
    state: int,
    k: int,
    row_in: Seq<Action>,
    row_out: Seq<Action>,
) -> bool {
    let g = a.grammar_of();
    let item = a.cores(state)[k];
    match item.dot(g) {
        Some(Symbol::Terminal(word)) => shift_step(
            f,
            row_in,
            word,
            a.target(state, Symbol::Terminal(word)).unwrap(),
            row_out,
        ),
        Some(Symbol::Variable(_)) => row_out == row_in,
        None => if g.lhs_of(item.production as int) != g.start_var() {
            la_ok(a, f, state, k, a.lookahead_seq(state, k).len(), row_in, row_out)
        } else {
            row_out == row_in.update(0, Action::Accept)
        },
    }
}

/// Item `k` of `state` fails on `row_in` with conflict `c`.
pub open spec fn item_failed<A: LRAutomaton, F: Fn(Conflict) -> Result<Action, Conflict>>(
    a: &A,
    f: F,
    state: int,
    k: int,
    row_in: Seq<Action>,
    c: Conflict,
) -> bool {
    let g = a.grammar_of();
    let item = a.cores(state)[k];
    match item.dot(g) {
        Some(Symbol::Terminal(word)) => shift_into(
            f,
            row_in[word + 1],
            word,
            a.target(state, Symbol::Terminal(word)).unwrap(),
            Err(c),
        ),
        Some(Symbol::Variable(_)) => false,
        None => g.lhs_of(item.production as int) != g.start_var() && la_err(
            a,
            f,
            state,
            k,
            row_in,
            c,
        ),
    }
}

/// `row` is what the first `k` items of `state`, taken in order, make of a
/// blank row.
pub open spec fn row_ok<A: LRAutomaton, F: Fn(Conflict) -> Result<Action, Conflict>>(
    a: &A,
    f: F,
    state: int,
    k: nat,
    row: Seq<Action>,
) -> bool
    decreases k,
{
    if k == 0 {
        row == blank_row(a.grammar_of().word_total() as int + 1)
    } else {
        exists|mid: Seq<Action>, j: nat|
            j + 1 == k && row_ok(a, f, state, j, mid) && #[trigger] item_done(
                a,
                f,
                state,
                j as int,
                mid,
                row,
            )
    }
}

/// The row of `state` fails with conflict `c`: after some items were
/// entered, the next fails with `c`.
pub open spec fn row_err<A: LRAutomaton, F: Fn(Conflict) -> Result<Action, Conflict>>(
    a: &A,
    f: F,
    state: int,
    c: Conflict,
) -> bool {
    exists|k: nat, mid: Seq<Action>|
        k < a.cores(state).len() && #[trigger] row_ok(a, f, state, k, mid) && item_failed(
            a,
            f,
            state,
            k as int,
            mid,
            c,
        )
}

/// The action is one of those in conflict, or none at all.
pub open spec fn drawn_from(c: Conflict, action: Action) -> bool {
    match action {
        Action::Invalid => true,
        Action::Accept => false,
        Action::Shift(s) => match c {
            Conflict::ShiftReduce { word, next_state, production } => s == next_state,
            Conflict::ReduceReduce { production1, production2 } => false,
        },
        Action::Reduce(p) => match c {
            Conflict::ShiftReduce { word, next_state, production } => p == production,
            Conflict::ReduceReduce { production1, production2 } => p == production1 || p
                == production2,
        },
    }
}

impl Conflict {
    /// Whether `action` is one of the actions in this conflict, or none at
    /// all.
    pub fn allows(&self, action: &Action) -> (r: bool)
        ensures
            r == drawn_from(*self, *action),
    {
        match *action {
            Action::Invalid => true,
            Action::Accept => false,
            Action::Shift(s) => match *self {
                Conflict::ShiftReduce { word: _, next_state, production: _ } => s == next_state,
                Conflict::ReduceReduce { production1: _, production2: _ } => false,
            },
            Action::Reduce(p) => match *self {
                Conflict::ShiftReduce { word: _, next_state: _, production } => p == production,
                Conflict::ReduceReduce { production1, production2 } => p == production1 || p
                    == production2,
            },
        }
    }
}

/// The resolver settles a conflict only by one of the actions in conflict,
/// or by leaving the entry without an action.
pub open spec fn drawn<F: Fn(Conflict) -> Result<Action, Conflict>>(f: F) -> bool {
    forall|c: Conflict, action: Action| #[trigger]
        f.ensures((c,), Ok::<Action, Conflict>(action)) ==> drawn_from(c, action)
}

/// The resolver hands back no other conflict than the one it was given.
pub open spec fn hands_back<F: Fn(Conflict) -> Result<Action, Conflict>>(f: F) -> bool {
    forall|c: Conflict, x: Conflict| #[trigger]
        f.ensures((c,), Err::<Action, Conflict>(x)) ==> x == c
}

/// The state holds the complete item of the production.
pub open spec fn holds_complete<A: LRAutomaton>(a: &A, state: int, production: usize) -> bool {
    exists|k: int|
        0 <= k < a.cores(state).len() && #[trigger] a.cores(state)[k] == (LR0Item {
            production,
            pos: a.grammar_of().rhs(production as int).len() as usize,
        })
}

/// The conflict arises in the state: the state holds the complete items
/// of the productions in conflict, and has the transition in conflict.
pub open spec fn conflict_in_state<A: LRAutomaton>(a: &A, state: int, c: Conflict) -> bool {
    match c {
        Conflict::ShiftReduce { word, next_state, production } => a.target(
            state,
            Symbol::Terminal(word),
        ) == Some(next_state) && holds_complete(a, state, production),
        Conflict::ReduceReduce { production1, production2 } => holds_complete(
            a,
            state,
            production1,
        ) && holds_complete(a, state, production2),
    }
}

/// The resolver settles every conflict.
pub open spec fn never_fails<F: Fn(Conflict) -> Result<Action, Conflict>>(f: F) -> bool {
    forall|c: Conflict, x: Conflict| !#[trigger] f.ensures((c,), Err::<Action, Conflict>(x))
}

/// The entry of `state` in `column` goes back to the automaton: a shift
/// stands in the column of a terminal and leads where the state's
/// transition on that terminal leads; a reduction goes by a production,
/// not the augmented start production, whose complete item the state
/// holds; and the input is accepted at its end, in a state that holds the
/// complete item of the augmented start production.
pub open spec fn cell_fine<A: LRAutomaton>(a: &A, state: int, cell: Action, column: int) -> bool {
    let g = a.grammar_of();
    match cell {
        Action::Shift(s) => column >= 1 && a.target(
            state,
            Symbol::Terminal((column - 1) as usize),
        ) == Some(s),
        Action::Reduce(p) => p < g.production_count() && g.lhs_of(p as int) != g.start_var()
            && exists|k: int|
            0 <= k < a.cores(state).len() && #[trigger] a.cores(state)[k] == (LR0Item {
                production: p,
                pos: g.rhs(p as int).len() as usize,
            }),
        Action::Accept => column == 0 && exists|k: int|
            0 <= k < a.cores(state).len() && #[trigger] a.cores(state)[k] == (LR0Item {
                production: g.start_production() as usize,
                pos: 1,
            }),
        Action::Invalid => true,
    }
}

/// Every entry of the row of `state` goes back to the automaton.
pub open spec fn row_fine<A: LRAutomaton>(a: &A, state: int, row: Seq<Action>) -> bool {
    forall|c: int| 0 <= c < row.len() ==> cell_fine(a, state, #[trigger] row[c], c)
}

/// A table for the grammar of an LR(1)-like automaton, stored as two dense
/// arrays.
pub struct NaiveLR1Table {
    actions: Vec<Action>,  // lookup what action to perform given state and word
    gotos: Vec<Option<usize>>,  // lookup what state should be transitioned to after reduction
    reductions: Vec<Reduction>,  // production --> rule and number of symbols
    word_count: usize,
    var_count: usize,
    state_count: usize,
    cores: Ghost<Seq<Seq<LR0Item>>>,
    rhs: Ghost<Seq<Seq<Symbol>>>,
}

/// The place of an entry in a dense array of rows of width `w`.
pub proof fn lemma_flat_index(s: int, c: int, w: int, n: int)
    requires
        0 <= s < n,
        0 <= c < w,
    ensures
        0 <= s * w + c < n * w,
        s * w + w == (s + 1) * w,
        0 <= s * w,
{
    assert(s * w + w == (s + 1) * w) by (nonlinear_arith);
    assert((s + 1) * w <= n * w) by (nonlinear_arith)
        requires
            s + 1 <= n,
            0 < w,
    ;
    assert(0 <= s * w) by (nonlinear_arith)
        requires
            0 <= s,
            0 < w,
    ;
}

impl NaiveLR1Table {
    /// The ACTION columns of a state.
    pub open spec fn row(&self, state: int) -> Seq<Action> {
        Seq::new(self.column_total() as nat, |c: int| self.action_at(state, c))
    }

    /// Consistency of the dense arrays.
    pub closed spec fn layout_ok(&self) -> bool {
        &&& self.word_count >= 1
        &&& self.state_count >= 1
        &&& self.reductions@.len() <= usize::MAX
        &&& self.actions@.len() == self.state_count * self.word_count
        &&& self.gotos@.len() == self.state_count * self.var_count
    }

    /// The items that each state stands for.
    pub closed spec fn cores(&self) -> Seq<Seq<LR0Item>> {
        self.cores@
    }

    /// The entries go back to the items of the states: a state reduces by
    /// a production only if it holds the production's complete item; an
    /// item with the dot behind the start, in a state that a shift or a
    /// GOTO entry leads to, stems from the item with the dot one position
    /// further left in the state before; the items of the initial state
    /// have the dot at the start; and a state that holds a production with
    /// the dot at the start has a GOTO entry for the production's variable,
    /// if that has a GOTO column.
    pub closed spec fn grounded(&self) -> bool {
        let cores = self.cores@;
        &&& cores.len() == self.state_count
        &&& forall|q: int, c: int|
            0 <= q < self.state_count && 0 <= c < self.word_count ==> (
            #[trigger] self.actions@[q * self.word_count + c] matches Action::Reduce(p) ==> p
                < self.reductions@.len() && cores[q].contains(
                LR0Item { production: p, pos: self.reductions@[p as int].count },
            ))
        &&& forall|q: int, c: int, t: int, k: int|
            0 <= q < self.state_count && 0 <= c < self.word_count && 0 <= t < self.state_count
                && #[trigger] self.actions@[q * self.word_count + c] == Action::Shift(t as usize)
                && 0 <= k < cores[t].len() && (#[trigger] cores[t][k]).pos >= 1
                ==> cores[q].contains(
                LR0Item { production: cores[t][k].production, pos: (cores[t][k].pos - 1) as usize },
            )
        &&& forall|q: int, v: int, t: int, k: int|
            0 <= q < self.state_count && 0 <= v < self.var_count && 0 <= t < self.state_count
                && #[trigger] self.gotos@[q * self.var_count + v] == Some(t as usize) && 0 <= k
                < cores[t].len() && (#[trigger] cores[t][k]).pos >= 1 ==> cores[q].contains(
                LR0Item { production: cores[t][k].production, pos: (cores[t][k].pos - 1) as usize },
            )
        &&& forall|k: int| 0 <= k < cores[0].len() ==> (#[trigger] cores[0][k]).pos == 0
        &&& forall|q: int, k: int|
            0 <= q < self.state_count && 0 <= k < cores[q].len() && (#[trigger] cores[q][k]).pos
                == 0 && cores[q][k].production < self.reductions@.len()
                && self.reductions@[cores[q][k].production as int].var < self.var_count
                ==> self.gotos@[q * self.var_count
                + self.reductions@[cores[q][k].production as int].var] is Some
    }

    /// The right-hand sides of the productions.
    pub closed spec fn right_sides(&self) -> Seq<Seq<Symbol>> {
        self.rhs@
    }

    /// The entries go back to the grammar: a reduction takes off as many
    /// symbols as its production has; the last production is the augmented
    /// start production; the items are items of the productions; a shift
    /// or GOTO entry leads to a state whose items with the dot behind the
    /// start have the entry's terminal or variable in front of the dot, and
    /// never to the initial state; the input is accepted only at its end,
    /// in a state that holds the complete item of the augmented start
    /// production; and, in a grammar with a rule, only the initial state
    /// holds that production with the dot at the start.
    pub closed spec fn rooted(&self) -> bool {
        let cores = self.cores@;
        let rhs = self.rhs@;
        &&& rhs.len() == self.reductions@.len()
        &&& rhs.len() >= 1
        &&& forall|p: int|
            0 <= p < rhs.len() ==> (#[trigger] self.reductions@[p]).count == rhs[p].len()
        &&& rhs[rhs.len() - 1] == seq![Symbol::Variable(0)]
        &&& forall|q: int, k: int|
            0 <= q < self.state_count && 0 <= k < cores[q].len() ==> (
            #[trigger] cores[q][k]).production < rhs.len() && cores[q][k].pos
                <= rhs[cores[q][k].production as int].len()
        &&& forall|q: int, c: int, t: int, k: int|
            0 <= q < self.state_count && 0 <= c < self.word_count && 0 <= t < self.state_count
                && #[trigger] self.actions@[q * self.word_count + c] == Action::Shift(t as usize)
                && 0 <= k < cores[t].len() && (#[trigger] cores[t][k]).pos >= 1 ==> c >= 1
                && rhs[cores[t][k].production as int][cores[t][k].pos - 1] == Symbol::Terminal(
                (c - 1) as usize,
            )
        &&& forall|q: int, v: int, t: int, k: int|
            0 <= q < self.state_count && 0 <= v < self.var_count && 0 <= t < self.state_count
                && #[trigger] self.gotos@[q * self.var_count + v] == Some(t as usize) && 0 <= k
                < cores[t].len() && (#[trigger] cores[t][k]).pos >= 1
                ==> rhs[cores[t][k].production as int][cores[t][k].pos - 1] == Symbol::Variable(
                v as usize,
            )
        &&& forall|q: int, c: int|
            0 <= q < self.state_count && 0 <= c < self.word_count
                && #[trigger] self.actions@[q * self.word_count + c] == Action::Accept ==> c == 0
                && cores[q].contains(LR0Item { production: (rhs.len() - 1) as usize, pos: 1 })
        &&& forall|q: int, k: int|
            0 <= q < self.state_count && 0 <= k < cores[q].len() && self.var_count >= 1 && (
            #[trigger] cores[q][k]) == (LR0Item { production: (rhs.len() - 1) as usize, pos: 0 })
                ==> q == 0
        &&& forall|q: int, c: int|
            0 <= q < self.state_count && 0 <= c < self.word_count
                ==> #[trigger] self.actions@[q * self.word_count + c] != Action::Shift(0)
        &&& forall|q: int, v: int|
            0 <= q < self.state_count && 0 <= v < self.var_count
                ==> #[trigger] self.gotos@[q * self.var_count + v] != Some(0usize)
    }

    /// The entries name what exists: a shift leads to a state and does not
    /// stand in the end-of-input column, a reduction goes by a production
    /// whose variable has a GOTO column, and a GOTO entry leads to a state.
    pub open spec fn targets_ok(&self) -> bool {
        &&& forall|state: int, column: int|
            0 <= state < self.state_total() && 0 <= column < self.column_total() ==> action_fine(
                #[trigger] self.action_at(state, column),
                column,
                self.state_total(),
                self.production_total(),
            ) && (self.action_at(state, column) matches Action::Reduce(p) ==> self.reduction_at(
                p as int,
            ).var < self.var_total())
        &&& forall|state: int, var: int|
            0 <= state < self.state_total() && 0 <= var < self.var_total() ==> (
            #[trigger] self.goto_at(state, var) matches Some(t) ==> t < self.state_total())
    }
}

impl LR1Table for NaiveLR1Table {
    open spec fn wf(&self) -> bool {
        self.layout_ok() && self.targets_ok() && self.grounded() && self.rooted()
    }

    open spec fn shaped(&self) -> bool {
        self.layout_ok()
    }

    proof fn lemma_shaped(&self) {
    }

    closed spec fn state_total(&self) -> int {
        self.state_count as int
    }

    closed spec fn column_total(&self) -> int {
        self.word_count as int
    }

    closed spec fn var_total(&self) -> int {
        self.var_count as int
    }

    closed spec fn production_total(&self) -> int {
        self.reductions@.len() as int
    }

    closed spec fn action_at(&self, state: int, column: int) -> Action {
        self.actions@[state * self.word_count + column]
    }

    closed spec fn goto_at(&self, state: int, var: int) -> Option<usize> {
        self.gotos@[state * self.var_count + var]
    }

    closed spec fn reduction_at(&self, production: int) -> Reduction {
        self.reductions@[production]
    }

    closed spec fn holds_item(&self, state: int, production: int, pos: int) -> bool {
        &&& 0 <= state < self.cores@.len()
        &&& 0 <= production <= usize::MAX
        &&& 0 <= pos <= usize::MAX
        &&& self.cores@[state].contains(
            LR0Item { production: production as usize, pos: pos as usize },
        )
    }

    proof fn lemma_start(&self) {
    }

    open spec fn rhs_of(&self, production: int) -> Seq<Symbol> {
        self.right_sides()[production]
    }

    proof fn lemma_rooted(&self, state: int, column: int, var: int, production: int, pos: int) {
        let cores = self.cores@;
        let rhs = self.rhs@;
        let last = (rhs.len() - 1) as usize;
        if 0 <= production < self.production_total() {
            assert(self.reductions@[production].count == rhs[production].len());
        }
        if self.holds_item(state, production, pos) {
            let item = LR0Item { production: production as usize, pos: pos as usize };
            let k = choose|k: int| 0 <= k < cores[state].len() && cores[state][k] == item;
            assert(cores[state][k].production < rhs.len());
            if self.var_total() >= 1 && production == self.production_total() - 1 && pos == 0 {
                assert(cores[state][k] == (LR0Item { production: last, pos: 0 }));
            }
        }
        if 0 <= column < self.column_total() {
            let cell = self.actions@[state * self.word_count + column];
            assert(action_fine(
                self.action_at(state, column),
                column,
                self.state_total(),
                self.production_total(),
            ));
            assert(cell != Action::Shift(0));
            if let Action::Shift(t) = cell {
                if self.holds_item(t as int, production, pos) && pos >= 1 {
                    let item = LR0Item { production: production as usize, pos: pos as usize };
                    let k = choose|k: int| 0 <= k < cores[t as int].len()
                        && cores[t as int][k] == item;
                    assert(cores[t as int][k].pos >= 1);
                }
            }
            if cell == Action::Accept {
                let item = LR0Item { production: last, pos: 1 };
                assert(cores[state].contains(item));
            }
        }
        if 0 <= var < self.var_total() {
            let cell = self.gotos@[state * self.var_count + var];
            assert(self.goto_at(state, var) matches Some(t) ==> t < self.state_total());
            assert(cell != Some(0usize));
            if let Some(t) = cell {
                if self.holds_item(t as int, production, pos) && pos >= 1 {
                    let item = LR0Item { production: production as usize, pos: pos as usize };
                    let k = choose|k: int| 0 <= k < cores[t as int].len()
                        && cores[t as int][k] == item;
                    assert(cores[t as int][k].pos >= 1);
                }
            }
        }
    }

    proof fn lemma_grounded(&self, state: int, column: int, var: int, production: int, pos: int) {
        let cores = self.cores@;
        if 0 <= column < self.column_total() {
            let cell = self.actions@[state * self.word_count + column];
            assert(action_fine(
                self.action_at(state, column),
                column,
                self.state_total(),
                self.production_total(),
            ));
            if let Action::Shift(t) = cell {
                if self.holds_item(t as int, production, pos) && pos >= 1 {
                    let item = LR0Item { production: production as usize, pos: pos as usize };
                    let k = choose|k: int| 0 <= k < cores[t as int].len()
                        && cores[t as int][k] == item;
                    assert(cores[t as int][k].pos >= 1);
                }
            }
        }
        if 0 <= var < self.var_total() {
            let cell = self.gotos@[state * self.var_count + var];
            assert(self.goto_at(state, var) matches Some(t) ==> t < self.state_total());
            if let Some(t) = cell {
                if self.holds_item(t as int, production, pos) && pos >= 1 {
                    let item = LR0Item { production: production as usize, pos: pos as usize };
                    let k = choose|k: int| 0 <= k < cores[t as int].len()
                        && cores[t as int][k] == item;
                    assert(cores[t as int][k].pos >= 1);
                }
            }
        }
        if self.holds_item(0, production, pos) {
            let item = LR0Item { production: production as usize, pos: pos as usize };
            let k = choose|k: int| 0 <= k < cores[0].len() && cores[0][k] == item;
            assert(cores[0][k].pos == 0);
        }
        if self.holds_item(state, production, 0) && 0 <= production < self.production_total()
            && self.reduction_at(production).var < self.var_total() {
            let item = LR0Item { production: production as usize, pos: 0 };
            let k = choose|k: int| 0 <= k < cores[state].len() && cores[state][k] == item;
            assert(cores[state][k].pos == 0);
        }
    }

    proof fn lemma_entries(&self, state: int, column: int, var: int) {
        if 0 <= column < self.column_total() {
            assert(action_fine(
                self.action_at(state, column),
                column,
                self.state_total(),
                self.production_total(),
            ));
        }
        if 0 <= var < self.var_total() {
            assert(self.goto_at(state, var) matches Some(t) ==> t < self.state_total());
        }
    }

    fn word_count(&self) -> (n: usize) {
        self.word_count - 1
    }

    fn action(&self, state: usize, word: Option<usize>) -> (action: Action) {
        let col = column(word);
        let total = self.actions.len();
        proof {
            lemma_flat_index(state as int, col as int, self.word_count as int,
                self.state_count as int);
        }
        self.actions[state * self.word_count + col]
    }

    fn goto(&self, state: usize, var: usize) -> (next: Option<usize>) {
        let total = self.gotos.len();
        proof {
            lemma_flat_index(state as int, var as int, self.var_count as int,
                self.state_count as int);
        }
        self.gotos[state * self.var_count + var]
    }

    fn reduction(&self, production: usize) -> (reduction: Reduction) {
        self.reductions[production]
    }
}

/// The items of `state`, taken in order, make a row of a blank row: the
/// resolver hands back none of the conflicts found in it.
pub open spec fn row_settled<A: LRAutomaton, F: Fn(Conflict) -> Result<Action, Conflict>>(
    a: &A,
    f: F,
    state: int,
) -> bool {
    exists|row: Seq<Action>| row_ok(a, f, state, a.cores(state).len(), row)
}

/// What building the table of automaton `a` with resolver `f` gives: a
/// table whose rows are what the items of the states, taken in order, make
/// of blank rows, whose GOTO entries are the automaton's transitions on
/// variables but the augmented start variable, and whose reductions are the
/// grammar's productions; or the first conflict, by state and item, that
/// the resolver handed back: every state before that of the conflict is
/// settled.
pub open spec fn built_from<A: LRAutomaton, F: Fn(Conflict) -> Result<Action, Conflict>>(
    a: &A,
    f: F,
    r: Result<NaiveLR1Table, ConstructionError>,
) -> bool {
    let g = a.grammar_of();
    match r {
        Ok(t) => {
            &&& t.layout_ok()
            &&& t.state_total() == a.state_total()
            &&& t.column_total() == g.word_total() + 1
            &&& t.var_total() == g.var_count() - 1
            &&& t.production_total() == g.production_count()
            &&& forall|state: int|
                0 <= state < a.state_total() ==> row_ok(
                    a,
                    f,
                    state,
                    a.cores(state).len(),
                    #[trigger] t.row(state),
                )
            &&& forall|state: int, var: int|
                0 <= state < a.state_total() && 0 <= var < g.var_count() - 1
                    ==> #[trigger] t.goto_at(state, var) == a.target(
                    state,
                    Symbol::Variable(var as usize),
                )
            &&& forall|p: int|
                0 <= p < g.production_count() ==> #[trigger] t.reduction_at(p) == (Reduction {
                    var: g.lhs_of(p) as usize,
                    count: g.rhs(p).len() as usize,
                })
            &&& drawn(f) ==> t.targets_ok() && t.grounded() && t.rooted()
            &&& t.right_sides() == Seq::new(g.production_count() as nat, |p: int| g.rhs(p))
        },
        Err(e) => {
            &&& e.state < a.state_total()
            &&& forall|s: int| 0 <= s < e.state ==> #[trigger] row_settled(a, f, s)
            &&& row_err(a, f, e.state as int, e.conflict)
            &&& !never_fails(f)
            &&& drawn(f) && hands_back(f) ==> conflict_in_state(a, e.state as int, e.conflict)
        },
    }
}

/// One more lookahead settled.
proof fn lemma_la_step<A: LRAutomaton, F: Fn(Conflict) -> Result<Action, Conflict>>(
    a: &A,
    f: F,
    state: int,
    item: int,
    m: nat,
    row_in: Seq<Action>,
    mid: Seq<Action>,
    row_out: Seq<Action>,
)
    requires
        la_ok(a, f, state, item, m, row_in, mid),
        reduce_step(
            f,
            mid,
            column_of(a.lookahead_seq(state, item)[m as int]),
            a.cores(state)[item].production,
            row_out,
        ),
    ensures
        la_ok(a, f, state, item, m + 1, row_in, row_out),
{
}

/// One more item entered.
proof fn lemma_row_step<A: LRAutomaton, F: Fn(Conflict) -> Result<Action, Conflict>>(
    a: &A,
    f: F,
    state: int,
    k: nat,
    mid: Seq<Action>,
    row: Seq<Action>,
)
    requires
        row_ok(a, f, state, k, mid),
        item_done(a, f, state, k as int, mid, row),
    ensures
        row_ok(a, f, state, k + 1, row),
{
}

/// Enters the reductions of a complete item on its lookaheads into `row`.
fn enter_reductions<A: LRAutomaton, F: Fn(Conflict) -> Result<Action, Conflict>>(
    automaton: &A,
    f: &F,
    row: &mut Vec<Action>,
    state: usize,
    item: usize,
    production: usize,
) -> (r: Result<(), Conflict>)
    requires
        automaton.wf(),
        state < automaton.state_total(),
        item < automaton.cores(state as int).len(),
        production == automaton.cores(state as int)[item as int].production,
        automaton.cores(state as int)[item as int].dot(automaton.grammar_of()) is None,
        automaton.grammar_of().lhs_of(production as int) != automaton.grammar_of().start_var(),
        old(row)@.len() == automaton.grammar_of().word_total() + 1,
        forall|c: Conflict| f.requires((c,)),
    ensures
        final(row)@.len() == old(row)@.len(),
        r is Ok ==> la_ok(
            automaton,
            *f,
            state as int,
            item as int,
            automaton.lookahead_seq(state as int, item as int).len(),
            old(row)@,
            final(row)@,
        ),
        r matches Err(c) ==> la_err(automaton, *f, state as int, item as int, old(row)@, c)
            && !never_fails(*f) && (drawn(*f) && hands_back(*f) && row_fine(
            automaton,
            state as int,
            old(row)@,
        ) ==> conflict_in_state(automaton, state as int, c)),
        r is Ok && drawn(*f) && row_fine(automaton, state as int, old(row)@)
            ==> row_fine(automaton, state as int, final(row)@),
{
    let lookaheads = automaton.lookaheads(state, item);
    let ghost las = automaton.lookahead_seq(state as int, item as int);
    proof {
        automaton.lemma_item(state as int, item as int);
        automaton.grammar_of().lemma_word_total();
    }
    let mut m: usize = 0;
    while m < lookaheads.len()
        invariant
            automaton.wf(),
            state < automaton.state_total(),
            item < automaton.cores(state as int).len(),
            production == automaton.cores(state as int)[item as int].production,
            automaton.cores(state as int)[item as int].dot(automaton.grammar_of()) is None,
            production < automaton.grammar_of().production_count(),
            automaton.grammar_of().lhs_of(production as int) != automaton.grammar_of().start_var(),
            automaton.grammar_of().word_total() < usize::MAX,
            lookaheads@ == las,
            las == automaton.lookahead_seq(state as int, item as int),
            forall|k: int|
                0 <= k < las.len() ==> (#[trigger] las[k] matches Some(t) ==> t
                    < automaton.grammar_of().word_total()),
            m <= las.len(),
            row@.len() == automaton.grammar_of().word_total() + 1,
            row@.len() == old(row)@.len(),
            forall|c: Conflict| f.requires((c,)),
            la_ok(automaton, *f, state as int, item as int, m as nat, old(row)@, row@),
            drawn(*f) && row_fine(automaton, state as int, old(row)@)
                ==> row_fine(automaton, state as int, row@),
        decreases las.len() - m,
    {
        let lookahead = lookaheads[m];
        proof {
            assert(las[m as int] matches Some(t) ==> t < automaton.grammar_of().word_total());
        }
        let col = column(lookahead);
        let ghost mid = row@;
        let cell = row[col];
        let answer = match cell {
            Action::Shift(next_state) => {
                let word = if col == 0 {
                    usize::MAX
                } else {
                    col - 1
                };
                f(Conflict::ShiftReduce { word, next_state, production })
            },
            Action::Reduce(production1) => {
                f(Conflict::ReduceReduce { production1, production2: production })
            },
            _ => Ok(Action::Reduce(production)),
        };
        proof {
            assert(reduce_into(*f, mid[col as int], col as int, production, answer));
        }
        match answer {
            Ok(action) => {
                row[col] = action;
                proof {
                    assert(row@ == mid.update(col as int, action));
                    assert(reduce_step(*f, mid, col as int, production, row@));
                    lemma_la_step(automaton, *f, state as int, item as int, m as nat, old(row)@,
                        mid, row@);
                    assert(la_ok(
                        automaton,
                        *f,
                        state as int,
                        item as int,
                        (m + 1) as nat,
                        old(row)@,
                        row@,
                    ));
                    if drawn(*f) && row_fine(automaton, state as int, old(row)@) {
                        automaton.lemma_item(state as int, item as int);
                        let me = automaton.cores(state as int)[item as int];
                        assert(me == (LR0Item {
                            production,
                            pos: automaton.grammar_of().rhs(production as int).len() as usize,
                        }));
                        assert(cell_fine(
                            automaton,
                            state as int,
                            Action::Reduce(production),
                            col as int,
                        ));
                        assert(cell_fine(automaton, state as int, mid[col as int], col as int));
                        assert forall|c: int| 0 <= c < row@.len() implies cell_fine(
                            automaton,
                            state as int,
                            #[trigger] row@[c],
                            c,
                        ) by {
                            if c != col {
                                assert(cell_fine(automaton, state as int, mid[c], c));
                            }
                        }
                    }
                }
            },
            Err(conflict) => {
                proof {
                    assert(la_ok(automaton, *f, state as int, item as int, m as nat, old(row)@,
                        mid));
                    assert(la_err(automaton, *f, state as int, item as int, old(row)@, conflict));
                    if drawn(*f) && hands_back(*f) && row_fine(automaton, state as int, old(row)@) {
                        automaton.lemma_item(state as int, item as int);
                        let me = automaton.cores(state as int)[item as int];
                        assert(me == (LR0Item {
                            production,
                            pos: automaton.grammar_of().rhs(production as int).len() as usize,
                        }));
                        assert(holds_complete(automaton, state as int, production));
                        assert(cell_fine(automaton, state as int, mid[col as int], col as int));
                    }
                }
                return Err(conflict);
            },
        }
        m = m + 1;
    }
    Ok(())
}

/// The ACTION row of a state.
fn build_row<A: LRAutomaton, F: Fn(Conflict) -> Result<Action, Conflict>>(
    automaton: &A,
    f: &F,
    state: usize,
    width: usize,
) -> (r: Result<Vec<Action>, Conflict>)
    requires
        automaton.wf(),
        state < automaton.state_total(),
        width == automaton.grammar_of().word_total() + 1,
        forall|c: Conflict| f.requires((c,)),
    ensures
        r matches Ok(row) ==> row@.len() == width && row_ok(
            automaton,
            *f,
            state as int,
            automaton.cores(state as int).len(),
            row@,
        ) && (drawn(*f) ==> row_fine(automaton, state as int, row@)),
        r matches Err(c) ==> row_err(automaton, *f, state as int, c) && !never_fails(*f) && (
        drawn(*f) && hands_back(*f) ==> conflict_in_state(automaton, state as int, c)),
{
    let grammar = automaton.grammar();
    proof {
        automaton.lemma_target(state as int, Symbol::Variable(0));
    }
    let start_var = grammar.variable_count() - 1;
    let mut row: Vec<Action> = Vec::new();
    let mut c: usize = 0;
    while c < width
        invariant
            c <= width,
            row@.len() == c,
            forall|k: int| 0 <= k < c ==> row@[k] == Action::Invalid,
        decreases width - c,
    {
        row.push(Action::Invalid);
        c = c + 1;
    }
    proof {
        assert(row@ =~= blank_row(width as int));
    }
    let count = automaton.item_count(state);
    let mut k: usize = 0;
    while k < count
        invariant
            automaton.wf(),
            grammar == automaton.grammar_of(),
            grammar.wf(),
            start_var == grammar.start_var(),
            state < automaton.state_total(),
            width == grammar.word_total() + 1,
            count == automaton.cores(state as int).len(),
            k <= count,
            row@.len() == width,
            forall|c: Conflict| f.requires((c,)),
            row_ok(automaton, *f, state as int, k as nat, row@),
            drawn(*f) ==> row_fine(automaton, state as int, row@),
        decreases count - k,
    {
        let item = automaton.item_core(state, k);
        let ghost mid = row@;
        proof {
            automaton.lemma_item(state as int, k as int);
            grammar.lemma_word_total();
        }
        if !item.is_complete(grammar) {
            let symbol = item.symbol_at_dot(grammar).unwrap();
            if let Symbol::Terminal(word) = symbol {
                // The item is incomplete and has a terminal at the dot.
                proof {
                    assert(grammar.rhs(item.production as int)[item.pos as int].word_below(
                        grammar.word_total() as int,
                    ));
                    automaton.lemma_target(state as int, symbol);
                }
                let next_state = automaton.transition(state, symbol).unwrap();
                let cell = row[word + 1];
                // Note: shift-shift conflicts cannot occur
                let answer = if let Action::Reduce(production) = cell {
                    f(Conflict::ShiftReduce { word, next_state, production })
                } else {
                    Ok(Action::Shift(next_state))
                };
                proof {
                    assert(shift_into(*f, mid[word + 1], word, next_state, answer));
                }
                match answer {
                    Ok(action) => {
                        row[word + 1] = action;
                        proof {
                            assert(row@ == mid.update(word + 1, action));
                            assert(shift_step(*f, mid, word, next_state, row@));
                            assert(item_done(automaton, *f, state as int, k as int, mid, row@));
                            if drawn(*f) {
                                assert(cell_fine(automaton, state as int, mid[word + 1], word + 1));
                                assert forall|c: int| 0 <= c < row@.len() implies cell_fine(
                                    automaton,
                                    state as int,
                                    #[trigger] row@[c],
                                    c,
                                ) by {
                                    if c != word + 1 {
                                        assert(cell_fine(automaton, state as int, mid[c], c));
                                    }
                                }
                            }
                        }
                    },
                    Err(conflict) => {
                        proof {
                            assert(item_failed(automaton, *f, state as int, k as int, mid,
                                conflict));
                            assert(row_err(automaton, *f, state as int, conflict));
                            if drawn(*f) && hands_back(*f) {
                                assert(cell_fine(automaton, state as int, mid[word + 1], word + 1));
                            }
                        }
                        return Err(conflict);
                    },
                }
            } else {
                proof {
                    assert(item_done(automaton, *f, state as int, k as int, mid, row@));
                }
            }
        } else if grammar.lhs(item.production) < start_var {
            // The item is complete and not of the augmented start variable.
            match enter_reductions(automaton, f, &mut row, state, k, item.production) {
                Ok(()) => {
                    proof {
                        assert(item_done(automaton, *f, state as int, k as int, mid, row@));
                    }
                },
                Err(conflict) => {
                    proof {
                        assert(item_failed(automaton, *f, state as int, k as int, mid, conflict));
                        assert(row_err(automaton, *f, state as int, conflict));
                    }
                    return Err(conflict);
                },
            }
        } else {
            // The item is complete and of the augmented start variable: accept at end of input.
            row[0] = Action::Accept;
            proof {
                assert(row@ == mid.update(0, Action::Accept));
                assert(item_done(automaton, *f, state as int, k as int, mid, row@));
                if drawn(*f) {
                    assert forall|c: int| 0 <= c < row@.len() implies cell_fine(
                        automaton,
                        state as int,
                        #[trigger] row@[c],
                        c,
                    ) by {
                        if c != 0 {
                            assert(cell_fine(automaton, state as int, mid[c], c));
                        }
                    }
                }
            }
        }
        proof {
            lemma_row_step(automaton, *f, state as int, k as nat, mid, row@);
            assert(row_ok(automaton, *f, state as int, (k + 1) as nat, row@));
        }
        k = k + 1;
    }
    Ok(row)
}

impl NaiveLR1Table {
    /// Flattens an automaton into a table. Where two actions compete for
    /// an entry, `conflict_resolution` decides: the action it returns is
    /// entered; the conflict it returns ends the construction.
    pub fn build<A: LRAutomaton, F: Fn(Conflict) -> Result<Action, Conflict>>(
        automaton: &A,
        conflict_resolution: F,
    ) -> (r: Result<NaiveLR1Table, ConstructionError>)
        requires
            automaton.wf(),
            forall|c: Conflict| conflict_resolution.requires((c,)),
        ensures
            built_from(automaton, conflict_resolution, r),
            never_fails(conflict_resolution) ==> r is Ok,
    {
        let grammar = automaton.grammar();
        proof {
            automaton.lemma_shape();
        }
        let word_count = grammar.word_count() + 1;  // +1 for eof
        let var_count = grammar.variable_count() - 1;  // implicit start variable not needed in goto table
        let num_states = automaton.state_count();
        let production_count = grammar.production_total();
        let mut reductions: Vec<Reduction> = Vec::new();
        let mut p: usize = 0;
        while p < production_count
            invariant
                grammar.wf(),
                production_count == grammar.production_count(),
                p <= production_count,
                reductions@.len() == p,
                forall|q: int|
                    0 <= q < p ==> #[trigger] reductions@[q] == (Reduction {
                        var: grammar.lhs_of(q) as usize,
                        count: grammar.rhs(q).len() as usize,
                    }),
            decreases production_count - p,
        {
            reductions.push(Reduction { var: grammar.lhs(p), count: grammar.rhs_len(p) });
            p = p + 1;
        }
        let mut actions: Vec<Action> = Vec::new();
        let mut gotos: Vec<Option<usize>> = Vec::new();
        let ghost mut rows: Seq<Seq<Action>> = Seq::empty();
        let mut i: usize = 0;
        while i < num_states
            invariant
                automaton.wf(),
                grammar == automaton.grammar_of(),
                grammar.wf(),
                word_count == grammar.word_total() + 1,
                var_count == grammar.var_count() - 1,
                num_states == automaton.state_total(),
                i <= num_states,
                forall|c: Conflict| conflict_resolution.requires((c,)),
                actions@.len() == i * word_count,
                gotos@.len() == i * var_count,
                rows.len() == i,
                forall|s: int|
                    0 <= s < i ==> (#[trigger] rows[s]).len() == word_count && row_ok(
                        automaton,
                        conflict_resolution,
                        s,
                        automaton.cores(s).len(),
                        rows[s],
                    ) && (drawn(conflict_resolution) ==> row_fine(automaton, s, rows[s])),
                forall|s: int, c: int|
                    0 <= s < i && 0 <= c < word_count ==> #[trigger] actions@[s * word_count + c]
                        == rows[s][c],
                forall|s: int, v: int|
                    0 <= s < i && 0 <= v < var_count ==> #[trigger] gotos@[s * var_count + v]
                        == automaton.target(s, Symbol::Variable(v as usize)),
            decreases num_states - i,
        {
            let row = match build_row(automaton, &conflict_resolution, i, word_count) {
                Ok(row) => row,
                Err(conflict) => {
                    proof {
                        assert forall|s: int| 0 <= s < i implies #[trigger] row_settled(
                            automaton,
                            conflict_resolution,
                            s,
                        ) by {
                            assert(row_ok(
                                automaton,
                                conflict_resolution,
                                s,
                                automaton.cores(s).len(),
                                rows[s],
                            ));
                        }
                    }
                    return Err(ConstructionError { state: i, conflict });
                },
            };
            let ghost actions0 = actions@;
            let ghost gotos0 = gotos@;
            proof {
                lemma_flat_index(i as int, 0, word_count as int, num_states as int);
            }
            let mut c: usize = 0;
            while c < word_count
                invariant
                    c <= word_count,
                    row@.len() == word_count,
                    actions0.len() == i * word_count,
                    actions@.len() == actions0.len() + c,
                    forall|k: int| 0 <= k < actions0.len() ==> actions@[k] == actions0[k],
                    forall|j: int|
                        actions0.len() <= j < actions@.len() ==> #[trigger] actions@[j]
                            == row@[j - actions0.len()],
                decreases word_count - c,
            {
                actions.push(row[c]);
                c = c + 1;
            }
            let mut v: usize = 0;
            while v < var_count
                invariant
                    automaton.wf(),
                    i < automaton.state_total(),
                    v <= var_count,
                    gotos0.len() == i * var_count,
                    gotos@.len() == gotos0.len() + v,
                    forall|k: int| 0 <= k < gotos0.len() ==> gotos@[k] == gotos0[k],
                    forall|j: int|
                        gotos0.len() <= j < gotos@.len() ==> #[trigger] gotos@[j]
                            == automaton.target(
                            i as int,
                            Symbol::Variable((j - gotos0.len()) as usize),
                        ),
                decreases var_count - v,
            {
                gotos.push(automaton.transition(i, Symbol::Variable(v)));
                v = v + 1;
            }
            proof {
                let w = word_count as int;
                let vc = var_count as int;
                rows = rows.push(row@);
                assert(i * w + w == (i + 1) * w) by (nonlinear_arith);
                assert(i * vc + vc == (i + 1) * vc) by (nonlinear_arith);
                assert forall|s: int, c: int|
                    0 <= s < i + 1 && 0 <= c < w implies #[trigger] actions@[s * w + c]
                    == rows[s][c] by {
                    if s < i {
                        lemma_flat_index(s, c, w, i as int);
                        assert(actions0[s * w + c] == rows[s][c]);
                    }
                }
                assert forall|s: int, v: int|
                    0 <= s < i + 1 && 0 <= v < vc implies #[trigger] gotos@[s * vc + v]
                    == automaton.target(s, Symbol::Variable(v as usize)) by {
                    if s < i {
                        lemma_flat_index(s, v, vc, i as int);
                        assert(gotos0[s * vc + v] == automaton.target(
                            s,
                            Symbol::Variable(v as usize),
                        ));
                    }
                }
            }
            i = i + 1;
        }
        let table = NaiveLR1Table {
            actions,
            gotos,
            reductions,
            word_count,
            var_count,
            state_count: num_states,
            cores: Ghost(Seq::new(num_states as nat, |q: int| automaton.cores(q))),
            rhs: Ghost(Seq::new(production_count as nat, |p: int| grammar.rhs(p))),
        };
        proof {
            let w = word_count as int;
            assert forall|state: int| 0 <= state < automaton.state_total() implies row_ok(
                automaton,
                conflict_resolution,
                state,
                automaton.cores(state).len(),
                #[trigger] table.row(state),
            ) by {
                assert(table.row(state) =~= rows[state]);
            }
            if drawn(conflict_resolution) {
                let g = automaton.grammar_of();
                let cores = table.cores@;
                assert forall|state: int, column: int|
                    0 <= state < table.state_total() && 0 <= column
                        < table.column_total() implies action_fine(
                    #[trigger] table.action_at(state, column),
                    column,
                    table.state_total(),
                    table.production_total(),
                ) && (table.action_at(state, column) matches Action::Reduce(p)
                    ==> table.reduction_at(p as int).var < table.var_total()) by {
                    assert(table.action_at(state, column) == rows[state][column]);
                    assert(cell_fine(automaton, state, rows[state][column], column));
                    if let Action::Shift(s) = rows[state][column] {
                        automaton.lemma_target(state, Symbol::Terminal((column - 1) as usize));
                    }
                }
                assert forall|state: int, var: int|
                    0 <= state < table.state_total() && 0 <= var < table.var_total() implies (
                #[trigger] table.goto_at(state, var) matches Some(t) ==> t
                    < table.state_total()) by {
                    automaton.lemma_target(state, Symbol::Variable(var as usize));
                }
                assert forall|q: int, c: int|
                    0 <= q < table.state_count && 0 <= c < table.word_count implies (
                #[trigger] table.actions@[q * table.word_count + c] matches Action::Reduce(p) ==> p
                    < table.reductions@.len() && cores[q].contains(
                    LR0Item { production: p, pos: table.reductions@[p as int].count },
                )) by {
                    assert(table.actions@[q * w + c] == rows[q][c]);
                    assert(cell_fine(automaton, q, rows[q][c], c));
                    if let Action::Reduce(p) = rows[q][c] {
                        let k = choose|k: int|
                            0 <= k < automaton.cores(q).len() && #[trigger] automaton.cores(q)[k]
                                == (LR0Item { production: p, pos: g.rhs(p as int).len() as usize });
                        assert(cores[q][k] == (LR0Item {
                            production: p,
                            pos: table.reductions@[p as int].count,
                        }));
                    }
                }
                assert forall|q: int, c: int, t: int, k: int|
                    0 <= q < table.state_count && 0 <= c < table.word_count && 0 <= t
                        < table.state_count && #[trigger] table.actions@[q * table.word_count + c]
                        == Action::Shift(t as usize) && 0 <= k < cores[t].len() && (
                    #[trigger] cores[t][k]).pos >= 1 implies cores[q].contains(
                    LR0Item {
                        production: cores[t][k].production,
                        pos: (cores[t][k].pos - 1) as usize,
                    },
                ) by {
                    assert(table.actions@[q * w + c] == rows[q][c]);
                    assert(cell_fine(automaton, q, rows[q][c], c));
                    let x = Symbol::Terminal((c - 1) as usize);
                    automaton.lemma_kernel(q, x, k);
                    let j = choose|j: int|
                        0 <= j < automaton.cores(q).len() && #[trigger] automaton.cores(q)[j]
                            == (LR0Item {
                            production: automaton.cores(t)[k].production,
                            pos: (automaton.cores(t)[k].pos - 1) as usize,
                        });
                    assert(cores[q][j] == automaton.cores(q)[j]);
                }
                assert forall|q: int, v: int, t: int, k: int|
                    0 <= q < table.state_count && 0 <= v < table.var_count && 0 <= t
                        < table.state_count && #[trigger] table.gotos@[q * table.var_count + v]
                        == Some(t as usize) && 0 <= k < cores[t].len() && (
                    #[trigger] cores[t][k]).pos >= 1 implies cores[q].contains(
                    LR0Item {
                        production: cores[t][k].production,
                        pos: (cores[t][k].pos - 1) as usize,
                    },
                ) by {
                    let x = Symbol::Variable(v as usize);
                    assert(table.gotos@[q * table.var_count + v] == automaton.target(q, x));
                    automaton.lemma_kernel(q, x, k);
                    let j = choose|j: int|
                        0 <= j < automaton.cores(q).len() && #[trigger] automaton.cores(q)[j]
                            == (LR0Item {
                            production: automaton.cores(t)[k].production,
                            pos: (automaton.cores(t)[k].pos - 1) as usize,
                        });
                    assert(cores[q][j] == automaton.cores(q)[j]);
                }
                assert forall|k: int| 0 <= k < cores[0].len() implies (#[trigger] cores[0][k]).pos
                    == 0 by {
                    automaton.lemma_initial(k);
                }
                assert forall|q: int, k: int|
                    0 <= q < table.state_count && 0 <= k < cores[q].len() && (
                    #[trigger] cores[q][k]).pos == 0 && cores[q][k].production
                        < table.reductions@.len()
                        && table.reductions@[cores[q][k].production as int].var
                        < table.var_count implies table.gotos@[q * table.var_count
                    + table.reductions@[cores[q][k].production as int].var] is Some by {
                    let p = cores[q][k].production as int;
                    let v = table.reductions@[p].var as int;
                    automaton.lemma_fresh(q, k);
                    assert(table.gotos@[q * table.var_count + v] == automaton.target(
                        q,
                        Symbol::Variable(v as usize),
                    ));
                }
                let rhs = table.rhs@;
                assert forall|p: int| 0 <= p < rhs.len() implies (#[trigger] table.reductions@[p]).count
                    == rhs[p].len() by {}
                assert forall|q: int, k: int| 0 <= q < table.state_count
                    && 0 <= k < cores[q].len() implies (
                #[trigger] cores[q][k]).production < rhs.len() && cores[q][k].pos
                    <= rhs[cores[q][k].production as int].len() by {
                    automaton.lemma_item(q, k);
                }
                assert forall|q: int, c: int, t: int, k: int|
                    0 <= q < table.state_count && 0 <= c < table.word_count && 0 <= t
                        < table.state_count && #[trigger] table.actions@[q * table.word_count + c]
                        == Action::Shift(t as usize) && 0 <= k < cores[t].len() && (
                    #[trigger] cores[t][k]).pos >= 1 implies c >= 1
                    && rhs[cores[t][k].production as int][cores[t][k].pos - 1]
                    == Symbol::Terminal((c - 1) as usize) by {
                    assert(table.actions@[q * w + c] == rows[q][c]);
                    assert(cell_fine(automaton, q, rows[q][c], c));
                    automaton.lemma_kernel(q, Symbol::Terminal((c - 1) as usize), k);
                }
                assert forall|q: int, v: int, t: int, k: int|
                    0 <= q < table.state_count && 0 <= v < table.var_count && 0 <= t
                        < table.state_count && #[trigger] table.gotos@[q * table.var_count + v]
                        == Some(t as usize) && 0 <= k < cores[t].len() && (
                    #[trigger] cores[t][k]).pos >= 1 implies rhs[cores[t][k].production as int][cores[t][k].pos
                    - 1] == Symbol::Variable(v as usize) by {
                    let x = Symbol::Variable(v as usize);
                    assert(table.gotos@[q * table.var_count + v] == automaton.target(q, x));
                    automaton.lemma_kernel(q, x, k);
                }
                assert forall|q: int, c: int|
                    0 <= q < table.state_count && 0 <= c < table.word_count
                        && #[trigger] table.actions@[q * table.word_count + c]
                        == Action::Accept implies c == 0 && cores[q].contains(
                    LR0Item { production: (rhs.len() - 1) as usize, pos: 1 },
                ) by {
                    assert(table.actions@[q * w + c] == rows[q][c]);
                    assert(cell_fine(automaton, q, rows[q][c], c));
                    let k = choose|k: int|
                        0 <= k < automaton.cores(q).len() && #[trigger] automaton.cores(q)[k]
                            == (LR0Item { production: g.start_production() as usize, pos: 1 });
                    assert(cores[q][k] == automaton.cores(q)[k]);
                }
                assert forall|q: int, k: int|
                    0 <= q < table.state_count && 0 <= k < cores[q].len() && table.var_count >= 1
                        && (#[trigger] cores[q][k]) == (LR0Item {
                        production: (rhs.len() - 1) as usize,
                        pos: 0,
                    }) implies q == 0 by {
                    automaton.lemma_start_only(q, k);
                }
                assert forall|q: int, c: int|
                    0 <= q < table.state_count
                        && 0 <= c < table.word_count implies #[trigger] table.actions@[q
                    * table.word_count + c] != Action::Shift(0) by {
                    assert(table.actions@[q * w + c] == rows[q][c]);
                    assert(cell_fine(automaton, q, rows[q][c], c));
                    if c >= 1 {
                        automaton.lemma_no_return(q, Symbol::Terminal((c - 1) as usize));
                    }
                }
                assert forall|q: int, v: int|
                    0 <= q < table.state_count
                        && 0 <= v < table.var_count implies #[trigger] table.gotos@[q
                    * table.var_count + v] != Some(0usize) by {
                    let x = Symbol::Variable(v as usize);
                    assert(table.gotos@[q * table.var_count + v] == automaton.target(q, x));
                    automaton.lemma_no_return(q, x);
                }
            }
        }
        Ok(table)
    }
}

} // verus!
