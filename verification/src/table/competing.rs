use vstd::prelude::*;
use super::construct::{Conflict, ConstructionError};
use super::table::{
    built_from, conflict_in_state, drawn, hands_back, item_done, la_ok, reduce_into, reduce_step,
    row_ok, shift_into, Action, LR1Table, NaiveLR1Table,
};
use crate::automata::LRAutomaton;
use crate::grammar::Symbol;
use crate::index_set::column_of;

verus! {

/// The resolver settles no conflict: it hands each one back.
pub open spec fn rejects_all<F: Fn(Conflict) -> Result<Action, Conflict>>(f: F) -> bool {
    forall|c: Conflict, r: Result<Action, Conflict>| #[trigger]
        f.ensures((c,), r) ==> r == Err::<Action, Conflict>(c)
}

/// The entry that item `k` of `state` asks for, by column and action. An
/// item with a terminal at the dot asks for the shift on it, and `m` is 0.
/// A complete item, but that of the augmented start production, asks for
/// the reduction by its production on its lookahead number `m`. No other
/// item asks for an entry.
pub open spec fn wish<A: LRAutomaton>(a: &A, state: int, k: int, m: int) -> Option<(int, Action)> {
    let g = a.grammar_of();
    let item = a.cores(state)[k];
    match item.dot(g) {
        Some(Symbol::Terminal(word)) => if m == 0 {
            Some((word + 1, Action::Shift(a.target(state, Symbol::Terminal(word)).unwrap())))
        } else {
            None
        },
        Some(Symbol::Variable(_)) => None,
        None => if g.lhs_of(item.production as int) != g.start_var() && 0 <= m
            < a.lookahead_seq(state, k).len() {
            Some((column_of(a.lookahead_seq(state, k)[m]), Action::Reduce(item.production)))
        } else {
            None
        },
    }
}

/// The state does not hold the complete item of the augmented start
/// production: in it the input is not accepted.
pub open spec fn accept_free<A: LRAutomaton>(a: &A, state: int) -> bool {
    forall|k: int|
        0 <= k < a.cores(state).len() ==> !((#[trigger] a.cores(state)[k]).dot(a.grammar_of())
            is None && a.grammar_of().lhs_of(a.cores(state)[k].production as int)
            == a.grammar_of().start_var())
}

/// Competition for the entry goes to the resolver: the entry is that of a
/// terminal, or that of the end of input in a state that does not accept.
/// (Accepting is entered over a reduction, and a reduction over it,
/// without asking the resolver.)
pub open spec fn arbitrated<A: LRAutomaton>(a: &A, state: int, column: int) -> bool {
    column >= 1 || accept_free(a, state)
}

/// The row holds what the items before `k`, and item `k` on its
/// lookaheads before `m`, ask for.
pub open spec fn granted<A: LRAutomaton>(
    a: &A,
    state: int,
    k: int,
    m: int,
    row: Seq<Action>,
) -> bool {
    forall|j: int, n: int|
        0 <= j < a.cores(state).len() && (j < k || (j == k && n < m)) ==> (#[trigger] wish(
            a,
            state,
            j,
            n,
        ) matches Some(w) ==> arbitrated(a, state, w.0) ==> row[w.0] == w.1)
}

/// What an item asks for is a shift or a reduction, in a column of the
/// table.
proof fn lemma_wish<A: LRAutomaton>(a: &A, state: int, k: int, m: int)
    requires
        a.wf(),
        0 <= state < a.state_total(),
        0 <= k < a.cores(state).len(),
    ensures
        wish(a, state, k, m) matches Some(w) ==> 0 <= w.0 < a.grammar_of().word_total() + 1 && (
        w.1 is Shift || w.1 is Reduce) && (w.1 matches Action::Shift(s) ==> w.0 >= 1 && Some(s)
            == a.target(state, Symbol::Terminal((w.0 - 1) as usize))),
{
    let g = a.grammar_of();
    let item = a.cores(state)[k];
    a.lemma_item(state, k);
    g.lemma_word_total();
    match item.dot(g) {
        Some(Symbol::Terminal(word)) => {
            assert(g.rhs(item.production as int)[item.pos as int].word_below(
                g.word_total() as int,
            ));
        },
        Some(Symbol::Variable(_)) => {},
        None => {
            if 0 <= m < a.lookahead_seq(state, k).len() {
                let la = a.lookahead_seq(state, k)[m];
            }
        },
    }
}

/// The reductions of a complete item, settled with a resolver that hands
/// every conflict back, are entered where nothing was asked for before.
proof fn lemma_granted_la<A: LRAutomaton, F: Fn(Conflict) -> Result<Action, Conflict>>(
    a: &A,
    f: F,
    state: int,
    k: int,
    m: nat,
    row_in: Seq<Action>,
    row_out: Seq<Action>,
)
    requires
        a.wf(),
        rejects_all(f),
        0 <= state < a.state_total(),
        0 <= k < a.cores(state).len(),
        a.cores(state)[k].dot(a.grammar_of()) is None,
        a.grammar_of().lhs_of(a.cores(state)[k].production as int) != a.grammar_of().start_var(),
        m <= a.lookahead_seq(state, k).len(),
        row_in.len() == a.grammar_of().word_total() + 1,
        granted(a, state, k, 0, row_in),
        la_ok(a, f, state, k, m, row_in, row_out),
    ensures
        row_out.len() == row_in.len(),
        granted(a, state, k, m as int, row_out),
    decreases m,
{
    if m > 0 {
        let (mid, j) = choose|mid: Seq<Action>, j: nat|
            j + 1 == m && la_ok(a, f, state, k, j, row_in, mid) && #[trigger] reduce_step(
                f,
                mid,
                column_of(a.lookahead_seq(state, k)[j as int]),
                a.cores(state)[k].production,
                row_out,
            );
        lemma_granted_la(a, f, state, k, j, row_in, mid);
        let col = column_of(a.lookahead_seq(state, k)[j as int]);
        let p = a.cores(state)[k].production;
        let act = choose|act: Action| #[trigger]
            reduce_into(f, mid[col], col, p, Ok::<Action, Conflict>(act)) && row_out == mid.update(
                col,
                act,
            );
        lemma_wish(a, state, k, j as int);
        assert(wish(a, state, k, j as int) == Some((col, Action::Reduce(p))));
        assert(!(mid[col] is Shift) && !(mid[col] is Reduce));
        assert(act == Action::Reduce(p));
        assert forall|i: int, n: int|
            0 <= i < a.cores(state).len() && (i < k || (i == k && n < m)) implies (#[trigger] wish(
                a,
                state,
                i,
                n,
            ) matches Some(w) ==> arbitrated(a, state, w.0) ==> row_out[w.0] == w.1) by {
            lemma_wish(a, state, i, n);
            if i == k && n == j {
            } else {
                if let Some(w) = wish(a, state, i, n) {
                    if arbitrated(a, state, w.0) {
                        assert(mid[w.0] == w.1);
                    }
                }
            }
        }
    }
}

/// An item entered with a resolver that hands every conflict back leaves
/// what was asked for before in the row, and adds what it asks for.
proof fn lemma_granted_item<A: LRAutomaton, F: Fn(Conflict) -> Result<Action, Conflict>>(
    a: &A,
    f: F,
    state: int,
    k: int,
    mid: Seq<Action>,
    row: Seq<Action>,
)
    requires
        a.wf(),
        rejects_all(f),
        0 <= state < a.state_total(),
        0 <= k < a.cores(state).len(),
        mid.len() == a.grammar_of().word_total() + 1,
        granted(a, state, k, 0, mid),
        item_done(a, f, state, k, mid, row),
    ensures
        row.len() == mid.len(),
        granted(a, state, k + 1, 0, row),
{
    let g = a.grammar_of();
    let item = a.cores(state)[k];
    lemma_wish(a, state, k, 0);
    match item.dot(g) {
        Some(Symbol::Terminal(word)) => {
            let next = a.target(state, Symbol::Terminal(word)).unwrap();
            let act = choose|act: Action| #[trigger]
                shift_into(f, mid[word + 1], word, next, Ok::<Action, Conflict>(act)) && row
                    == mid.update(word + 1, act);
            assert(!(mid[word + 1] is Reduce));
            assert(act == Action::Shift(next));
            assert forall|i: int, n: int|
                0 <= i < a.cores(state).len() && (i < k + 1 || (i == k + 1 && n
                    < 0)) implies (#[trigger] wish(a, state, i, n) matches Some(w) ==> arbitrated(
                a,
                state,
                w.0,
            ) ==> row[w.0] == w.1) by {
                lemma_wish(a, state, i, n);
                if i < k {
                    if let Some(w) = wish(a, state, i, n) {
                        if arbitrated(a, state, w.0) {
                            assert(mid[w.0] == w.1);
                        }
                    }
                }
            }
        },
        Some(Symbol::Variable(_)) => {
            assert forall|i: int, n: int|
                0 <= i < a.cores(state).len() && (i < k + 1 || (i == k + 1 && n
                    < 0)) implies (#[trigger] wish(a, state, i, n) matches Some(w) ==> arbitrated(
                a,
                state,
                w.0,
            ) ==> row[w.0] == w.1) by {
                lemma_wish(a, state, i, n);
                if i < k {
                    if let Some(w) = wish(a, state, i, n) {
                        if arbitrated(a, state, w.0) {
                            assert(mid[w.0] == w.1);
                        }
                    }
                }
            }
        },
        None => {
            if g.lhs_of(item.production as int) != g.start_var() {
                let total = a.lookahead_seq(state, k).len();
                lemma_granted_la(a, f, state, k, total, mid, row);
                assert forall|i: int, n: int|
                    0 <= i < a.cores(state).len() && (i < k + 1 || (i == k + 1 && n
                        < 0)) implies (#[trigger] wish(a, state, i, n) matches Some(w)
                    ==> arbitrated(a, state, w.0) ==> row[w.0] == w.1) by {
                    if i < k || (i == k && n < total) {
                    }
                }
            } else {
                assert(!accept_free(a, state));
                assert forall|i: int, n: int|
                    0 <= i < a.cores(state).len() && (i < k + 1 || (i == k + 1 && n
                        < 0)) implies (#[trigger] wish(a, state, i, n) matches Some(w)
                    ==> arbitrated(a, state, w.0) ==> row[w.0] == w.1) by {
                    lemma_wish(a, state, i, n);
                    if i < k {
                        if let Some(w) = wish(a, state, i, n) {
                            if arbitrated(a, state, w.0) {
                                assert(mid[w.0] == w.1);
                            }
                        }
                    }
                }
            }
        },
    }
}

/// The first `k` items of a state, entered with a resolver that hands
/// every conflict back, have what they ask for.
proof fn lemma_granted_row<A: LRAutomaton, F: Fn(Conflict) -> Result<Action, Conflict>>(
    a: &A,
    f: F,
    state: int,
    k: nat,
    row: Seq<Action>,
)
    requires
        a.wf(),
        rejects_all(f),
        0 <= state < a.state_total(),
        k <= a.cores(state).len(),
        row_ok(a, f, state, k, row),
    ensures
        row.len() == a.grammar_of().word_total() + 1,
        granted(a, state, k as int, 0, row),
    decreases k,
{
    if k > 0 {
        let (mid, j) = choose|mid: Seq<Action>, j: nat|
            j + 1 == k && row_ok(a, f, state, j, mid) && #[trigger] item_done(
                a,
                f,
                state,
                j as int,
                mid,
                row,
            );
        lemma_granted_row(a, f, state, j, mid);
        lemma_granted_item(a, f, state, j as int, mid, row);
    } else {
        a.lemma_shape();
        a.grammar_of().lemma_word_total();
    }
}

/// Where the resolver hands every conflict back and the row of a state is
/// made all the same, every item of the state has the entry it asks for:
/// the shift on the terminal at its dot, or the reduction by its
/// production on each of its lookaheads. This holds of the entries of
/// terminals, and of the entry of the end of input where the state does
/// not accept.
pub proof fn lemma_wishes_granted<A: LRAutomaton, F: Fn(Conflict) -> Result<Action, Conflict>>(
    a: &A,
    f: F,
    state: int,
    row: Seq<Action>,
    k: int,
    m: int,
)
    requires
        a.wf(),
        rejects_all(f),
        0 <= state < a.state_total(),
        row_ok(a, f, state, a.cores(state).len(), row),
        0 <= k < a.cores(state).len(),
        wish(a, state, k, m) is Some,
        arbitrated(a, state, wish(a, state, k, m).unwrap().0),
    ensures
        0 <= wish(a, state, k, m).unwrap().0 < row.len(),
        row[wish(a, state, k, m).unwrap().0] == wish(a, state, k, m).unwrap().1,
{
    lemma_granted_row(a, f, state, a.cores(state).len(), row);
    lemma_wish(a, state, k, m);
}

/// Where the resolver hands every conflict back and the table is built
/// all the same, no two items of a state compete for an entry: a shift
/// and a reduction, or two reductions by different productions, asked for
/// in the same column of a state would have ended the construction. And
/// the entry is what the items ask for.
pub proof fn lemma_no_competition<A: LRAutomaton, F: Fn(Conflict) -> Result<Action, Conflict>>(
    a: &A,
    f: F,
    table: NaiveLR1Table,
    state: int,
    k1: int,
    m1: int,
    k2: int,
    m2: int,
)
    requires
        a.wf(),
        rejects_all(f),
        built_from(a, f, Ok::<NaiveLR1Table, ConstructionError>(table)),
        0 <= state < a.state_total(),
        0 <= k1 < a.cores(state).len(),
        0 <= k2 < a.cores(state).len(),
        wish(a, state, k1, m1) is Some,
        wish(a, state, k2, m2) is Some,
        wish(a, state, k1, m1).unwrap().0 == wish(a, state, k2, m2).unwrap().0,
        arbitrated(a, state, wish(a, state, k1, m1).unwrap().0),
    ensures
        wish(a, state, k1, m1).unwrap().1 == wish(a, state, k2, m2).unwrap().1,
        table.action_at(state, wish(a, state, k1, m1).unwrap().0) == wish(
            a,
            state,
            k1,
            m1,
        ).unwrap().1,
{
    let row = table.row(state);
    lemma_wishes_granted(a, f, state, row, k1, m1);
    lemma_wishes_granted(a, f, state, row, k2, m2);
}

/// Where the resolver hands every conflict back, a construction that
/// fails names a state of the automaton in which the conflict arises: the
/// state holds the complete items of the productions in conflict, and has
/// the transition in conflict.
pub proof fn lemma_conflict_named<A: LRAutomaton, F: Fn(Conflict) -> Result<Action, Conflict>>(
    a: &A,
    f: F,
    e: ConstructionError,
)
    requires
        rejects_all(f),
        built_from(a, f, Err::<NaiveLR1Table, ConstructionError>(e)),
    ensures
        e.state < a.state_total(),
        conflict_in_state(a, e.state as int, e.conflict),
{
    assert(drawn(f));
    assert(hands_back(f));
}

/// No item of the state asks for the entry of the end of input.
pub open spec fn end_free<A: LRAutomaton>(a: &A, state: int) -> bool {
    forall|k: int, m: int|
        0 <= k < a.cores(state).len() ==> !(#[trigger] wish(a, state, k, m) matches Some(w) && w.0
            == 0)
}

/// Accepting competes with no reduction: a state that holds the complete
/// item of the augmented start production has no item that asks for the
/// entry of the end of input. (The table does not take such a competition
/// to the resolver.)
pub open spec fn accept_clear<A: LRAutomaton>(a: &A) -> bool {
    forall|state: int|
        0 <= state < a.state_total() ==> #[trigger] accept_free(a, state) || end_free(a, state)
}

/// Item `k` of `state` is the complete item of the augmented start
/// production.
pub open spec fn accepts_at<A: LRAutomaton>(a: &A, state: int, k: int) -> bool {
    a.cores(state)[k].dot(a.grammar_of()) is None && a.grammar_of().lhs_of(
        a.cores(state)[k].production as int,
    ) == a.grammar_of().start_var()
}

/// Item `k` of `state` asks for the entry of the end of input with its
/// lookahead number `m`.
pub open spec fn asks_end<A: LRAutomaton>(a: &A, state: int, k: int, m: int) -> bool {
    wish(a, state, k, m) matches Some(w) && w.0 == 0
}

/// Whether accepting competes with no reduction in the automaton.
pub fn accept_is_clear<A: LRAutomaton>(a: &A) -> (r: bool)
    requires
        a.wf(),
    ensures
        r == accept_clear(a),
{
    let grammar = a.grammar();
    proof {
        a.lemma_shape();
    }
    let start_var = grammar.variable_count() - 1;
    let states = a.state_count();
    let mut state: usize = 0;
    while state < states
        invariant
            a.wf(),
            grammar == a.grammar_of(),
            grammar.wf(),
            start_var == grammar.start_var(),
            states == a.state_total(),
            state <= states,
            forall|s: int| 0 <= s < state ==> #[trigger] accept_free(a, s) || end_free(a, s),
        decreases states - state,
    {
        let count = a.item_count(state);
        let mut accepts = false;
        let mut asks = false;
        let ghost mut who: int = 0;
        let ghost mut asker: (int, int) = (0, 0);
        let mut k: usize = 0;
        while k < count
            invariant
                a.wf(),
                grammar == a.grammar_of(),
                grammar.wf(),
                start_var == grammar.start_var(),
                state < a.state_total(),
                count == a.cores(state as int).len(),
                k <= count,
                accepts ==> 0 <= who < k && accepts_at(a, state as int, who),
                !accepts ==> forall|j: int| 0 <= j < k ==> !accepts_at(a, state as int, j),
                asks ==> 0 <= asker.0 < k && asks_end(a, state as int, asker.0, asker.1),
                !asks ==> forall|j: int, m: int|
                    0 <= j < k ==> !#[trigger] asks_end(a, state as int, j, m),
            decreases count - k,
        {
            let item = a.item_core(state, k);
            proof {
                a.lemma_item(state as int, k as int);
            }
            if item.is_complete(grammar) {
                if grammar.lhs(item.production) == start_var {
                    accepts = true;
                    proof {
                        who = k as int;
                    }
                } else {
                    let lookaheads = a.lookaheads(state, k);
                    let mut m: usize = 0;
                    let ghost before = asks;
                    while m < lookaheads.len()
                        invariant
                            m <= lookaheads@.len(),
                            lookaheads@ == a.lookahead_seq(state as int, k as int),
                            k < count,
                            count == a.cores(state as int).len(),
                            a.cores(state as int)[k as int].dot(a.grammar_of()) is None,
                            a.grammar_of().lhs_of(
                                a.cores(state as int)[k as int].production as int,
                            ) != a.grammar_of().start_var(),
                            asks ==> 0 <= asker.0 <= k && asks_end(
                                a,
                                state as int,
                                asker.0,
                                asker.1,
                            ),
                            !asks ==> !before && forall|n: int|
                                0 <= n < m ==> !#[trigger] asks_end(a, state as int, k as int, n),
                        decreases lookaheads@.len() - m,
                    {
                        if lookaheads[m].is_none() {
                            asks = true;
                            proof {
                                asker = (k as int, m as int);
                            }
                        }
                        m = m + 1;
                    }
                }
            }
            k = k + 1;
        }
        if accepts && asks {
            proof {
                assert(accepts_at(a, state as int, who));
                assert(asks_end(a, state as int, asker.0, asker.1));
                assert(!accept_free(a, state as int));
                assert(!end_free(a, state as int));
            }
            return false;
        }
        proof {
            if !accepts {
                assert forall|j: int| 0 <= j < a.cores(state as int).len() implies !((
                #[trigger] a.cores(state as int)[j]).dot(a.grammar_of()) is None
                    && a.grammar_of().lhs_of(a.cores(state as int)[j].production as int)
                    == a.grammar_of().start_var()) by {
                    assert(!accepts_at(a, state as int, j));
                }
                assert(accept_free(a, state as int));
            } else {
                assert forall|j: int, m: int| 0 <= j < a.cores(state as int).len() implies !(
                #[trigger] wish(a, state as int, j, m) matches Some(w) && w.0 == 0) by {
                    assert(!asks_end(a, state as int, j, m));
                }
                assert(end_free(a, state as int));
            }
        }
        state = state + 1;
    }
    true
}

/// The reductions of a complete item leave the entry of the end of input
/// as it is, where no item asks for it.
proof fn lemma_end_kept_la<A: LRAutomaton, F: Fn(Conflict) -> Result<Action, Conflict>>(
    a: &A,
    f: F,
    state: int,
    k: int,
    m: nat,
    row_in: Seq<Action>,
    row_out: Seq<Action>,
)
    requires
        a.wf(),
        0 <= state < a.state_total(),
        0 <= k < a.cores(state).len(),
        a.cores(state)[k].dot(a.grammar_of()) is None,
        a.grammar_of().lhs_of(a.cores(state)[k].production as int) != a.grammar_of().start_var(),
        m <= a.lookahead_seq(state, k).len(),
        end_free(a, state),
        row_in.len() == a.grammar_of().word_total() + 1,
        la_ok(a, f, state, k, m, row_in, row_out),
    ensures
        row_out.len() == row_in.len(),
        row_out[0] == row_in[0],
    decreases m,
{
    if m > 0 {
        let (mid, j) = choose|mid: Seq<Action>, j: nat|
            j + 1 == m && la_ok(a, f, state, k, j, row_in, mid) && #[trigger] reduce_step(
                f,
                mid,
                column_of(a.lookahead_seq(state, k)[j as int]),
                a.cores(state)[k].production,
                row_out,
            );
        lemma_end_kept_la(a, f, state, k, j, row_in, mid);
        let col = column_of(a.lookahead_seq(state, k)[j as int]);
        assert(wish(a, state, k, j as int) == Some(
            (col, Action::Reduce(a.cores(state)[k].production)),
        ));
        a.lemma_item(state, k);
        assert(0 < col < row_in.len()) by {
            let la = a.lookahead_seq(state, k)[j as int];
        }
    }
}

/// The first `k` items of a state leave `Accept` in the entry of the end
/// of input once the complete item of the augmented start production is
/// among them, where no item asks for that entry.
pub proof fn lemma_end_kept<A: LRAutomaton, F: Fn(Conflict) -> Result<Action, Conflict>>(
    a: &A,
    f: F,
    state: int,
    k: nat,
    row: Seq<Action>,
    e: int,
)
    requires
        a.wf(),
        0 <= state < a.state_total(),
        k <= a.cores(state).len(),
        end_free(a, state),
        row_ok(a, f, state, k, row),
        0 <= e < a.cores(state).len(),
        a.cores(state)[e].dot(a.grammar_of()) is None,
        a.grammar_of().lhs_of(a.cores(state)[e].production as int) == a.grammar_of().start_var(),
    ensures
        row.len() == a.grammar_of().word_total() + 1,
        e < k ==> row[0] == Action::Accept,
    decreases k,
{
    let g = a.grammar_of();
    a.lemma_shape();
    g.lemma_word_total();
    if k > 0 {
        let (mid, j) = choose|mid: Seq<Action>, j: nat|
            j + 1 == k && row_ok(a, f, state, j, mid) && #[trigger] item_done(
                a,
                f,
                state,
                j as int,
                mid,
                row,
            );
        lemma_end_kept(a, f, state, j, mid, e);
        let item = a.cores(state)[j as int];
        a.lemma_item(state, j as int);
        match item.dot(g) {
            Some(Symbol::Terminal(word)) => {
                assert(g.rhs(item.production as int)[item.pos as int].word_below(
                    g.word_total() as int,
                ));
            },
            Some(Symbol::Variable(_)) => {},
            None => {
                if g.lhs_of(item.production as int) != g.start_var() {
                    lemma_end_kept_la(
                        a,
                        f,
                        state,
                        j as int,
                        a.lookahead_seq(state, j as int).len(),
                        mid,
                        row,
                    );
                }
            },
        }
    }
}

} // verus!
