use vstd::prelude::*;
use super::lr0_item::LR0Item;
use crate::grammar::{Grammar, Symbol};

verus! {

/// An LR automaton as the table construction sees it: states with their
/// items, each item with the lookaheads on which it is reduced, and
/// transitions.
pub trait LRAutomaton {
    /// The automaton's invariant.
    spec fn wf(&self) -> bool;

    /// The grammar of the automaton.
    spec fn grammar_of(&self) -> &Grammar;

    /// Number of states.
    spec fn state_total(&self) -> int;

    /// The items of a state, without lookaheads, in order.
    spec fn cores(&self, state: int) -> Seq<LR0Item>;

    /// The lookaheads of item `item` of state `state`, in the order in
    /// which the table takes them up.
    spec fn lookahead_seq(&self, state: int, item: int) -> Seq<Option<usize>>;

    /// The state reached from `state` on `symbol`, if any.
    spec fn target(&self, state: int, symbol: Symbol) -> Option<usize>;

    /// The items are items of the grammar, their lookaheads are classes of
    /// the grammar, and the symbol at the dot of an item has a transition.
    proof fn lemma_item(&self, state: int, item: int)
        requires
            self.wf(),
            0 <= state < self.state_total(),
            0 <= item < self.cores(state).len(),
        ensures
            self.grammar_of().wf(),
            self.cores(state)[item].wf(self.grammar_of()),
            self.cores(state)[item].dot(self.grammar_of()) matches Some(x) ==> self.target(state, x)
                is Some,
            forall|k: int|
                0 <= k < self.lookahead_seq(state, item).len() ==> (
                #[trigger] self.lookahead_seq(state, item)[k] matches Some(t) ==> t
                    < self.grammar_of().word_total()),
    ;

    /// The grammar is well formed, and there is an initial state.
    proof fn lemma_shape(&self)
        requires
            self.wf(),
        ensures
            self.grammar_of().wf(),
            self.state_total() >= 1,
    ;

    /// The items of the initial state have the dot at the start.
    proof fn lemma_initial(&self, item: int)
        requires
            self.wf(),
            0 <= item < self.cores(0).len(),
        ensures
            self.cores(0)[item].pos == 0,
    ;

    /// An item with the dot behind the start, in a state reached on
    /// `symbol`, stems from an item of the state before: the same
    /// production with the dot one position further left, in front of
    /// `symbol`.
    proof fn lemma_kernel(&self, state: int, symbol: Symbol, item: int)
        requires
            self.wf(),
            0 <= state < self.state_total(),
            self.target(state, symbol) is Some,
            0 <= item < self.cores(self.target(state, symbol).unwrap() as int).len(),
            self.cores(self.target(state, symbol).unwrap() as int)[item].pos >= 1,
        ensures
            exists|k: int|
                0 <= k < self.cores(state).len() && #[trigger] self.cores(state)[k] == (LR0Item {
                    production: self.cores(self.target(state,
                        symbol).unwrap() as int)[item].production,
                    pos: (self.cores(self.target(state, symbol).unwrap() as int)[item].pos
                        - 1) as usize,
                }),
            self.cores(self.target(state, symbol).unwrap() as int)[item].production
                < self.grammar_of().production_count(),
            self.cores(self.target(state, symbol).unwrap() as int)[item].pos
                <= self.grammar_of().rhs(
                self.cores(self.target(state, symbol).unwrap() as int)[item].production as int,
            ).len(),
            self.grammar_of().rhs(
                self.cores(self.target(state, symbol).unwrap() as int)[item].production as int,
            )[self.cores(self.target(state, symbol).unwrap() as int)[item].pos - 1] == symbol,
    ;

    /// Only the initial state holds the augmented start production with
    /// the dot at the start, in a grammar with a rule.
    proof fn lemma_start_only(&self, state: int, item: int)
        requires
            self.wf(),
            self.grammar_of().var_count() >= 2,
            0 <= state < self.state_total(),
            0 <= item < self.cores(state).len(),
            self.cores(state)[item].production == self.grammar_of().start_production(),
            self.cores(state)[item].pos == 0,
        ensures
            state == 0,
    ;

    /// No transition leads to the initial state.
    proof fn lemma_no_return(&self, state: int, symbol: Symbol)
        requires
            self.wf(),
            0 <= state < self.state_total(),
        ensures
            self.target(state, symbol) != Some(0usize),
    ;

    /// A state that holds a production with the dot at the start has a
    /// transition on the production's variable, unless the production is
    /// the augmented start production.
    proof fn lemma_fresh(&self, state: int, item: int)
        requires
            self.wf(),
            0 <= state < self.state_total(),
            0 <= item < self.cores(state).len(),
            self.cores(state)[item].pos == 0,
            self.cores(state)[item].production != self.grammar_of().start_production(),
        ensures
            self.cores(state)[item].production < self.grammar_of().production_count(),
            self.target(
                state,
                Symbol::Variable(
                    self.grammar_of().lhs_of(self.cores(state)[item].production as int) as usize,
                ),
            ) is Some,
    ;

    /// Transitions lead to states.
    proof fn lemma_target(&self, state: int, symbol: Symbol)
        requires
            self.wf(),
            0 <= state < self.state_total(),
        ensures
            self.grammar_of().wf(),
            self.state_total() >= 1,
            self.target(state, symbol) matches Some(t) ==> t < self.state_total(),
    ;

    /// The grammar of the automaton.
    fn grammar(&self) -> (g: &Grammar)
        ensures
            g == self.grammar_of(),
    ;

    /// Number of states; state 0 is the initial state.
    fn state_count(&self) -> (n: usize)
        requires
            self.wf(),
        ensures
            n == self.state_total(),
    ;

    /// Number of items of a state.
    fn item_count(&self, state: usize) -> (n: usize)
        requires
            self.wf(),
            state < self.state_total(),
        ensures
            n == self.cores(state as int).len(),
    ;

    /// Item `item` of state `state`, without its lookaheads.
    fn item_core(&self, state: usize, item: usize) -> (item_core: LR0Item)
        requires
            self.wf(),
            state < self.state_total(),
            item < self.cores(state as int).len(),
        ensures
            item_core == self.cores(state as int)[item as int],
    ;

    /// The lookaheads of item `item` of state `state`.
    fn lookaheads(&self, state: usize, item: usize) -> (lookaheads: Vec<Option<usize>>)
        requires
            self.wf(),
            state < self.state_total(),
            item < self.cores(state as int).len(),
        ensures
            lookaheads@ == self.lookahead_seq(state as int, item as int),
    ;

    /// The state reached from `state` on `symbol`, if any.
    fn transition(&self, state: usize, symbol: Symbol) -> (next: Option<usize>)
        requires
            self.wf(),
            state < self.state_total(),
        ensures
            next == self.target(state as int, symbol),
    ;
}

/// An item of a state as the table construction sees it: an LR(0) item
/// with the lookaheads on which it is reduced.
pub trait DottedItem {
    /// The item's invariant.
    spec fn wf(&self) -> bool;

    /// The grammar of the item.
    spec fn grammar_of(&self) -> &Grammar;

    /// The item without its lookaheads.
    spec fn bare(&self) -> LR0Item;

    /// The lookaheads of the item, in the order in which the table takes
    /// them up.
    spec fn lookahead_seq(&self) -> Seq<Option<usize>>;

    /// The item's production.
    fn production(&self) -> (p: usize)
        requires
            self.wf(),
        ensures
            p == self.bare().production,
    ;

    /// I.e. is the start rule or dot *not* at the start.
    fn is_kernel_item(&self) -> (r: bool)
        requires
            self.wf(),
        ensures
            r == (self.bare().production == self.grammar_of().start_production() || self.bare().pos
                > 0),
    ;

    /// I.e. dot is past the end.
    fn is_complete(&self) -> (r: bool)
        requires
            self.wf(),
        ensures
            r == self.bare().dot(self.grammar_of()) is None,
    ;

    /// The symbol right of the dot, or `None` if the item is complete.
    fn symbol_at_dot(&self) -> (s: Option<Symbol>)
        requires
            self.wf(),
        ensures
            s == self.bare().dot(self.grammar_of()),
    ;

    /// The lookaheads of the item.
    fn lookaheads(&self) -> (lookaheads: Vec<Option<usize>>)
        requires
            self.wf(),
        ensures
            lookaheads@ == self.lookahead_seq(),
    ;
}

} // verus!
