use vstd::prelude::*;
use super::goto_map::GotoMap;
use super::inner::{
    canonical_collection, goto_seed, has_dot, lemma_fresh_item, lemma_goto_member,
    lemma_seed_member, lemma_state_step, lemma_target_kernel, state_closed, ItemModel,
};
use super::lr0_item::LR0Item;
use super::lr0a::{lemma_lr0_kernel, lemma_lr0_variable, LR0ABuilder, State, LR0A};
use super::lr_automaton::{DottedItem, LRAutomaton};
use crate::grammar::{Grammar, Symbol};
use crate::index_set::{class_of, LookaheadSet};

mod builder;
pub use self::builder::{
    dr_set, earlier, follow_set, goto_of, holds, includes_at, includes_complete, includes_fn,
    includes_rel, includes_sound, is_transition, item_la, la_set, lemma_goto_symbol,
    lemma_includes_chain, lemma_items_distinct, lemma_la_bounded, lemma_reads_chain,
    lemma_transition_items, lemma_walk, lookahead_ok, lookback_at, lookback_complete, lookback_ok,
    lookback_rel, lookback_shape, lookback_sound, read_set, reads_fn, reads_rel, sooner, target_of,
    walk, LALR1ABuilder, NonterminalTransition,
};

verus! {

/// The LALR(1) automaton of a grammar: its LR(0) automaton, with the
/// lookaheads on which each complete item is reduced.
pub struct LALR1A<'a> {
    lr0a: LR0A<'a>,
    lookahead: Vec<Vec<LookaheadSet>>,
}

/// A state and a production by which it reduces.
#[derive(Debug, Clone, Copy, PartialEq, Eq, Hash, Structural)]
pub struct StateReductionPair {
    pub state: usize,
    pub production: usize,
}

/// The classes of a sequence of columns.
pub open spec fn classes(columns: Seq<usize>) -> Seq<Option<usize>> {
    Seq::new(columns.len(), |m: int| class_of(columns[m] as int))
}

impl<'a> LALR1A<'a> {
    /// The LR(0) automaton underneath.
    pub closed spec fn lr0(&self) -> &LR0A<'a> {
        &self.lr0a
    }

    /// For each item of each state, its lookaheads.
    pub closed spec fn lookahead_sets(&self) -> Seq<Vec<LookaheadSet>> {
        self.lookahead@
    }

    /// The automaton is the LR(0) automaton of its grammar, and each
    /// complete item has the lookaheads that can follow the transitions its
    /// reduction looks back at.
    pub open spec fn is_lalr(&self) -> bool {
        &&& self.lr0().wf()
        &&& lookahead_ok(self.lr0(), self.lookahead_sets())
    }

    /// Builds the LALR(1) automaton of `grammar`.
    #[must_use]
    pub fn new(grammar: &'a Grammar) -> (automaton: Self)
        requires
            grammar.wf(),
        ensures
            automaton.is_lalr(),
            automaton.lr0().grammar_of() == grammar,
    {
        LALR1ABuilder::new(grammar).build()
    }

    /// The grammar of the automaton.
    #[must_use]
    pub fn grammar(&self) -> (g: &'a Grammar)
        ensures
            g == self.lr0().grammar_of(),
    {
        self.lr0a.grammar()
    }

    /// The states of the LR(0) automaton underneath.
    #[must_use]
    pub fn states(&self) -> (states: &[State])
        ensures
            states@ == self.lr0().states_of(),
    {
        self.lr0a.states()
    }

    /// The lookaheads on which the state of `pair` reduces by the
    /// production of `pair`, end of input first, then terminals in
    /// ascending order; `None` where the state has no complete item of
    /// that production.
    #[must_use]
    pub fn reduction_lookaheads(&self, pair: StateReductionPair) -> (r: Option<Vec<Option<usize>>>)
        requires
            self.is_lalr(),
            pair.state < self.lr0().item_sets().len(),
            pair.production < self.lr0().grammar_of().production_count(),
        ensures
            match r {
                Some(list) => exists|k: int|
                    0 <= k < self.cores(pair.state as int).len() && #[trigger] self.cores(
                        pair.state as int,
                    )[k] == (LR0Item {
                        production: pair.production,
                        pos: self.lr0().grammar_of().rhs(pair.production as int).len() as usize,
                    }) && list@ == self.lookahead_seq(pair.state as int, k),
                None => forall|k: int|
                    0 <= k < self.cores(pair.state as int).len() ==> #[trigger] self.cores(
                        pair.state as int,
                    )[k] != (LR0Item {
                        production: pair.production,
                        pos: self.lr0().grammar_of().rhs(pair.production as int).len() as usize,
                    }),
            },
    {
        let grammar = self.lr0a.grammar();
        let states = self.lr0a.states();
        let items = &states[pair.state].items;
        let len = grammar.rhs_len(pair.production);
        proof {
            assert(self.lr0().item_sets()[pair.state as int] == states@[pair.state as int].items);
        }
        let mut k: usize = 0;
        while k < items.len()
            invariant
                self.is_lalr(),
                pair.state < self.lr0().item_sets().len(),
                items@ == self.cores(pair.state as int),
                len == self.lr0().grammar_of().rhs(pair.production as int).len(),
                k <= items@.len(),
                forall|j: int|
                    0 <= j < k ==> #[trigger] items@[j] != (LR0Item {
                        production: pair.production,
                        pos: len,
                    }),
            decreases items@.len() - k,
        {
            if items[k].production == pair.production && items[k].pos == len {
                let list = LRAutomaton::lookaheads(self, pair.state, k);
                return Some(list);
            }
            k = k + 1;
        }
        None
    }

    /// Puts the automaton together.
    pub(crate) fn assemble(lr0a: LR0A<'a>, lookahead: Vec<Vec<LookaheadSet>>) -> (automaton: Self)
        ensures
            automaton.lr0() == &lr0a,
            automaton.lookahead_sets() == lookahead@,
    {
        LALR1A { lr0a, lookahead }
    }
}

/// Cursor over the items of a state of the LALR(1) automaton.
pub struct LALR1ItemSet<'a> {
    lalr1a: &'a LALR1A<'a>,
    state: usize,
    index: usize,
}

/// An item of a state of the LALR(1) automaton.
pub struct LALR1ItemProxy<'a> {
    lalr1a: &'a LALR1A<'a>,
    state: usize,
    index: usize,
    item: LR0Item,
}

impl<'a> LALR1ItemSet<'a> {
    /// The automaton whose items are gone through.
    pub closed spec fn automaton(&self) -> &'a LALR1A<'a> {
        self.lalr1a
    }

    /// The state whose items are gone through.
    pub closed spec fn state(&self) -> int {
        self.state as int
    }

    /// Index of the item that `next` hands out.
    pub closed spec fn position(&self) -> int {
        self.index as int
    }

    /// A cursor placed before the first item of `state`.
    pub fn new(lalr1a: &'a LALR1A<'a>, state: usize) -> (set: Self)
        ensures
            set.automaton() == lalr1a,
            set.state() == state,
            set.position() == 0,
    {
        Self { lalr1a, state, index: 0 }
    }

    /// The next item of the state in order, or `None` past the last one.
    pub fn next(&mut self) -> (r: Option<LALR1ItemProxy<'a>>)
        requires
            old(self).automaton().is_lalr(),
            0 <= old(self).state() < old(self).automaton().state_total(),
        ensures
            final(self).automaton() == old(self).automaton(),
            final(self).state() == old(self).state(),
            old(self).position() < old(self).automaton().cores(old(self).state()).len() ==> {
                &&& final(self).position() == old(self).position() + 1
                &&& r is Some
                &&& r.unwrap().wf()
                &&& r.unwrap().grammar_of() == old(self).automaton().lr0().grammar_of()
                &&& r.unwrap().bare() == old(self).automaton().cores(old(self).state())[old(
                    self,
                ).position()]
                &&& r.unwrap().lookahead_seq() == old(self).automaton().lookahead_seq(
                    old(self).state(),
                    old(self).position(),
                )
            },
            old(self).position() >= old(self).automaton().cores(old(self).state()).len() ==> r
                is None && *final(self) == *old(self),
    {
        if self.index < self.lalr1a.item_count(self.state) {
            let item = self.lalr1a.item_core(self.state, self.index);
            let index = self.index;
            self.index = self.index + 1;
            Some(LALR1ItemProxy { lalr1a: self.lalr1a, state: self.state, index, item })
        } else {
            None
        }
    }
}

impl<'a> LALR1A<'a> {
    /// A cursor over the items of `state`.
    pub fn items(&'a self, state: usize) -> (set: LALR1ItemSet<'a>)
        ensures
            set.automaton() == self,
            set.state() == state,
            set.position() == 0,
    {
        LALR1ItemSet::new(self, state)
    }
}

impl<'a> DottedItem for LALR1ItemProxy<'a> {
    closed spec fn wf(&self) -> bool {
        &&& self.lalr1a.is_lalr()
        &&& self.state < self.lalr1a.state_total()
        &&& self.index < self.lalr1a.cores(self.state as int).len()
        &&& self.item == self.lalr1a.cores(self.state as int)[self.index as int]
    }

    closed spec fn grammar_of(&self) -> &Grammar {
        self.lalr1a.lr0().grammar_of()
    }

    closed spec fn bare(&self) -> LR0Item {
        self.item
    }

    closed spec fn lookahead_seq(&self) -> Seq<Option<usize>> {
        self.lalr1a.lookahead_seq(self.state as int, self.index as int)
    }

    fn production(&self) -> (p: usize) {
        self.item.production
    }

    fn is_kernel_item(&self) -> (r: bool) {
        proof {
            self.lalr1a.lemma_item(self.state as int, self.index as int);
        }
        self.item.is_kernel_item(self.lalr1a.grammar())
    }

    fn is_complete(&self) -> (r: bool) {
        proof {
            self.lalr1a.lemma_item(self.state as int, self.index as int);
        }
        self.item.is_complete(self.lalr1a.grammar())
    }

    fn symbol_at_dot(&self) -> (s: Option<Symbol>) {
        proof {
            self.lalr1a.lemma_item(self.state as int, self.index as int);
        }
        self.item.symbol_at_dot(self.lalr1a.grammar())
    }

    fn lookaheads(&self) -> (lookaheads: Vec<Option<usize>>) {
        LRAutomaton::lookaheads(self.lalr1a, self.state, self.index)
    }
}

impl<'a> LRAutomaton for LALR1A<'a> {
    open spec fn wf(&self) -> bool {
        self.is_lalr()
    }

    open spec fn grammar_of(&self) -> &Grammar {
        self.lr0().grammar_of()
    }

    open spec fn state_total(&self) -> int {
        self.lr0().item_sets().len() as int
    }

    open spec fn cores(&self, state: int) -> Seq<LR0Item> {
        self.lr0().item_sets()[state]@
    }

    /// The lookaheads of an item in the order of their columns: end of
    /// input first, then terminals in ascending order.
    open spec fn lookahead_seq(&self, state: int, item: int) -> Seq<Option<usize>> {
        classes(self.lookahead_sets()[state]@[item].columns())
    }

    open spec fn target(&self, state: int, symbol: Symbol) -> Option<usize> {
        self.lr0().goto_maps()[state].target(symbol)
    }

    proof fn lemma_item(&self, state: int, item: int) {
        let lr0 = self.lr0();
        let g = lr0.grammar_of();
        let items = lr0.item_sets()[state]@;
        assert(LR0ABuilder::item_ok(g, items[item]));
        assert(state_closed::<LR0Item, LR0ABuilder<'a>>(g, lr0.item_sets(), lr0.goto_maps(),
            state));
        if let Some(x) = items[item].dot(g) {
            assert(LR0ABuilder::dot_symbol(g, items[item]) == Some(x));
            assert(has_dot::<LR0Item, LR0ABuilder<'a>>(g, items, x));
        }
        let set = self.lookahead_sets()[state]@[item];
        set.lemma_members();
        assert forall|k: int| 0 <= k < self.lookahead_seq(state, item).len() implies (
        #[trigger] self.lookahead_seq(state, item)[k] matches Some(t) ==> t
            < g.word_total()) by {
            let la = self.lookahead_seq(state, item)[k];
            assert(la == class_of(set.columns()[k] as int));
            assert(set@.contains(la));
            assert(item_la(lr0, state, item).contains(la));
            if let Some(t) = la {
                lemma_la_bounded(lr0, state, items[item].production as int, t);
            }
        }
    }

    proof fn lemma_shape(&self) {
    }

    proof fn lemma_initial(&self, item: int) {
        let lr0 = self.lr0();
        let g = lr0.grammar_of();
        let found = lr0.item_sets()[0]@[item];
        assert(lr0.item_sets()[0]@.contains(found));
        assert(lr0.item_sets()[0]@.to_set().contains(found));
        if found.pos >= 1 {
            lemma_lr0_kernel(g, Set::<LR0Item>::empty().insert(LR0ABuilder::start(g)), found);
        }
    }

    proof fn lemma_kernel(&self, state: int, symbol: Symbol, item: int) {
        let lr0 = self.lr0();
        let g = lr0.grammar_of();
        let sets = lr0.item_sets();
        let t = lr0.goto_maps()[state].target(symbol).unwrap() as int;
        lemma_goto_member::<LR0Item, LR0ABuilder<'a>>(g, sets, lr0.goto_maps(), state, symbol,
            item);
        let found = sets[t]@[item];
        let seed = goto_seed::<LR0Item, LR0ABuilder<'a>>(g, sets[state]@.to_set(), symbol);
        lemma_lr0_kernel(g, seed, found);
        lemma_seed_member::<LR0Item, LR0ABuilder<'a>>(g, sets[state]@, symbol, found);
        let k = choose|k: int|
            0 <= k < sets[state]@.len() && LR0ABuilder::dot_symbol(g, #[trigger] sets[state]@[k])
                == Some(symbol) && found == LR0ABuilder::advanced(sets[state]@[k]);
        assert(LR0ABuilder::item_ok(g, sets[state]@[k]));
        assert(sets[state]@[k].pos < g.rhs(sets[state]@[k].production as int).len());
        assert(self.cores(state)[k] == sets[state]@[k]);
    }

    proof fn lemma_fresh(&self, state: int, item: int) {
        let lr0 = self.lr0();
        let g = lr0.grammar_of();
        let sets = lr0.item_sets();
        let found = sets[state]@[item];
        assert(sets[state]@.contains(found));
        assert(sets[state]@.to_set().contains(found));
        lemma_fresh_item::<LR0Item, LR0ABuilder<'a>>(g, sets, lr0.goto_maps(), state, found);
        let from = choose|from: LR0Item|
            sets[state]@.to_set().contains(from) && #[trigger] LR0ABuilder::derived(g, from, found);
        lemma_lr0_variable(g, from, found);
        lemma_state_step::<LR0Item, LR0ABuilder<'a>>(
            g,
            sets,
            lr0.goto_maps(),
            state,
            from,
            Symbol::Variable(g.lhs_of(found.production as int) as usize),
        );
    }

    proof fn lemma_start_only(&self, state: int, item: int) {
        let lr0 = self.lr0();
        let g = lr0.grammar_of();
        let sets = lr0.item_sets();
        let maps = lr0.goto_maps();
        let found = sets[state]@[item];
        assert(sets[state]@.contains(found));
        assert(sets[state]@.to_set().contains(found));
        if state != 0 {
            lemma_fresh_item::<LR0Item, LR0ABuilder<'a>>(g, sets, maps, state, found);
            let from = choose|from: LR0Item|
                sets[state]@.to_set().contains(from) && #[trigger] LR0ABuilder::derived(
                    g,
                    from,
                    found,
                );
            lemma_lr0_variable(g, from, found);
            assert(sets[state]@.contains(from));
            let k = choose|k: int| 0 <= k < sets[state]@.len() && sets[state]@[k] == from;
            assert(LR0ABuilder::item_ok(g, sets[state]@[k]));
            let p = from.production as int;
            let i = from.pos as int;
            assert(g.rhs(p)[i] == Symbol::Variable(g.start_var() as usize));
            if p < g.production_count() - 1 {
                assert(g.rhs(p)[i].var_below(g.var_count() - 1));
            } else {
                assert(g.rhs(p) == seq![Symbol::Variable(0)]);
            }
        }
    }

    proof fn lemma_no_return(&self, state: int, symbol: Symbol) {
        let lr0 = self.lr0();
        let g = lr0.grammar_of();
        let sets = lr0.item_sets();
        let maps = lr0.goto_maps();
        if maps[state].target(symbol) is Some {
            lemma_target_kernel::<LR0Item, LR0ABuilder<'a>>(g, sets, maps, state, symbol);
            let t = maps[state].target(symbol).unwrap() as int;
            let (from, k) = choose|from: LR0Item, k: int|
                #![trigger sets[t]@[k], LR0ABuilder::advanced(from)]
                LR0ABuilder::item_ok(g, from) && LR0ABuilder::dot_symbol(g, from) is Some && 0
                    <= k < sets[t]@.len() && sets[t]@[k] == LR0ABuilder::advanced(from);
            if t == 0 {
                self.lemma_initial(k);
            }
        }
    }

    proof fn lemma_target(&self, state: int, symbol: Symbol) {
        assert(state_closed::<LR0Item, LR0ABuilder<'a>>(
            self.lr0().grammar_of(),
            self.lr0().item_sets(),
            self.lr0().goto_maps(),
            state,
        ));
    }

    fn grammar(&self) -> (g: &Grammar) {
        self.lr0a.grammar()
    }

    fn state_count(&self) -> (n: usize) {
        self.lr0a.states().len()
    }

    fn item_count(&self, state: usize) -> (n: usize) {
        let states = self.lr0a.states();
        proof {
            assert(self.lr0().item_sets()[state as int] == states@[state as int].items);
        }
        states[state].items.len()
    }

    fn item_core(&self, state: usize, item: usize) -> (item_core: LR0Item) {
        let states = self.lr0a.states();
        proof {
            assert(self.lr0().item_sets()[state as int] == states@[state as int].items);
        }
        states[state].items[item]
    }

    fn lookaheads(&self, state: usize, item: usize) -> (lookaheads: Vec<Option<usize>>) {
        let set = &self.lookahead[state][item];
        let mut lookaheads: Vec<Option<usize>> = Vec::new();
        let mut m: usize = 0;
        while m < set.len()
            invariant
                set.wf(),
                m <= set.columns().len(),
                lookaheads@.len() == m,
                forall|j: int|
                    0 <= j < m ==> #[trigger] lookaheads@[j] == class_of(set.columns()[j] as int),
            decreases set.columns().len() - m,
        {
            lookaheads.push(set.get(m));
            m = m + 1;
        }
        proof {
            assert(lookaheads@ =~= classes(set.columns()));
        }
        lookaheads
    }

    fn transition(&self, state: usize, symbol: Symbol) -> (next: Option<usize>) {
        let states = self.lr0a.states();
        proof {
            assert(self.lr0().goto_maps()[state as int] == states@[state as int].next);
        }
        states[state].next.get(&symbol)
    }
}

} // verus!
