use vstd::prelude::*;
use super::goto_map::GotoMap;
use super::inner::{
    canonical_collection, goto_seed, has_dot, lemma_fresh_item, lemma_goto_member,
    lemma_seed_member, lemma_state_step, lemma_target_kernel, state_closed, ItemModel,
};
use super::lr0_item::LR0Item;
use super::lr1_item::LR1Item;
use super::lr_automaton::{DottedItem, LRAutomaton};
use crate::grammar::{Grammar, Symbol};

mod builder;
pub use self::builder::{
    carried, lemma_lr1_fresh, lemma_lr1_kernel, lemma_lr1_variable, lookahead_in_grammar,
    LR1ABuilder,
};

verus! {

/// The LR(1) automaton of a grammar: the canonical collection of sets of
/// LR(1) items with the transitions between them.
pub struct LR1A<'a> {
    grammar: &'a Grammar,
    states: Vec<LR1State>,
}

/// A state of the LR(1) automaton: its items in ascending order and its
/// transitions.
pub struct LR1State {
    next: GotoMap,
    items: Vec<LR1Item>,
}

impl<'a> LR1A<'a> {
    /// The grammar of the automaton.
    pub closed spec fn source(&self) -> &'a Grammar {
        self.grammar
    }

    /// The item sets of the states.
    pub closed spec fn item_sets(&self) -> Seq<Vec<LR1Item>> {
        Seq::new(self.states@.len(), |i: int| self.states@[i].items)
    }

    /// The transitions of the states.
    pub closed spec fn goto_maps(&self) -> Seq<GotoMap> {
        Seq::new(self.states@.len(), |i: int| self.states@[i].next)
    }

    /// The automaton is the canonical collection of LR(1) item sets of its
    /// grammar.
    pub open spec fn is_canonical(&self) -> bool {
        &&& self.source().wf()
        &&& canonical_collection::<LR1Item, LR1ABuilder<'a>>(
            self.source(),
            self.item_sets(),
            self.goto_maps(),
        )
    }

    /// Builds the LR(1) automaton of `grammar`.
    #[must_use]
    pub fn new(grammar: &'a Grammar) -> (automaton: Self)
        requires
            grammar.wf(),
        ensures
            automaton.is_canonical(),
            automaton.source() == grammar,
    {
        LR1ABuilder::new(grammar).build()
    }

    /// The grammar of the automaton.
    #[must_use]
    pub fn grammar(&self) -> (g: &'a Grammar)
        ensures
            g == self.source(),
    {
        self.grammar
    }

    /// Puts the states of an automaton together.
    pub(crate) fn assemble(
        grammar: &'a Grammar,
        itemsets: Vec<Vec<LR1Item>>,
        gotos: Vec<GotoMap>,
    ) -> (automaton: Self)
        requires
            itemsets@.len() == gotos@.len(),
        ensures
            automaton.source() == grammar,
            automaton.item_sets() == itemsets@,
            automaton.goto_maps() == gotos@,
    {
        let mut itemsets = itemsets;
        let mut gotos = gotos;
        let ghost sets = itemsets@;
        let ghost maps = gotos@;
        let mut states: Vec<LR1State> = Vec::new();
        let mut i: usize = 0;
        while i < itemsets.len()
            invariant
                itemsets@.len() == sets.len(),
                gotos@.len() == sets.len(),
                maps.len() == sets.len(),
                i <= sets.len(),
                states@.len() == i,
                forall|k: int|
                    0 <= k < i ==> (#[trigger] states@[k]).items == sets[k] && states@[k].next
                        == maps[k],
                forall|k: int| i <= k < sets.len() ==> #[trigger] itemsets@[k] == sets[k],
                forall|k: int| i <= k < sets.len() ==> #[trigger] gotos@[k] == maps[k],
            decreases sets.len() - i,
        {
            let mut items: Vec<LR1Item> = Vec::new();
            core::mem::swap(&mut itemsets[i], &mut items);
            let mut next = GotoMap::new();
            core::mem::swap(&mut gotos[i], &mut next);
            states.push(LR1State { next, items });
            i = i + 1;
        }
        let automaton = LR1A { grammar, states };
        proof {
            assert(automaton.item_sets() =~= sets);
            assert(automaton.goto_maps() =~= maps);
        }
        automaton
    }
}

/// Cursor over the items of a state of the LR(1) automaton.
pub struct LR1ItemSet<'a> {
    automaton: &'a LR1A<'a>,
    state: usize,
    index: usize,
}

/// An item of a state of the LR(1) automaton.
pub struct LR1ItemProxy<'a> {
    grammar: &'a Grammar,
    item: LR1Item,
}

impl<'a> LR1ItemSet<'a> {
    /// The automaton whose items are gone through.
    pub closed spec fn automaton(&self) -> &'a LR1A<'a> {
        self.automaton
    }

    /// The state whose items are gone through.
    pub closed spec fn state(&self) -> int {
        self.state as int
    }

    /// Index of the item that `next` hands out.
    pub closed spec fn position(&self) -> int {
        self.index as int
    }

    /// A cursor placed before the first item of `state`.
    pub fn new(lr1a: &'a LR1A<'a>, state: usize) -> (set: Self)
        ensures
            set.automaton() == lr1a,
            set.state() == state,
            set.position() == 0,
    {
        Self { automaton: lr1a, state, index: 0 }
    }

    /// The next item of the state in order, or `None` past the last one.
    pub fn next(&mut self) -> (r: Option<LR1ItemProxy<'a>>)
        requires
            old(self).automaton().is_canonical(),
            0 <= old(self).state() < old(self).automaton().state_total(),
        ensures
            final(self).automaton() == old(self).automaton(),
            final(self).state() == old(self).state(),
            old(self).position() < old(self).automaton().cores(old(self).state()).len() ==> {
                &&& final(self).position() == old(self).position() + 1
                &&& r is Some
                &&& r.unwrap().wf()
                &&& r.unwrap().grammar_of() == old(self).automaton().source()
                &&& r.unwrap().bare() == old(self).automaton().cores(old(self).state())[old(
                    self,
                ).position()]
                &&& r.unwrap().lookahead_seq() == old(self).automaton().lookahead_seq(
                    old(self).state(),
                    old(self).position(),
                )
            },
            old(self).position() >= old(self).automaton().cores(old(self).state()).len() ==> r
                is None && *final(self) == *old(self),
    {
        let items = &self.automaton.states[self.state].items;
        if self.index < items.len() {
            let item = items[self.index];
            proof {
                self.automaton.lemma_item(self.state as int, self.index as int);
            }
            self.index = self.index + 1;
            Some(LR1ItemProxy { grammar: self.automaton.grammar, item })
        } else {
            None
        }
    }
}

impl<'a> LR1A<'a> {
    /// A cursor over the items of `state`.
    pub fn items(&'a self, state: usize) -> (set: LR1ItemSet<'a>)
        ensures
            set.automaton() == self,
            set.state() == state,
            set.position() == 0,
    {
        LR1ItemSet::new(self, state)
    }
}

impl DottedItem for LR1ItemProxy<'_> {
    closed spec fn wf(&self) -> bool {
        self.grammar.wf() && self.item.lr0_item.wf(self.grammar)
    }

    closed spec fn grammar_of(&self) -> &Grammar {
        self.grammar
    }

    closed spec fn bare(&self) -> LR0Item {
        self.item.lr0_item
    }

    /// An LR(1) item has one lookahead.
    closed spec fn lookahead_seq(&self) -> Seq<Option<usize>> {
        seq![self.item.lookahead]
    }

    fn production(&self) -> (p: usize) {
        self.item.lr0_item.production
    }

    fn is_kernel_item(&self) -> (r: bool) {
        self.item.lr0_item.is_kernel_item(self.grammar)
    }

    fn is_complete(&self) -> (r: bool) {
        self.item.lr0_item.is_complete(self.grammar)
    }

    fn symbol_at_dot(&self) -> (s: Option<Symbol>) {
        self.item.lr0_item.symbol_at_dot(self.grammar)
    }

    fn lookaheads(&self) -> (lookaheads: Vec<Option<usize>>) {
        let mut lookaheads: Vec<Option<usize>> = Vec::new();
        lookaheads.push(self.item.lookahead);
        proof {
            assert(lookaheads@ =~= seq![self.item.lookahead]);
        }
        lookaheads
    }
}

impl<'a> LRAutomaton for LR1A<'a> {
    open spec fn wf(&self) -> bool {
        self.is_canonical()
    }

    open spec fn grammar_of(&self) -> &Grammar {
        self.source()
    }

    open spec fn state_total(&self) -> int {
        self.item_sets().len() as int
    }

    open spec fn cores(&self, state: int) -> Seq<LR0Item> {
        Seq::new(self.item_sets()[state]@.len(), |k: int| self.item_sets()[state]@[k].lr0_item)
    }

    /// An LR(1) item has one lookahead.
    open spec fn lookahead_seq(&self, state: int, item: int) -> Seq<Option<usize>> {
        seq![self.item_sets()[state]@[item].lookahead]
    }

    open spec fn target(&self, state: int, symbol: Symbol) -> Option<usize> {
        self.goto_maps()[state].target(symbol)
    }

    proof fn lemma_item(&self, state: int, item: int) {
        let g = self.source();
        let items = self.item_sets()[state]@;
        assert(LR1ABuilder::item_ok(g, items[item]));
        assert(state_closed::<LR1Item, LR1ABuilder<'a>>(g, self.item_sets(), self.goto_maps(),
            state));
        if let Some(x) = self.cores(state)[item].dot(g) {
            assert(LR1ABuilder::dot_symbol(g, items[item]) == Some(x));
            assert(has_dot::<LR1Item, LR1ABuilder<'a>>(g, items, x));
            assert(self.goto_maps()[state].target(x) is Some);
        }
    }

    proof fn lemma_shape(&self) {
    }

    proof fn lemma_initial(&self, item: int) {
        let g = self.source();
        let found = self.item_sets()[0]@[item];
        assert(self.item_sets()[0]@.contains(found));
        assert(self.item_sets()[0]@.to_set().contains(found));
        if found.lr0_item.pos >= 1 {
            lemma_lr1_kernel(g, Set::<LR1Item>::empty().insert(LR1ABuilder::start(g)), found);
        }
    }

    proof fn lemma_kernel(&self, state: int, symbol: Symbol, item: int) {
        let g = self.source();
        let sets = self.item_sets();
        let t = self.goto_maps()[state].target(symbol).unwrap() as int;
        lemma_goto_member::<LR1Item, LR1ABuilder<'a>>(g, sets, self.goto_maps(), state, symbol,
            item);
        let found = sets[t]@[item];
        let seed = goto_seed::<LR1Item, LR1ABuilder<'a>>(g, sets[state]@.to_set(), symbol);
        lemma_lr1_kernel(g, seed, found);
        lemma_seed_member::<LR1Item, LR1ABuilder<'a>>(g, sets[state]@, symbol, found);
        let k = choose|k: int|
            0 <= k < sets[state]@.len() && LR1ABuilder::dot_symbol(g, #[trigger] sets[state]@[k])
                == Some(symbol) && found == LR1ABuilder::advanced(sets[state]@[k]);
        assert(LR1ABuilder::item_ok(g, sets[state]@[k]));
        assert(sets[state]@[k].lr0_item.pos < g.rhs(sets[state]@[k].lr0_item.production as int).len());
        assert(self.cores(state)[k] == sets[state]@[k].lr0_item);
        assert(self.cores(t)[item] == found.lr0_item);
    }

    proof fn lemma_fresh(&self, state: int, item: int) {
        let g = self.source();
        let sets = self.item_sets();
        let found = sets[state]@[item];
        assert(sets[state]@.contains(found));
        assert(sets[state]@.to_set().contains(found));
        assert(LR1ABuilder::item_ok(g, found)) by {
            self.lemma_item(state, item);
        }
        lemma_fresh_item::<LR1Item, LR1ABuilder<'a>>(g, sets, self.goto_maps(), state, found);
        let from = choose|from: LR1Item|
            sets[state]@.to_set().contains(from) && #[trigger] LR1ABuilder::derived(g, from, found);
        lemma_lr1_variable(g, from, found);
        lemma_state_step::<LR1Item, LR1ABuilder<'a>>(
            g,
            sets,
            self.goto_maps(),
            state,
            from,
            Symbol::Variable(g.lhs_of(found.lr0_item.production as int) as usize),
        );
    }

    proof fn lemma_start_only(&self, state: int, item: int) {
        let g = self.source();
        let sets = self.item_sets();
        let maps = self.goto_maps();
        let found = sets[state]@[item];
        assert(sets[state]@.contains(found));
        assert(sets[state]@.to_set().contains(found));
        if state != 0 {
            lemma_fresh_item::<LR1Item, LR1ABuilder<'a>>(g, sets, maps, state, found);
            let from = choose|from: LR1Item|
                sets[state]@.to_set().contains(from) && #[trigger] LR1ABuilder::derived(
                    g,
                    from,
                    found,
                );
            lemma_lr1_variable(g, from, found);
            assert(sets[state]@.contains(from));
            let k = choose|k: int| 0 <= k < sets[state]@.len() && sets[state]@[k] == from;
            assert(LR1ABuilder::item_ok(g, sets[state]@[k]));
            let p = from.lr0_item.production as int;
            let i = from.lr0_item.pos as int;
            assert(g.rhs(p)[i] == Symbol::Variable(g.start_var() as usize));
            if p < g.production_count() - 1 {
                assert(g.rhs(p)[i].var_below(g.var_count() - 1));
            } else {
                assert(g.rhs(p) == seq![Symbol::Variable(0)]);
            }
        }
    }

    proof fn lemma_no_return(&self, state: int, symbol: Symbol) {
        let g = self.source();
        let sets = self.item_sets();
        let maps = self.goto_maps();
        if maps[state].target(symbol) is Some {
            lemma_target_kernel::<LR1Item, LR1ABuilder<'a>>(g, sets, maps, state, symbol);
            let t = maps[state].target(symbol).unwrap() as int;
            let (from, k) = choose|from: LR1Item, k: int|
                #![trigger sets[t]@[k], LR1ABuilder::advanced(from)]
                LR1ABuilder::item_ok(g, from) && LR1ABuilder::dot_symbol(g, from) is Some && 0
                    <= k < sets[t]@.len() && sets[t]@[k] == LR1ABuilder::advanced(from);
            if t == 0 {
                self.lemma_initial(k);
            }
        }
    }

    proof fn lemma_target(&self, state: int, symbol: Symbol) {
        assert(state_closed::<LR1Item, LR1ABuilder<'a>>(
            self.source(),
            self.item_sets(),
            self.goto_maps(),
            state,
        ));
    }

    fn grammar(&self) -> (g: &Grammar) {
        self.grammar
    }

    fn state_count(&self) -> (n: usize) {
        self.states.len()
    }

    fn item_count(&self, state: usize) -> (n: usize) {
        self.states[state].items.len()
    }

    fn item_core(&self, state: usize, item: usize) -> (item_core: LR0Item) {
        self.states[state].items[item].lr0_item
    }

    fn lookaheads(&self, state: usize, item: usize) -> (lookaheads: Vec<Option<usize>>) {
        let mut lookaheads: Vec<Option<usize>> = Vec::new();
        lookaheads.push(self.states[state].items[item].lookahead);
        proof {
            assert(lookaheads@ =~= seq![self.item_sets()[state as int]@[item as int].lookahead]);
        }
        lookaheads
    }

    fn transition(&self, state: usize, symbol: Symbol) -> (next: Option<usize>) {
        self.states[state].next.get(&symbol)
    }
}

} // verus!
