use vstd::prelude::*;
use super::goto_map::GotoMap;
use super::inner::canonical_collection;
use super::lr0_item::LR0Item;
use crate::grammar::Grammar;

mod builder;
pub use self::builder::{
    lemma_lr0_fresh, lemma_lr0_kernel, lemma_lr0_variable, radix, LR0ABuilder,
};

verus! {

/// The LR(0) automaton of a grammar: the canonical collection of sets of
/// LR(0) items with the transitions between them.
pub struct LR0A<'a> {
    grammar: &'a Grammar,
    states: Vec<State>,
}

/// A state of the LR(0) automaton: its items in ascending order and its
/// transitions.
pub struct State {
    pub next: GotoMap,
    pub items: Vec<LR0Item>,
}

impl<'a> LR0A<'a> {
    /// The grammar of the automaton.
    pub closed spec fn grammar_of(&self) -> &'a Grammar {
        self.grammar
    }

    /// The states in order.
    pub closed spec fn states_of(&self) -> Seq<State> {
        self.states@
    }

    /// The item sets of the states.
    pub open spec fn item_sets(&self) -> Seq<Vec<LR0Item>> {
        Seq::new(self.states_of().len(), |i: int| self.states_of()[i].items)
    }

    /// The transitions of the states.
    pub open spec fn goto_maps(&self) -> Seq<GotoMap> {
        Seq::new(self.states_of().len(), |i: int| self.states_of()[i].next)
    }

    /// The automaton is the canonical collection of LR(0) item sets of its
    /// grammar.
    pub open spec fn wf(&self) -> bool {
        &&& self.grammar_of().wf()
        &&& canonical_collection::<LR0Item, LR0ABuilder<'a>>(
            self.grammar_of(),
            self.item_sets(),
            self.goto_maps(),
        )
    }

    /// Builds the LR(0) automaton of `grammar`.
    #[must_use]
    pub fn new(grammar: &'a Grammar) -> (automaton: Self)
        requires
            grammar.wf(),
        ensures
            automaton.wf(),
            automaton.grammar_of() == grammar,
    {
        LR0ABuilder::new(grammar).build()
    }

    /// The grammar of the automaton.
    #[must_use]
    pub fn grammar(&self) -> (g: &'a Grammar)
        ensures
            g == self.grammar_of(),
    {
        self.grammar
    }

    /// The states in order; state 0 is the initial state.
    #[must_use]
    pub fn states(&self) -> (states: &[State])
        ensures
            states@ == self.states_of(),
    {
        self.states.as_slice()
    }

    /// Puts the states of an automaton together.
    pub(crate) fn assemble(
        grammar: &'a Grammar,
        itemsets: Vec<Vec<LR0Item>>,
        gotos: Vec<GotoMap>,
    ) -> (automaton: Self)
        requires
            itemsets@.len() == gotos@.len(),
        ensures
            automaton.grammar_of() == grammar,
            automaton.item_sets() == itemsets@,
            automaton.goto_maps() == gotos@,
    {
        let mut itemsets = itemsets;
        let mut gotos = gotos;
        let ghost sets = itemsets@;
        let ghost maps = gotos@;
        let mut states: Vec<State> = Vec::new();
        let mut i: usize = 0;
        while i < itemsets.len()
            invariant
                itemsets@.len() == sets.len(),
                gotos@.len() == sets.len(),
                maps.len() == sets.len(),
                i <= sets.len(),
                states@.len() == i,
                forall|k: int|
                    0 <= k < i ==> (#[trigger] states@[k]).items == sets[k] && states@[k].next
                        == maps[k],
                forall|k: int| i <= k < sets.len() ==> #[trigger] itemsets@[k] == sets[k],
                forall|k: int| i <= k < sets.len() ==> #[trigger] gotos@[k] == maps[k],
            decreases sets.len() - i,
        {
            let mut items: Vec<LR0Item> = Vec::new();
            core::mem::swap(&mut itemsets[i], &mut items);
            let mut next = GotoMap::new();
            core::mem::swap(&mut gotos[i], &mut next);
            states.push(State { next, items });
            i = i + 1;
        }
        let automaton = LR0A { grammar, states };
        proof {
            assert(automaton.item_sets() =~= sets);
            assert(automaton.goto_maps() =~= maps);
        }
        automaton
    }
}

} // verus!
