use vstd::prelude::*;
use super::LR0A;
use crate::automata::inner::{close_items, closure_of, derives_in, BuildItemSets, ItemModel};
use crate::automata::lr0_item::LR0Item;
use crate::grammar::{Grammar, Symbol};

verus! {

/// More than any position or lookahead column: ranks are numbers written
/// with this radix.
pub open spec fn radix() -> int {
    0x1_0000_0000_0000_0000
}

/// Builds the LR(0) automaton of a grammar.
pub struct LR0ABuilder<'a> {
    grammar: &'a Grammar,
}

impl<'a> ItemModel<LR0Item> for LR0ABuilder<'a> {
    closed spec fn grammar(&self) -> &Grammar {
        self.grammar
    }

    open spec fn valid(&self) -> bool {
        self.grammar().wf()
    }

    open spec fn item_ok(g: &Grammar, item: LR0Item) -> bool {
        item.wf(g)
    }

    /// Items are ordered by production, then by the position of the dot.
    open spec fn rank(item: LR0Item) -> int {
        item.production * radix() + item.pos
    }

    open spec fn rank_bound(g: &Grammar) -> int {
        g.production_count() * radix()
    }

    /// The augmented start production with the dot at the start.
    open spec fn start(g: &Grammar) -> LR0Item {
        LR0Item { production: g.start_production() as usize, pos: 0 }
    }

    open spec fn dot_symbol(g: &Grammar, item: LR0Item) -> Option<Symbol> {
        item.dot(g)
    }

    open spec fn advanced(item: LR0Item) -> LR0Item {
        LR0Item { production: item.production, pos: (item.pos + 1) as usize }
    }

    /// An item with a variable at the dot brings in every production of
    /// that variable with the dot at the start.
    open spec fn derived(g: &Grammar, from: LR0Item, to: LR0Item) -> bool {
        &&& from.wf(g)
        &&& to.pos == 0
        &&& match from.dot(g) {
            Some(Symbol::Variable(a)) => g.rule_start(a as int) <= to.production < g.rule_start(
                a + 1,
            ),
            _ => false,
        }
    }

    proof fn lemma_rank(g: &Grammar, a: LR0Item, b: LR0Item) {
    }

    proof fn lemma_items(g: &Grammar, a: LR0Item, b: LR0Item) {
        if a.wf(g) && Self::derived(g, a, b) {
            match a.dot(g) {
                Some(Symbol::Variable(v)) => {
                    assert(g.rhs(a.production as int)[a.pos as int].var_below(g.var_count()));
                    g.lemma_rule_of(v as int, b.production as int);
                },
                _ => {},
            }
        }
    }

    fn start_item(&self) -> (item: LR0Item) {
        LR0Item::new(self.grammar.production_total() - 1, 0)
    }

    fn advance(&self, item: &LR0Item) -> (next: LR0Item) {
        let len = self.grammar.rhs_len(item.production);
        LR0Item::new(item.production, item.pos + 1)
    }

    fn symbol_at_dot(&self, item: &LR0Item) -> (s: Option<Symbol>) {
        item.symbol_at_dot(self.grammar)
    }

    fn precedes(&self, a: &LR0Item, b: &LR0Item) -> (r: bool) {
        a.production < b.production || (a.production == b.production && a.pos < b.pos)
    }

    fn expand(&self, item: &LR0Item) -> (next: Vec<LR0Item>) {
        let mut next: Vec<LR0Item> = Vec::new();
        if let Some(Symbol::Variable(a)) = item.symbol_at_dot(self.grammar) {
            proof {
                assert(self.grammar.rhs(item.production as int)[item.pos as int].var_below(
                    self.grammar.var_count(),
                ));
            }
            let (first, end) = self.grammar.rule_range(a);
            let mut alt = first;
            while alt < end
                invariant
                    first <= alt <= end,
                    forall|to: LR0Item|
                        next@.contains(to) <==> to.pos == 0 && first <= to.production < alt,
                decreases end - alt,
            {
                let ghost before = next@;
                next.push(LR0Item::new(alt, 0));
                proof {
                    assert forall|to: LR0Item|
                        next@.contains(to) <==> to.pos == 0 && first <= to.production < alt
                            + 1 by {
                        if next@.contains(to) {
                            let k = choose|k: int| 0 <= k < next@.len() && next@[k] == to;
                            if k < before.len() {
                                assert(before[k] == to);
                                assert(before.contains(to));
                            }
                        }
                        if to.pos == 0 && first <= to.production < alt {
                            assert(before.contains(to));
                            let k = choose|k: int| 0 <= k < before.len() && before[k] == to;
                            assert(next@[k] == to);
                        }
                        if to.pos == 0 && to.production == alt {
                            assert(next@[before.len() as int] == to);
                        }
                    }
                }
                alt = alt + 1;
            }
        }
        next
    }
}

/// What an item brings into a closed set, directly or by way of other
/// items, has the dot at the start.
pub proof fn lemma_lr0_fresh(g: &Grammar, from: LR0Item, to: LR0Item, n: nat)
    requires
        derives_in::<LR0Item, LR0ABuilder>(g, from, to, n),
        n > 0,
    ensures
        to.pos == 0,
    decreases n,
{
    let mid = choose|mid: LR0Item| #[trigger]
        LR0ABuilder::derived(g, from, mid) && derives_in::<LR0Item, LR0ABuilder>(
            g,
            mid,
            to,
            (n - 1) as nat,
        );
    if n > 1 {
        lemma_lr0_fresh(g, mid, to, (n - 1) as nat);
    }
}

/// An item of a closed set with the dot behind the start is one of the
/// items that the set was closed from.
pub proof fn lemma_lr0_kernel(g: &Grammar, seed: Set<LR0Item>, item: LR0Item)
    requires
        closure_of::<LR0Item, LR0ABuilder>(g, seed).contains(item),
        item.pos >= 1,
    ensures
        seed.contains(item),
{
    let (from, n) = choose|from: LR0Item, n: nat|
        seed.contains(from) && #[trigger] derives_in::<LR0Item, LR0ABuilder>(g, from, item, n);
    if n > 0 {
        lemma_lr0_fresh(g, from, item, n);
    }
}

/// An item is brought in by an item with the variable of its production at
/// the dot.
pub proof fn lemma_lr0_variable(g: &Grammar, from: LR0Item, to: LR0Item)
    requires
        g.wf(),
        LR0ABuilder::derived(g, from, to),
    ensures
        0 <= to.production < g.production_count(),
        from.dot(g) == Some(Symbol::Variable(g.lhs_of(to.production as int) as usize)),
{
    match from.dot(g) {
        Some(Symbol::Variable(v)) => {
            assert(g.rhs(from.production as int)[from.pos as int].var_below(g.var_count()));
            g.lemma_rule_of(v as int, to.production as int);
        },
        _ => {},
    }
}

impl<'a> BuildItemSets<LR0Item> for LR0ABuilder<'a> {
    /// The closure of a set of LR(0) items: for each item with a variable
    /// at the dot, every production of that variable with the dot at the
    /// start, until nothing is added.
    fn closure(&self, items: &Vec<LR0Item>) -> (closed: Vec<LR0Item>) {
        close_items(self, items)
    }
}

impl<'a> LR0ABuilder<'a> {
    /// The grammar whose automaton is built.
    pub closed spec fn source(&self) -> &'a Grammar {
        self.grammar
    }

    /// A builder for the automaton of `grammar`.
    #[must_use]
    pub fn new(grammar: &'a Grammar) -> (builder: Self)
        ensures
            builder.source() == grammar,
            builder.grammar() == grammar,
            grammar.wf() ==> builder.valid(),
    {
        LR0ABuilder { grammar }
    }

    /// The LR(0) automaton of the grammar.
    #[must_use]
    pub fn build(self) -> (automaton: LR0A<'a>)
        requires
            self.source().wf(),
        ensures
            automaton.wf(),
            automaton.grammar_of() == self.source(),
    {
        let (itemsets, gotos) = <Self as BuildItemSets<LR0Item>>::build(&self);
        LR0A::assemble(self.grammar, itemsets, gotos)
    }
}

} // verus!
