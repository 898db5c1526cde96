use vstd::prelude::*;
use super::LR1A;
use crate::automata::inner::{close_items, closure_of, derives_in, BuildItemSets, ItemModel};
use crate::automata::lr0_item::LR0Item;
use crate::automata::lr0a::radix;
use crate::automata::lr1_item::LR1Item;
use crate::grammar::{
    add_first, feeds_set, first_stage, in_first, lemma_feeds_end, lemma_feeds_terminal,
    lemma_feeds_variable, lemma_first_bounded, symbol_first, tail_first, within, First, Grammar,
    Nullable, Symbol,
};
use crate::index_set::{class_of, column_of, LookaheadSet};

verus! {

/// Builds the LR(1) automaton of a grammar.
pub struct LR1ABuilder<'a> {
    grammar: &'a Grammar,
    nullable: Nullable,
    first: First,
}

/// The lookahead is a class of grammar `g`.
pub open spec fn lookahead_in_grammar(g: &Grammar, lookahead: Option<usize>) -> bool {
    match lookahead {
        None => true,
        Some(t) => t < g.word_total(),
    }
}

/// The lookaheads that an item hands to the items it brings in: what can
/// begin the rest of its production behind the variable at the dot,
/// followed by its own lookahead.
pub open spec fn carried(g: &Grammar, item: LR1Item) -> Set<Option<usize>> {
    feeds_set(
        g,
        item.lr0_item.production as int,
        item.lr0_item.pos + 1,
        Set::<Option<usize>>::empty().insert(item.lookahead),
    )
}

/// What can follow a position of a production, given classes of the
/// grammar, is a class of the grammar.
proof fn lemma_carried_ok(g: &Grammar, p: int, j: int, base: Set<Option<usize>>, la: Option<usize>)
    requires
        g.wf(),
        0 <= p < g.production_count(),
        0 <= j,
        forall|b: Option<usize>| base.contains(b) ==> lookahead_in_grammar(g, b),
        feeds_set(g, p, j, base).contains(la),
    ensures
        lookahead_in_grammar(g, la),
{
    g.lemma_word_total();
    if let Some(t) = la {
        if tail_first(g, p, j, t) {
            let m = choose|m: int|
                j <= m < g.rhs(p).len() && symbol_first(g, #[trigger] g.rhs(p)[m], t)
                    && forall|u: int|
                    j <= u < m ==> crate::grammar::symbol_nullable(g, #[trigger] g.rhs(p)[u]);
            match g.rhs(p)[m] {
                Symbol::Terminal(c) => {
                    assert(g.rhs(p)[m].word_below(g.word_total() as int));
                },
                Symbol::Variable(c) => {
                    let k = choose|k: nat| first_stage(g, k)[c as int].contains(t);
                    lemma_first_bounded(g, c as int, t, k);
                },
            }
        }
    }
}

impl<'a> ItemModel<LR1Item> for LR1ABuilder<'a> {
    closed spec fn grammar(&self) -> &Grammar {
        self.grammar
    }

    closed spec fn valid(&self) -> bool {
        &&& self.grammar.wf()
        &&& self.nullable.describes(self.grammar)
        &&& self.first.describes(self.grammar)
    }

    open spec fn item_ok(g: &Grammar, item: LR1Item) -> bool {
        item.lr0_item.wf(g) && lookahead_in_grammar(g, item.lookahead)
    }

    /// Items are ordered by production, then by the position of the dot,
    /// then by lookahead, end of input first.
    open spec fn rank(item: LR1Item) -> int {
        (item.lr0_item.production * 0x1_0000_0000_0000_0000 + item.lr0_item.pos)
            * 0x2_0000_0000_0000_0000 + column_of(item.lookahead)
    }

    open spec fn rank_bound(g: &Grammar) -> int {
        g.production_count() * 0x1_0000_0000_0000_0000 * 0x2_0000_0000_0000_0000
    }

    /// The augmented start production with the dot at the start and end of
    /// input as lookahead.
    open spec fn start(g: &Grammar) -> LR1Item {
        LR1Item {
            lr0_item: LR0Item { production: g.start_production() as usize, pos: 0 },
            lookahead: None,
        }
    }

    open spec fn dot_symbol(g: &Grammar, item: LR1Item) -> Option<Symbol> {
        item.lr0_item.dot(g)
    }

    open spec fn advanced(item: LR1Item) -> LR1Item {
        LR1Item {
            lr0_item: LR0Item {
                production: item.lr0_item.production,
                pos: (item.lr0_item.pos + 1) as usize,
            },
            lookahead: item.lookahead,
        }
    }

    /// An item `[A -> alpha . B beta, a]` brings in, for every production
    /// of `B` and every lookahead that can begin `beta a`, the item of that
    /// production with the dot at the start and that lookahead.
    open spec fn derived(g: &Grammar, from: LR1Item, to: LR1Item) -> bool {
        &&& from.lr0_item.wf(g)
        &&& to.lr0_item.pos == 0
        &&& match from.lr0_item.dot(g) {
            Some(Symbol::Variable(b)) => g.rule_start(b as int) <= to.lr0_item.production
                < g.rule_start(b + 1),
            _ => false,
        }
        &&& carried(g, from).contains(to.lookahead)
    }

    proof fn lemma_rank(g: &Grammar, a: LR1Item, b: LR1Item) {
        let x = a.lr0_item.production * 0x1_0000_0000_0000_0000 + a.lr0_item.pos;
        let y = b.lr0_item.production * 0x1_0000_0000_0000_0000 + b.lr0_item.pos;
        assert(0 <= column_of(a.lookahead) <= 0x1_0000_0000_0000_0000);
        assert(0 <= column_of(b.lookahead) <= 0x1_0000_0000_0000_0000);
        if Self::rank(a) == Self::rank(b) {
            assert(x == y);
            assert(column_of(a.lookahead) == column_of(b.lookahead));
            assert(a.lookahead == b.lookahead);
            assert(a.lr0_item == b.lr0_item);
        }
        if Self::item_ok(g, a) {
            assert(x + 1 <= g.production_count() * 0x1_0000_0000_0000_0000);
        }
    }

    proof fn lemma_items(g: &Grammar, a: LR1Item, b: LR1Item) {
        g.lemma_word_total();
        if Self::item_ok(g, a) && Self::derived(g, a, b) {
            match a.lr0_item.dot(g) {
                Some(Symbol::Variable(v)) => {
                    assert(g.rhs(a.lr0_item.production as int)[a.lr0_item.pos as int].var_below(
                        g.var_count(),
                    ));
                    g.lemma_rule_of(v as int, b.lr0_item.production as int);
                },
                _ => {},
            }
            lemma_carried_ok(
                g,
                a.lr0_item.production as int,
                a.lr0_item.pos + 1,
                Set::<Option<usize>>::empty().insert(a.lookahead),
                b.lookahead,
            );
        }
    }

    fn start_item(&self) -> (item: LR1Item) {
        LR1Item::new(self.grammar.production_total() - 1, 0, None)
    }

    fn advance(&self, item: &LR1Item) -> (next: LR1Item) {
        let len = self.grammar.rhs_len(item.lr0_item.production);
        LR1Item::new(item.lr0_item.production, item.lr0_item.pos + 1, item.lookahead)
    }

    fn symbol_at_dot(&self, item: &LR1Item) -> (s: Option<Symbol>) {
        item.lr0_item.symbol_at_dot(self.grammar)
    }

    fn precedes(&self, a: &LR1Item, b: &LR1Item) -> (r: bool) {
        proof {
            assert(0 <= column_of(a.lookahead) <= 0x1_0000_0000_0000_0000);
            assert(0 <= column_of(b.lookahead) <= 0x1_0000_0000_0000_0000);
        }
        if a.lr0_item.production != b.lr0_item.production {
            a.lr0_item.production < b.lr0_item.production
        } else if a.lr0_item.pos != b.lr0_item.pos {
            a.lr0_item.pos < b.lr0_item.pos
        } else {
            match (a.lookahead, b.lookahead) {
                (None, None) => false,
                (None, Some(_)) => true,
                (Some(_), None) => false,
                (Some(x), Some(y)) => x < y,
            }
        }
    }

    fn expand(&self, item: &LR1Item) -> (next: Vec<LR1Item>) {
        let mut next: Vec<LR1Item> = Vec::new();
        let ghost g = self.grammar;
        if let Some(Symbol::Variable(b)) = item.lr0_item.symbol_at_dot(self.grammar) {
            proof {
                assert(g.rhs(item.lr0_item.production as int)[item.lr0_item.pos as int].var_below(
                    g.var_count(),
                ));
            }
            let lookaheads = self.lookaheads_behind(item);
            let (first, end) = self.grammar.rule_range(b);
            let ghost cols = lookaheads.columns();
            let count = lookaheads.len();
            proof {
                lookaheads.lemma_members();
            }
            let mut m: usize = 0;
            while m < count
                invariant
                    lookaheads.wf(),
                    cols == lookaheads.columns(),
                    count == cols.len(),
                    m <= count,
                    first <= end,
                    forall|to: LR1Item|
                        #![trigger next@.contains(to)]
                        next@.contains(to) <==> to.lr0_item.pos == 0 && first
                            <= to.lr0_item.production < end && exists|k: int|
                            0 <= k < m && to.lookahead == class_of(#[trigger] cols[k] as int),
                decreases count - m,
            {
                let lookahead = lookaheads.get(m);
                let ghost outer = next@;
                let mut alt = first;
                while alt < end
                    invariant
                        first <= alt <= end,
                        m < count,
                        count == cols.len(),
                        lookahead == class_of(cols[m as int] as int),
                        forall|to: LR1Item|
                            #![trigger outer.contains(to)]
                            outer.contains(to) <==> to.lr0_item.pos == 0 && first
                                <= to.lr0_item.production < end && exists|k: int|
                                0 <= k < m && to.lookahead == class_of(#[trigger] cols[k] as int),
                        forall|to: LR1Item|
                            #![trigger next@.contains(to)]
                            next@.contains(to) <==> outer.contains(to) || (to.lr0_item.pos == 0
                                && first <= to.lr0_item.production < alt && to.lookahead
                                == lookahead),
                    decreases end - alt,
                {
                    let ghost before = next@;
                    let ghost alt0 = alt;
                    next.push(LR1Item::new(alt, 0, lookahead));
                    alt = alt + 1;
                    proof {
                        let added = next@[before.len() as int];
                        assert(next@ == before.push(added));
                        assert(added.lr0_item.production == alt0 && added.lr0_item.pos == 0
                            && added.lookahead == lookahead);
                        assert forall|to: LR1Item|
                            #![trigger next@.contains(to)]
                            next@.contains(to) <==> outer.contains(to) || (to.lr0_item.pos == 0
                                && first <= to.lr0_item.production < alt && to.lookahead
                                == lookahead) by {
                            let wanted = outer.contains(to) || (to.lr0_item.pos == 0 && first
                                <= to.lr0_item.production < alt && to.lookahead == lookahead);
                            let had = outer.contains(to) || (to.lr0_item.pos == 0 && first
                                <= to.lr0_item.production < alt0 && to.lookahead == lookahead);
                            assert(before.contains(to) <==> had);
                            if next@.contains(to) {
                                let k = choose|k: int| 0 <= k < next@.len() && next@[k] == to;
                                if k < before.len() {
                                    assert(before[k] == to);
                                    assert(before.contains(to));
                                    assert(wanted);
                                } else {
                                    assert(to == added);
                                    assert(wanted);
                                }
                            }
                            if before.contains(to) {
                                let k = choose|k: int| 0 <= k < before.len() && before[k] == to;
                                assert(next@[k] == to);
                                assert(next@.contains(to));
                            }
                            if to.lr0_item.pos == 0 && to.lr0_item.production == alt0
                                && to.lookahead == lookahead {
                                assert(to.lr0_item == added.lr0_item);
                                assert(to == added);
                                assert(next@[before.len() as int] == to);
                                assert(next@.contains(to));
                            }
                        }
                    }
                }
                proof {
                    assert forall|to: LR1Item|
                        #![trigger next@.contains(to)]
                        next@.contains(to) <==> to.lr0_item.pos == 0 && first
                            <= to.lr0_item.production < end && exists|k: int|
                            0 <= k < m + 1 && to.lookahead == class_of(
                                #[trigger] cols[k] as int,
                            ) by {
                        if outer.contains(to) {
                            let k = choose|k: int|
                                0 <= k < m && to.lookahead == class_of(#[trigger] cols[k] as int);
                            assert(0 <= k < m + 1 && to.lookahead == class_of(cols[k] as int));
                        }
                        if to.lr0_item.pos == 0 && first <= to.lr0_item.production < end
                            && exists|k: int|
                            0 <= k < m + 1 && to.lookahead == class_of(#[trigger] cols[k] as int) {
                            let k = choose|k: int|
                                0 <= k < m + 1 && to.lookahead == class_of(
                                    #[trigger] cols[k] as int,
                                );
                            if k < m {
                                assert(outer.contains(to));
                            }
                        }
                        if to.lookahead == lookahead {
                            assert(to.lookahead == class_of(cols[m as int] as int));
                        }
                    }
                }
                m = m + 1;
            }
            proof {
                lookaheads.lemma_members();
                assert forall|to: LR1Item| next@.contains(to) <==> Self::derived(g, *item, to) by {
                    if next@.contains(to) {
                        let k = choose|k: int|
                            0 <= k < count && to.lookahead == class_of(#[trigger] cols[k] as int);
                        assert(lookaheads@.contains(class_of(cols[k] as int)));
                    }
                    if Self::derived(g, *item, to) {
                        assert(lookaheads@.contains(to.lookahead));
                        assert(crate::index_set::class_ok(to.lookahead));
                        let c = column_of(to.lookahead) as usize;
                        assert(lookaheads.columns().contains(c));
                        assert(cols.contains(c));
                        let k = choose|k: int| 0 <= k < cols.len() && cols[k] == c;
                        assert(to.lookahead == class_of(cols[k] as int));
                    }
                }
            }
        }
        next
    }
}

/// What an item brings into a closed set, directly or by way of other
/// items, has the dot at the start.
pub proof fn lemma_lr1_fresh(g: &Grammar, from: LR1Item, to: LR1Item, n: nat)
    requires
        derives_in::<LR1Item, LR1ABuilder>(g, from, to, n),
        n > 0,
    ensures
        to.lr0_item.pos == 0,
    decreases n,
{
    let mid = choose|mid: LR1Item| #[trigger]
        LR1ABuilder::derived(g, from, mid) && derives_in::<LR1Item, LR1ABuilder>(
            g,
            mid,
            to,
            (n - 1) as nat,
        );
    if n > 1 {
        lemma_lr1_fresh(g, mid, to, (n - 1) as nat);
    }
}

/// An item of a closed set with the dot behind the start is one of the
/// items that the set was closed from.
pub proof fn lemma_lr1_kernel(g: &Grammar, seed: Set<LR1Item>, item: LR1Item)
    requires
        closure_of::<LR1Item, LR1ABuilder>(g, seed).contains(item),
        item.lr0_item.pos >= 1,
    ensures
        seed.contains(item),
{
    let (from, n) = choose|from: LR1Item, n: nat|
        seed.contains(from) && #[trigger] derives_in::<LR1Item, LR1ABuilder>(g, from, item, n);
    if n > 0 {
        lemma_lr1_fresh(g, from, item, n);
    }
}

/// An item is brought in by an item with the variable of its production at
/// the dot.
pub proof fn lemma_lr1_variable(g: &Grammar, from: LR1Item, to: LR1Item)
    requires
        g.wf(),
        LR1ABuilder::derived(g, from, to),
    ensures
        0 <= to.lr0_item.production < g.production_count(),
        from.lr0_item.dot(g) == Some(
            Symbol::Variable(g.lhs_of(to.lr0_item.production as int) as usize),
        ),
{
    match from.lr0_item.dot(g) {
        Some(Symbol::Variable(v)) => {
            assert(g.rhs(from.lr0_item.production as int)[from.lr0_item.pos as int].var_below(
                g.var_count(),
            ));
            g.lemma_rule_of(v as int, to.lr0_item.production as int);
        },
        _ => {},
    }
}

impl<'a> BuildItemSets<LR1Item> for LR1ABuilder<'a> {
    /// The closure of a set of LR(1) items: for each item with a variable
    /// at the dot, every production of that variable with the dot at the
    /// start and each lookahead that the item hands on, until nothing is
    /// added.
    fn closure(&self, items: &Vec<LR1Item>) -> (closed: Vec<LR1Item>) {
        close_items(self, items)
    }
}

impl<'a> LR1ABuilder<'a> {
    /// The grammar whose automaton is built.
    pub closed spec fn source(&self) -> &'a Grammar {
        self.grammar
    }

    /// The builder holds the analyses of its grammar.
    pub closed spec fn ready(&self) -> bool {
        &&& self.grammar.wf()
        &&& self.nullable.describes(self.grammar)
        &&& self.first.describes(self.grammar)
    }

    /// A builder for the automaton of `grammar`.
    #[must_use]
    pub fn new(grammar: &'a Grammar) -> (builder: Self)
        requires
            grammar.wf(),
        ensures
            builder.source() == grammar,
            builder.grammar() == grammar,
            builder.ready(),
            builder.valid(),
    {
        let (first, nullable) = grammar.first_set();
        LR1ABuilder { grammar, nullable, first }
    }

    /// The LR(1) automaton of the grammar.
    #[must_use]
    pub fn build(self) -> (automaton: LR1A<'a>)
        requires
            self.ready(),
        ensures
            automaton.is_canonical(),
            automaton.source() == self.source(),
    {
        let (itemsets, gotos) = <Self as BuildItemSets<LR1Item>>::build(&self);
        LR1A::assemble(self.grammar, itemsets, gotos)
    }

    /// The lookaheads that `item` hands to the items it brings in: what
    /// can begin the rest of the production behind the variable at the dot,
    /// and the item's own lookahead where that rest can vanish.
    fn lookaheads_behind(&self, item: &LR1Item) -> (lookaheads: LookaheadSet)
        requires
            self.ready(),
            item.lr0_item.wf(self.source()),
            lookahead_in_grammar(self.source(), item.lookahead),
            item.lr0_item.pos < self.source().rhs(item.lr0_item.production as int).len(),
        ensures
            lookaheads.wf(),
            lookaheads@ == carried(self.source(), *item),
    {
        let grammar = self.grammar;
        let p = item.lr0_item.production;
        let len = grammar.rhs_len(p);
        let ghost base = Set::<Option<usize>>::empty().insert(item.lookahead);
        let mut trailer = LookaheadSet::new();
        proof {
            grammar.lemma_word_total();
        }
        trailer.insert(item.lookahead);
        proof {
            lemma_feeds_end(grammar, p as int, base);
            assert(trailer@ =~= base);
        }
        let mut j: usize = len;
        while j > item.lr0_item.pos + 1
            invariant
                self.ready(),
                grammar == self.source(),
                p == item.lr0_item.production,
                p < grammar.production_count(),
                len == grammar.rhs(p as int).len(),
                item.lr0_item.pos < len,
                item.lr0_item.pos + 1 <= j <= len,
                trailer.wf(),
                within(trailer, grammar.word_total() as int),
                trailer@ == feeds_set(grammar, p as int, j as int, base),
            decreases j,
        {
            j = j - 1;
            let symbol = grammar.symbol(p, j);
            proof {
                grammar.lemma_word_total();
                assert(grammar.rhs(p as int)[j as int].var_below(grammar.var_count()));
                assert(grammar.rhs(p as int)[j as int].word_below(grammar.word_total() as int));
            }
            match symbol {
                Some(Symbol::Terminal(t)) => {
                    trailer = LookaheadSet::new();
                    trailer.insert(Some(t));
                    proof {
                        lemma_feeds_terminal(grammar, p as int, j as int, t, base);
                        assert(trailer@ =~= feeds_set(grammar, p as int, j as int, base));
                    }
                },
                Some(Symbol::Variable(b)) => {
                    proof {
                        lemma_feeds_variable(grammar, p as int, j as int, b, base);
                    }
                    if self.nullable.get(b) {
                        add_first(&mut trailer, &self.first, b, Ghost(grammar));
                    } else {
                        trailer = LookaheadSet::new();
                        add_first(&mut trailer, &self.first, b, Ghost(grammar));
                        proof {
                            assert(trailer@ =~= crate::grammar::first_classes(grammar, b as int));
                        }
                    }
                },
                None => {},
            }
        }
        trailer
    }
}

} // verus!
