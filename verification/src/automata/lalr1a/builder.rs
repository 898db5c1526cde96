use vstd::prelude::*;
use crate::automata::goto_map::GotoMap;
use crate::automata::inner::{
    canonical_collection, has_dot, lemma_state_closed, lemma_state_step, state_closed, ItemModel,
};
use crate::automata::lr0_item::LR0Item;
use super::LALR1A;
use crate::automata::lr0a::{LR0ABuilder, State, LR0A};
use crate::grammar::{derives_empty, tail_nullable, Grammar, Nullable, Symbol};
use crate::index_set::{IndexSet, LookaheadSet};
use crate::transitive_closure::{
    edge, graph_ok, lemma_chain_is_path, lemma_path_is_chain, reach_in, reach_union, reaches,
    rel_reach_in, rel_reaches, transitive_closure,
};

verus! {

/// A transition of the LR(0) automaton on a variable.
#[derive(Debug, Clone, Copy, PartialEq, Eq, Hash, Structural)]
pub struct NonterminalTransition {
    pub state: usize,
    pub var: usize,
}

/// The state reached from `state` on `symbol` in the LR(0) automaton.
pub open spec fn goto_of(lr0: &LR0A, state: int, symbol: Symbol) -> Option<usize> {
    lr0.goto_maps()[state].target(symbol)
}

/// The item is in the item set of the state.
pub open spec fn holds(lr0: &LR0A, state: int, item: LR0Item) -> bool {
    lr0.item_sets()[state]@.to_set().contains(item)
}

/// `t` is a transition of the automaton.
pub open spec fn is_transition(lr0: &LR0A, t: NonterminalTransition) -> bool {
    t.state < lr0.item_sets().len() && goto_of(lr0, t.state as int, Symbol::Variable(t.var)) is Some
}

/// The state that transition `t` leads to.
pub open spec fn target_of(lr0: &LR0A, t: NonterminalTransition) -> int {
    goto_of(lr0, t.state as int, Symbol::Variable(t.var)).unwrap() as int
}

/// The state reached from `p` by the first `i` symbols of production
/// `alt`.
pub open spec fn walk(lr0: &LR0A, p: int, alt: int, i: nat) -> int
    decreases i,
{
    if i == 0 {
        p
    } else {
        match goto_of(
            lr0,
            walk(lr0, p, alt, (i - 1) as nat),
            lr0.grammar_of().rhs(alt)[i - 1],
        ) {
            Some(t) => t as int,
            None => 0,
        }
    }
}

/// From a state that holds a production with the dot at the start, the
/// symbols of the production lead, one by one, to states that hold it with
/// the dot moved on.
pub proof fn lemma_walk(lr0: &LR0A, p: int, alt: int, i: nat)
    requires
        lr0.wf(),
        0 <= p < lr0.item_sets().len(),
        0 <= alt < lr0.grammar_of().production_count(),
        alt <= usize::MAX,
        i <= lr0.grammar_of().rhs(alt).len(),
        i <= usize::MAX,
        holds(lr0, p, LR0Item { production: alt as usize, pos: 0 }),
    ensures
        0 <= walk(lr0, p, alt, i) < lr0.item_sets().len(),
        holds(lr0, walk(lr0, p, alt, i), LR0Item { production: alt as usize, pos: i as usize }),
        i > 0 ==> goto_of(
            lr0,
            walk(lr0, p, alt, (i - 1) as nat),
            lr0.grammar_of().rhs(alt)[i - 1],
        ) == Some(walk(lr0, p, alt, i) as usize),
    decreases i,
{
    if i > 0 {
        lemma_walk(lr0, p, alt, (i - 1) as nat);
        let q = walk(lr0, p, alt, (i - 1) as nat);
        let item = LR0Item { production: alt as usize, pos: (i - 1) as usize };
        lemma_state_step::<LR0Item, LR0ABuilder>(
            lr0.grammar_of(),
            lr0.item_sets(),
            lr0.goto_maps(),
            q,
            item,
            lr0.grammar_of().rhs(alt)[i - 1],
        );
    }
}

/// A state with a transition on a variable holds every production of the
/// variable with the dot at the start.
pub proof fn lemma_transition_items(lr0: &LR0A, t: NonterminalTransition, alt: int)
    requires
        lr0.wf(),
        is_transition(lr0, t),
        lr0.grammar_of().rule_start(t.var as int) <= alt < lr0.grammar_of().rule_start(t.var + 1),
    ensures
        t.var < lr0.grammar_of().var_count(),
        0 <= alt < lr0.grammar_of().production_count(),
        alt <= usize::MAX,
        holds(lr0, t.state as int, LR0Item { production: alt as usize, pos: 0 }),
{
    let g = lr0.grammar_of();
    let p = t.state as int;
    let x = Symbol::Variable(t.var);
    assert(state_closed::<LR0Item, LR0ABuilder>(g, lr0.item_sets(), lr0.goto_maps(), p));
    assert(has_dot::<LR0Item, LR0ABuilder>(g, lr0.item_sets()[p]@, x));
    let k = choose|k: int|
        0 <= k < lr0.item_sets()[p]@.len() && #[trigger] LR0ABuilder::dot_symbol(
            g,
            lr0.item_sets()[p]@[k],
        ) == Some(x);
    let from = lr0.item_sets()[p]@[k];
    assert(LR0ABuilder::item_ok(g, from));
    assert(g.rhs(from.production as int)[from.pos as int].var_below(g.var_count()));
    g.lemma_rule_of(t.var as int, alt);
    let to = LR0Item { production: alt as usize, pos: 0 };
    assert(LR0ABuilder::derived(g, from, to));
    assert(lr0.item_sets()[p]@.contains(from));
    lemma_state_closed::<LR0Item, LR0ABuilder>(g, lr0.item_sets(), lr0.goto_maps(), p, from, to);
}

/// A symbol with a transition out of a state is a symbol of the grammar.
pub proof fn lemma_goto_symbol(lr0: &LR0A, state: int, x: Symbol)
    requires
        lr0.wf(),
        0 <= state < lr0.item_sets().len(),
        goto_of(lr0, state, x) is Some,
    ensures
        x.word_below(usize::MAX - 1),
        x.word_below(lr0.grammar_of().word_total() as int),
        x.var_below(lr0.grammar_of().var_count()),
        goto_of(lr0, state, x).unwrap() < lr0.item_sets().len(),
{
    lr0.grammar_of().lemma_word_total();
    let g = lr0.grammar_of();
    assert(state_closed::<LR0Item, LR0ABuilder>(g, lr0.item_sets(), lr0.goto_maps(), state));
    assert(has_dot::<LR0Item, LR0ABuilder>(g, lr0.item_sets()[state]@, x));
    let k = choose|k: int|
        0 <= k < lr0.item_sets()[state]@.len() && #[trigger] LR0ABuilder::dot_symbol(
            g,
            lr0.item_sets()[state]@[k],
        ) == Some(x);
    let from = lr0.item_sets()[state]@[k];
    assert(LR0ABuilder::item_ok(g, from));
    assert(g.rhs(from.production as int)[from.pos as int].var_below(g.var_count()));
    assert(g.rhs(from.production as int)[from.pos as int].word_below(usize::MAX - 1));
    assert(g.rhs(from.production as int)[from.pos as int].word_below(g.word_total() as int));
}

/// What is reached by `reads` from a transition is a transition.
pub proof fn lemma_reads_chain(lr0: &LR0A, t: NonterminalTransition, u: NonterminalTransition,
    n: nat)
    requires
        is_transition(lr0, t),
        rel_reach_in(reads_fn(lr0), t, u, n),
    ensures
        is_transition(lr0, u),
    decreases n,
{
    if n != 0 {
        let z = choose|z: NonterminalTransition| #[trigger]
            reads_fn(lr0)(t, z) && rel_reach_in(reads_fn(lr0), z, u, (n - 1) as nat);
        lemma_reads_chain(lr0, z, u, (n - 1) as nat);
    }
}

/// What is reached by `includes` from a transition is a transition.
pub proof fn lemma_includes_chain(
    lr0: &LR0A,
    t: NonterminalTransition,
    u: NonterminalTransition,
    n: nat,
)
    requires
        is_transition(lr0, t),
        rel_reach_in(includes_fn(lr0), t, u, n),
    ensures
        is_transition(lr0, u),
    decreases n,
{
    if n != 0 {
        let z = choose|z: NonterminalTransition| #[trigger]
            includes_fn(lr0)(t, z) && rel_reach_in(includes_fn(lr0), z, u, (n - 1) as nat);
        let (alt, i) = choose|alt: int, i: int| #[trigger] includes_at(lr0, t, z, alt, i);
        lemma_includes_chain(lr0, z, u, (n - 1) as nat);
    }
}

/// A terminal among the lookaheads of a reduction is a terminal of the
/// grammar.
pub proof fn lemma_la_bounded(lr0: &LR0A, q: int, alt: int, w: usize)
    requires
        lr0.wf(),
        la_set(lr0, q, alt).contains(Some(w)),
    ensures
        w < lr0.grammar_of().word_total(),
{
    let la = Some(w);
    let t = choose|t: NonterminalTransition| #[trigger]
        lookback_rel(lr0, t, q, alt) && follow_set(lr0, t).contains(la);
    let u = choose|u: NonterminalTransition| #[trigger]
        rel_reaches(includes_fn(lr0), t, u) && read_set(lr0, u).contains(la);
    let n = choose|n: nat| rel_reach_in(includes_fn(lr0), t, u, n);
    lemma_includes_chain(lr0, t, u, n);
    let v = choose|v: NonterminalTransition| #[trigger]
        rel_reaches(reads_fn(lr0), u, v) && dr_set(lr0, v).contains(la);
    let m = choose|m: nat| rel_reach_in(reads_fn(lr0), u, v, m);
    lemma_reads_chain(lr0, u, v, m);
    lemma_goto_symbol(lr0, v.state as int, Symbol::Variable(v.var));
    lemma_goto_symbol(lr0, target_of(lr0, v), Symbol::Terminal(w));
}

/// The lookaheads that transition `t` reads directly: the terminals on
/// which the state it leads to has a transition, and end of input for the
/// transition from the initial state on the grammar's first variable.
pub open spec fn dr_set(lr0: &LR0A, t: NonterminalTransition) -> Set<Option<usize>> {
    Set::new(
        |la: Option<usize>|
            match la {
                None => t.state == 0 && t.var == 0,
                Some(w) => goto_of(lr0, target_of(lr0, t), Symbol::Terminal(w)) is Some,
            },
    )
}

/// `t` reads `u`: `u` is a transition on a variable that derives the empty
/// string, out of the state that `t` leads to.
pub open spec fn reads_rel(lr0: &LR0A, t: NonterminalTransition, u: NonterminalTransition) -> bool {
    &&& is_transition(lr0, t)
    &&& is_transition(lr0, u)
    &&& u.state == target_of(lr0, t)
    &&& derives_empty(lr0.grammar_of(), u.var as int)
}

/// The relation `reads`.
pub open spec fn reads_fn(lr0: &LR0A) -> spec_fn(NonterminalTransition,
    NonterminalTransition) -> bool {
    |a: NonterminalTransition, b: NonterminalTransition| reads_rel(lr0, a, b)
}

/// The lookaheads that can be read behind transition `t`: what the
/// transitions reached from it by `reads` read directly.
pub open spec fn read_set(lr0: &LR0A, t: NonterminalTransition) -> Set<Option<usize>> {
    Set::new(
        |la: Option<usize>|
            exists|u: NonterminalTransition| #[trigger]
                rel_reaches(reads_fn(lr0), t, u) && dr_set(lr0, u).contains(la),
    )
}

/// `x` includes `y` through position `i` of production `alt`: `alt` is a
/// production of the variable of `y` with the variable of `x` at position
/// `i` and a rest behind it that can vanish, and `x` starts where the
/// first `i` symbols of `alt` lead from the state of `y`.
pub open spec fn includes_at(
    lr0: &LR0A,
    x: NonterminalTransition,
    y: NonterminalTransition,
    alt: int,
    i: int,
) -> bool {
    let g = lr0.grammar_of();
    &&& is_transition(lr0, x)
    &&& is_transition(lr0, y)
    &&& 0 <= alt
    &&& g.rule_start(y.var as int) <= alt < g.rule_start(y.var + 1)
    &&& 0 <= i < g.rhs(alt).len()
    &&& g.rhs(alt)[i] == Symbol::Variable(x.var)
    &&& tail_nullable(g, alt, i + 1)
    &&& x.state == walk(lr0, y.state as int, alt, i as nat)
}

/// `x` includes `y`: what follows `y` follows `x`.
pub open spec fn includes_rel(lr0: &LR0A, x: NonterminalTransition,
    y: NonterminalTransition) -> bool {
    exists|alt: int, i: int| #[trigger] includes_at(lr0, x, y, alt, i)
}

/// The relation `includes`.
pub open spec fn includes_fn(lr0: &LR0A) -> spec_fn(
    NonterminalTransition,
    NonterminalTransition,
) -> bool {
    |a: NonterminalTransition, b: NonterminalTransition| includes_rel(lr0, a, b)
}

/// The lookaheads that can follow transition `t`: what can be read behind
/// the transitions reached from it by `includes`.
pub open spec fn follow_set(lr0: &LR0A, t: NonterminalTransition) -> Set<Option<usize>> {
    Set::new(
        |la: Option<usize>|
            exists|u: NonterminalTransition| #[trigger]
                rel_reaches(includes_fn(lr0), t, u) && read_set(lr0, u).contains(la),
    )
}

/// The reduction by `alt` in state `q` looks back at transition `t`: `alt`
/// is a production of the variable of `t`, and its symbols lead from the
/// state of `t` to `q`.
pub open spec fn lookback_rel(lr0: &LR0A, t: NonterminalTransition, q: int, alt: int) -> bool {
    let g = lr0.grammar_of();
    &&& is_transition(lr0, t)
    &&& 0 <= alt
    &&& g.rule_start(t.var as int) <= alt < g.rule_start(t.var + 1)
    &&& q == walk(lr0, t.state as int, alt, g.rhs(alt).len())
}

/// The lookaheads on which state `q` reduces by `alt`: what can follow the
/// transitions that the reduction looks back at.
pub open spec fn la_set(lr0: &LR0A, q: int, alt: int) -> Set<Option<usize>> {
    Set::new(
        |la: Option<usize>|
            exists|t: NonterminalTransition| #[trigger]
                lookback_rel(lr0, t, q, alt) && follow_set(lr0, t).contains(la),
    )
}

/// Computes the lookaheads of the LALR(1) automaton of a grammar from its
/// LR(0) automaton.
pub struct LALR1ABuilder<'a> {
    grammar: &'a Grammar,
    lr0a: LR0A<'a>,
    nullable: Nullable,
    nonterminal_transitions: Vec<NonterminalTransition>,
    first_of_state: Vec<usize>,
}

impl<'a> LALR1ABuilder<'a> {
    /// The LR(0) automaton that the lookaheads are computed for.
    pub closed spec fn lr0(&self) -> &LR0A<'a> {
        &self.lr0a
    }

    /// The transitions on variables, in the order of their indices.
    pub closed spec fn transitions(&self) -> Seq<NonterminalTransition> {
        self.nonterminal_transitions@
    }

    /// The builder holds the grammar of its automaton, the grammar's
    /// nullability flags, and where the transitions of each state start.
    pub closed spec fn parts_ok(&self) -> bool {
        &&& self.grammar == self.lr0a.grammar_of()
        &&& self.nullable.describes(self.grammar)
        &&& self.first_of_state@.len() == self.lr0a.item_sets().len() + 1
        &&& forall|s: int, i: int|
            0 <= s < self.first_of_state@.len() && 0 <= i < self.nonterminal_transitions@.len()
                ==> (i < #[trigger] self.first_of_state@[s] <==> (
            #[trigger] self.nonterminal_transitions@[i]).state < s)
        &&& forall|s: int|
            0 <= s < self.first_of_state@.len() ==> #[trigger] self.first_of_state@[s]
                <= self.nonterminal_transitions@.len()
    }

    /// The builder's invariant: the transitions listed are the transitions
    /// of the automaton on variables, each once.
    pub open spec fn wf(&self) -> bool {
        &&& self.lr0().wf()
        &&& self.parts_ok()
        &&& forall|i: int|
            0 <= i < self.transitions().len() ==> is_transition(
                self.lr0(),
                #[trigger] self.transitions()[i],
            )
        &&& forall|t: NonterminalTransition| #[trigger]
            is_transition(self.lr0(), t) ==> self.transitions().contains(t)
        &&& self.transitions().no_duplicates()
    }

    /// The state reached from `state` on `symbol`, where there is one.
    fn step(&self, state: usize, symbol: Symbol) -> (next: usize)
        requires
            self.wf(),
            state < self.lr0().item_sets().len(),
            goto_of(self.lr0(), state as int, symbol) is Some,
        ensures
            Some(next) == goto_of(self.lr0(), state as int, symbol),
            next < self.lr0().item_sets().len(),
    {
        proof {
            lemma_goto_symbol(self.lr0(), state as int, symbol);
        }
        let states = self.lr0a.states();
        match states[state].next.get(&symbol) {
            Some(next) => next,
            None => 0,
        }
    }

    /// The index of the transition from `state` on `var`.
    fn index_of(&self, state: usize, var: usize) -> (j: usize)
        requires
            self.wf(),
            is_transition(self.lr0(), NonterminalTransition { state, var }),
        ensures
            j < self.transitions().len(),
            self.transitions()[j as int] == (NonterminalTransition { state, var }),
    {
        let wanted = NonterminalTransition { state, var };
        proof {
            assert(self.transitions().contains(wanted));
        }
        let ghost at = choose|k: int|
            0 <= k < self.transitions().len() && self.transitions()[k] == wanted;
        let bound = self.first_of_state.len();
        let end = self.first_of_state[state + 1];
        let mut j = self.first_of_state[state];
        proof {
            assert(self.nonterminal_transitions@[at].state == state);
            assert(!(at < self.first_of_state@[state as int]));
            assert(at < self.first_of_state@[state + 1]);
        }
        while j < end
            invariant
                self.wf(),
                wanted == (NonterminalTransition { state, var }),
                0 <= at < self.transitions().len(),
                self.transitions()[at] == wanted,
                j <= at < end,
                end <= self.transitions().len(),
                state + 1 < self.first_of_state@.len(),
                end == self.first_of_state@[state + 1],
                self.first_of_state@[state as int] <= j,
            decreases end - j,
        {
            if self.nonterminal_transitions[j].var == var {
                proof {
                    let found = self.nonterminal_transitions@[j as int];
                    assert(!(j < self.first_of_state@[state as int]));
                    assert(j < self.first_of_state@[state + 1]);
                    assert(found.state == state);
                    assert(found == wanted);
                }
                return j;
            }
            proof {
                assert(j != at);
            }
            j = j + 1;
        }
        j
    }

    /// A builder for the lookaheads of the LALR(1) automaton of `grammar`.
    #[must_use]
    pub fn new(grammar: &'a Grammar) -> (builder: Self)
        requires
            grammar.wf(),
        ensures
            builder.wf(),
            builder.lr0().grammar_of() == grammar,
    {
        let lr0a = LR0A::new(grammar);
        let mut nonterminal_transitions: Vec<NonterminalTransition> = Vec::new();
        let mut first_of_state: Vec<usize> = Vec::new();
        let states = lr0a.states();
        let ghost lr0 = &lr0a;
        let mut p: usize = 0;
        while p < states.len()
            invariant
                lr0a.wf(),
                lr0 == &lr0a,
                states@ == lr0a.states_of(),
                p <= states@.len(),
                states@.len() == lr0.item_sets().len(),
                first_of_state@.len() == p,
                forall|i: int|
                    0 <= i < nonterminal_transitions@.len() ==> is_transition(
                        lr0,
                        #[trigger] nonterminal_transitions@[i],
                    ) && nonterminal_transitions@[i].state < p,
                forall|t: NonterminalTransition| #[trigger]
                    is_transition(lr0, t) && t.state < p ==> nonterminal_transitions@.contains(t),
                nonterminal_transitions@.no_duplicates(),
                forall|s: int, i: int|
                    0 <= s < first_of_state@.len() && 0 <= i < nonterminal_transitions@.len() ==> (i
                        < #[trigger] first_of_state@[s] <==> (
                    #[trigger] nonterminal_transitions@[i]).state < s),
                forall|s: int|
                    0 <= s < first_of_state@.len() ==> #[trigger] first_of_state@[s]
                        <= nonterminal_transitions@.len(),
            decreases states@.len() - p,
        {
            let ghost firsts0 = first_of_state@;
            first_of_state.push(nonterminal_transitions.len());
            proof {
                assert forall|s: int, i: int|
                    0 <= s < first_of_state@.len() && 0 <= i
                        < nonterminal_transitions@.len() implies (i
                    < #[trigger] first_of_state@[s] <==> (
                #[trigger] nonterminal_transitions@[i]).state < s) by {
                    if s < p {
                        assert(first_of_state@[s] == firsts0[s]);
                    }
                }
            }
            let next = &states[p].next;
            let ghost entries = next.entries();
            proof {
                assert(lr0.goto_maps()[p as int] == states@[p as int].next);
                assert(crate::automata::goto_map::keys_distinct(entries));
            }
            let count = next.len();
            let ghost base = nonterminal_transitions@;
            let mut k: usize = 0;
            while k < count
                invariant
                    lr0a.wf(),
                    lr0 == &lr0a,
                    p < lr0.item_sets().len(),
                    next.entries() == entries,
                    entries == lr0.goto_maps()[p as int].entries(),
                    crate::automata::goto_map::keys_distinct(entries),
                    count == entries.len(),
                    k <= count,
                    first_of_state@.len() == p + 1,
                    first_of_state@[p as int] == base.len(),
                    base.len() <= nonterminal_transitions@.len(),
                    forall|i: int| 0 <= i < base.len() ==> nonterminal_transitions@[i] == base[i],
                    forall|i: int| 0 <= i < base.len() ==> (#[trigger] base[i]).state < p,
                    forall|i: int|
                        base.len() <= i < nonterminal_transitions@.len() ==> (
                        #[trigger] nonterminal_transitions@[i]).state == p && exists|m: int|
                            0 <= m < k && #[trigger] entries[m].0 == Symbol::Variable(
                                nonterminal_transitions@[i].var,
                            ),
                    forall|i: int|
                        0 <= i < nonterminal_transitions@.len() ==> is_transition(
                            lr0,
                            #[trigger] nonterminal_transitions@[i],
                        ),
                    forall|t: NonterminalTransition| #[trigger]
                        is_transition(lr0, t) && t.state < p ==> nonterminal_transitions@.contains(
                            t,
                        ),
                    forall|m: int|
                        0 <= m < k ==> (#[trigger] entries[m].0 matches Symbol::Variable(a)
                            ==> nonterminal_transitions@.contains(
                            NonterminalTransition { state: p, var: a },
                        )),
                    nonterminal_transitions@.no_duplicates(),
                    forall|s: int, i: int|
                        0 <= s < first_of_state@.len() && 0 <= i < nonterminal_transitions@.len()
                            ==> (i < #[trigger] first_of_state@[s] <==> (
                        #[trigger] nonterminal_transitions@[i]).state < s),
                    forall|s: int|
                        0 <= s < first_of_state@.len() ==> #[trigger] first_of_state@[s]
                            <= nonterminal_transitions@.len(),
                decreases count - k,
            {
                let (symbol, _) = next.entry(k);
                let ghost before = nonterminal_transitions@;
                if let Symbol::Variable(a) = symbol {
                    let t = NonterminalTransition { state: p, var: a };
                    proof {
                        GotoMap::lemma_entries(entries, symbol);
                        assert(entries[k as int].0 == symbol);
                        assert(is_transition(lr0, t));
                        assert(!before.contains(t)) by {
                            if before.contains(t) {
                                let i = choose|i: int| 0 <= i < before.len() && before[i] == t;
                                if i >= base.len() {
                                    let m = choose|m: int|
                                        0 <= m < k && #[trigger] entries[m].0 == Symbol::Variable(
                                            before[i].var,
                                        );
                                    assert(entries[m].0 != entries[k as int].0);
                                } else {
                                    assert(base[i].state < p);
                                }
                            }
                        }
                    }
                    nonterminal_transitions.push(t);
                    proof {
                        let after = nonterminal_transitions@;
                        assert(after == before.push(t));
                        assert forall|i: int| base.len() <= i < after.len() implies (
                        #[trigger] after[i]).state == p && exists|m: int|
                            0 <= m < k + 1 && #[trigger] entries[m].0 == Symbol::Variable(
                                after[i].var,
                            ) by {
                            if i < before.len() {
                                let m = choose|m: int|
                                    0 <= m < k && #[trigger] entries[m].0 == Symbol::Variable(
                                        before[i].var,
                                    );
                                assert(0 <= m < k + 1 && entries[m].0 == Symbol::Variable(
                                    after[i].var,
                                ));
                            } else {
                                assert(entries[k as int].0 == Symbol::Variable(after[i].var));
                            }
                        }
                        assert forall|u: NonterminalTransition| #[trigger]
                            is_transition(lr0, u) && u.state < p implies after.contains(u) by {
                            assert(before.contains(u));
                            let i = choose|i: int| 0 <= i < before.len() && before[i] == u;
                            assert(after[i] == u);
                        }
                        assert forall|m: int| 0 <= m < k + 1 implies (
                        #[trigger] entries[m].0 matches Symbol::Variable(b) ==> after.contains(
                            NonterminalTransition { state: p, var: b },
                        )) by {
                            if let Symbol::Variable(b) = entries[m].0 {
                                let u = NonterminalTransition { state: p, var: b };
                                if m < k {
                                    assert(before.contains(u));
                                    let i = choose|i: int| 0 <= i < before.len() && before[i] == u;
                                    assert(after[i] == u);
                                } else {
                                    assert(after[before.len() as int] == u);
                                }
                            }
                        }
                        assert forall|i: int, j: int|
                            0 <= i < after.len() && 0 <= j < after.len() && i != j implies after[i]
                            != after[j] by {
                            if i < before.len() && j < before.len() {
                                assert(before[i] != before[j]);
                            } else if i < before.len() {
                                assert(before.contains(before[i]));
                            } else if j < before.len() {
                                assert(before.contains(before[j]));
                            }
                        }
                        assert forall|s: int, i: int|
                            0 <= s < first_of_state@.len() && 0 <= i < after.len() implies (i
                            < #[trigger] first_of_state@[s] <==> (#[trigger] after[i]).state
                            < s) by {
                            if i < before.len() {
                                assert(after[i] == before[i]);
                            }
                        }
                    }
                } else {
                    proof {
                        assert forall|i: int|
                            base.len() <= i < nonterminal_transitions@.len() implies (
                        #[trigger] nonterminal_transitions@[i]).state == p && exists|m: int|
                            0 <= m < k + 1 && #[trigger] entries[m].0 == Symbol::Variable(
                                nonterminal_transitions@[i].var,
                            ) by {
                            let m = choose|m: int|
                                0 <= m < k && #[trigger] entries[m].0 == Symbol::Variable(
                                    before[i].var,
                                );
                            assert(0 <= m < k + 1 && entries[m].0 == Symbol::Variable(
                                before[i].var,
                            ));
                        }
                    }
                }
                k = k + 1;
            }
            proof {
                assert forall|t: NonterminalTransition| #[trigger]
                    is_transition(lr0, t)
                        && t.state < p + 1 implies nonterminal_transitions@.contains(
                    t,
                ) by {
                    if t.state == p {
                        GotoMap::lemma_entries(entries, Symbol::Variable(t.var));
                        let m = choose|m: int|
                            0 <= m < entries.len() && (#[trigger] entries[m]).0 == Symbol::Variable(
                                t.var,
                            );
                        assert(entries[m].0 matches Symbol::Variable(a)
                            ==> nonterminal_transitions@.contains(
                            NonterminalTransition { state: p, var: a },
                        ));
                    }
                }
                assert forall|i: int| 0 <= i < nonterminal_transitions@.len() implies is_transition(
                    lr0,
                    #[trigger] nonterminal_transitions@[i],
                ) && nonterminal_transitions@[i].state < p + 1 by {
                    if i < base.len() {
                        assert(base[i].state < p);
                    }
                }
            }
            p = p + 1;
        }
        let ghost firsts0 = first_of_state@;
        first_of_state.push(nonterminal_transitions.len());
        proof {
            assert forall|s: int, i: int|
                0 <= s < first_of_state@.len() && 0 <= i < nonterminal_transitions@.len() implies (
            i < #[trigger] first_of_state@[s] <==> (#[trigger] nonterminal_transitions@[i]).state
                < s) by {
                if s < p {
                    assert(first_of_state@[s] == firsts0[s]);
                }
            }
        }
        let nullable = grammar.nullability();
        Self { grammar, lr0a, nullable, nonterminal_transitions, first_of_state }
    }

    /// The transitions of the LR(0) automaton on variables, in the order
    /// of their indices.
    #[must_use]
    pub fn nonterminal_transitions(&self) -> (list: &[NonterminalTransition])
        ensures
            list@ == self.transitions(),
    {
        self.nonterminal_transitions.as_slice()
    }

    /// For each transition, the lookaheads that it reads directly.
    #[must_use]
    pub fn direct_read(&self) -> (direct_read: Vec<LookaheadSet>)
        requires
            self.wf(),
        ensures
            direct_read@.len() == self.transitions().len(),
            forall|i: int|
                0 <= i < direct_read@.len() ==> (#[trigger] direct_read@[i]).wf()
                    && direct_read@[i]@
                    == dr_set(self.lr0(), self.transitions()[i]),
    {
        let states = self.lr0a.states();
        let mut direct_read: Vec<LookaheadSet> = Vec::new();
        let mut i: usize = 0;
        while i < self.nonterminal_transitions.len()
            invariant
                self.wf(),
                states@ == self.lr0().states_of(),
                i <= self.transitions().len(),
                direct_read@.len() == i,
                forall|j: int|
                    0 <= j < i ==> (#[trigger] direct_read@[j]).wf() && direct_read@[j]@ == dr_set(
                        self.lr0(),
                        self.transitions()[j],
                    ),
            decreases self.transitions().len() - i,
        {
            let transition = self.nonterminal_transitions[i];
            let NonterminalTransition { state: p, var: a } = transition;
            let mut set = LookaheadSet::new();
            // The only "transition" to the "accept state" is from the state
            // reached by shifting the start variable from the start state.
            if p == 0 && a == 0 {
                set.insert(None);
            }
            proof {
                assert(is_transition(self.lr0(), self.transitions()[i as int]));
            }
            let q = self.step(p, Symbol::Variable(a));
            let next = &states[q].next;
            let ghost entries = next.entries();
            proof {
                assert(self.lr0().goto_maps()[q as int] == states@[q as int].next);
            }
            let mut k: usize = 0;
            while k < next.len()
                invariant
                    self.wf(),
                    q < self.lr0().item_sets().len(),
                    next.entries() == entries,
                    entries == self.lr0().goto_maps()[q as int].entries(),
                    k <= entries.len(),
                    set.wf(),
                    forall|la: Option<usize>|
                        set@.contains(la) <==> match la {
                            None => p == 0 && a == 0,
                            Some(w) => exists|m: int|
                                0 <= m < k && (#[trigger] entries[m]).0 == Symbol::Terminal(w),
                        },
                decreases entries.len() - k,
            {
                let (symbol, _) = next.entry(k);
                let ghost before = set@;
                if let Symbol::Terminal(t) = symbol {
                    // (p, A) directly-reads t
                    proof {
                        GotoMap::lemma_entries(entries, symbol);
                        assert(entries[k as int].0 == symbol);
                        lemma_goto_symbol(self.lr0(), q as int, symbol);
                    }
                    set.insert(Some(t));
                }
                proof {
                    assert forall|la: Option<usize>|
                        set@.contains(la) <==> match la {
                            None => p == 0 && a == 0,
                            Some(w) => exists|m: int|
                                0 <= m < k + 1 && (#[trigger] entries[m]).0 == Symbol::Terminal(w),
                        } by {
                        if let Some(w) = la {
                            if before.contains(la) {
                                let m = choose|m: int|
                                    0 <= m < k && (#[trigger] entries[m]).0 == Symbol::Terminal(w);
                                assert(0 <= m < k + 1 && entries[m].0 == Symbol::Terminal(w));
                            }
                            if exists|m: int|
                                0 <= m < k + 1 && (#[trigger] entries[m]).0 == Symbol::Terminal(w) {
                                let m = choose|m: int|
                                    0 <= m < k + 1 && (#[trigger] entries[m]).0 == Symbol::Terminal(
                                        w,
                                    );
                                if m < k {
                                    assert(before.contains(la));
                                }
                            }
                        }
                    }
                }
                k = k + 1;
            }
            proof {
                let t = self.transitions()[i as int];
                assert forall|la: Option<usize>| set@.contains(la) <==> dr_set(
                    self.lr0(),
                    t,
                ).contains(la) by {
                    if let Some(w) = la {
                        GotoMap::lemma_entries(entries, Symbol::Terminal(w));
                    }
                }
                assert(set@ =~= dr_set(self.lr0(), t));
            }
            direct_read.push(set);
            i = i + 1;
        }
        direct_read
    }

    /// For each transition, the indices of the transitions that it reads.
    #[must_use]
    pub fn reads(&self) -> (reads: Vec<Vec<usize>>)
        requires
            self.wf(),
        ensures
            reads@.len() == self.transitions().len(),
            graph_ok(reads@),
            forall|i: int, j: int|
                0 <= i < reads@.len() ==> (#[trigger] edge(reads@, i, j) <==> 0 <= j
                    < self.transitions().len() && reads_rel(
                    self.lr0(),
                    self.transitions()[i],
                    self.transitions()[j],
                )),
    {
        // NOTE: this doesn't need to be stored: can be computed on the fly.
        let states = self.lr0a.states();
        let mut reads: Vec<Vec<usize>> = Vec::new();
        let mut i: usize = 0;
        while i < self.nonterminal_transitions.len()
            invariant
                self.wf(),
                states@ == self.lr0().states_of(),
                i <= self.transitions().len(),
                reads@.len() == i,
                forall|x: int, k: int|
                    0 <= x < reads@.len() && 0 <= k < reads@[x]@.len()
                        ==> (#[trigger] reads@[x]@[k])
                        < self.transitions().len(),
                forall|x: int, j: int|
                    0 <= x < reads@.len() ==> (#[trigger] edge(reads@, x, j) <==> 0 <= j
                        < self.transitions().len() && reads_rel(
                        self.lr0(),
                        self.transitions()[x],
                        self.transitions()[j],
                    )),
            decreases self.transitions().len() - i,
        {
            let transition = self.nonterminal_transitions[i];
            let NonterminalTransition { state: p, var: a } = transition;
            proof {
                assert(is_transition(self.lr0(), self.transitions()[i as int]));
            }
            let q = self.step(p, Symbol::Variable(a));
            let next = &states[q].next;
            let ghost entries = next.entries();
            proof {
                assert(self.lr0().goto_maps()[q as int] == states@[q as int].next);
            }
            let mut list: Vec<usize> = Vec::new();
            let mut k: usize = 0;
            while k < next.len()
                invariant
                    self.wf(),
                    q < self.lr0().item_sets().len(),
                    Some(q) == goto_of(self.lr0(), p as int, Symbol::Variable(a)),
                    next.entries() == entries,
                    entries == self.lr0().goto_maps()[q as int].entries(),
                    k <= entries.len(),
                    forall|m: int|
                        0 <= m < list@.len() ==> (#[trigger] list@[m]) < self.transitions().len()
                            && self.transitions()[list@[m] as int].state == q && derives_empty(
                            self.lr0().grammar_of(),
                            self.transitions()[list@[m] as int].var as int,
                        ),
                    forall|m: int|
                        0 <= m < k ==> (#[trigger] entries[m].0 matches Symbol::Variable(b)
                            ==> (derives_empty(self.lr0().grammar_of(), b as int) ==> exists|n: int|
                            0 <= n < list@.len() && self.transitions()[#[trigger] list@[n] as int]
                                == (NonterminalTransition { state: q, var: b }))),
                decreases entries.len() - k,
            {
                let (symbol, _) = next.entry(k);
                let ghost before = list@;
                if let Symbol::Variable(b) = symbol {
                    proof {
                        GotoMap::lemma_entries(entries, symbol);
                        assert(entries[k as int].0 == symbol);
                        lemma_goto_symbol(self.lr0(), q as int, symbol);
                    }
                    if self.nullable.get(b) {
                        // (p, A) reads (q, B)
                        let j = self.index_of(q, b);
                        list.push(j);
                    }
                }
                proof {
                    assert forall|m: int| 0 <= m < k + 1 implies (
                    #[trigger] entries[m].0 matches Symbol::Variable(b) ==> (derives_empty(
                        self.lr0().grammar_of(),
                        b as int,
                    ) ==> exists|n: int|
                        0 <= n < list@.len() && self.transitions()[#[trigger] list@[n] as int]
                            == (NonterminalTransition { state: q, var: b }))) by {
                        if let Symbol::Variable(b) = entries[m].0 {
                            if derives_empty(self.lr0().grammar_of(), b as int) {
                                if m < k {
                                    let n = choose|n: int|
                                        0 <= n < before.len() && self.transitions()[
                                        #[trigger] before[n] as int] == (NonterminalTransition {
                                            state: q,
                                            var: b,
                                        });
                                    assert(list@[n] == before[n]);
                                } else {
                                    assert(self.transitions()[list@[before.len() as int] as int]
                                        == (NonterminalTransition { state: q, var: b }));
                                }
                            }
                        }
                    }
                }
                k = k + 1;
            }
            let ghost reads0 = reads@;
            reads.push(list);
            proof {
                let t = self.transitions()[i as int];
                assert forall|x: int, j: int| 0 <= x < reads@.len() implies (#[trigger] edge(
                    reads@,
                    x,
                    j,
                ) <==> 0 <= j < self.transitions().len() && reads_rel(
                    self.lr0(),
                    self.transitions()[x],
                    self.transitions()[j],
                )) by {
                    if x < i {
                        assert(reads@[x] == reads0[x]);
                        assert(edge(reads@, x, j) == edge(reads0, x, j));
                    } else {
                        if edge(reads@, x, j) {
                            let m = choose|m: int| 0 <= m < reads@[x]@.len()
                                && #[trigger] reads@[x]@[m] == j;
                            assert(list@[m] == j);
                            assert(is_transition(self.lr0(), self.transitions()[j]));
                        }
                        if 0 <= j < self.transitions().len() && reads_rel(
                            self.lr0(),
                            t,
                            self.transitions()[j],
                        ) {
                            let u = self.transitions()[j];
                            GotoMap::lemma_entries(entries, Symbol::Variable(u.var));
                            let m = choose|m: int|
                                0 <= m < entries.len() && (#[trigger] entries[m]).0
                                    == Symbol::Variable(u.var);
                            assert(entries[m].0 matches Symbol::Variable(b) ==> (derives_empty(
                                self.lr0().grammar_of(),
                                b as int,
                            ) ==> exists|n: int|
                                0 <= n < list@.len() && self.transitions()[
                                #[trigger] list@[n] as int] == (NonterminalTransition {
                                    state: q,
                                    var: b,
                                })));
                            let n = choose|n: int|
                                0 <= n < list@.len() && self.transitions()[
                                #[trigger] list@[n] as int] == (NonterminalTransition {
                                    state: q,
                                    var: u.var,
                                });
                            assert(self.transitions()[list@[n] as int] == self.transitions()[j]);
                            assert(list@[n] == j);
                            assert(reads@[x]@[n] == j);
                        }
                    }
                }
            }
            i = i + 1;
        }
        reads
    }

    /// For each transition, the lookaheads that can be read behind it.
    #[must_use]
    pub fn read(&self) -> (read: Vec<LookaheadSet>)
        requires
            self.wf(),
        ensures
            read@.len() == self.transitions().len(),
            forall|i: int|
                0 <= i < read@.len() ==> (#[trigger] read@[i]).wf() && read@[i]@ == read_set(
                    self.lr0(),
                    self.transitions()[i],
                ),
    {
        let mut read = self.direct_read();
        let reads = self.reads();
        let ghost init = read@;
        // Cycles among the transitions are no error: the flag is of no
        // interest here.
        let _ = transitive_closure(&mut read, &reads);
        proof {
            let lr0 = self.lr0();
            let nt = self.transitions();
            let rel = reads_fn(lr0);
            let node = |i: int| nt[i];
            assert forall|a: int, b: int| #[trigger] edge(reads@, a, b) implies rel(
                node(a),
                node(b),
            ) by {}
            assert forall|a: int, w: NonterminalTransition|
                0 <= a < reads@.len()
                    && #[trigger] rel(node(a), w) implies exists|b: int| #[trigger]
                edge(reads@, a, b) && node(b) == w by {
                assert(nt.contains(w));
                let b = choose|b: int| 0 <= b < nt.len() && nt[b] == w;
                assert(edge(reads@, a, b) && node(b) == w);
            }
            assert forall|i: int| 0 <= i < read@.len() implies (#[trigger] read@[i]).wf()
                && read@[i]@ == read_set(lr0, nt[i]) by {
                assert(read@[i]@ == reach_union(reads@, init, i));
                assert forall|la: Option<usize>| read@[i]@.contains(la) <==> read_set(
                    lr0,
                    nt[i],
                ).contains(la) by {
                    if read@[i]@.contains(la) {
                        let y = choose|y: int|
                            0 <= y < init.len() && #[trigger] reaches(reads@, i, y)
                                && init[y]@.contains(la);
                        let n = choose|n: nat| reach_in(reads@, i, y, n);
                        lemma_path_is_chain(reads@, rel, node, i, y, n);
                        assert(rel_reaches(rel, nt[i], nt[y]));
                    }
                    if read_set(lr0, nt[i]).contains(la) {
                        let u = choose|u: NonterminalTransition| #[trigger]
                            rel_reaches(rel, nt[i], u) && dr_set(lr0, u).contains(la);
                        let n = choose|n: nat| rel_reach_in(rel, nt[i], u, n);
                        lemma_chain_is_path(reads@, rel, node, i, u, n);
                        let y = choose|y: int|
                            0 <= y < reads@.len() && #[trigger] reach_in(reads@, i, y, n) && node(
                                y,
                            ) == u;
                        assert(reaches(reads@, i, y));
                        assert(init[y]@.contains(la));
                    }
                }
                assert(read@[i]@ =~= read_set(lr0, nt[i]));
            }
        }
        read
    }

    /// Whether what production `alt` holds from position `j` on can
    /// vanish.
    fn tail_can_vanish(&self, alt: usize, j: usize) -> (r: bool)
        requires
            self.wf(),
            alt < self.lr0().grammar_of().production_count(),
        ensures
            r == tail_nullable(self.lr0().grammar_of(), alt as int, j as int),
    {
        let grammar = self.grammar;
        let len = grammar.rhs_len(alt);
        let mut u = j;
        while u < len
            invariant
                self.wf(),
                grammar == self.lr0().grammar_of(),
                alt < grammar.production_count(),
                len == grammar.rhs(alt as int).len(),
                j <= u,
                forall|v: int|
                    j <= v < u && v < len ==> crate::grammar::symbol_nullable(
                        grammar,
                        #[trigger] grammar.rhs(alt as int)[v],
                    ),
            decreases len - u,
        {
            proof {
                assert(grammar.rhs(alt as int)[u as int].var_below(grammar.var_count()));
            }
            match grammar.symbol(alt, u) {
                Some(Symbol::Variable(c)) => {
                    if !self.nullable.get(c) {
                        proof {
                            assert(!crate::grammar::symbol_nullable(
                                grammar,
                                grammar.rhs(alt as int)[u as int],
                            ));
                        }
                        return false;
                    }
                },
                _ => {
                    proof {
                        assert(!crate::grammar::symbol_nullable(
                            grammar,
                            grammar.rhs(alt as int)[u as int],
                        ));
                    }
                    return false;
                },
            }
            u = u + 1;
        }
        true
    }

    /// For each transition, the indices of the transitions that it
    /// includes.
    #[must_use]
    pub fn includes(&self) -> (includes: Vec<Vec<usize>>)
        requires
            self.wf(),
        ensures
            includes@.len() == self.transitions().len(),
            graph_ok(includes@),
            forall|x: int, y: int|
                0 <= x < includes@.len() ==> (#[trigger] edge(includes@, x, y) <==> 0 <= y
                    < self.transitions().len() && includes_rel(
                    self.lr0(),
                    self.transitions()[x],
                    self.transitions()[y],
                )),
    {
        let grammar = self.grammar;
        let ghost lr0 = self.lr0();
        let ghost nt = self.transitions();
        let n = self.nonterminal_transitions.len();
        let mut successors: Vec<Vec<usize>> = Vec::new();
        let mut x: usize = 0;
        while x < n
            invariant
                x <= n,
                successors@.len() == x,
                forall|k: int| 0 <= k < x ==> (#[trigger] successors@[k])@.len() == 0,
            decreases n - x,
        {
            successors.push(Vec::new());
            x = x + 1;
        }
        let mut y: usize = 0;
        while y < n
            invariant
                self.wf(),
                lr0 == self.lr0(),
                nt == self.transitions(),
                grammar == lr0.grammar_of(),
                n == nt.len(),
                y <= n,
                successors@.len() == n,
                includes_sound(lr0, nt, successors@),
                includes_complete(lr0, nt, successors@, y as int, 0, 0),
            decreases n - y,
        {
            let NonterminalTransition { state: p, var: b } = self.nonterminal_transitions[y];
            proof {
                assert(is_transition(lr0, nt[y as int]));
                lemma_goto_symbol(lr0, p as int, Symbol::Variable(b));
            }
            let (first, end) = grammar.rule_range(b);
            let mut alt = first;
            proof {
                assert(includes_complete(lr0, nt, successors@, y as int, alt as int, 0)) by {
                    assert forall|x2: int, y2: int, alt2: int, i2: int|
                        0 <= x2 < nt.len() && 0 <= y2 < nt.len() && #[trigger] includes_at(
                            lr0,
                            nt[x2],
                            nt[y2],
                            alt2,
                            i2,
                        ) && earlier(y2, alt2, i2, y as int, alt as int,
                            0) implies successors@[x2]@.contains(
                        y2 as usize,
                    ) by {
                        assert(earlier(y2, alt2, i2, y as int, 0, 0));
                    }
                }
            }
            while alt < end
                invariant
                    self.wf(),
                    lr0 == self.lr0(),
                    nt == self.transitions(),
                    grammar == lr0.grammar_of(),
                    n == nt.len(),
                    y < n,
                    nt[y as int] == (NonterminalTransition { state: p, var: b }),
                    first == grammar.rule_start(b as int),
                    end == grammar.rule_start(b + 1),
                    end <= grammar.production_count(),
                    first <= alt <= end,
                    successors@.len() == n,
                    includes_sound(lr0, nt, successors@),
                    includes_complete(lr0, nt, successors@, y as int, alt as int, 0),
                decreases end - alt,
            {
                let len = grammar.rhs_len(alt);
                let mut q = p;
                let mut i: usize = 0;
                proof {
                    lemma_transition_items(lr0, nt[y as int], alt as int);
                    lemma_walk(lr0, p as int, alt as int, 0);
                }
                while i < len
                    invariant
                        self.wf(),
                        lr0 == self.lr0(),
                        nt == self.transitions(),
                        grammar == lr0.grammar_of(),
                        n == nt.len(),
                        y < n,
                        nt[y as int] == (NonterminalTransition { state: p, var: b }),
                        grammar.rule_start(b as int) <= alt < grammar.rule_start(b + 1),
                        alt < grammar.production_count(),
                        p < lr0.item_sets().len(),
                        holds(lr0, p as int, LR0Item { production: alt, pos: 0 }),
                        len == grammar.rhs(alt as int).len(),
                        i <= len,
                        q == walk(lr0, p as int, alt as int, i as nat),
                        q < lr0.item_sets().len(),
                        successors@.len() == n,
                        includes_sound(lr0, nt, successors@),
                        includes_complete(lr0, nt, successors@, y as int, alt as int, i as int),
                    decreases len - i,
                {
                    let symbol = grammar.symbol(alt, i).unwrap();
                    let ghost before = successors@;
                    proof {
                        lemma_walk(lr0, p as int, alt as int, (i + 1) as nat);
                    }
                    let mut added = false;
                    if let Symbol::Variable(a) = symbol {
                        if self.tail_can_vanish(alt, i + 1) {
                            let x = self.index_of(q, a);
                            successors[x].push(y);
                            added = true;
                            proof {
                                assert(includes_at(lr0, nt[x as int], nt[y as int], alt as int,
                                    i as int));
                                assert(successors@[x as int]@ == before[x as int]@.push(y));
                                assert(successors@[x as int]@[before[x as int]@.len() as int] == y);
                            }
                        }
                    }
                    proof {
                        assert forall|x2: int, k: int|
                            0 <= x2 < successors@.len() && 0 <= k
                                < successors@[x2]@.len() implies (#[trigger] successors@[x2]@[k])
                            < nt.len() && includes_rel(
                            lr0,
                            nt[x2],
                            nt[successors@[x2]@[k] as int],
                        ) by {
                            if k < before[x2]@.len() {
                                assert(successors@[x2]@[k] == before[x2]@[k]);
                            }
                        }
                        assert forall|x2: int, y2: int, alt2: int, i2: int|
                            0 <= x2 < nt.len() && 0 <= y2 < nt.len() && #[trigger] includes_at(
                                lr0,
                                nt[x2],
                                nt[y2],
                                alt2,
                                i2,
                            ) && earlier(
                                y2,
                                alt2,
                                i2,
                                y as int,
                                alt as int,
                                i + 1,
                            ) implies successors@[x2]@.contains(y2 as usize) by {
                            if earlier(y2, alt2, i2, y as int, alt as int, i as int) {
                                assert(before[x2]@.contains(y2 as usize));
                                let k = choose|k: int|
                                    0 <= k < before[x2]@.len() && before[x2]@[k] == y2 as usize;
                                assert(successors@[x2]@[k] == y2 as usize);
                            } else {
                                assert(y2 == y && alt2 == alt && i2 == i);
                                assert(added);
                                let x = choose|x: int|
                                    0 <= x < nt.len() && successors@[x]@ == before[x]@.push(y)
                                        && nt[x] == (NonterminalTransition {
                                        state: q,
                                        var: nt[x2].var,
                                    });
                                assert(nt[x2] == nt[x]);
                                assert(x2 == x);
                                assert(successors@[x2]@[before[x2]@.len() as int] == y);
                            }
                        }
                    }
                    q = self.step(q, symbol);
                    i = i + 1;
                }
                proof {
                    assert forall|x2: int, y2: int, alt2: int, i2: int|
                        0 <= x2 < nt.len() && 0 <= y2 < nt.len() && #[trigger] includes_at(
                            lr0,
                            nt[x2],
                            nt[y2],
                            alt2,
                            i2,
                        ) && earlier(
                            y2,
                            alt2,
                            i2,
                            y as int,
                            alt + 1,
                            0,
                        ) implies successors@[x2]@.contains(y2 as usize) by {
                        assert(earlier(y2, alt2, i2, y as int, alt as int, len as int));
                    }
                }
                alt = alt + 1;
            }
            proof {
                assert forall|x2: int, y2: int, alt2: int, i2: int|
                    0 <= x2 < nt.len() && 0 <= y2 < nt.len() && #[trigger] includes_at(
                        lr0,
                        nt[x2],
                        nt[y2],
                        alt2,
                        i2,
                    ) && earlier(y2, alt2, i2, y + 1, 0, 0) implies successors@[x2]@.contains(
                    y2 as usize,
                ) by {
                    assert(earlier(y2, alt2, i2, y as int, end as int, 0));
                }
            }
            y = y + 1;
        }
        proof {
            assert forall|x2: int, y2: int| 0 <= x2 < successors@.len() implies (#[trigger] edge(
                successors@,
                x2,
                y2,
            ) <==> 0 <= y2 < nt.len() && includes_rel(lr0, nt[x2], nt[y2])) by {
                if edge(successors@, x2, y2) {
                    let k = choose|k: int|
                        0 <= k < successors@[x2]@.len() && #[trigger] successors@[x2]@[k] == y2;
                    assert(successors@[x2]@[k] < nt.len());
                }
                if 0 <= y2 < nt.len() && includes_rel(lr0, nt[x2], nt[y2]) {
                    let (alt2, i2) = choose|alt2: int, i2: int| #[trigger]
                        includes_at(lr0, nt[x2], nt[y2], alt2, i2);
                    assert(earlier(y2, alt2, i2, n as int, 0, 0));
                    assert(successors@[x2]@.contains(y2 as usize));
                    let k = choose|k: int|
                        0 <= k < successors@[x2]@.len() && successors@[x2]@[k] == y2 as usize;
                    assert(successors@[x2]@[k] == y2);
                }
            }
        }
        successors
    }

    /// For each transition, the lookaheads that can follow it.
    #[must_use]
    pub fn follow(&self) -> (follow: Vec<LookaheadSet>)
        requires
            self.wf(),
        ensures
            follow@.len() == self.transitions().len(),
            forall|i: int|
                0 <= i < follow@.len() ==> (#[trigger] follow@[i]).wf()
                    && follow@[i]@ == follow_set(
                    self.lr0(),
                    self.transitions()[i],
                ),
    {
        let mut follow = self.read();
        let includes = self.includes();
        let ghost init = follow@;
        // Cycles among the transitions are no error: the flag is of no
        // interest here.
        let _ = transitive_closure(&mut follow, &includes);
        proof {
            let lr0 = self.lr0();
            let nt = self.transitions();
            let rel = includes_fn(lr0);
            let node = |i: int| nt[i];
            assert forall|a: int, b: int| #[trigger] edge(includes@, a, b) implies rel(
                node(a),
                node(b),
            ) by {}
            assert forall|a: int, w: NonterminalTransition|
                0 <= a < includes@.len()
                    && #[trigger] rel(node(a), w) implies exists|b: int| #[trigger]
                edge(includes@, a, b) && node(b) == w by {
                let (alt, i) = choose|alt: int, i: int| #[trigger] includes_at(lr0, nt[a], w, alt,
                    i);
                assert(nt.contains(w));
                let b = choose|b: int| 0 <= b < nt.len() && nt[b] == w;
                assert(edge(includes@, a, b) && node(b) == w);
            }
            assert forall|i: int| 0 <= i < follow@.len() implies (#[trigger] follow@[i]).wf()
                && follow@[i]@ == follow_set(lr0, nt[i]) by {
                assert(follow@[i]@ == reach_union(includes@, init, i));
                assert forall|la: Option<usize>| follow@[i]@.contains(la) <==> follow_set(
                    lr0,
                    nt[i],
                ).contains(la) by {
                    if follow@[i]@.contains(la) {
                        let y = choose|y: int|
                            0 <= y < init.len() && #[trigger] reaches(includes@, i, y)
                                && init[y]@.contains(la);
                        let n = choose|n: nat| reach_in(includes@, i, y, n);
                        lemma_path_is_chain(includes@, rel, node, i, y, n);
                        assert(rel_reaches(rel, nt[i], nt[y]));
                    }
                    if follow_set(lr0, nt[i]).contains(la) {
                        let u = choose|u: NonterminalTransition| #[trigger]
                            rel_reaches(rel, nt[i], u) && read_set(lr0, u).contains(la);
                        let n = choose|n: nat| rel_reach_in(rel, nt[i], u, n);
                        lemma_chain_is_path(includes@, rel, node, i, u, n);
                        let y = choose|y: int|
                            0 <= y < includes@.len() && #[trigger] reach_in(includes@, i, y, n)
                                && node(y) == u;
                        assert(reaches(includes@, i, y));
                        assert(init[y]@.contains(la));
                    }
                }
                assert(follow@[i]@ =~= follow_set(lr0, nt[i]));
            }
        }
        follow
    }

    /// The index of `item` among the items of `state`.
    fn find_item(&self, state: usize, item: LR0Item) -> (k: usize)
        requires
            self.wf(),
            state < self.lr0().item_sets().len(),
            holds(self.lr0(), state as int, item),
        ensures
            k < self.lr0().item_sets()[state as int]@.len(),
            self.lr0().item_sets()[state as int]@[k as int] == item,
    {
        let states = self.lr0a.states();
        let items = &states[state].items;
        proof {
            assert(self.lr0().item_sets()[state as int] == states@[state as int].items);
            assert(items@.contains(item));
        }
        let ghost at = choose|k: int| 0 <= k < items@.len() && items@[k] == item;
        let mut k: usize = 0;
        while k < items.len()
            invariant
                items@ == self.lr0().item_sets()[state as int]@,
                0 <= at < items@.len(),
                items@[at] == item,
                k <= at,
            decreases items@.len() - k,
        {
            if items[k].production == item.production && items[k].pos == item.pos {
                proof {
                    assert(items@[k as int] == item);
                }
                return k;
            }
            proof {
                assert(k != at);
            }
            k = k + 1;
        }
        k
    }

    /// For each item of each state, the indices of the transitions that
    /// its reduction looks back at; none for an item that is not complete.
    #[must_use]
    pub fn lookback(&self) -> (lookback: Vec<Vec<IndexSet>>)
        requires
            self.wf(),
        ensures
            lookback_ok(self.lr0(), self.transitions(), lookback@),
    {
        let grammar = self.grammar;
        let states = self.lr0a.states();
        let ghost lr0 = self.lr0();
        let ghost nt = self.transitions();
        let mut map: Vec<Vec<IndexSet>> = Vec::new();
        let mut s: usize = 0;
        while s < states.len()
            invariant
                lr0 == self.lr0(),
                states@ == lr0.states_of(),
                s <= states@.len(),
                map@.len() == s,
                forall|q: int|
                    0 <= q < s ==> (#[trigger] map@[q])@.len() == lr0.item_sets()[q]@.len(),
                forall|q: int, k: int|
                    0 <= q < s && 0 <= k < map@[q]@.len() ==> (#[trigger] map@[q]@[k]).wf()
                        && map@[q]@[k]@.is_empty(),
            decreases states@.len() - s,
        {
            let count = states[s].items.len();
            let mut row: Vec<IndexSet> = Vec::new();
            let mut k: usize = 0;
            while k < count
                invariant
                    k <= count,
                    row@.len() == k,
                    forall|j: int| 0 <= j < k ==> (#[trigger] row@[j]).wf() && row@[j]@.is_empty(),
                decreases count - k,
            {
                row.push(IndexSet::new());
                k = k + 1;
            }
            proof {
                assert(lr0.item_sets()[s as int] == states@[s as int].items);
            }
            map.push(row);
            s = s + 1;
        }
        let n = self.nonterminal_transitions.len();
        let mut i: usize = 0;
        while i < n
            invariant
                self.wf(),
                lr0 == self.lr0(),
                nt == self.transitions(),
                grammar == lr0.grammar_of(),
                n == nt.len(),
                i <= n,
                lookback_shape(lr0, map@),
                lookback_sound(lr0, nt, map@),
                lookback_complete(lr0, nt, map@, i as int, 0),
            decreases n - i,
        {
            let NonterminalTransition { state: p, var: a } = self.nonterminal_transitions[i];
            proof {
                assert(is_transition(lr0, nt[i as int]));
                lemma_goto_symbol(lr0, p as int, Symbol::Variable(a));
            }
            let (first, end) = grammar.rule_range(a);
            let mut alt = first;
            proof {
                assert forall|q: int, k: int, i2: int| #[trigger]
                    lookback_at(lr0, nt, q, k, i2) && sooner(
                        i2,
                        lr0.item_sets()[q]@[k].production as int,
                        i as int,
                        alt as int,
                    ) implies map@[q]@[k]@.contains(i2 as usize) by {
                    assert(sooner(i2, lr0.item_sets()[q]@[k].production as int, i as int, 0));
                }
            }
            while alt < end
                invariant
                    self.wf(),
                    lr0 == self.lr0(),
                    nt == self.transitions(),
                    grammar == lr0.grammar_of(),
                    n == nt.len(),
                    i < n,
                    nt[i as int] == (NonterminalTransition { state: p, var: a }),
                    p < lr0.item_sets().len(),
                    first == grammar.rule_start(a as int),
                    end == grammar.rule_start(a + 1),
                    end <= grammar.production_count(),
                    first <= alt <= end,
                    lookback_shape(lr0, map@),
                    lookback_sound(lr0, nt, map@),
                    lookback_complete(lr0, nt, map@, i as int, alt as int),
                decreases end - alt,
            {
                let len = grammar.rhs_len(alt);
                let mut q = p;
                let mut j: usize = 0;
                proof {
                    lemma_transition_items(lr0, nt[i as int], alt as int);
                    lemma_walk(lr0, p as int, alt as int, 0);
                }
                while j < len
                    invariant
                        self.wf(),
                        lr0 == self.lr0(),
                        grammar == lr0.grammar_of(),
                        alt < grammar.production_count(),
                        p < lr0.item_sets().len(),
                        holds(lr0, p as int, LR0Item { production: alt, pos: 0 }),
                        len == grammar.rhs(alt as int).len(),
                        j <= len,
                        q == walk(lr0, p as int, alt as int, j as nat),
                        q < lr0.item_sets().len(),
                    decreases len - j,
                {
                    let symbol = grammar.symbol(alt, j).unwrap();
                    proof {
                        lemma_walk(lr0, p as int, alt as int, (j + 1) as nat);
                    }
                    q = self.step(q, symbol);
                    j = j + 1;
                }
                proof {
                    lemma_walk(lr0, p as int, alt as int, len as nat);
                }
                let k = self.find_item(q, LR0Item::new(alt, len));
                let ghost before = map@;
                map[q][k].insert(i);
                proof {
                    let items = lr0.item_sets()[q as int]@;
                    assert(lookback_at(lr0, nt, q as int, k as int, i as int));
                    assert forall|q2: int|
                        0 <= q2 < map@.len() implies (#[trigger] map@[q2])@.len()
                        == lr0.item_sets()[q2]@.len() by {
                        if q2 != q {
                            assert(map@[q2] == before[q2]);
                        }
                    }
                    assert forall|q2: int, k2: int|
                        0 <= q2 < map@.len() && 0 <= k2 < map@[q2]@.len() implies (
                    #[trigger] map@[q2]@[k2]).wf() by {
                        if q2 != q {
                            assert(map@[q2] == before[q2]);
                        } else if k2 != k {
                            assert(map@[q2]@[k2] == before[q2]@[k2]);
                        }
                    }
                    assert forall|q2: int, k2: int, i2: usize|
                        0 <= q2 < map@.len() && 0 <= k2 < map@[q2]@.len() && (
                        #[trigger] map@[q2]@[k2]@.contains(i2)) implies lookback_at(
                        lr0,
                        nt,
                        q2,
                        k2,
                        i2 as int,
                    ) by {
                        if q2 != q {
                            assert(map@[q2] == before[q2]);
                        } else if k2 != k {
                            assert(map@[q2]@[k2] == before[q2]@[k2]);
                        } else if i2 != i {
                            assert(before[q2]@[k2]@.contains(i2));
                        }
                    }
                    assert forall|q2: int, k2: int, i2: int| #[trigger]
                        lookback_at(lr0, nt, q2, k2, i2) && sooner(
                            i2,
                            lr0.item_sets()[q2]@[k2].production as int,
                            i as int,
                            alt + 1,
                        ) implies map@[q2]@[k2]@.contains(i2 as usize) by {
                        let prod = lr0.item_sets()[q2]@[k2].production as int;
                        if sooner(i2, prod, i as int, alt as int) {
                            assert(before[q2]@[k2]@.contains(i2 as usize));
                            if q2 != q {
                                assert(map@[q2] == before[q2]);
                            } else if k2 != k {
                                assert(map@[q2]@[k2] == before[q2]@[k2]);
                            }
                        } else {
                            assert(i2 == i && prod == alt);
                            assert(q2 == q);
                            let item = LR0Item { production: alt, pos: len };
                            assert(items[k2] == item);
                            lemma_items_distinct(lr0, q as int, k as int, k2);
                        }
                    }
                }
                alt = alt + 1;
            }
            proof {
                assert forall|q: int, k: int, i2: int| #[trigger]
                    lookback_at(lr0, nt, q, k, i2) && sooner(
                        i2,
                        lr0.item_sets()[q]@[k].production as int,
                        i + 1,
                        0,
                    ) implies map@[q]@[k]@.contains(i2 as usize) by {
                    assert(sooner(
                        i2,
                        lr0.item_sets()[q]@[k].production as int,
                        i as int,
                        end as int,
                    ));
                }
            }
            i = i + 1;
        }
        proof {
            assert forall|q: int, k: int, i2: usize|
                0 <= q < map@.len() && 0 <= k < map@[q]@.len() implies (
            #[trigger] map@[q]@[k]@.contains(i2) <==> lookback_at(lr0, nt, q, k, i2 as int)) by {
                if lookback_at(lr0, nt, q, k, i2 as int) {
                    assert(sooner(
                        i2 as int,
                        lr0.item_sets()[q]@[k].production as int,
                        n as int,
                        0,
                    ));
                }
            }
        }
        map
    }

    /// For each item of each state, the lookaheads on which its reduction
    /// is made; none for an item that is not complete.
    #[must_use]
    pub fn lookahead(&self) -> (lookahead: Vec<Vec<LookaheadSet>>)
        requires
            self.wf(),
        ensures
            lookahead_ok(self.lr0(), lookahead@),
    {
        let follow = self.follow();
        let lookback = self.lookback();
        let total = follow.len();
        let ghost lr0 = self.lr0();
        let ghost nt = self.transitions();
        let mut lookahead: Vec<Vec<LookaheadSet>> = Vec::new();
        let mut q: usize = 0;
        while q < lookback.len()
            invariant
                self.wf(),
                lr0 == self.lr0(),
                nt == self.transitions(),
                lookback_ok(lr0, nt, lookback@),
                follow@.len() == nt.len(),
                nt.len() <= usize::MAX,
                forall|i: int|
                    0 <= i < follow@.len() ==> (#[trigger] follow@[i]).wf() && follow@[i]@
                        == follow_set(lr0, nt[i]),
                q <= lookback@.len(),
                lookahead@.len() == q,
                forall|s: int|
                    0 <= s < q ==> (#[trigger] lookahead@[s])@.len() == lr0.item_sets()[s]@.len(),
                forall|s: int, k: int|
                    0 <= s < q && 0 <= k < lookahead@[s]@.len() ==> (
                    #[trigger] lookahead@[s]@[k]).wf() && lookahead@[s]@[k]@ == item_la(lr0, s, k),
            decreases lookback@.len() - q,
        {
            let mut row: Vec<LookaheadSet> = Vec::new();
            let mut k: usize = 0;
            while k < lookback[q].len()
                invariant
                    self.wf(),
                    lr0 == self.lr0(),
                    nt == self.transitions(),
                    lookback_ok(lr0, nt, lookback@),
                    follow@.len() == nt.len(),
                    nt.len() <= usize::MAX,
                    forall|i: int|
                        0 <= i < follow@.len() ==> (#[trigger] follow@[i]).wf() && follow@[i]@
                            == follow_set(lr0, nt[i]),
                    q < lookback@.len(),
                    k <= lookback@[q as int]@.len(),
                    row@.len() == k,
                    forall|j: int|
                        0 <= j < k ==> (#[trigger] row@[j]).wf() && row@[j]@ == item_la(
                            lr0,
                            q as int,
                            j,
                        ),
                decreases lookback@[q as int]@.len() - k,
            {
                let back = &lookback[q][k];
                let ghost members = back.seq();
                let mut set = LookaheadSet::new();
                let mut m: usize = 0;
                proof {
                    back.lemma_seq();
                    assert forall|j: int| 0 <= j < members.len() implies (#[trigger] members[j])
                        < nt.len() by {
                        assert(members.contains(members[j]));
                        assert(back@.contains(members[j]));
                        assert(lookback_at(lr0, nt, q as int, k as int, members[j] as int));
                    }
                }
                while m < back.len()
                    invariant
                        back.wf(),
                        members == back.seq(),
                        m <= members.len(),
                        follow@.len() == nt.len(),
                        forall|i: int| 0 <= i < follow@.len() ==> (#[trigger] follow@[i]).wf(),
                        forall|j: int|
                            0 <= j < members.len() ==> (#[trigger] members[j]) < nt.len(),
                        set.wf(),
                        forall|la: Option<usize>|
                            set@.contains(la) <==> exists|j: int|
                                0 <= j < m && follow@[#[trigger] members[j] as int]@.contains(la),
                    decreases members.len() - m,
                {
                    let i = back.get(m);
                    let ghost before = set@;
                    set.union_with(&follow[i]);
                    proof {
                        assert forall|la: Option<usize>|
                            set@.contains(la) <==> exists|j: int|
                                0 <= j < m + 1 && follow@[#[trigger] members[j] as int]@.contains(
                                    la,
                                ) by {
                            if before.contains(la) {
                                let j = choose|j: int|
                                    0 <= j < m && follow@[#[trigger] members[j] as int]@.contains(
                                        la,
                                    );
                                assert(0 <= j < m + 1 && follow@[members[j] as int]@.contains(la));
                            }
                            if follow@[i as int]@.contains(la) {
                                assert(follow@[members[m as int] as int]@.contains(la));
                            }
                            if exists|j: int|
                                0 <= j < m + 1 && follow@[#[trigger] members[j] as int]@.contains(
                                    la,
                                ) {
                                let j = choose|j: int|
                                    0 <= j < m + 1 && follow@[
                                    #[trigger] members[j] as int]@.contains(la);
                                if j < m {
                                    assert(before.contains(la));
                                }
                            }
                        }
                    }
                    m = m + 1;
                }
                proof {
                    let item = lr0.item_sets()[q as int]@[k as int];
                    let g = lr0.grammar_of();
                    assert forall|la: Option<usize>| set@.contains(la) <==> item_la(
                        lr0,
                        q as int,
                        k as int,
                    ).contains(la) by {
                        if set@.contains(la) {
                            let j = choose|j: int|
                                0 <= j < members.len() && follow@[
                                #[trigger] members[j] as int]@.contains(la);
                            let i = members[j];
                            assert(members.contains(i));
                            assert(back@.contains(i));
                            assert(lookback_at(lr0, nt, q as int, k as int, i as int));
                            assert(lookback_rel(lr0, nt[i as int], q as int, item.production as int)
                                && follow_set(lr0, nt[i as int]).contains(la));
                        }
                        if item_la(lr0, q as int, k as int).contains(la) {
                            let t = choose|t: NonterminalTransition| #[trigger]
                                lookback_rel(lr0, t, q as int, item.production as int)
                                    && follow_set(lr0, t).contains(la);
                            assert(nt.contains(t));
                            let i = choose|i: int| 0 <= i < nt.len() && nt[i] == t;
                            assert(lookback_at(lr0, nt, q as int, k as int, i));
                            assert(back@.contains(i as usize));
                            assert(members.contains(i as usize));
                            let j = choose|j: int|
                                0 <= j < members.len() && members[j] == i as usize;
                            assert(follow@[members[j] as int]@.contains(la));
                        }
                    }
                    assert(set@ =~= item_la(lr0, q as int, k as int));
                }
                row.push(set);
                k = k + 1;
            }
            lookahead.push(row);
            q = q + 1;
        }
        lookahead
    }

    /// The LALR(1) automaton: the LR(0) automaton with the lookaheads of
    /// its reductions.
    #[must_use]
    pub fn build(self) -> (automaton: LALR1A<'a>)
        requires
            self.wf(),
        ensures
            automaton.is_lalr(),
            automaton.lr0() == self.lr0(),
    {
        let lookahead = self.lookahead();
        LALR1A::assemble(self.lr0a, lookahead)
    }
}

/// The items of a state are pairwise different.
pub proof fn lemma_items_distinct(lr0: &LR0A, q: int, k: int, k2: int)
    requires
        lr0.wf(),
        0 <= q < lr0.item_sets().len(),
        0 <= k < lr0.item_sets()[q]@.len(),
        0 <= k2 < lr0.item_sets()[q]@.len(),
        lr0.item_sets()[q]@[k] == lr0.item_sets()[q]@[k2],
    ensures
        k == k2,
{
    let items = lr0.item_sets()[q]@;
    assert(crate::automata::inner::item_set_ok::<LR0Item, LR0ABuilder>(lr0.grammar_of(), items));
    if k < k2 {
        assert(LR0ABuilder::rank(items[k]) < LR0ABuilder::rank(items[k2]));
    } else if k2 < k {
        assert(LR0ABuilder::rank(items[k2]) < LR0ABuilder::rank(items[k]));
    }
}

/// Transition `i` is looked back at by item `k` of state `q`: the item is
/// complete, and its production leads from the transition's state to `q`.
pub open spec fn lookback_at(
    lr0: &LR0A,
    nt: Seq<NonterminalTransition>,
    q: int,
    k: int,
    i: int,
) -> bool {
    let item = lr0.item_sets()[q]@[k];
    &&& 0 <= q < lr0.item_sets().len()
    &&& 0 <= k < lr0.item_sets()[q]@.len()
    &&& 0 <= i < nt.len()
    &&& item.pos == lr0.grammar_of().rhs(item.production as int).len()
    &&& lookback_rel(lr0, nt[i], q, item.production as int)
}

/// Transition `i2` with production `alt2` comes before `(i, alt)` in the
/// order in which transitions and their productions are gone through.
pub open spec fn sooner(i2: int, alt2: int, i: int, alt: int) -> bool {
    i2 < i || (i2 == i && alt2 < alt)
}

/// There is one set for each item of each state.
pub open spec fn lookback_shape(lr0: &LR0A, map: Seq<Vec<IndexSet>>) -> bool {
    &&& map.len() == lr0.item_sets().len()
    &&& forall|q: int| 0 <= q < map.len()
        ==> (#[trigger] map[q])@.len() == lr0.item_sets()[q]@.len()
    &&& forall|q: int, k: int|
        0 <= q < map.len() && 0 <= k < map[q]@.len() ==> (#[trigger] map[q]@[k]).wf()
}

/// Every index noted is looked back at.
pub open spec fn lookback_sound(
    lr0: &LR0A,
    nt: Seq<NonterminalTransition>,
    map: Seq<Vec<IndexSet>>,
) -> bool {
    forall|q: int, k: int, i: usize|
        0 <= q < map.len() && 0 <= k < map[q]@.len() && (#[trigger] map[q]@[k]@.contains(i))
            ==> lookback_at(lr0, nt, q, k, i as int)
}

/// Everything looked back at before `(i, alt)` is noted.
pub open spec fn lookback_complete(
    lr0: &LR0A,
    nt: Seq<NonterminalTransition>,
    map: Seq<Vec<IndexSet>>,
    i: int,
    alt: int,
) -> bool {
    forall|q: int, k: int, i2: int| #[trigger]
        lookback_at(lr0, nt, q, k, i2) && sooner(
            i2,
            lr0.item_sets()[q]@[k].production as int,
            i,
            alt,
        ) ==> map[q]@[k]@.contains(i2 as usize)
}

/// For each item of each state, `map` holds exactly the indices of the
/// transitions that the item looks back at.
pub open spec fn lookback_ok(
    lr0: &LR0A,
    nt: Seq<NonterminalTransition>,
    map: Seq<Vec<IndexSet>>,
) -> bool {
    &&& lookback_shape(lr0, map)
    &&& forall|q: int, k: int, i: usize|
        0 <= q < map.len() && 0 <= k < map[q]@.len() ==> (#[trigger] map[q]@[k]@.contains(i)
            <==> lookback_at(lr0, nt, q, k, i as int))
}

/// The lookaheads of item `k` of state `q`: those of its reduction if it
/// is complete, none otherwise.
pub open spec fn item_la(lr0: &LR0A, q: int, k: int) -> Set<Option<usize>> {
    let item = lr0.item_sets()[q]@[k];
    if item.pos == lr0.grammar_of().rhs(item.production as int).len() {
        la_set(lr0, q, item.production as int)
    } else {
        Set::<Option<usize>>::empty()
    }
}

/// For each item of each state, `table` holds exactly the item's
/// lookaheads.
pub open spec fn lookahead_ok(lr0: &LR0A, table: Seq<Vec<LookaheadSet>>) -> bool {
    &&& table.len() == lr0.item_sets().len()
    &&& forall|q: int|
        0 <= q < table.len() ==> (#[trigger] table[q])@.len() == lr0.item_sets()[q]@.len()
    &&& forall|q: int, k: int|
        0 <= q < table.len() && 0 <= k < table[q]@.len() ==> (#[trigger] table[q]@[k]).wf()
            && table[q]@[k]@ == item_la(lr0, q, k)
}

/// Position `(y2, alt2, i2)` comes before `(y, alt, i)` in the order in
/// which transitions, their productions and the positions in them are gone
/// through.
pub open spec fn earlier(y2: int, alt2: int, i2: int, y: int, alt: int, i: int) -> bool {
    y2 < y || (y2 == y && (alt2 < alt || (alt2 == alt && i2 < i)))
}

/// Every successor noted is included.
pub open spec fn includes_sound(
    lr0: &LR0A,
    nt: Seq<NonterminalTransition>,
    successors: Seq<Vec<usize>>,
) -> bool {
    forall|x: int, k: int|
        0 <= x < successors.len() && 0 <= k < successors[x]@.len() ==> (
        #[trigger] successors[x]@[k]) < nt.len() && includes_rel(
            lr0,
            nt[x],
            nt[successors[x]@[k] as int],
        )
}

/// Everything included through a position before `(y, alt, i)` is noted.
pub open spec fn includes_complete(
    lr0: &LR0A,
    nt: Seq<NonterminalTransition>,
    successors: Seq<Vec<usize>>,
    y: int,
    alt: int,
    i: int,
) -> bool {
    forall|x2: int, y2: int, alt2: int, i2: int|
        0 <= x2 < nt.len() && 0 <= y2 < nt.len() && #[trigger] includes_at(
            lr0,
            nt[x2],
            nt[y2],
            alt2,
            i2,
        ) && earlier(y2, alt2, i2, y, alt, i) ==> successors[x2]@.contains(y2 as usize)
}

} // verus!
