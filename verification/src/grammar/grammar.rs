use vstd::prelude::*;
use vstd::slice::slice_subrange;

verus! {

/// A grammar symbol: a terminal class or a variable (nonterminal). The two
/// index spaces are disjoint.
#[derive(Debug, Clone, Copy, PartialEq, Eq, Hash, Structural)]
pub enum Symbol {
    Terminal(usize),
    /// aka. nonterminal
    Variable(usize),
}

impl Symbol {
    /// A terminal has an index below `bound`; holds of every variable.
    pub open spec fn word_below(self, bound: int) -> bool {
        match self {
            Symbol::Terminal(t) => t < bound,
            Symbol::Variable(_) => true,
        }
    }

    /// A variable has an index below `bound`; holds of every terminal.
    pub open spec fn var_below(self, bound: int) -> bool {
        match self {
            Symbol::Terminal(_) => true,
            Symbol::Variable(v) => v < bound,
        }
    }
}

/// Flat representation of a context-free grammar.
///
/// Productions are numbered in declaration order; the productions of one
/// variable are contiguous.
#[derive(Clone)]
pub struct Grammar {
    lhs: Vec<usize>,
    symbols: Vec<Symbol>,  // symbols that occur in RHS of productions
    alts: Vec<usize>,  // start index of each alt in symbols
    rules: Vec<usize>,  // start index of each rule in alts
}

impl Grammar {
    /// Number of variables.
    pub closed spec fn var_count(&self) -> int {
        self.rules@.len() - 1
    }

    /// Number of productions.
    pub closed spec fn production_count(&self) -> int {
        self.lhs@.len() as int
    }

    /// The variable on the left-hand side of production `p`.
    pub closed spec fn lhs_of(&self, p: int) -> int {
        self.lhs@[p] as int
    }

    /// The right-hand side of production `p`.
    pub closed spec fn rhs(&self, p: int) -> Seq<Symbol> {
        self.symbols@.subrange(self.alts@[p] as int, self.alts@[p + 1] as int)
    }

    /// The first production of variable `v`; its productions are
    /// `rule_start(v) .. rule_start(v + 1)`.
    pub closed spec fn rule_start(&self, v: int) -> int {
        self.rules@[v] as int
    }

    /// Consistency of the four flat buffers.
    pub closed spec fn layout_ok(&self) -> bool {
        &&& self.rules@.len() >= 1
        &&& self.alts@.len() == self.lhs@.len() + 1
        &&& self.alts@[0] == 0
        &&& self.alts@[self.lhs@.len() as int] == self.symbols@.len()
        &&& forall|p: int, q: int|
            0 <= p <= q < self.alts@.len() ==> self.alts@[p] <= self.alts@[q]
        &&& self.rules@[0] == 0
        &&& self.rules@[self.rules@.len() - 1] == self.lhs@.len()
        &&& forall|u: int, v: int|
            0 <= u <= v < self.rules@.len() ==> self.rules@[u] <= self.rules@[v]
        &&& forall|p: int|
            0 <= p < self.lhs@.len() ==> {
                &&& (#[trigger] self.lhs@[p]) < self.rules@.len() - 1
                &&& self.rules@[self.lhs@[p] as int] <= p < self.rules@[self.lhs@[p] + 1]
            }
    }

    /// The shape every grammar has, finished or still being built: variables
    /// own contiguous, ordered ranges of productions, and terminal indices
    /// leave room for the end-of-input column: the largest machine word and
    /// the one below it are no terminal.
    pub open spec fn shape_ok(&self) -> bool {
        &&& self.layout_ok()
        &&& 0 <= self.var_count() < usize::MAX
        &&& 0 <= self.production_count() <= usize::MAX
        &&& self.rule_start(0) == 0
        &&& self.rule_start(self.var_count() as int) == self.production_count()
        &&& forall|u: int, v: int|
            0 <= u <= v <= self.var_count() ==> #[trigger] self.rule_start(u)
                <= #[trigger] self.rule_start(v)
        &&& forall|p: int|
            0 <= p < self.production_count() ==> {
                &&& 0 <= (#[trigger] self.lhs_of(p)) < self.var_count()
                &&& self.rule_start(self.lhs_of(p) as int) <= p < self.rule_start(
                    self.lhs_of(p) + 1,
                )
            }
        &&& forall|p: int, i: int|
            0 <= p < self.production_count() && 0 <= i < self.rhs(p).len() ==> (
            #[trigger] self.rhs(p)[i]).word_below(usize::MAX - 1)
        &&& forall|p: int|
            0 <= p < self.production_count() ==> (#[trigger] self.rhs(p)).len() <= usize::MAX
    }

    /// Every variable mentioned on a right-hand side among the first `n`
    /// productions is below `bound`.
    pub open spec fn variables_below(&self, n: int, bound: int) -> bool {
        forall|p: int, i: int|
            0 <= p < n && 0 <= i < self.rhs(p).len()
                ==> (#[trigger] self.rhs(p)[i]).var_below(bound as int)
    }

    /// Well-formedness of a finished grammar: the shape above, every
    /// variable reference resolved, and the augmented start production
    /// `S' -> Variable(0)` as the last production of the last variable.
    pub open spec fn wf(&self) -> bool {
        &&& self.shape_ok()
        &&& self.var_count() >= 1
        &&& self.production_count() >= 1
        &&& self.rule_start(self.var_count() - 1) == self.production_count() - 1
        &&& self.rhs(self.production_count() - 1) == seq![Symbol::Variable(0)]
        &&& self.variables_below(self.production_count() - 1, self.var_count() - 1)
        &&& self.variables_below(self.production_count() as int, self.var_count() as int)
    }

    /// The augmented start variable `S'`.
    pub open spec fn start_var(&self) -> int {
        self.var_count() - 1
    }

    /// The augmented start production `S' -> Variable(0)`.
    pub open spec fn start_production(&self) -> int {
        self.production_count() - 1
    }

    /// `n` is one more than the largest terminal index in use, or zero when
    /// no terminal occurs.
    pub open spec fn is_word_count(&self, n: nat) -> bool {
        &&& forall|p: int, i: int|
            0 <= p < self.production_count() && 0 <= i < self.rhs(p).len()
                ==> (#[trigger] self.rhs(p)[i]).word_below(n as int)
        &&& n == 0 || exists|p: int, i: int|
            0 <= p < self.production_count() && 0 <= i < self.rhs(p).len() && (
            #[trigger] self.rhs(p)[i] matches Symbol::Terminal(t) && t + 1 == n)
    }

    /// The number of terminal classes: one more than the largest terminal
    /// index in use.
    pub open spec fn word_total(&self) -> nat {
        choose|n: nat| self.is_word_count(n)
    }

    /// At most one number is the word count.
    pub proof fn lemma_word_count_unique(&self, n: nat, m: nat)
        requires
            self.is_word_count(n),
            self.is_word_count(m),
        ensures
            n == m,
    {
        if n != 0 {
            let (p, i) = choose|p: int, i: int|
                0 <= p < self.production_count() && 0 <= i < self.rhs(p).len() && (
                #[trigger] self.rhs(p)[i] matches Symbol::Terminal(t) && t + 1 == n);
            assert(self.rhs(p)[i].word_below(m as int));
        }
        if m != 0 {
            let (p, i) = choose|p: int, i: int|
                0 <= p < self.production_count() && 0 <= i < self.rhs(p).len() && (
                #[trigger] self.rhs(p)[i] matches Symbol::Terminal(t) && t + 1 == m);
            assert(self.rhs(p)[i].word_below(n as int));
        }
    }

    /// Either some number up to `m` is the word count, or a terminal of
    /// index `m` or more occurs.
    proof fn lemma_word_count_upto(&self, m: nat)
        requires
            self.shape_ok(),
        ensures
            (exists|n: nat| n <= m && self.is_word_count(n)) || (exists|p: int, i: int|
                0 <= p < self.production_count() && 0 <= i < self.rhs(p).len() && (
                #[trigger] self.rhs(p)[i] matches Symbol::Terminal(t) && t >= m)),
        decreases m,
    {
        if m == 0 {
            if forall|p: int, i: int|
                0 <= p < self.production_count() && 0 <= i < self.rhs(p).len() ==> (
                #[trigger] self.rhs(p)[i]).word_below(0) {
                assert(self.is_word_count(0));
            } else {
                let (p, i) = choose|p: int, i: int|
                    0 <= p < self.production_count() && 0 <= i < self.rhs(p).len() && !(
                    #[trigger] self.rhs(p)[i]).word_below(0);
                assert(self.rhs(p)[i] matches Symbol::Terminal(t) && t >= m);
            }
        } else {
            self.lemma_word_count_upto((m - 1) as nat);
            if exists|n: nat| n <= m - 1 && self.is_word_count(n) {
                let n = choose|n: nat| n <= m - 1 && self.is_word_count(n);
                assert(n <= m && self.is_word_count(n));
            } else if forall|p: int, i: int|
                0 <= p < self.production_count() && 0 <= i < self.rhs(p).len() ==> (
                #[trigger] self.rhs(p)[i]).word_below(m as int) {
                let (p, i) = choose|p: int, i: int|
                    0 <= p < self.production_count() && 0 <= i < self.rhs(p).len() && (
                    #[trigger] self.rhs(p)[i] matches Symbol::Terminal(t) && t >= m - 1);
                assert(self.rhs(p)[i].word_below(m as int));
                assert(self.rhs(p)[i] matches Symbol::Terminal(t) && t + 1 == m);
                assert(self.is_word_count(m));
            } else {
                let (p, i) = choose|p: int, i: int|
                    0 <= p < self.production_count() && 0 <= i < self.rhs(p).len() && !(
                    #[trigger] self.rhs(p)[i]).word_below(m as int);
                assert(self.rhs(p)[i] matches Symbol::Terminal(t) && t >= m);
            }
        }
    }

    /// The word count exists: it bounds every terminal in use, and leaves
    /// room for the end-of-input column.
    pub proof fn lemma_word_total(&self)
        requires
            self.shape_ok(),
        ensures
            self.is_word_count(self.word_total()),
            self.word_total() < usize::MAX,
    {
        let top = (usize::MAX - 1) as nat;
        self.lemma_word_count_upto(top);
        if exists|p: int, i: int|
            0 <= p < self.production_count() && 0 <= i < self.rhs(p).len() && (
            #[trigger] self.rhs(p)[i] matches Symbol::Terminal(t) && t >= top) {
            let (p, i) = choose|p: int, i: int|
                0 <= p < self.production_count() && 0 <= i < self.rhs(p).len() && (
                #[trigger] self.rhs(p)[i] matches Symbol::Terminal(t) && t >= top);
            assert(self.rhs(p)[i].word_below(usize::MAX - 1));
        }
        let n = choose|n: nat| n <= top && self.is_word_count(n);
        self.lemma_word_count_unique(n, self.word_total());
    }

    /// Distinct variables own disjoint production ranges.
    pub proof fn lemma_rule_of(&self, v: int, p: int)
        requires
            self.shape_ok(),
            0 <= v < self.var_count(),
            self.rule_start(v) <= p < self.rule_start(v + 1),
        ensures
            0 <= p < self.production_count(),
            self.lhs_of(p) == v,
    {
        assert(self.rule_start(v + 1) <= self.rule_start(self.var_count() as int));
        let u = self.lhs_of(p) as int;
        if u < v {
            assert(self.rule_start(u + 1) <= self.rule_start(v));
        } else if u > v {
            assert(self.rule_start(v + 1) <= self.rule_start(u));
        }
    }

    /// Number of variables, the augmented start included.
    pub fn variable_count(&self) -> (n: usize)
        requires
            self.shape_ok(),
        ensures
            n == self.var_count(),
            n < usize::MAX,
    {
        self.rules.len() - 1
    }

    /// Number of productions, the augmented start production included.
    pub fn production_total(&self) -> (n: usize)
        requires
            self.shape_ok(),
        ensures
            n == self.production_count(),
    {
        self.lhs.len()
    }

    /// The variable on the left-hand side of production `p`.
    pub fn lhs(&self, p: usize) -> (v: usize)
        requires
            self.shape_ok(),
            p < self.production_count(),
        ensures
            v == self.lhs_of(p as int),
    {
        self.lhs[p]
    }

    /// Length of the right-hand side of production `p`.
    pub fn rhs_len(&self, p: usize) -> (n: usize)
        requires
            self.shape_ok(),
            p < self.production_count(),
        ensures
            n == self.rhs(p as int).len(),
    {
        self.alts[p + 1] - self.alts[p]
    }

    /// The symbol at position `i` of production `p`, if there is one.
    pub fn symbol(&self, p: usize, i: usize) -> (s: Option<Symbol>)
        requires
            self.shape_ok(),
            p < self.production_count(),
        ensures
            s == if i < self.rhs(p as int).len() {
                Some(self.rhs(p as int)[i as int])
            } else {
                None
            },
    {
        let low = self.alts[p];
        let high = self.alts[p + 1];
        if i < high - low {
            Some(self.symbols[low + i])
        } else {
            None
        }
    }

    /// The productions of variable `v`, as a half-open range of production
    /// indices.
    pub fn rule_range(&self, v: usize) -> (r: (usize, usize))
        requires
            self.shape_ok(),
            v < self.var_count(),
        ensures
            r.0 == self.rule_start(v as int),
            r.1 == self.rule_start(v + 1),
            r.0 <= r.1 <= self.production_count(),
    {
        let bound = self.rules.len();
        let total = self.lhs.len();
        (self.rules[v], self.rules[v + 1])
    }

    /// One more than the largest terminal index in use; zero when the
    /// grammar has no terminal.
    #[must_use]
    pub fn word_count(&self) -> (n: usize)
        requires
            self.shape_ok(),
        ensures
            self.is_word_count(n as nat),
            n == self.word_total(),
            n < usize::MAX,
    {
        let mut n: usize = 0;
        let mut p: usize = 0;
        while p < self.lhs.len()
            invariant
                self.shape_ok(),
                p <= self.production_count(),
                forall|q: int, i: int|
                    0 <= q < p && 0 <= i < self.rhs(q).len()
                        ==> (#[trigger] self.rhs(q)[i]).word_below(n as int),
                n == 0 || exists|q: int, i: int|
                    0 <= q < self.production_count() && 0 <= i < self.rhs(q).len() && (
                    #[trigger] self.rhs(q)[i] matches Symbol::Terminal(t) && t + 1 == n),
            decreases self.production_count() - p,
        {
            let len = self.rhs_len(p);
            let mut i: usize = 0;
            while i < len
                invariant
                    self.shape_ok(),
                    p < self.production_count(),
                    len == self.rhs(p as int).len(),
                    i <= len,
                    forall|q: int, i: int|
                        0 <= q < p && 0 <= i < self.rhs(q).len()
                            ==> (#[trigger] self.rhs(q)[i]).word_below(n as int),
                    forall|k: int|
                        0 <= k < i ==> (#[trigger] self.rhs(p as int)[k]).word_below(n as int),
                    n == 0 || exists|q: int, i: int|
                        0 <= q < self.production_count() && 0 <= i < self.rhs(q).len() && (
                        #[trigger] self.rhs(q)[i] matches Symbol::Terminal(t) && t + 1 == n),
                decreases len - i,
            {
                match self.symbol(p, i) {
                    Some(Symbol::Terminal(t)) => {
                        if t >= n {
                            assert(self.rhs(p as int)[i as int] == Symbol::Terminal(t));
                            n = t + 1;
                        }
                    },
                    _ => {},
                }
                i = i + 1;
            }
            p = p + 1;
        }
        proof {
            assert(self.is_word_count(n as nat));
            self.lemma_word_count_unique(n as nat, self.word_total());
            self.lemma_word_total();
        }
        n
    }

    /// The grammar seen variable by variable.
    #[must_use]
    pub fn rules(&self) -> (view: RuleView<'_>)
        ensures
            view.grammar() == self,
    {
        RuleView { grammar: self }
    }

    /// The grammar seen production by production.
    #[must_use]
    pub fn productions(&self) -> (view: ProductionView<'_>)
        ensures
            view.grammar() == self,
    {
        ProductionView { grammar: self }
    }
}

/// Read-only view of a grammar, indexed by variable.
pub struct RuleView<'a> {
    grammar: &'a Grammar,
}

/// Read-only view of a grammar, indexed by production.
pub struct ProductionView<'a> {
    grammar: &'a Grammar,
}

/// Cursor over the variables of a grammar.
pub struct Rules<'a> {
    view: RuleView<'a>,
    rule: usize,
}

/// Cursor over the productions of a grammar.
pub struct Productions<'a> {
    view: ProductionView<'a>,
    production: usize,
}

/// One variable of a grammar with its range of productions.
pub struct Rule<'a> {
    grammar: &'a Grammar,
    alt_first: usize,
    alt_last: usize,
}

/// Cursor over the alternatives of one variable.
pub struct Alternatives<'a> {
    grammar: &'a Grammar,
    alt: usize,
    last_alt: usize,
}

impl<'a> RuleView<'a> {
    /// The grammar behind this view.
    pub closed spec fn grammar(&self) -> &'a Grammar {
        self.grammar
    }

    /// The variable with the given index.
    #[must_use]
    pub fn get(&self, index: usize) -> (rule: Rule<'a>)
        requires
            self.grammar().shape_ok(),
            index < self.grammar().var_count(),
        ensures
            rule.grammar() == self.grammar(),
            rule.first() == self.grammar().rule_start(index as int),
            rule.end() == self.grammar().rule_start(index + 1),
            rule.first() <= rule.end() <= self.grammar().production_count(),
    {
        let (alt_first, alt_last) = self.grammar.rule_range(index);
        Rule { grammar: self.grammar, alt_first, alt_last }
    }

    /// Number of variables.
    #[must_use]
    pub fn len(&self) -> (n: usize)
        requires
            self.grammar().shape_ok(),
        ensures
            n == self.grammar().var_count(),
    {
        self.grammar.variable_count()
    }

    /// A cursor placed before the first variable.
    pub fn into_iter(self) -> (it: Rules<'a>)
        ensures
            it.grammar() == self.grammar(),
            it.position() == 0,
    {
        Rules { view: self, rule: 0 }
    }
}

impl<'a> ProductionView<'a> {
    /// The grammar behind this view.
    pub closed spec fn grammar(&self) -> &'a Grammar {
        self.grammar
    }

    /// Left-hand side and right-hand side of the production with the given
    /// index.
    #[must_use]
    pub fn get(&self, index: usize) -> (production: (usize, &'a [Symbol]))
        requires
            self.grammar().shape_ok(),
            index < self.grammar().production_count(),
        ensures
            production.0 == self.grammar().lhs_of(index as int),
            production.1@ == self.grammar().rhs(index as int),
    {
        let low = self.grammar.alts[index];
        let high = self.grammar.alts[index + 1];
        (self.grammar.lhs[index], slice_subrange(self.grammar.symbols.as_slice(), low, high))
    }

    /// Number of productions.
    #[must_use]
    pub fn len(&self) -> (n: usize)
        requires
            self.grammar().shape_ok(),
        ensures
            n == self.grammar().production_count(),
    {
        self.grammar.production_total()
    }

    /// A cursor placed before the first production.
    pub fn into_iter(self) -> (it: Productions<'a>)
        ensures
            it.grammar() == self.grammar(),
            it.position() == 0,
    {
        Productions { view: self, production: 0 }
    }
}

impl<'a> Rules<'a> {
    /// The grammar behind this cursor.
    pub closed spec fn grammar(&self) -> &'a Grammar {
        self.view.grammar
    }

    /// Index of the variable that `next` hands out.
    pub closed spec fn position(&self) -> int {
        self.rule as int
    }

    /// The next variable in index order, or `None` past the last one.
    pub fn next(&mut self) -> (r: Option<Rule<'a>>)
        requires
            old(self).grammar().shape_ok(),
        ensures
            final(self).grammar() == old(self).grammar(),
            old(self).position() < old(self).grammar().var_count() ==> {
                &&& final(self).position() == old(self).position() + 1
                &&& r is Some
                &&& r.unwrap().grammar() == old(self).grammar()
                &&& r.unwrap().first() == old(self).grammar().rule_start(
                    old(self).position() as int,
                )
                &&& r.unwrap().end() == old(self).grammar().rule_start(
                    old(self).position() + 1,
                )
            },
            old(self).position() >= old(self).grammar().var_count() ==> r is None && *final(self)
                == *old(self),
    {
        if self.rule < self.view.len() {
            let index = self.rule;
            self.rule = self.rule + 1;
            Some(self.view.get(index))
        } else {
            None
        }
    }
}

impl<'a> Productions<'a> {
    /// The grammar behind this cursor.
    pub closed spec fn grammar(&self) -> &'a Grammar {
        self.view.grammar
    }

    /// Index of the production that `next` hands out.
    pub closed spec fn position(&self) -> int {
        self.production as int
    }

    /// The next production in index order, or `None` past the last one.
    pub fn next(&mut self) -> (r: Option<(usize, &'a [Symbol])>)
        requires
            old(self).grammar().shape_ok(),
        ensures
            final(self).grammar() == old(self).grammar(),
            old(self).position() < old(self).grammar().production_count() ==> {
                &&& final(self).position() == old(self).position() + 1
                &&& r is Some
                &&& r.unwrap().0 == old(self).grammar().lhs_of(old(self).position() as int)
                &&& r.unwrap().1@ == old(self).grammar().rhs(old(self).position() as int)
            },
            old(self).position() >= old(self).grammar().production_count() ==> r is None
                && *final(self) == *old(self),
    {
        if self.production < self.view.len() {
            let index = self.production;
            self.production = self.production + 1;
            Some(self.view.get(index))
        } else {
            None
        }
    }
}

impl<'a> Rule<'a> {
    /// The grammar this variable belongs to.
    pub closed spec fn grammar(&self) -> &'a Grammar {
        self.grammar
    }

    /// Index of the variable's first production.
    pub closed spec fn first(&self) -> int {
        self.alt_first as int
    }

    /// One past the index of the variable's last production.
    pub closed spec fn end(&self) -> int {
        self.alt_last as int
    }

    /// A cursor placed before the variable's first alternative.
    #[must_use]
    pub fn alts(&self) -> (it: Alternatives<'a>)
        ensures
            it.grammar() == self.grammar(),
            it.position() == self.first(),
            it.end() == self.end(),
    {
        Alternatives { grammar: self.grammar, alt: self.alt_first, last_alt: self.alt_last }
    }

    /// The indices of the variable's productions, as a half-open range.
    #[must_use]
    pub fn alt_indices(&self) -> (r: std::ops::Range<usize>)
        ensures
            r.start == self.first(),
            r.end == self.end(),
    {
        self.alt_first..self.alt_last
    }
}

impl<'a> Alternatives<'a> {
    /// The grammar behind this cursor.
    pub closed spec fn grammar(&self) -> &'a Grammar {
        self.grammar
    }

    /// Index of the production that `next` hands out.
    pub closed spec fn position(&self) -> int {
        self.alt as int
    }

    /// One past the last production of the variable.
    pub closed spec fn end(&self) -> int {
        self.last_alt as int
    }

    /// The right-hand side of the next alternative, or `None` past the last
    /// one.
    pub fn next(&mut self) -> (r: Option<&'a [Symbol]>)
        requires
            old(self).grammar().shape_ok(),
            old(self).end() <= old(self).grammar().production_count(),
        ensures
            final(self).grammar() == old(self).grammar(),
            final(self).end() == old(self).end(),
            old(self).position() < old(self).end() ==> {
                &&& final(self).position() == old(self).position() + 1
                &&& r is Some
                &&& r.unwrap()@ == old(self).grammar().rhs(old(self).position() as int)
            },
            old(self).position() >= old(self).end() ==> r is None && *final(self) == *old(self),
    {
        if self.alt < self.last_alt {
            let low = self.grammar.alts[self.alt];
            let high = self.grammar.alts[self.alt + 1];
            self.alt = self.alt + 1;
            Some(slice_subrange(self.grammar.symbols.as_slice(), low, high))
        } else {
            None
        }
    }
}

/// Builds a grammar rule by rule.
pub struct GrammarBuilder {
    grammar: Grammar,
}

/// Why a grammar could not be built.
#[derive(Debug, PartialEq, Eq)]
pub enum GrammarBuildError {
    /// Alternative `production` of rule `rule` mentions, at position `pos`,
    /// a variable for which no rule was declared.
    InvalidVariable { rule: usize, production: usize, pos: usize, variable: usize },
}

impl GrammarBuilder {
    /// The rules declared so far, laid out as a grammar without its
    /// augmented start production.
    pub closed spec fn draft(&self) -> Grammar {
        self.grammar
    }

    /// The builder's invariant.
    pub open spec fn wf(&self) -> bool {
        self.draft().shape_ok()
    }

    /// Production `p` of the draft mentions, at position `i`, a variable
    /// for which no rule was declared.
    pub open spec fn undeclared_at(&self, p: int, i: int) -> bool {
        &&& 0 <= p < self.draft().production_count()
        &&& 0 <= i < self.draft().rhs(p).len()
        &&& !self.draft().rhs(p)[i].var_below(self.draft().var_count())
    }

    /// A builder without rules.
    #[must_use]
    pub fn new() -> (b: Self)
        ensures
            b.wf(),
            b.draft().var_count() == 0,
            b.draft().production_count() == 0,
    {
        let mut alts: Vec<usize> = Vec::new();
        alts.push(0);
        let mut rules: Vec<usize> = Vec::new();
        rules.push(0);
        Self { grammar: Grammar { lhs: Vec::new(), symbols: Vec::new(), alts, rules } }
    }

    /// Declares the next variable with the given alternatives; an empty
    /// alternative is an epsilon production. Variables are numbered in call
    /// order from zero, productions in declaration order.
    #[must_use]
    pub fn rule(self, rule: &[&[Symbol]]) -> (b: Self)
        requires
            self.wf(),
            forall|j: int, i: int|
                0 <= j < rule@.len() && 0 <= i < rule@[j]@.len()
                    ==> (#[trigger] rule@[j]@[i]).word_below(usize::MAX - 1),
        ensures
            b.wf(),
            b.draft().var_count() == self.draft().var_count() + 1,
            b.draft().production_count() == self.draft().production_count() + rule@.len(),
            forall|v: int|
                0 <= v <= self.draft().var_count() ==> #[trigger] b.draft().rule_start(v)
                    == self.draft().rule_start(v),
            forall|p: int|
                0 <= p < self.draft().production_count() ==> #[trigger] b.draft().rhs(p)
                    == self.draft().rhs(p),
            forall|j: int|
                0 <= j < rule@.len() ==> #[trigger] b.draft().rhs(
                    self.draft().production_count() + j,
                ) == rule@[j]@,
    {
        let ghost before = self.grammar;
        let mut g = self.grammar;
        let var = g.rules.len() - 1;
        let mut j: usize = 0;
        while j < rule.len()
            invariant
                before.shape_ok(),
                j <= rule@.len(),
                var == before.rules@.len() - 1,
                g.rules@ == before.rules@,
                g.lhs@.len() == before.lhs@.len() + j,
                g.alts@.len() == g.lhs@.len() + 1,
                g.alts@[g.lhs@.len() as int] == g.symbols@.len(),
                forall|p: int, q: int| 0 <= p <= q < g.alts@.len() ==> g.alts@[p] <= g.alts@[q],
                forall|p: int| 0 <= p < before.alts@.len() ==> g.alts@[p] == before.alts@[p],
                forall|p: int| 0 <= p < before.lhs@.len() ==> g.lhs@[p] == before.lhs@[p],
                forall|p: int| before.lhs@.len() <= p < g.lhs@.len() ==> g.lhs@[p] == var,
                before.symbols@.len() <= g.symbols@.len(),
                g.symbols@.subrange(0, before.symbols@.len() as int) == before.symbols@,
                forall|k: int|
                    0 <= k < j ==> g.symbols@.subrange(
                        g.alts@[before.lhs@.len() + k] as int,
                        g.alts@[before.lhs@.len() + k + 1] as int,
                    ) == (#[trigger] rule@[k])@,
                forall|k: int, i: int|
                    0 <= k < rule@.len() && 0 <= i < rule@[k]@.len() ==> (
                    #[trigger] rule@[k]@[i]).word_below(usize::MAX - 1),
            decreases rule@.len() - j,
        {
            let alt: &[Symbol] = rule[j];
            let ghost symbols_before = g.symbols@;
            let ghost alts_before = g.alts@;
            g.lhs.push(var);
            let mut i: usize = 0;
            let ghost lhs_now = g.lhs@;
            while i < alt.len()
                invariant
                    i <= alt@.len(),
                    g.symbols@ == symbols_before + alt@.subrange(0, i as int),
                    g.alts@ == alts_before,
                    g.lhs@ == lhs_now,
                    g.rules@ == before.rules@,
                decreases alt@.len() - i,
            {
                g.symbols.push(alt[i]);
                i = i + 1;
                assert(alt@.subrange(0, i as int) == alt@.subrange(0, i - 1).push(alt@[i - 1]));
            }
            assert(alt@.subrange(0, i as int) == alt@);
            g.alts.push(g.symbols.len());
            proof {
                let base = before.lhs@.len() as int;
                assert(g.symbols@.subrange(0, before.symbols@.len() as int)
                    == symbols_before.subrange(0, before.symbols@.len() as int));
                assert forall|k: int| 0 <= k <= j implies g.symbols@.subrange(
                    g.alts@[base + k] as int,
                    g.alts@[base + k + 1] as int,
                ) == (#[trigger] rule@[k])@ by {
                    if k < j {
                        assert(alts_before[base + k] <= alts_before[base + k + 1]);
                        assert(alts_before[base + k + 1] <= alts_before[base + j]);
                        assert(g.symbols@.subrange(
                            g.alts@[base + k] as int,
                            g.alts@[base + k + 1] as int,
                        ) == symbols_before.subrange(
                            alts_before[base + k] as int,
                            alts_before[base + k + 1] as int,
                        ));
                    } else {
                        assert(g.symbols@.subrange(
                            symbols_before.len() as int,
                            g.symbols@.len() as int,
                        ) == alt@);
                    }
                }
            }
            j = j + 1;
        }
        g.rules.push(g.lhs.len());
        let rule_total = g.rules.len();
        let b = Self { grammar: g };
        proof {
            let base = before.lhs@.len() as int;
            assert forall|p: int| 0 <= p < before.production_count() implies #[trigger] g.rhs(p)
                == before.rhs(p) by {
                assert(before.alts@[p] <= before.alts@[p + 1]);
                assert(before.alts@[p + 1] <= before.alts@[base]);
                assert(g.symbols@.subrange(g.alts@[p] as int, g.alts@[p + 1] as int)
                    == g.symbols@.subrange(0, before.symbols@.len() as int).subrange(
                    before.alts@[p] as int,
                    before.alts@[p + 1] as int,
                ));
            }
            assert forall|k: int| 0 <= k < rule@.len() implies #[trigger] g.rhs(base + k)
                == rule@[k]@ by {
                assert(g.rhs(base + k) == g.symbols@.subrange(
                    g.alts@[base + k] as int,
                    g.alts@[base + k + 1] as int,
                ));
            }
            assert forall|p: int, i: int|
                0 <= p < g.production_count()
                    && 0 <= i < g.rhs(p).len() implies (#[trigger] g.rhs(p)[i]).word_below(usize::MAX - 1) by {
                if p < base {
                    assert(g.rhs(p) == before.rhs(p));
                    assert(before.rhs(p)[i].word_below(usize::MAX - 1));
                } else {
                    assert(g.rhs(base + (p - base)) == rule@[p - base]@);
                    assert(rule@[p - base]@[i].word_below(usize::MAX - 1));
                }
            }
            assert(g.layout_ok());
            assert(g.shape_ok());
        }
        b
    }

    /// Checks that every variable mentioned has a rule, then adds the
    /// augmented start production `S' -> Variable(0)` as the last production
    /// of a fresh last variable. Fails with the first unresolved reference in
    /// declaration order.
    pub fn build(self) -> (r: Result<Grammar, GrammarBuildError>)
        requires
            self.wf(),
        ensures
            r is Ok <==> self.draft().variables_below(
                self.draft().production_count() as int,
                self.draft().var_count() as int,
            ),
            r matches Ok(g) ==> {
                &&& g.wf()
                &&& g.var_count() == self.draft().var_count() + 1
                &&& g.production_count() == self.draft().production_count() + 1
                &&& forall|v: int|
                    0 <= v <= self.draft().var_count() ==> #[trigger] g.rule_start(v)
                        == self.draft().rule_start(v)
                &&& forall|p: int|
                    0 <= p < self.draft().production_count() ==> #[trigger] g.rhs(p)
                        == self.draft().rhs(p)
            },
            r matches Err(GrammarBuildError::InvalidVariable { rule, production, pos, variable })
                ==> {
                &&& rule < self.draft().var_count()
                &&& self.undeclared_at(self.draft().rule_start(rule as int) + production,
                    pos as int)
                &&& self.draft().rule_start(rule as int) + production < self.draft().rule_start(
                    rule + 1,
                )
                &&& self.draft().rhs(self.draft().rule_start(rule as int) + production)[pos as int]
                    == Symbol::Variable(variable)
                &&& forall|p: int, i: int|
                    (p < self.draft().rule_start(rule as int) + production || (p
                        == self.draft().rule_start(rule as int) + production && i < pos))
                        ==> !self.undeclared_at(p, i)
            },
    {
        let ghost before = self.grammar;
        let mut g = self.grammar;
        let var_count = g.variable_count();
        let production_count = g.production_total();
        let mut p: usize = 0;
        while p < production_count
            invariant
                g == before,
                before == self.draft(),
                g.shape_ok(),
                var_count == g.var_count(),
                production_count == g.production_count(),
                p <= production_count,
                g.variables_below(p as int, var_count as int),
            decreases production_count - p,
        {
            let len = g.rhs_len(p);
            let mut i: usize = 0;
            while i < len
                invariant
                    g == before,
                    before == self.draft(),
                    g.shape_ok(),
                    var_count == g.var_count(),
                    production_count == g.production_count(),
                    p < g.production_count(),
                    len == g.rhs(p as int).len(),
                    i <= len,
                    g.variables_below(p as int, var_count as int),
                    forall|k: int|
                        0 <= k < i ==> (#[trigger] g.rhs(p as int)[k]).var_below(var_count as int),
                decreases len - i,
            {
                match g.symbol(p, i) {
                    Some(Symbol::Variable(v)) => {
                        if v >= var_count {
                            let rule = g.lhs(p);
                            let (first, _) = g.rule_range(rule);
                            assert(g.rhs(p as int)[i as int] == Symbol::Variable(v));
                            assert(!g.variables_below(production_count as int, var_count as int));
                            assert(self.draft() == g);
                            assert(g.rule_start(rule as int) + (p - first) == p);
                            assert(self.undeclared_at(p as int, i as int));
                            assert forall|q: int, k: int|
                                (q < p || (q == p && k < i)) implies !self.undeclared_at(q, k) by {
                                if self.undeclared_at(q, k) {
                                    assert(!g.rhs(q)[k].var_below(var_count as int));
                                }
                            }
                            return Err(
                                GrammarBuildError::InvalidVariable {
                                    rule,
                                    production: p - first,
                                    pos: i,
                                    variable: v,
                                },
                            );
                        }
                    },
                    _ => {},
                }
                i = i + 1;
            }
            p = p + 1;
        }
        // finally, we augment the grammar by adding a start rule
        g.lhs.push(var_count);
        g.symbols.push(Symbol::Variable(0));
        g.alts.push(g.symbols.len());
        g.rules.push(g.lhs.len());
        let rule_total = g.rules.len();
        proof {
            let last = production_count as int;
            assert forall|q: int| 0 <= q < last implies #[trigger] g.rhs(q) == before.rhs(q) by {
                assert(before.alts@[q] <= before.alts@[q + 1]);
                assert(before.alts@[q + 1] <= before.alts@[last]);
                assert(g.rhs(q) =~= before.rhs(q));
            }
            assert(g.rhs(last) =~= seq![Symbol::Variable(0)]);
            assert forall|q: int, i: int|
                0 <= q < g.production_count()
                    && 0 <= i < g.rhs(q).len() implies (#[trigger] g.rhs(q)[i]).word_below(usize::MAX - 1) by {
                if q < last {
                    assert(before.rhs(q)[i].word_below(usize::MAX - 1));
                }
            }
            assert forall|q: int, i: int|
                0 <= q < last
                    && 0 <= i < g.rhs(q).len() implies (#[trigger] g.rhs(q)[i]).var_below(var_count as int) by {
                assert(before.rhs(q)[i].var_below(var_count as int));
            }
            assert(g.layout_ok());
            assert(g.shape_ok());
            assert(g.wf());
        }
        Ok(g)
    }
}

} // verus!
