use vstd::prelude::*;
use super::grammar::{Grammar, Symbol};
use super::nullability::derives_empty;
use super::nullable::Nullable;
use crate::index_set::{ascending, IndexSet};
use crate::transitive_closure::{
    edge, graph_ok, lemma_reach_edge, lemma_reach_in_trans, lemma_reach_self, reach_in,
    reach_union, reaches, transitive_closure,
};

verus! {

/// `s` is a variable that derives the empty string.
pub open spec fn symbol_nullable(g: &Grammar, s: Symbol) -> bool {
    match s {
        Symbol::Terminal(_) => false,
        Symbol::Variable(b) => derives_empty(g, b as int),
    }
}

/// Everything before position `i` of production `p` is a variable that
/// derives the empty string.
pub open spec fn nullable_prefix(g: &Grammar, p: int, i: int) -> bool {
    forall|j: int| 0 <= j < i ==> symbol_nullable(g, #[trigger] g.rhs(p)[j])
}

/// Symbol `s` stands at position `i` of production `p`, behind a prefix
/// that can vanish.
pub open spec fn starts(g: &Grammar, p: int, i: int, s: Symbol) -> bool {
    &&& 0 <= p < g.production_count()
    &&& 0 <= i < g.rhs(p).len()
    &&& nullable_prefix(g, p, i)
    &&& g.rhs(p)[i] == s
}

/// Variable `a` has a production of the form `a -> p s ...` where `p` is a
/// sequence of variables that derive the empty string.
pub open spec fn begins_with(g: &Grammar, a: int, s: Symbol) -> bool {
    exists|p: int, i: int| g.lhs_of(p) == a && #[trigger] starts(g, p, i, s)
}

/// The terminals found at the start of what a variable derives by
/// following at most `k - 1` variables at the start of productions.
pub open spec fn first_stage(g: &Grammar, k: nat) -> Seq<Set<usize>>
    decreases k,
{
    if k == 0 {
        Seq::new(g.var_count() as nat, |a: int| Set::<usize>::empty())
    } else {
        let prev = first_stage(g, (k - 1) as nat);
        Seq::new(
            g.var_count() as nat,
            |a: int|
                Set::new(
                    |t: usize|
                        begins_with(g, a, Symbol::Terminal(t)) || exists|b: usize|
                            b < g.var_count() && #[trigger] begins_with(g, a, Symbol::Variable(b))
                                && prev[b as int].contains(t),
                ),
        )
    }
}

/// Terminal `t` can begin a sentence derived from variable `a`.
pub open spec fn in_first(g: &Grammar, a: int, t: usize) -> bool {
    0 <= a < g.var_count() && exists|k: nat| first_stage(g, k)[a].contains(t)
}

/// The terminals that can begin a sentence derived from variable `a`.
pub open spec fn first_set(g: &Grammar, a: int) -> Set<usize> {
    Set::new(|t: usize| in_first(g, a, t))
}

/// A terminal that can begin a sentence occurs in the grammar, so it lies
/// below the word count.
pub proof fn lemma_first_bounded(g: &Grammar, a: int, t: usize, k: nat)
    requires
        g.wf(),
        0 <= a < g.var_count(),
        first_stage(g, k)[a].contains(t),
    ensures
        t < g.word_total(),
    decreases k,
{
    g.lemma_word_total();
    if k != 0 {
        if begins_with(g, a, Symbol::Terminal(t)) {
            let (p, i) = choose|p: int, i: int|
                g.lhs_of(p) == a && #[trigger] starts(g, p, i, Symbol::Terminal(t));
            assert(g.rhs(p)[i].word_below(g.word_total() as int));
        } else {
            let prev = first_stage(g, (k - 1) as nat);
            let b = choose|b: usize|
                b < g.var_count() && #[trigger] begins_with(g, a, Symbol::Variable(b))
                    && prev[b as int].contains(t);
            lemma_first_bounded(g, b as int, t, (k - 1) as nat);
        }
    }
}

/// The graph `d` has an edge from `a` to `b` exactly where a production of
/// `a` can begin with `b`, and `init` holds for each variable the terminals
/// that its productions can begin with.
spec fn graph_matches(g: &Grammar, d: Seq<Vec<usize>>, init: Seq<IndexSet>) -> bool {
    &&& g.var_count() <= usize::MAX
    &&& d.len() == g.var_count()
    &&& init.len() == g.var_count()
    &&& forall|a: int, b: int| #[trigger]
        edge(d, a, b) <==> (0 <= a < g.var_count() && 0 <= b < g.var_count() && begins_with(
            g,
            a,
            Symbol::Variable(b as usize),
        ))
    &&& forall|a: int, t: usize|
        0 <= a < g.var_count() ==> (#[trigger] init[a]@.contains(t) <==> begins_with(
            g,
            a,
            Symbol::Terminal(t),
        ))
}

proof fn lemma_path_first(
    g: &Grammar,
    d: Seq<Vec<usize>>,
    init: Seq<IndexSet>,
    a: int,
    b: int,
    t: usize,
    n: nat,
)
    requires
        graph_matches(g, d, init),
        0 <= a < g.var_count(),
        reach_in(d, a, b, n),
        0 <= b < g.var_count(),
        init[b]@.contains(t),
    ensures
        first_stage(g, n + 1)[a].contains(t),
    decreases n,
{
    if n != 0 {
        let z = choose|z: int| #[trigger] edge(d, a, z) && reach_in(d, z, b, (n - 1) as nat);
        lemma_path_first(g, d, init, z, b, t, (n - 1) as nat);
        assert(begins_with(g, a, Symbol::Variable(z as usize)));
        assert(first_stage(g, n)[z as usize as int].contains(t));
    }
}

proof fn lemma_first_path(
    g: &Grammar,
    d: Seq<Vec<usize>>,
    init: Seq<IndexSet>,
    a: int,
    t: usize,
    k: nat,
)
    requires
        graph_matches(g, d, init),
        0 <= a < g.var_count(),
        first_stage(g, k)[a].contains(t),
    ensures
        exists|b: int| 0 <= b < init.len() && #[trigger] reaches(d, a, b) && init[b]@.contains(t),
    decreases k,
{
    if k != 0 {
        if begins_with(g, a, Symbol::Terminal(t)) {
            lemma_reach_self(d, a);
            assert(reaches(d, a, a) && init[a]@.contains(t));
        } else {
            let prev = first_stage(g, (k - 1) as nat);
            let z = choose|b: usize|
                b < g.var_count() && #[trigger] begins_with(g, a, Symbol::Variable(b))
                    && prev[b as int].contains(t);
            lemma_first_path(g, d, init, z as int, t, (k - 1) as nat);
            let b = choose|b: int|
                0 <= b < init.len() && #[trigger] reaches(d, z as int, b) && init[b]@.contains(t);
            assert(edge(d, a, z as int));
            let n = choose|n: nat| reach_in(d, z as int, b, n);
            assert(reach_in(d, a, b, n + 1));
            assert(reaches(d, a, b));
        }
    }
}

/// What was noted for variable `a`: a terminal in its set, a variable
/// among its successors.
spec fn recorded(first: Seq<IndexSet>, deps: Seq<Vec<usize>>, a: int, s: Symbol) -> bool {
    match s {
        Symbol::Terminal(t) => first[a]@.contains(t),
        Symbol::Variable(b) => deps[a]@.contains(b),
    }
}

/// Every start before position `k` of production `p` was noted.
spec fn complete_upto(
    g: &Grammar,
    first: Seq<IndexSet>,
    deps: Seq<Vec<usize>>,
    p: int,
    k: int,
) -> bool {
    forall|q: int, i: int, s: Symbol| #[trigger]
        starts(g, q, i, s) && (q < p || (q == p && i < k)) ==> recorded(
            first,
            deps,
            g.lhs_of(q),
            s,
        )
}

/// Everything noted is a start.
spec fn sound_notes(g: &Grammar, first: Seq<IndexSet>, deps: Seq<Vec<usize>>) -> bool {
    &&& first.len() == g.var_count()
    &&& deps.len() == g.var_count()
    &&& forall|a: int| 0 <= a < first.len() ==> (#[trigger] first[a]).wf()
    &&& forall|a: int, t: usize|
        0 <= a < first.len() && #[trigger] first[a]@.contains(t) ==> begins_with(
            g,
            a,
            Symbol::Terminal(t),
        )
    &&& forall|a: int, j: int|
        0 <= a < deps.len() && 0 <= j < deps[a]@.len() ==> (#[trigger] deps[a]@[j])
            < g.var_count() && begins_with(g, a, Symbol::Variable(deps[a]@[j]))
}

/// For each variable, the set of terminals that can begin a sentence
/// derived from it.
///
/// Let `A ~ X` hold iff there is a production of the form `A -> pX...`,
/// where `p` is a nullable sequence of symbols. Then `first[A]` holds the
/// terminals `t` with `A ~+ t`: those with `A ~ t`, and those of `first[B]`
/// for `A ~ B`. So the sets are what the closure over `~` collects.
pub fn compute_var_firsts(grammar: &Grammar, nullable: &Nullable) -> (first: Vec<IndexSet>)
    requires
        grammar.wf(),
        nullable.describes(grammar),
    ensures
        first@.len() == grammar.var_count(),
        forall|a: int|
            0 <= a < grammar.var_count() ==> (#[trigger] first@[a]).wf() && first@[a]@
                == first_set(grammar, a),
{
    let var_count = grammar.variable_count();
    let production_count = grammar.production_total();
    let mut first: Vec<IndexSet> = Vec::new();
    let mut deps: Vec<Vec<usize>> = Vec::new();
    let mut a: usize = 0;
    while a < var_count
        invariant
            a <= var_count,
            first@.len() == a,
            deps@.len() == a,
            forall|b: int| 0 <= b < a ==> (#[trigger] first@[b]).wf() && first@[b]@.is_empty(),
            forall|b: int| 0 <= b < a ==> (#[trigger] deps@[b])@.len() == 0,
        decreases var_count - a,
    {
        first.push(IndexSet::new());
        deps.push(Vec::new());
        a = a + 1;
    }
    // Note the terminals and variables that productions begin with.
    let mut p: usize = 0;
    while p < production_count
        invariant
            grammar.wf(),
            nullable.describes(grammar),
            var_count == grammar.var_count(),
            production_count == grammar.production_count(),
            p <= production_count,
            sound_notes(grammar, first@, deps@),
            complete_upto(grammar, first@, deps@, p as int, 0),
        decreases production_count - p,
    {
        let lhs = grammar.lhs(p);
        let len = grammar.rhs_len(p);
        let mut i: usize = 0;
        let mut open = true;
        while open && i < len
            invariant
                grammar.wf(),
                nullable.describes(grammar),
                var_count == grammar.var_count(),
                p < grammar.production_count(),
                lhs == grammar.lhs_of(p as int),
                lhs < var_count,
                len == grammar.rhs(p as int).len(),
                i <= len,
                sound_notes(grammar, first@, deps@),
                complete_upto(grammar, first@, deps@, p as int, i as int),
                open ==> nullable_prefix(grammar, p as int, i as int),
                !open ==> forall|k: int| i <= k
                    ==> !#[trigger] nullable_prefix(grammar, p as int, k),
            decreases len - i,
        {
            let ghost first0 = first@;
            let ghost deps0 = deps@;
            let symbol = grammar.symbol(p, i);
            proof {
                assert(starts(grammar, p as int, i as int, grammar.rhs(p as int)[i as int]));
                assert(grammar.rhs(p as int)[i as int].var_below(grammar.var_count()));
            }
            match symbol {
                Some(Symbol::Terminal(t)) => {
                    first[lhs].insert(t);
                    open = false;
                    proof {
                        assert forall|k: int| i + 1 <= k implies !#[trigger] nullable_prefix(
                            grammar,
                            p as int,
                            k,
                        ) by {
                            if nullable_prefix(grammar, p as int, k) {
                                assert(symbol_nullable(grammar, grammar.rhs(p as int)[i as int]));
                            }
                        }
                    }
                },
                Some(Symbol::Variable(b)) => {
                    deps[lhs].push(b);
                    proof {
                        assert(deps@[lhs as int]@ == deps0[lhs as int]@.push(b));
                    }
                    if !nullable.get(b) {
                        open = false;
                        proof {
                            assert forall|k: int| i + 1 <= k implies !#[trigger] nullable_prefix(
                                grammar,
                                p as int,
                                k,
                            ) by {
                                if nullable_prefix(grammar, p as int, k) {
                                    assert(symbol_nullable(
                                        grammar,
                                        grammar.rhs(p as int)[i as int],
                                    ));
                                }
                            }
                        }
                    } else {
                        proof {
                            assert forall|j: int| 0 <= j < i + 1 implies symbol_nullable(
                                grammar,
                                #[trigger] grammar.rhs(p as int)[j],
                            ) by {}
                        }
                    }
                },
                None => {},
            }
            proof {
                let s0 = grammar.rhs(p as int)[i as int];
                assert(first@.len() == first0.len());
                assert(deps@.len() == deps0.len());
                assert forall|c: int, s: Symbol| 0 <= c < var_count && recorded(
                    first0,
                    deps0,
                    c,
                    s,
                ) implies recorded(first@, deps@, c, s) by {
                    match s {
                        Symbol::Terminal(t) => {},
                        Symbol::Variable(v) => {
                            if c == lhs {
                                let j = choose|j: int|
                                    0 <= j < deps0[c]@.len() && deps0[c]@[j] == v;
                                assert(deps@[c]@[j] == v);
                            }
                        },
                    }
                }
                assert(recorded(first@, deps@, lhs as int, s0)) by {
                    match s0 {
                        Symbol::Terminal(t) => {},
                        Symbol::Variable(v) => {
                            assert(deps@[lhs as int]@[deps0[lhs as int]@.len() as int] == v);
                        },
                    }
                }
                assert forall|q: int, k: int, s: Symbol| #[trigger]
                    starts(grammar, q, k, s) && (q < p || (q == p && k < i + 1)) implies recorded(
                    first@,
                    deps@,
                    grammar.lhs_of(q),
                    s,
                ) by {
                    if q == p && k == i {
                    } else {
                        assert(recorded(first0, deps0, grammar.lhs_of(q), s));
                    }
                }
                assert(begins_with(grammar, lhs as int, s0));
                assert forall|c: int, t: usize|
                    0 <= c < first@.len() && #[trigger] first@[c]@.contains(
                        t,
                    ) implies begins_with(grammar, c, Symbol::Terminal(t)) by {
                    if !(c == lhs && s0 == Symbol::Terminal(t)) {
                        assert(first0[c]@.contains(t));
                    }
                }
                assert forall|c: int, j: int|
                    0 <= c < deps@.len() && 0 <= j < deps@[c]@.len() implies (
                #[trigger] deps@[c]@[j]) < grammar.var_count() && begins_with(
                    grammar,
                    c,
                    Symbol::Variable(deps@[c]@[j]),
                ) by {
                    if c == lhs && j == deps0[c]@.len() {
                    } else {
                        assert(deps@[c]@[j] == deps0[c]@[j]);
                    }
                }
                assert forall|c: int| 0 <= c < first@.len() implies (#[trigger] first@[c]).wf() by {
                    if c != lhs {
                        assert(first@[c] == first0[c]);
                    }
                }
            }
            i = i + 1;
        }
        proof {
            assert forall|q: int, k: int, s: Symbol| #[trigger]
                starts(grammar, q, k, s) && (q < p + 1 || (q == p + 1 && k < 0)) implies recorded(
                first@,
                deps@,
                grammar.lhs_of(q),
                s,
            ) by {
                if q == p && k >= i {
                    assert(nullable_prefix(grammar, p as int, k));
                }
            }
        }
        p = p + 1;
    }
    let ghost init = first@;
    proof {
        assert(graph_ok(deps@)) by {
            assert forall|x: int, k: int|
                0 <= x < deps@.len() && 0 <= k < deps@[x]@.len() implies (
            #[trigger] deps@[x]@[k]) < deps@.len() by {}
        }
        assert forall|a: int, b: int| #[trigger]
            edge(deps@, a, b) <==> (0 <= a < grammar.var_count() && 0 <= b < grammar.var_count()
                && begins_with(grammar, a, Symbol::Variable(b as usize))) by {
            if 0 <= a < grammar.var_count() && 0 <= b < grammar.var_count() && begins_with(
                grammar,
                a,
                Symbol::Variable(b as usize),
            ) {
                let (q, i) = choose|q: int, i: int|
                    grammar.lhs_of(q) == a && #[trigger] starts(
                        grammar,
                        q,
                        i,
                        Symbol::Variable(b as usize),
                    );
                assert(recorded(first@, deps@, a, Symbol::Variable(b as usize)));
                let j = choose|j: int| 0 <= j < deps@[a]@.len() && deps@[a]@[j] == b as usize;
                assert(deps@[a]@[j] == b);
            }
        }
        assert forall|a: int, t: usize| 0 <= a < grammar.var_count() implies (
        #[trigger] init[a]@.contains(t) <==> begins_with(grammar, a, Symbol::Terminal(t))) by {
            if begins_with(grammar, a, Symbol::Terminal(t)) {
                let (q, i) = choose|q: int, i: int|
                    grammar.lhs_of(q) == a && #[trigger] starts(
                        grammar,
                        q,
                        i,
                        Symbol::Terminal(t),
                    );
                assert(recorded(first@, deps@, a, Symbol::Terminal(t)));
            }
        }
        assert(graph_matches(grammar, deps@, init));
    }
    let _ = transitive_closure(&mut first, &deps);
    proof {
        assert forall|a: int| 0 <= a < grammar.var_count() implies (#[trigger] first@[a]).wf()
            && first@[a]@ == first_set(grammar, a) by {
            assert(first@[a]@ == reach_union(deps@, init, a));
            assert forall|t: usize| first@[a]@.contains(t) <==> in_first(grammar, a, t) by {
                if first@[a]@.contains(t) {
                    let b = choose|b: int|
                        0 <= b < init.len() && #[trigger] reaches(deps@, a, b)
                            && init[b]@.contains(t);
                    let n = choose|n: nat| reach_in(deps@, a, b, n);
                    lemma_path_first(grammar, deps@, init, a, b, t, n);
                }
                if in_first(grammar, a, t) {
                    let k = choose|k: nat| first_stage(grammar, k)[a].contains(t);
                    lemma_first_path(grammar, deps@, init, a, t, k);
                }
            }
            assert(first@[a]@ =~= first_set(grammar, a));
        }
    }
    first
}

/// For each variable `A`, `first[A]` is the set of terminals that can
/// appear at the start of a sentence derived from `A`, stored as one flat
/// ascending run per variable. This does not include the empty string; see
/// [`Nullable`] for that.
#[derive(Debug)]
pub struct First {
    firsts: Vec<usize>,
    var_ranges: Vec<usize>,
}

impl First {
    /// Number of variables covered.
    pub closed spec fn var_count(&self) -> int {
        self.var_ranges@.len() - 1
    }

    /// The terminals of variable `a` in ascending order.
    pub closed spec fn seq(&self, a: int) -> Seq<usize> {
        self.firsts@.subrange(self.var_ranges@[a] as int, self.var_ranges@[a + 1] as int)
    }

    /// Consistency of the flat buffers.
    pub closed spec fn layout_ok(&self) -> bool {
        &&& self.var_ranges@.len() >= 1
        &&& forall|a: int, b: int|
            0 <= a <= b < self.var_ranges@.len() ==> self.var_ranges@[a] <= self.var_ranges@[b]
        &&& self.var_ranges@[self.var_ranges@.len() - 1] == self.firsts@.len()
    }

    /// These are the sets of grammar `g`: for each variable exactly the
    /// terminals that can begin a sentence derived from it, in strictly
    /// ascending order, each below the grammar's word count.
    pub open spec fn describes(&self, g: &Grammar) -> bool {
        &&& self.layout_ok()
        &&& self.var_count() == g.var_count()
        &&& forall|a: int|
            0 <= a < g.var_count() ==> ascending(#[trigger] self.seq(a)) && self.seq(a).to_set()
                == first_set(g, a)
        &&& forall|a: int, i: int|
            0 <= a < g.var_count() && 0 <= i < self.seq(a).len() ==> (#[trigger] self.seq(a)[i])
                < g.word_total()
    }

    /// Computes the sets of `grammar`.
    #[must_use]
    pub fn new(grammar: &Grammar, nullable: &Nullable) -> (first: Self)
        requires
            grammar.wf(),
            nullable.describes(grammar),
        ensures
            first.describes(grammar),
    {
        let var_firsts = compute_var_firsts(grammar, nullable);
        let mut firsts: Vec<usize> = Vec::new();
        let mut var_ranges: Vec<usize> = Vec::new();
        var_ranges.push(0);
        let mut a: usize = 0;
        while a < var_firsts.len()
            invariant
                a <= var_firsts@.len(),
                var_ranges@.len() == a + 1,
                var_ranges@[a as int] == firsts@.len(),
                forall|b: int, c: int|
                    0 <= b <= c < var_ranges@.len() ==> var_ranges@[b] <= var_ranges@[c],
                forall|b: int| 0 <= b < var_firsts@.len() ==> (#[trigger] var_firsts@[b]).wf(),
                forall|b: int|
                    0 <= b < a ==> firsts@.subrange(
                        var_ranges@[b] as int,
                        var_ranges@[b + 1] as int,
                    ) == (#[trigger] var_firsts@[b]).seq(),
            decreases var_firsts@.len() - a,
        {
            let set = &var_firsts[a];
            let ghost firsts0 = firsts@;
            let ghost ranges0 = var_ranges@;
            let len = set.len();
            let mut i: usize = 0;
            while i < len
                invariant
                    set.wf(),
                    len == set.seq().len(),
                    i <= len,
                    firsts@ == firsts0 + set.seq().subrange(0, i as int),
                decreases len - i,
            {
                firsts.push(set.get(i));
                i = i + 1;
                assert(set.seq().subrange(0, i as int) == set.seq().subrange(0, i - 1).push(
                    set.seq()[i - 1],
                ));
            }
            var_ranges.push(firsts.len());
            proof {
                assert(set.seq().subrange(0, len as int) == set.seq());
                assert forall|b: int| 0 <= b < a + 1 implies firsts@.subrange(
                    var_ranges@[b] as int,
                    var_ranges@[b + 1] as int,
                ) == (#[trigger] var_firsts@[b]).seq() by {
                    if b < a {
                        assert(ranges0[b] <= ranges0[b + 1]);
                        assert(ranges0[b + 1] <= ranges0[a as int]);
                        assert(firsts@.subrange(var_ranges@[b] as int, var_ranges@[b + 1] as int)
                            == firsts0.subrange(ranges0[b] as int, ranges0[b + 1] as int));
                    } else {
                        assert(firsts@.subrange(firsts0.len() as int, firsts@.len() as int)
                            == set.seq());
                    }
                }
            }
            a = a + 1;
        }
        let first = First { firsts, var_ranges };
        proof {
            assert forall|a: int| 0 <= a < grammar.var_count() implies ascending(
                #[trigger] first.seq(a),
            ) && first.seq(a).to_set() == first_set(grammar, a) by {
                assert(first.seq(a) == var_firsts@[a].seq());
                var_firsts@[a].lemma_seq();
            }
            assert forall|a: int, i: int|
                0 <= a < grammar.var_count() && 0 <= i < first.seq(a).len() implies (
            #[trigger] first.seq(a)[i]) < grammar.word_total() by {
                let t = first.seq(a)[i];
                assert(first.seq(a).to_set().contains(t));
                assert(in_first(grammar, a, t));
                let k = choose|k: nat| first_stage(grammar, k)[a].contains(t);
                lemma_first_bounded(grammar, a, t, k);
            }
        }
        first
    }

    /// The terminals that can begin a sentence derived from variable
    /// `var`, in ascending order.
    pub fn get(&self, var: usize) -> (s: &[usize])
        requires
            self.layout_ok(),
            var < self.var_count(),
        ensures
            s@ == self.seq(var as int),
    {
        let bound = self.var_ranges.len();
        let low = self.var_ranges[var];
        let high = self.var_ranges[var + 1];
        vstd::slice::slice_subrange(self.firsts.as_slice(), low, high)
    }
}

impl Grammar {
    /// The first sets of the grammar, with its nullability flags.
    pub fn first_set(&self) -> (r: (First, Nullable))
        requires
            self.wf(),
        ensures
            r.0.describes(self),
            r.1.describes(self),
    {
        let nullable = self.nullability();
        let first = First::new(self, &nullable);
        (first, nullable)
    }
}

} // verus!
