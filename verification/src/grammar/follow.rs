use vstd::prelude::*;
use super::first::{first_set, in_first, symbol_nullable, First};
use super::grammar::{Grammar, Symbol};
use super::nullable::Nullable;
use crate::index_set::{column_of, LookaheadSet};

verus! {

/// Terminal `t` can begin what symbol `s` derives.
pub open spec fn symbol_first(g: &Grammar, s: Symbol, t: usize) -> bool {
    match s {
        Symbol::Terminal(c) => c == t,
        Symbol::Variable(c) => in_first(g, c as int, t),
    }
}

/// Terminal `t` can begin what production `p` derives from position `j`
/// on.
pub open spec fn tail_first(g: &Grammar, p: int, j: int, t: usize) -> bool {
    exists|m: int|
        j <= m < g.rhs(p).len() && symbol_first(g, #[trigger] g.rhs(p)[m], t) && forall|u: int|
            j <= u < m ==> symbol_nullable(g, #[trigger] g.rhs(p)[u])
}

/// What production `p` holds from position `j` on can vanish.
pub open spec fn tail_nullable(g: &Grammar, p: int, j: int) -> bool {
    forall|u: int| j <= u < g.rhs(p).len() ==> symbol_nullable(g, #[trigger] g.rhs(p)[u])
}

/// The lookaheads that can follow position `j - 1` of production `p`, where
/// `base` can follow the production's left-hand side: the terminals that
/// can begin the rest, and `base` if the rest can vanish.
pub open spec fn feeds_set(g: &Grammar, p: int, j: int, base: Set<Option<usize>>) -> Set<
    Option<usize>,
> {
    Set::new(
        |la: Option<usize>|
            (match la {
                Some(t) => tail_first(g, p, j, t),
                None => false,
            }) || (tail_nullable(g, p, j) && base.contains(la)),
    )
}

/// Variable `b` stands at position `i` of production `p`.
pub open spec fn occurs(g: &Grammar, p: int, i: int, b: int) -> bool {
    &&& 0 <= p < g.production_count()
    &&& 0 <= i < g.rhs(p).len()
    &&& 0 <= b < g.var_count()
    &&& g.rhs(p)[i] == Symbol::Variable(b as usize)
}

/// The lookaheads found to follow each variable after `k` rounds: at first
/// only end of input behind the augmented start variable; each round adds,
/// for every occurrence of a variable in a production, what can follow that
/// position given the round before.
pub open spec fn follow_stage(g: &Grammar, k: nat) -> Seq<Set<Option<usize>>>
    decreases k,
{
    if k == 0 {
        Seq::new(
            g.var_count() as nat,
            |b: int|
                if b == g.start_var() {
                    Set::<Option<usize>>::empty().insert(None)
                } else {
                    Set::<Option<usize>>::empty()
                },
        )
    } else {
        let prev = follow_stage(g, (k - 1) as nat);
        Seq::new(
            g.var_count() as nat,
            |b: int|
                Set::new(
                    |la: Option<usize>|
                        prev[b].contains(la) || exists|p: int, i: int| #[trigger]
                            occurs(g, p, i, b) && feeds_set(
                                g,
                                p,
                                i + 1,
                                prev[g.lhs_of(p)],
                            ).contains(la),
                ),
        )
    }
}

/// Lookahead `la` can come immediately after variable `b` in a sentential
/// form derived from the augmented start variable.
pub open spec fn in_follow(g: &Grammar, b: int, la: Option<usize>) -> bool {
    0 <= b < g.var_count() && exists|k: nat| follow_stage(g, k)[b].contains(la)
}

/// The lookaheads that can come immediately after variable `b`.
pub open spec fn follow_set(g: &Grammar, b: int) -> Set<Option<usize>> {
    Set::new(|la: Option<usize>| in_follow(g, b, la))
}

/// The first set of variable `b`, as lookahead classes.
pub open spec fn first_classes(g: &Grammar, b: int) -> Set<Option<usize>> {
    Set::new(
        |la: Option<usize>|
            match la {
                Some(t) => in_first(g, b, t),
                None => false,
            },
    )
}

/// End of input can follow the augmented start variable, and so the
/// grammar's first variable.
pub proof fn lemma_follow_end(g: &Grammar)
    requires
        g.wf(),
    ensures
        in_follow(g, g.start_var(), None),
        in_follow(g, 0, None),
{
    let s = g.start_var();
    let last = g.start_production();
    assert(follow_stage(g, 0)[s].contains(None));
    assert(occurs(g, last, 0, 0));
    assert(tail_nullable(g, last, 1));
    assert(g.lhs_of(last) == s);
    assert(feeds_set(g, last, 1, follow_stage(g, 0)[s]).contains(None));
    assert(follow_stage(g, 1)[0].contains(None));
}

/// Behind the end of a production comes what follows its left-hand side.
pub proof fn lemma_feeds_end(g: &Grammar, p: int, base: Set<Option<usize>>)
    ensures
        feeds_set(g, p, g.rhs(p).len() as int, base) == base,
{
    assert(feeds_set(g, p, g.rhs(p).len() as int, base) =~= base);
}

/// In front of a terminal comes that terminal.
pub proof fn lemma_feeds_terminal(g: &Grammar, p: int, i: int, c: usize, base: Set<Option<usize>>)
    requires
        0 <= i < g.rhs(p).len(),
        g.rhs(p)[i] == Symbol::Terminal(c),
    ensures
        feeds_set(g, p, i, base) == Set::<Option<usize>>::empty().insert(Some(c)),
{
    let goal = Set::<Option<usize>>::empty().insert(Some(c));
    assert forall|la: Option<usize>| feeds_set(g, p, i, base).contains(la) <==> goal.contains(
        la,
    ) by {
        assert(!symbol_nullable(g, g.rhs(p)[i]));
        if let Some(t) = la {
            if tail_first(g, p, i, t) {
                let m = choose|m: int|
                    i <= m < g.rhs(p).len() && symbol_first(g, #[trigger] g.rhs(p)[m], t)
                        && forall|u: int|
                        i <= u < m ==> symbol_nullable(g, #[trigger] g.rhs(p)[u]);
                if m > i {
                    assert(symbol_nullable(g, g.rhs(p)[i]));
                }
            }
            if t == c {
                assert(symbol_first(g, g.rhs(p)[i], t));
                assert(tail_first(g, p, i, t));
            }
        }
    }
    assert(feeds_set(g, p, i, base) =~= goal);
}

/// In front of a variable comes what can begin it and, if it can vanish,
/// what comes behind it.
pub proof fn lemma_feeds_variable(g: &Grammar, p: int, i: int, b: usize, base: Set<Option<usize>>)
    requires
        0 <= i < g.rhs(p).len(),
        g.rhs(p)[i] == Symbol::Variable(b),
    ensures
        feeds_set(g, p, i, base) == if symbol_nullable(g, g.rhs(p)[i]) {
            feeds_set(g, p, i + 1, base).union(first_classes(g, b as int))
        } else {
            first_classes(g, b as int)
        },
{
    let goal = if symbol_nullable(g, g.rhs(p)[i]) {
        feeds_set(g, p, i + 1, base).union(first_classes(g, b as int))
    } else {
        first_classes(g, b as int)
    };
    assert forall|la: Option<usize>| feeds_set(g, p, i, base).contains(la) <==> goal.contains(
        la,
    ) by {
        if let Some(t) = la {
            if tail_first(g, p, i, t) {
                let m = choose|m: int|
                    i <= m < g.rhs(p).len() && symbol_first(g, #[trigger] g.rhs(p)[m], t)
                        && forall|u: int|
                        i <= u < m ==> symbol_nullable(g, #[trigger] g.rhs(p)[u]);
                if m > i {
                    assert(symbol_nullable(g, g.rhs(p)[i]));
                    assert(tail_first(g, p, i + 1, t));
                }
            }
            if in_first(g, b as int, t) {
                assert(symbol_first(g, g.rhs(p)[i], t));
                assert(tail_first(g, p, i, t));
            }
            if symbol_nullable(g, g.rhs(p)[i]) && tail_first(g, p, i + 1, t) {
                let m = choose|m: int|
                    i + 1 <= m < g.rhs(p).len() && symbol_first(g, #[trigger] g.rhs(p)[m], t)
                        && forall|u: int|
                        i + 1 <= u < m ==> symbol_nullable(g, #[trigger] g.rhs(p)[u]);
                assert forall|u: int| i <= u < m implies symbol_nullable(
                    g,
                    #[trigger] g.rhs(p)[u],
                ) by {}
                assert(tail_first(g, p, i, t));
            }
        }
        if tail_nullable(g, p, i) {
            assert(symbol_nullable(g, g.rhs(p)[i]));
            assert(tail_nullable(g, p, i + 1));
        }
        if symbol_nullable(g, g.rhs(p)[i]) && tail_nullable(g, p, i + 1) {
            assert forall|u: int| i <= u < g.rhs(p).len() implies symbol_nullable(
                g,
                #[trigger] g.rhs(p)[u],
            ) by {}
        }
    }
    assert(feeds_set(g, p, i, base) =~= goal);
}

/// What can follow an occurrence of a variable, given lookaheads that can
/// follow the production's left-hand side, can follow the variable.
proof fn lemma_feeds_sound(g: &Grammar, p: int, i: int, b: int, la: Option<usize>)
    requires
        g.wf(),
        occurs(g, p, i, b),
        feeds_set(g, p, i + 1, follow_set(g, g.lhs_of(p))).contains(la),
    ensures
        in_follow(g, b, la),
{
    let a = g.lhs_of(p);
    if tail_nullable(g, p, i + 1) && follow_set(g, a).contains(la) {
        let k = choose|k: nat| follow_stage(g, k)[a].contains(la);
        assert(feeds_set(g, p, i + 1, follow_stage(g, k)[a]).contains(la));
        assert(follow_stage(g, k + 1)[b].contains(la));
    } else {
        assert(feeds_set(g, p, i + 1, follow_stage(g, 0)[a]).contains(la));
        assert(follow_stage(g, 1)[b].contains(la));
    }
}

/// The sets as plain sets.
pub open spec fn views(s: Seq<LookaheadSet>) -> Seq<Set<Option<usize>>> {
    Seq::new(s.len(), |b: int| s[b]@)
}

/// At the occurrence of a variable at position `i` of production `p`,
/// nothing is missing from the variable's set.
spec fn closed_at(g: &Grammar, f: Seq<Set<Option<usize>>>, p: int, i: int) -> bool {
    forall|b: int| #[trigger]
        occurs(g, p, i, b) ==> feeds_set(g, p, i + 1, f[g.lhs_of(p)]).subset_of(f[b])
}

/// Sets that lack nothing at any occurrence, and hold end of input for the
/// augmented start variable, hold every lookahead that can follow.
proof fn lemma_closed_complete(g: &Grammar, f: Seq<Set<Option<usize>>>, k: nat)
    requires
        g.wf(),
        f.len() == g.var_count(),
        f[g.start_var()].contains(None),
        forall|p: int, i: int|
            0 <= p < g.production_count() && 0 <= i < g.rhs(p).len() ==> #[trigger] closed_at(
                g,
                f,
                p,
                i,
            ),
    ensures
        forall|b: int, la: Option<usize>|
            0 <= b < g.var_count() && #[trigger] follow_stage(g, k)[b].contains(la)
                ==> f[b].contains(la),
    decreases k,
{
    if k != 0 {
        lemma_closed_complete(g, f, (k - 1) as nat);
        let prev = follow_stage(g, (k - 1) as nat);
        assert forall|b: int, la: Option<usize>|
            0 <= b < g.var_count() && #[trigger] follow_stage(g, k)[b].contains(
                la,
            ) implies f[b].contains(la) by {
            if !prev[b].contains(la) {
                let (p, i) = choose|p: int, i: int| #[trigger]
                    occurs(g, p, i, b) && feeds_set(g, p, i + 1, prev[g.lhs_of(p)]).contains(la);
                assert(closed_at(g, f, p, i));
                let a = g.lhs_of(p);
                if tail_nullable(g, p, i + 1) && prev[a].contains(la) {
                    assert(f[a].contains(la));
                }
                assert(feeds_set(g, p, i + 1, f[a]).contains(la));
            }
        }
    }
}

/// Total number of members.
spec fn total_len(s: Seq<LookaheadSet>) -> int
    decreases s.len(),
{
    if s.len() == 0 {
        0
    } else {
        total_len(s.drop_last()) + s.last().columns().len()
    }
}

proof fn lemma_total_update(s: Seq<LookaheadSet>, b: int, x: LookaheadSet)
    requires
        0 <= b < s.len(),
    ensures
        total_len(s.update(b, x)) == total_len(s) - s[b].columns().len() + x.columns().len(),
    decreases s.len(),
{
    let t = s.update(b, x);
    if b == s.len() - 1 {
        assert(t.drop_last() =~= s.drop_last());
    } else {
        lemma_total_update(s.drop_last(), b, x);
        assert(t.drop_last() =~= s.drop_last().update(b, x));
    }
}

proof fn lemma_total_bound(s: Seq<LookaheadSet>, m: int)
    requires
        0 <= m,
        forall|b: int| 0 <= b < s.len() ==> (#[trigger] s[b]).columns().len() <= m,
    ensures
        0 <= total_len(s) <= s.len() * m,
    decreases s.len(),
{
    if s.len() != 0 {
        lemma_total_bound(s.drop_last(), m);
        assert(s.last().columns().len() <= m);
        assert((s.len() - 1) * m + m == s.len() * m) by (nonlinear_arith);
    } else {
        assert(0 * m == 0);
    }
}

/// Every member has a column up to `m`.
pub open spec fn within(set: LookaheadSet, m: int) -> bool {
    forall|la: Option<usize>| set@.contains(la) ==> column_of(la) <= m
}

/// Adds to `trailer` the terminals that can begin variable `b`.
pub fn add_first(trailer: &mut LookaheadSet, first: &First, b: usize, Ghost(g): Ghost<&Grammar>)
    requires
        g.wf(),
        first.describes(g),
        b < g.var_count(),
        old(trailer).wf(),
        within(*old(trailer), g.word_total() as int),
    ensures
        final(trailer).wf(),
        final(trailer)@ == old(trailer)@.union(first_classes(g, b as int)),
        within(*final(trailer), g.word_total() as int),
{
    let terminals = first.get(b);
    let ghost all = first.seq(b as int);
    let mut i: usize = 0;
    while i < terminals.len()
        invariant
            g.wf(),
            terminals@ == all,
            all == first.seq(b as int),
            first.describes(g),
            b < g.var_count(),
            i <= all.len(),
            trailer.wf(),
            within(*trailer, g.word_total() as int),
            forall|la: Option<usize>|
                trailer@.contains(la) <==> old(trailer)@.contains(la) || (match la {
                    Some(t) => all.subrange(0, i as int).contains(t),
                    None => false,
                }),
        decreases all.len() - i,
    {
        let t = terminals[i];
        proof {
            assert(first.seq(b as int)[i as int] < g.word_total());
            g.lemma_word_total();
        }
        trailer.insert(Some(t));
        proof {
            let head = all.subrange(0, i as int);
            let next = all.subrange(0, i + 1);
            assert(next == head.push(t));
            assert forall|la: Option<usize>|
                trailer@.contains(la) <==> old(trailer)@.contains(la) || (match la {
                    Some(u) => next.contains(u),
                    None => false,
                }) by {
                if let Some(u) = la {
                    if next.contains(u) {
                        let k = choose|k: int| 0 <= k < next.len() && next[k] == u;
                        if k < i {
                            assert(head[k] == u);
                        }
                    }
                    if head.contains(u) {
                        let k = choose|k: int| 0 <= k < head.len() && head[k] == u;
                        assert(next[k] == u);
                    }
                    if u == t {
                        assert(next[i as int] == u);
                    }
                }
            }
        }
        i = i + 1;
    }
    proof {
        assert(all.subrange(0, i as int) == all);
        assert(all.to_set() == first_set(g, b as int));
        assert forall|la: Option<usize>|
            trailer@.contains(la) <==> old(trailer)@.union(first_classes(g, b as int)).contains(
                la,
            ) by {
            if let Some(t) = la {
                assert(all.to_set().contains(t) == in_first(g, b as int, t));
            }
        }
        assert(trailer@ =~= old(trailer)@.union(first_classes(g, b as int)));
    }
}

/// For each variable, the lookaheads that can come immediately after it.
pub fn compute_var_follows(grammar: &Grammar, nullable: &Nullable, first: &First) -> (follow: Vec<
    LookaheadSet,
>)
    requires
        grammar.wf(),
        nullable.describes(grammar),
        first.describes(grammar),
    ensures
        follow@.len() == grammar.var_count(),
        forall|b: int|
            0 <= b < grammar.var_count() ==> (#[trigger] follow@[b]).wf() && follow@[b]@
                == follow_set(grammar, b),
{
    let var_count = grammar.variable_count();
    let production_count = grammar.production_total();
    let word_count = grammar.word_count();
    let mut follow: Vec<LookaheadSet> = Vec::new();
    let mut b: usize = 0;
    while b < var_count
        invariant
            b <= var_count,
            follow@.len() == b,
            forall|c: int| 0 <= c < b ==> (#[trigger] follow@[c]).wf() && follow@[c]@.is_empty(),
        decreases var_count - b,
    {
        follow.push(LookaheadSet::new());
        b = b + 1;
    }
    follow[var_count - 1].insert(None);
    proof {
        assert forall|c: int, la: Option<usize>|
            0 <= c < var_count && (#[trigger] follow@[c]@.contains(la)) implies in_follow(
            grammar,
            c,
            la,
        ) by {
            assert(follow_stage(grammar, 0)[grammar.start_var()].contains(None));
        }
        assert forall|c: int| 0 <= c < var_count implies (#[trigger] follow@[c]).columns().len()
            <= word_count + 1 by {
            follow@[c].lemma_len_bound(word_count as int);
        }
        lemma_total_bound(follow@, word_count + 1);
    }
    let mut done = false;
    while !done
        invariant
            grammar.wf(),
            nullable.describes(grammar),
            first.describes(grammar),
            var_count == grammar.var_count(),
            production_count == grammar.production_count(),
            word_count == grammar.word_total(),
            follow@.len() == var_count,
            forall|c: int| 0 <= c < var_count ==> (#[trigger] follow@[c]).wf(),
            forall|c: int| 0 <= c < var_count ==> within(#[trigger] follow@[c], word_count as int),
            forall|c: int, la: Option<usize>|
                0 <= c < var_count && (#[trigger] follow@[c]@.contains(la)) ==> in_follow(
                    grammar,
                    c,
                    la,
                ),
            follow@[var_count - 1]@.contains(None),
            0 <= total_len(follow@) <= var_count * (word_count + 1),
            done ==> forall|p: int, i: int|
                0 <= p < production_count && 0 <= i < grammar.rhs(p).len() ==> #[trigger] closed_at(
                    grammar,
                    views(follow@),
                    p,
                    i,
                ),
        decreases var_count * (word_count + 1) - total_len(follow@),
            (if done { 0int } else { 1int }),
    {
        done = true;
        let ghost start = follow@;
        let mut p: usize = 0;
        while p < production_count
            invariant
                grammar.wf(),
                nullable.describes(grammar),
                first.describes(grammar),
                var_count == grammar.var_count(),
                production_count == grammar.production_count(),
                word_count == grammar.word_total(),
                p <= production_count,
                follow@.len() == var_count,
                forall|c: int| 0 <= c < var_count ==> (#[trigger] follow@[c]).wf(),
                forall|c: int|
                    0 <= c < var_count ==> within(#[trigger] follow@[c], word_count as int),
                forall|c: int, la: Option<usize>|
                    0 <= c < var_count && (#[trigger] follow@[c]@.contains(la)) ==> in_follow(
                        grammar,
                        c,
                        la,
                    ),
                follow@[var_count - 1]@.contains(None),
                0 <= total_len(follow@) <= var_count * (word_count + 1),
                total_len(follow@) >= total_len(start),
                !done ==> total_len(follow@) > total_len(start),
                done ==> forall|q: int, i: int|
                    0 <= q < p && 0 <= i < grammar.rhs(q).len() ==> #[trigger] closed_at(
                        grammar,
                        views(follow@),
                        q,
                        i,
                    ),
            decreases production_count - p,
        {
            let lhs = grammar.lhs(p);
            let len = grammar.rhs_len(p);
            let mut trailer = follow[lhs].duplicate();
            let ghost snap = follow@[lhs as int]@;
            proof {
                lemma_feeds_end(grammar, p as int, snap);
            }
            let mut j: usize = len;
            while j > 0
                invariant
                    grammar.wf(),
                    nullable.describes(grammar),
                    first.describes(grammar),
                    var_count == grammar.var_count(),
                    production_count == grammar.production_count(),
                    word_count == grammar.word_total(),
                    p < production_count,
                    lhs == grammar.lhs_of(p as int),
                    len == grammar.rhs(p as int).len(),
                    j <= len,
                    follow@.len() == var_count,
                    forall|c: int| 0 <= c < var_count ==> (#[trigger] follow@[c]).wf(),
                    forall|c: int|
                        0 <= c < var_count ==> within(#[trigger] follow@[c], word_count as int),
                    forall|c: int, la: Option<usize>|
                        0 <= c < var_count && (#[trigger] follow@[c]@.contains(la)) ==> in_follow(
                            grammar,
                            c,
                            la,
                        ),
                    follow@[var_count - 1]@.contains(None),
                    0 <= total_len(follow@) <= var_count * (word_count + 1),
                    total_len(follow@) >= total_len(start),
                    !done ==> total_len(follow@) > total_len(start),
                    trailer.wf(),
                    within(trailer, word_count as int),
                    trailer@ == feeds_set(grammar, p as int, j as int, snap),
                    forall|la: Option<usize>| snap.contains(la)
                        ==> in_follow(grammar, lhs as int, la),
                    done ==> snap == follow@[lhs as int]@,
                    done ==> forall|q: int, i: int|
                        0 <= q < p && 0 <= i < grammar.rhs(q).len() ==> #[trigger] closed_at(
                            grammar,
                            views(follow@),
                            q,
                            i,
                        ),
                    done ==> forall|i: int|
                        j <= i < len ==> #[trigger] closed_at(grammar, views(follow@), p as int, i),
                decreases j,
            {
                j = j - 1;
                let ghost follow0 = follow@;
                let ghost trailer0 = trailer@;
                let symbol = grammar.symbol(p, j);
                proof {
                    assert(grammar.rhs(p as int)[j as int].var_below(grammar.var_count()));
                    grammar.lemma_word_total();
                    assert(grammar.rhs(p as int)[j as int].word_below(word_count as int));
                }
                match symbol {
                    Some(Symbol::Terminal(t)) => {
                        trailer = LookaheadSet::new();
                        trailer.insert(Some(t));
                        proof {
                            lemma_feeds_terminal(grammar, p as int, j as int, t, snap);
                            assert(trailer@ =~= feeds_set(grammar, p as int, j as int, snap));
                            assert forall|b: int| !occurs(grammar, p as int, j as int, b) by {}
                            assert(closed_at(grammar, views(follow@), p as int, j as int));
                        }
                    },
                    Some(Symbol::Variable(b)) => {
                        let grew = follow[b].union_with(&trailer);
                        proof {
                            lemma_total_update(follow0, b as int, follow@[b as int]);
                            assert(follow@ =~= follow0.update(b as int, follow@[b as int]));
                            assert forall|c: int| 0 <= c < var_count implies (
                            #[trigger] follow@[c]).wf()
                                && within(follow@[c], word_count as int) by {
                                if c != b {
                                    assert(follow@[c] == follow0[c]);
                                } else {
                                    assert(within(follow0[c], word_count as int));
                                }
                            }
                            assert forall|c: int, la: Option<usize>|
                                0 <= c < var_count && (#[trigger] follow@[c]@.contains(
                                    la,
                                )) implies in_follow(grammar, c, la) by {
                                if c == b && !follow0[c]@.contains(la) {
                                    assert(occurs(grammar, p as int, j as int, b as int));
                                    assert(feeds_set(
                                        grammar,
                                        p as int,
                                        j + 1,
                                        follow_set(grammar, lhs as int),
                                    ).contains(la));
                                    lemma_feeds_sound(grammar, p as int, j as int, b as int, la);
                                } else {
                                    assert(follow0[c]@.contains(la));
                                }
                            }
                            follow@[b as int].lemma_len_bound(word_count as int);
                            assert forall|c: int| 0 <= c < var_count implies (
                            #[trigger] follow@[c]).columns().len() <= word_count + 1 by {
                                follow@[c].lemma_len_bound(word_count as int);
                            }
                            lemma_total_bound(follow@, word_count + 1);
                        }
                        if grew {
                            done = false;
                        } else {
                            proof {
                                assert(follow@[b as int]@ =~= follow0[b as int]@);
                                assert forall|c: int| 0 <= c < var_count implies views(follow@)[c]
                                    == views(follow0)[c] by {
                                    if c != b {
                                        assert(follow@[c] == follow0[c]);
                                    }
                                }
                                assert(views(follow@) =~= views(follow0));
                                if done {
                                    assert forall|c: int| #[trigger]
                                        occurs(grammar, p as int, j as int, c) implies feeds_set(
                                        grammar,
                                        p as int,
                                        j + 1,
                                        views(follow@)[grammar.lhs_of(p as int)],
                                    ).subset_of(views(follow@)[c]) by {
                                        assert(c == b);
                                        assert(views(follow@)[lhs as int] == snap);
                                    }
                                }
                            }
                        }
                        proof {
                            lemma_feeds_variable(grammar, p as int, j as int, b, snap);
                        }
                        if nullable.get(b) {
                            add_first(&mut trailer, first, b, Ghost(grammar));
                        } else {
                            trailer = LookaheadSet::new();
                            add_first(&mut trailer, first, b, Ghost(grammar));
                            proof {
                                assert(trailer@ =~= first_classes(grammar, b as int));
                            }
                        }
                    },
                    None => {},
                }
            }
            p = p + 1;
        }
    }
    proof {
        let f = views(follow@);
        assert forall|b: int| 0 <= b < grammar.var_count() implies (#[trigger] follow@[b]).wf()
            && follow@[b]@ == follow_set(grammar, b) by {
            assert forall|la: Option<usize>| follow@[b]@.contains(la) <==> in_follow(
                grammar,
                b,
                la,
            ) by {
                if in_follow(grammar, b, la) {
                    let k = choose|k: nat| follow_stage(grammar, k)[b].contains(la);
                    lemma_closed_complete(grammar, f, k);
                    assert(f[b].contains(la));
                }
            }
            assert(follow@[b]@ =~= follow_set(grammar, b));
        }
    }
    follow
}

/// The sequence lists end of input first, if at all, then terminals in
/// strictly ascending order.
pub open spec fn classes_ascending(s: Seq<Option<usize>>) -> bool {
    forall|i: int, j: int| 0 <= i < j < s.len() ==> column_of(s[i]) < column_of(s[j])
}

/// For each variable of a grammar, the set of lookaheads (the follow set)
/// that can appear immediately after it in a sentential form, stored as one
/// flat ordered run per variable.
///
/// A lookahead is an `Option<usize>`, where `None` stands for end of
/// input.
#[derive(Debug)]
pub struct Follow {
    follows: Vec<Option<usize>>,
    var_ranges: Vec<usize>,
}

impl Follow {
    /// Number of variables covered.
    pub closed spec fn var_count(&self) -> int {
        self.var_ranges@.len() - 1
    }

    /// The lookaheads of variable `a`: end of input first, then terminals
    /// in ascending order.
    pub closed spec fn seq(&self, a: int) -> Seq<Option<usize>> {
        self.follows@.subrange(self.var_ranges@[a] as int, self.var_ranges@[a + 1] as int)
    }

    /// Consistency of the flat buffers.
    pub closed spec fn layout_ok(&self) -> bool {
        &&& self.var_ranges@.len() >= 1
        &&& forall|a: int, b: int|
            0 <= a <= b < self.var_ranges@.len() ==> self.var_ranges@[a] <= self.var_ranges@[b]
        &&& self.var_ranges@[self.var_ranges@.len() - 1] == self.follows@.len()
    }

    /// These are the sets of grammar `g`: for each variable exactly the
    /// lookaheads that can follow it, in order.
    pub open spec fn describes(&self, g: &Grammar) -> bool {
        &&& self.layout_ok()
        &&& self.var_count() == g.var_count()
        &&& forall|a: int|
            0 <= a < g.var_count() ==> classes_ascending(#[trigger] self.seq(a)) && self.seq(
                a,
            ).to_set() == follow_set(g, a)
    }

    /// End of input is among the lookaheads that follow the augmented
    /// start variable, and among those that follow the grammar's first
    /// variable.
    pub proof fn lemma_holds_end(&self, g: &Grammar)
        requires
            g.wf(),
            self.describes(g),
        ensures
            self.seq(g.start_var()).contains(None),
            self.seq(0).contains(None),
    {
        lemma_follow_end(g);
        assert(self.seq(g.start_var()).to_set().contains(None));
        assert(self.seq(0).to_set().contains(None));
    }

    /// Computes the sets of `grammar`.
    #[must_use]
    pub fn new(grammar: &Grammar, nullable: &Nullable, first: &First) -> (follow: Self)
        requires
            grammar.wf(),
            nullable.describes(grammar),
            first.describes(grammar),
        ensures
            follow.describes(grammar),
    {
        let var_follows = compute_var_follows(grammar, nullable, first);
        let mut follows: Vec<Option<usize>> = Vec::new();
        let mut var_ranges: Vec<usize> = Vec::new();
        var_ranges.push(0);
        let mut a: usize = 0;
        while a < var_follows.len()
            invariant
                a <= var_follows@.len(),
                var_ranges@.len() == a + 1,
                var_ranges@[a as int] == follows@.len(),
                forall|b: int, c: int|
                    0 <= b <= c < var_ranges@.len() ==> var_ranges@[b] <= var_ranges@[c],
                forall|b: int| 0 <= b < var_follows@.len() ==> (#[trigger] var_follows@[b]).wf(),
                forall|b: int|
                    0 <= b < a ==> run_of(
                        follows@.subrange(var_ranges@[b] as int, var_ranges@[b + 1] as int),
                        #[trigger] var_follows@[b],
                    ),
            decreases var_follows@.len() - a,
        {
            let set = &var_follows[a];
            let ghost follows0 = follows@;
            let ghost ranges0 = var_ranges@;
            let len = set.len();
            let mut i: usize = 0;
            while i < len
                invariant
                    set.wf(),
                    len == set.columns().len(),
                    i <= len,
                    follows@.len() == follows0.len() + i,
                    follows@.subrange(0, follows0.len() as int) == follows0,
                    forall|k: int|
                        0 <= k < i ==> column_of(#[trigger] follows@[follows0.len() + k])
                            == set.columns()[k] && set@.contains(follows@[follows0.len() + k]),
                decreases len - i,
            {
                let ghost before = follows@;
                follows.push(set.get(i));
                proof {
                    assert(follows@.subrange(0, follows0.len() as int) =~= before.subrange(
                        0,
                        follows0.len() as int,
                    ));
                    assert forall|k: int| 0 <= k < i + 1 implies column_of(
                        #[trigger] follows@[follows0.len() + k],
                    ) == set.columns()[k] && set@.contains(follows@[follows0.len() + k]) by {
                        if k < i {
                            assert(follows@[follows0.len() + k] == before[follows0.len() + k]);
                        }
                    }
                }
                i = i + 1;
            }
            var_ranges.push(follows.len());
            proof {
                assert forall|b: int| 0 <= b < a + 1 implies run_of(
                    follows@.subrange(var_ranges@[b] as int, var_ranges@[b + 1] as int),
                    #[trigger] var_follows@[b],
                ) by {
                    if b < a {
                        assert(ranges0[b] <= ranges0[b + 1]);
                        assert(ranges0[b + 1] <= ranges0[a as int]);
                        assert(follows@.subrange(var_ranges@[b] as int, var_ranges@[b + 1] as int)
                            =~= follows0.subrange(ranges0[b] as int, ranges0[b + 1] as int));
                    } else {
                        let run = follows@.subrange(follows0.len() as int, follows@.len() as int);
                        assert forall|k: int| 0 <= k < run.len() implies column_of(
                            #[trigger] run[k],
                        ) == set.columns()[k] && set@.contains(run[k]) by {
                            assert(run[k] == follows@[follows0.len() + k]);
                        }
                    }
                }
            }
            a = a + 1;
        }
        let follow = Follow { follows, var_ranges };
        proof {
            assert forall|a: int| 0 <= a < grammar.var_count() implies classes_ascending(
                #[trigger] follow.seq(a),
            ) && follow.seq(a).to_set() == follow_set(grammar, a) by {
                let run = follow.seq(a);
                let set = var_follows@[a];
                assert(run_of(run, set));
                set.lemma_members();
                assert forall|la: Option<usize>| run.to_set().contains(la) <==> set@.contains(
                    la,
                ) by {
                    if run.contains(la) {
                        let k = choose|k: int| 0 <= k < run.len() && run[k] == la;
                        assert(set@.contains(run[k]));
                    }
                    if set@.contains(la) {
                        assert(crate::index_set::class_ok(la));
                        let c = column_of(la) as usize;
                        assert(set.columns().contains(c));
                        let k = choose|k: int|
                            0 <= k < set.columns().len() && set.columns()[k] == c;
                        assert(column_of(run[k]) == c);
                        assert(set@.contains(run[k]));
                        assert(run[k] == la);
                    }
                }
                assert(run.to_set() =~= set@);
            }
        }
        follow
    }

    /// The lookaheads that can follow variable `var`: end of input first,
    /// then terminals in ascending order.
    pub fn get(&self, var: usize) -> (s: &[Option<usize>])
        requires
            self.layout_ok(),
            var < self.var_count(),
        ensures
            s@ == self.seq(var as int),
    {
        let bound = self.var_ranges.len();
        let low = self.var_ranges[var];
        let high = self.var_ranges[var + 1];
        vstd::slice::slice_subrange(self.follows.as_slice(), low, high)
    }
}

/// `run` lists the members of `set` in the order of their columns.
spec fn run_of(run: Seq<Option<usize>>, set: LookaheadSet) -> bool {
    &&& run.len() == set.columns().len()
    &&& forall|k: int|
        0 <= k < run.len() ==> column_of(#[trigger] run[k]) == set.columns()[k] && set@.contains(
            run[k],
        )
}

impl Grammar {
    /// The follow sets of the grammar, with its first sets and nullability
    /// flags.
    pub fn follow_set(&self) -> (r: (Follow, First, Nullable))
        requires
            self.wf(),
        ensures
            r.0.describes(self),
            r.1.describes(self),
            r.2.describes(self),
    {
        let (first, nullable) = self.first_set();
        let follow = Follow::new(self, &nullable, &first);
        (follow, first, nullable)
    }
}

} // verus!
