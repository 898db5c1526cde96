use vstd::prelude::*;
use super::table::LR1Table;
use crate::grammar::Symbol;

verus! {

/// The terminals of a sequence of classes.
pub open spec fn terminals(classes: Seq<usize>) -> Seq<Symbol> {
    Seq::new(classes.len(), |i: int| Symbol::Terminal(classes[i]))
}

/// `to` comes from `from` by putting the right-hand side of production `p`
/// in place of the production's variable at position `at`, behind which
/// only terminals stand: a step of a rightmost derivation.
pub open spec fn rm_step<P: LR1Table>(
    table: &P,
    from: Seq<Symbol>,
    to: Seq<Symbol>,
    p: int,
    at: int,
) -> bool {
    &&& 0 <= p < table.production_total()
    &&& 0 <= at < from.len()
    &&& from[at] == Symbol::Variable(table.reduction_at(p).var)
    &&& forall|j: int| at < j < from.len() ==> (#[trigger] from[j]) is Terminal
    &&& to == from.subrange(0, at) + table.rhs_of(p) + from.subrange(at + 1, from.len() as int)
}

/// By the productions `ps`, in order, `from` derives `to`, always
/// replacing the rightmost variable.
pub open spec fn rm_derives<P: LR1Table>(
    table: &P,
    from: Seq<Symbol>,
    ps: Seq<usize>,
    to: Seq<Symbol>,
) -> bool
    decreases ps.len(),
{
    if ps.len() == 0 {
        from == to
    } else {
        exists|mid: Seq<Symbol>, at: int| #[trigger]
            rm_step(table, from, mid, ps[0] as int, at) && rm_derives(
                table,
                mid,
                ps.drop_first(),
                to,
            )
    }
}

/// The sequence back to front.
pub open spec fn reversed(s: Seq<usize>) -> Seq<usize>
    decreases s.len(),
{
    if s.len() == 0 {
        s
    } else {
        seq![s.last()] + reversed(s.drop_last())
    }
}

/// Back to front, what was added last comes first.
pub proof fn lemma_reversed_push(s: Seq<usize>, p: usize)
    ensures
        reversed(s.push(p)) == seq![p] + reversed(s),
{
    assert(s.push(p).drop_last() =~= s);
}

/// The terminals of classes with one more class.
pub proof fn lemma_terminals_push(classes: Seq<usize>, c: usize)
    ensures
        terminals(classes.push(c)) == terminals(classes).push(Symbol::Terminal(c)),
{
    assert(terminals(classes.push(c)) =~= terminals(classes).push(Symbol::Terminal(c)));
}

/// A derivation stays one with the same terminal put behind both ends.
pub proof fn lemma_derives_push<P: LR1Table>(
    table: &P,
    from: Seq<Symbol>,
    ps: Seq<usize>,
    to: Seq<Symbol>,
    c: usize,
)
    requires
        rm_derives(table, from, ps, to),
    ensures
        rm_derives(table, from.push(Symbol::Terminal(c)), ps, to.push(Symbol::Terminal(c))),
    decreases ps.len(),
{
    if ps.len() > 0 {
        let (mid, at) = choose|mid: Seq<Symbol>, at: int| #[trigger]
            rm_step(table, from, mid, ps[0] as int, at) && rm_derives(
                table,
                mid,
                ps.drop_first(),
                to,
            );
        lemma_derives_push(table, mid, ps.drop_first(), to, c);
        let x = Symbol::Terminal(c);
        let from2 = from.push(x);
        let mid2 = mid.push(x);
        assert(from2.subrange(0, at) =~= from.subrange(0, at));
        assert(from2.subrange(at + 1, from2.len() as int) =~= from.subrange(
            at + 1,
            from.len() as int,
        ).push(x));
        assert(mid2 =~= from2.subrange(0, at) + table.rhs_of(ps[0] as int) + from2.subrange(
            at + 1,
            from2.len() as int,
        ));
        assert forall|j: int| at < j < from2.len() implies (#[trigger] from2[j]) is Terminal by {
            if j < from.len() {
                assert(from[j] is Terminal);
            }
        }
        assert(rm_step(table, from2, mid2, ps[0] as int, at));
    }
}

/// Putting the right-hand side of a production in place of its variable
/// at the end is a step of a rightmost derivation.
pub proof fn lemma_derives_reduce<P: LR1Table>(
    table: &P,
    stem: Seq<Symbol>,
    p: usize,
    ps: Seq<usize>,
    to: Seq<Symbol>,
)
    requires
        p < table.production_total(),
        rm_derives(table, stem + table.rhs_of(p as int), ps, to),
    ensures
        rm_derives(
            table,
            stem.push(Symbol::Variable(table.reduction_at(p as int).var)),
            seq![p] + ps,
            to,
        ),
{
    let from = stem.push(Symbol::Variable(table.reduction_at(p as int).var));
    let mid = stem + table.rhs_of(p as int);
    let at = stem.len() as int;
    assert(from.subrange(0, at) =~= stem);
    assert(from.subrange(at + 1, from.len() as int) =~= Seq::<Symbol>::empty());
    assert(mid =~= from.subrange(0, at) + table.rhs_of(p as int) + from.subrange(
        at + 1,
        from.len() as int,
    ));
    let all = seq![p] + ps;
    assert(all.drop_first() =~= ps);
    assert(all[0] == p);
    assert(rm_step(table, from, mid, all[0] as int, at));
}

} // verus!
