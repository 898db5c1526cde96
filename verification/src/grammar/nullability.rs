use vstd::prelude::*;
use super::grammar::{Grammar, Symbol};

verus! {

/// `s` is a variable that `flags` marks.
pub open spec fn symbol_flag(flags: Seq<bool>, s: Symbol) -> bool {
    match s {
        Symbol::Terminal(_) => false,
        Symbol::Variable(b) => b < flags.len() && flags[b as int],
    }
}

/// Production `p` consists of variables that `flags` marks.
pub open spec fn alt_flagged(g: &Grammar, flags: Seq<bool>, p: int) -> bool {
    forall|i: int| 0 <= i < g.rhs(p).len() ==> symbol_flag(flags, #[trigger] g.rhs(p)[i])
}

/// Some alternative of variable `a` consists of variables that `flags`
/// marks.
pub open spec fn var_flagged(g: &Grammar, flags: Seq<bool>, a: int) -> bool {
    exists|p: int| g.rule_start(a) <= p < g.rule_start(a + 1) && #[trigger] alt_flagged(g, flags, p)
}

/// No variable is left that `flags` does not mark though one of its
/// alternatives consists of marked variables.
pub open spec fn flags_closed(g: &Grammar, flags: Seq<bool>) -> bool {
    forall|a: int| 0 <= a < g.var_count() && #[trigger] var_flagged(g, flags, a) ==> flags[a]
}

/// The variables that derive the empty string by a derivation tree of
/// height at most `k`: none for `k = 0`; one more level marks every variable
/// with an alternative made of variables marked so far (an empty
/// alternative is one).
pub open spec fn nullable_stage(g: &Grammar, k: nat) -> Seq<bool>
    decreases k,
{
    if k == 0 {
        Seq::new(g.var_count() as nat, |a: int| false)
    } else {
        let prev = nullable_stage(g, (k - 1) as nat);
        Seq::new(g.var_count() as nat, |a: int| prev[a] || var_flagged(g, prev, a))
    }
}

/// Variable `a` derives the empty string by a derivation tree of height at
/// most `h`.
pub open spec fn nullable_within(g: &Grammar, a: int, h: nat) -> bool {
    0 <= a < g.var_count() && nullable_stage(g, h)[a]
}

/// Variable `a` derives the empty string.
pub open spec fn derives_empty(g: &Grammar, a: int) -> bool {
    exists|h: nat| nullable_within(g, a, h)
}

/// Number of entries that are `false`.
pub open spec fn count_false(s: Seq<bool>) -> nat
    decreases s.len(),
{
    if s.len() == 0 {
        0
    } else {
        count_false(s.drop_last()) + if s.last() {
            0nat
        } else {
            1nat
        }
    }
}

proof fn lemma_count_false_set(s: Seq<bool>, a: int)
    requires
        0 <= a < s.len(),
        !s[a],
    ensures
        count_false(s.update(a, true)) + 1 == count_false(s),
    decreases s.len(),
{
    let t = s.update(a, true);
    if a == s.len() - 1 {
        assert(t.drop_last() =~= s.drop_last());
    } else {
        lemma_count_false_set(s.drop_last(), a);
        assert(t.drop_last() =~= s.drop_last().update(a, true));
    }
}

/// A derivation of height at most `h` is one of height at most `h + 1`.
pub proof fn lemma_nullable_mono(g: &Grammar, a: int, h: nat)
    requires
        nullable_within(g, a, h),
    ensures
        nullable_within(g, a, h + 1),
{
    assert(nullable_stage(g, (h + 1) as nat)[a]);
}

/// Marking more variables leaves marked alternatives marked.
proof fn lemma_flagged_mono(g: &Grammar, low: Seq<bool>, high: Seq<bool>, a: int)
    requires
        low.len() == high.len(),
        forall|b: int| 0 <= b < low.len() && #[trigger] low[b] ==> high[b],
        var_flagged(g, low, a),
    ensures
        var_flagged(g, high, a),
{
    let p = choose|p: int|
        g.rule_start(a) <= p < g.rule_start(a + 1) && #[trigger] alt_flagged(g, low, p);
    assert forall|i: int| 0 <= i < g.rhs(p).len() implies symbol_flag(
        high,
        #[trigger] g.rhs(p)[i],
    ) by {
        assert(symbol_flag(low, g.rhs(p)[i]));
    }
    assert(alt_flagged(g, high, p));
}

/// Flags that are closed mark every variable that derives the empty string.
proof fn lemma_closed_complete(g: &Grammar, flags: Seq<bool>, h: nat)
    requires
        flags.len() == g.var_count(),
        flags_closed(g, flags),
    ensures
        forall|a: int| 0 <= a < g.var_count() && #[trigger] nullable_stage(g, h)[a] ==> flags[a],
    decreases h,
{
    if h != 0 {
        lemma_closed_complete(g, flags, (h - 1) as nat);
        let prev = nullable_stage(g, (h - 1) as nat);
        assert forall|a: int| 0 <= a < g.var_count() && #[trigger] nullable_stage(
            g,
            h,
        )[a] implies flags[a] by {
            if !prev[a] {
                lemma_flagged_mono(g, prev, flags, a);
            }
        }
    }
}

/// If the augmented start variable is marked at some stage, the grammar's
/// first variable was marked at an earlier one.
proof fn lemma_start_stage(g: &Grammar, h: nat)
    requires
        g.wf(),
        nullable_stage(g, h)[g.start_var()],
    ensures
        exists|k: nat| nullable_stage(g, k)[0],
    decreases h,
{
    if h != 0 {
        let prev = nullable_stage(g, (h - 1) as nat);
        let s = g.start_var();
        if prev[s] {
            lemma_start_stage(g, (h - 1) as nat);
        } else {
            let p = choose|p: int|
                g.rule_start(s) <= p < g.rule_start(s + 1) && #[trigger] alt_flagged(g, prev, p);
            assert(p == g.start_production());
            assert(symbol_flag(prev, g.rhs(p)[0]));
            assert(nullable_stage(g, (h - 1) as nat)[0]);
        }
    }
}

/// The augmented start variable derives the empty string exactly when the
/// grammar's first variable does: its only production is that variable.
pub proof fn lemma_start_nullable(g: &Grammar)
    requires
        g.wf(),
    ensures
        derives_empty(g, g.start_var()) == derives_empty(g, 0),
{
    let s = g.start_var();
    let last = g.start_production();
    if derives_empty(g, s) {
        let h = choose|h: nat| nullable_within(g, s, h);
        lemma_start_stage(g, h);
        let k = choose|k: nat| nullable_stage(g, k)[0];
        assert(nullable_within(g, 0, k));
    }
    if derives_empty(g, 0) {
        let h = choose|h: nat| nullable_within(g, 0, h);
        let prev = nullable_stage(g, h);
        assert forall|i: int| 0 <= i < g.rhs(last).len() implies symbol_flag(
            prev,
            #[trigger] g.rhs(last)[i],
        ) by {}
        assert(alt_flagged(g, prev, last));
        assert(var_flagged(g, prev, s));
        assert(nullable_within(g, s, h + 1));
    }
}

/// Whether production `p` consists of variables that `flags` marks.
fn alt_all_flagged(grammar: &Grammar, flags: &Vec<bool>, p: usize) -> (r: bool)
    requires
        grammar.wf(),
        p < grammar.production_count(),
        flags@.len() == grammar.var_count(),
    ensures
        r == alt_flagged(grammar, flags@, p as int),
{
    let len = grammar.rhs_len(p);
    let mut i: usize = 0;
    while i < len
        invariant
            grammar.wf(),
            p < grammar.production_count(),
            flags@.len() == grammar.var_count(),
            len == grammar.rhs(p as int).len(),
            i <= len,
            forall|k: int| 0 <= k < i ==> symbol_flag(flags@, #[trigger] grammar.rhs(p as int)[k]),
        decreases len - i,
    {
        match grammar.symbol(p, i) {
            Some(Symbol::Variable(b)) => {
                assert(grammar.rhs(p as int)[i as int].var_below(grammar.var_count()));
                if !flags[b] {
                    assert(!symbol_flag(flags@, grammar.rhs(p as int)[i as int]));
                    return false;
                }
            },
            _ => {
                assert(!symbol_flag(flags@, grammar.rhs(p as int)[i as int]));
                return false;
            },
        }
        i = i + 1;
    }
    true
}

/// Whether some alternative of variable `a` consists of variables that
/// `flags` marks.
fn any_alt_flagged(grammar: &Grammar, flags: &Vec<bool>, a: usize) -> (r: bool)
    requires
        grammar.wf(),
        a < grammar.var_count(),
        flags@.len() == grammar.var_count(),
    ensures
        r == var_flagged(grammar, flags@, a as int),
{
    let (first, end) = grammar.rule_range(a);
    let mut p = first;
    while p < end
        invariant
            grammar.wf(),
            flags@.len() == grammar.var_count(),
            first == grammar.rule_start(a as int),
            end == grammar.rule_start(a + 1),
            end <= grammar.production_count(),
            first <= p <= end,
            forall|q: int| first <= q < p ==> !#[trigger] alt_flagged(grammar, flags@, q),
        decreases end - p,
    {
        if alt_all_flagged(grammar, flags, p) {
            return true;
        }
        p = p + 1;
    }
    false
}

/// For each variable, whether it derives the empty string.
#[must_use]
pub fn nullability(grammar: &Grammar) -> (nullable: Vec<bool>)
    requires
        grammar.wf(),
    ensures
        nullable@.len() == grammar.var_count(),
        forall|a: int|
            0 <= a < grammar.var_count() ==> #[trigger] nullable@[a] == derives_empty(grammar, a),
{
    let n = grammar.variable_count();
    let mut nullable: Vec<bool> = Vec::new();
    let mut i: usize = 0;
    while i < n
        invariant
            i <= n,
            nullable@.len() == i,
            forall|k: int| 0 <= k < i ==> !nullable@[k],
        decreases n - i,
    {
        nullable.push(false);
        i = i + 1;
    }
    let ghost mut height: nat = 0;
    let mut done = false;
    while !done
        invariant
            grammar.wf(),
            n == grammar.var_count(),
            nullable@.len() == n,
            forall|b: int| 0 <= b < n && #[trigger] nullable@[b]
                ==> nullable_within(grammar, b, height),
            done ==> flags_closed(grammar, nullable@),
        decreases count_false(nullable@), (if done { 0int } else { 1int }),
    {
        done = true;
        let ghost start_flags = nullable@;
        let mut a: usize = 0;
        while a < n
            invariant
                grammar.wf(),
                n == grammar.var_count(),
                nullable@.len() == n,
                a <= n,
                forall|b: int|
                    0 <= b < n && #[trigger] nullable@[b] ==> nullable_within(grammar, b, height),
                done ==> nullable@ == start_flags,
                done ==> forall|b: int|
                    0 <= b < a && #[trigger] var_flagged(grammar, nullable@, b) ==> nullable@[b],
                !done ==> count_false(nullable@) < count_false(start_flags),
            decreases n - a,
        {
            if !nullable[a] {
                if any_alt_flagged(grammar, &nullable, a) {
                    proof {
                        let flags = nullable@;
                        let stage = nullable_stage(grammar, height);
                        lemma_flagged_mono(grammar, flags, stage, a as int);
                        assert(nullable_within(grammar, a as int, height + 1));
                        assert forall|b: int| 0 <= b < n
                            && #[trigger] flags[b] implies nullable_within(
                            grammar,
                            b,
                            height + 1,
                        ) by {
                            lemma_nullable_mono(grammar, b, height);
                        }
                        lemma_count_false_set(flags, a as int);
                        height = height + 1;
                    }
                    nullable[a] = true;
                    done = false;
                }
            }
            a = a + 1;
        }
    }
    proof {
        assert forall|a: int| 0 <= a < grammar.var_count() implies #[trigger] nullable@[a]
            == derives_empty(grammar, a) by {
            if derives_empty(grammar, a) {
                let h = choose|h: nat| nullable_within(grammar, a, h);
                lemma_closed_complete(grammar, nullable@, h);
            }
        }
    }
    nullable
}

} // verus!
