use vstd::prelude::*;
use super::first::{begins_with, first_stage, in_first, starts, symbol_nullable};
use super::follow::{feeds_set, symbol_first, tail_first, tail_nullable};
use super::grammar::{Grammar, Symbol};
use super::nullability::{
    alt_flagged, derives_empty, lemma_nullable_mono, nullable_stage, nullable_within,
    symbol_flag, var_flagged,
};

verus! {

/// A derivation tree: a terminal, or a production with one tree for each
/// symbol of its right-hand side.
pub ghost enum Tree {
    Leaf(usize),
    Node(usize, Seq<Tree>),
}

/// `tree` is a derivation tree of symbol `x` in grammar `g`.
pub open spec fn derives(g: &Grammar, tree: Tree, x: Symbol) -> bool
    decreases tree,
{
    match tree {
        Tree::Leaf(t) => x == Symbol::Terminal(t),
        Tree::Node(p, kids) => {
            &&& p < g.production_count()
            &&& x == Symbol::Variable(g.lhs_of(p as int) as usize)
            &&& kids.len() == g.rhs(p as int).len()
            &&& forall|i: int|
                0 <= i < kids.len() ==> derives(g, #[trigger] kids[i], g.rhs(p as int)[i])
        },
    }
}

/// The terminals at the leaves of a tree, from left to right: the
/// sentence that the tree derives.
pub open spec fn fringe(tree: Tree) -> Seq<usize>
    decreases tree, 0nat,
{
    match tree {
        Tree::Leaf(t) => seq![t],
        Tree::Node(_, kids) => fringe_of(kids, 0),
    }
}

/// The terminals at the leaves of the trees `kids[from..]`, from left to
/// right.
pub open spec fn fringe_of(kids: Seq<Tree>, from: int) -> Seq<usize>
    decreases kids, kids.len() - from,
{
    if 0 <= from < kids.len() {
        fringe(kids[from]) + fringe_of(kids, from + 1)
    } else {
        Seq::empty()
    }
}

/// Number of leaves and productions of a tree.
pub open spec fn weight(tree: Tree) -> nat
    decreases tree, 0nat,
{
    match tree {
        Tree::Leaf(_) => 1,
        Tree::Node(_, kids) => 1 + weight_of(kids, 0),
    }
}

/// Number of leaves and productions of the trees `kids[from..]`.
pub open spec fn weight_of(kids: Seq<Tree>, from: int) -> nat
    decreases kids, kids.len() - from,
{
    if 0 <= from < kids.len() {
        weight(kids[from]) + weight_of(kids, from + 1)
    } else {
        0
    }
}

/// The first terminal of `y`, or `la` where `y` is empty.
pub open spec fn head_of(y: Seq<usize>, la: Option<usize>) -> Option<usize> {
    if y.len() > 0 {
        Some(y[0])
    } else {
        la
    }
}

/// A tree weighs no more than the trees it stands among.
pub proof fn lemma_weight_part(kids: Seq<Tree>, from: int, i: int)
    requires
        0 <= from <= i < kids.len(),
    ensures
        weight(kids[i]) <= weight_of(kids, from),
    decreases i - from,
{
    if from < i {
        lemma_weight_part(kids, from + 1, i);
    }
}

/// Trees without leaves among them have no leaves, each.
pub proof fn lemma_fringe_part(kids: Seq<Tree>, from: int, i: int)
    requires
        0 <= from <= i < kids.len(),
        fringe_of(kids, from).len() == 0,
    ensures
        fringe(kids[i]).len() == 0,
    decreases i - from,
{
    if from < i {
        lemma_fringe_part(kids, from + 1, i);
    }
}

/// A derivation of height at most `h` is one of any greater height.
pub proof fn lemma_nullable_later(g: &Grammar, a: int, h: nat, k: nat)
    requires
        nullable_within(g, a, h),
        h <= k,
    ensures
        nullable_within(g, a, k),
    decreases k - h,
{
    if h < k {
        lemma_nullable_mono(g, a, h);
        lemma_nullable_later(g, a, h + 1, k);
    }
}

/// A variable with a derivation tree without leaves derives the empty
/// string.
pub proof fn lemma_tree_nullable(g: &Grammar, tree: Tree, b: usize)
    requires
        g.wf(),
        derives(g, tree, Symbol::Variable(b)),
        fringe(tree).len() == 0,
    ensures
        nullable_within(g, b as int, weight(tree)),
        derives_empty(g, b as int),
    decreases tree,
{
    match tree {
        Tree::Leaf(t) => {
            assert(derives(g, Tree::Leaf(t), Symbol::Variable(b)));
        },
        Tree::Node(p, kids) => {
            let h = weight(tree);
            let prev = nullable_stage(g, (h - 1) as nat);
            assert forall|i: int| 0 <= i < g.rhs(p as int).len() implies symbol_flag(
                prev,
                #[trigger] g.rhs(p as int)[i],
            ) by {
                lemma_fringe_part(kids, 0, i);
                lemma_weight_part(kids, 0, i);
                assert(derives(g, kids[i], g.rhs(p as int)[i]));
                match kids[i] {
                    Tree::Leaf(_) => {},
                    Tree::Node(q, _) => {
                        let c = g.lhs_of(q as int) as usize;
                        lemma_tree_nullable(g, kids[i], c);
                        lemma_nullable_later(g, c as int, weight(kids[i]), (h - 1) as nat);
                    },
                }
            }
            assert(alt_flagged(g, prev, p as int));
            assert(var_flagged(g, prev, b as int));
            assert(nullable_stage(g, h)[b as int]);
            assert(nullable_within(g, b as int, h));
        },
    }
}

/// Index of the first tree of `kids[from..]` that has a leaf.
pub open spec fn first_part(kids: Seq<Tree>, from: int) -> int
    decreases kids.len() - from,
{
    if 0 <= from < kids.len() && fringe(kids[from]).len() == 0 {
        first_part(kids, from + 1)
    } else {
        from
    }
}

/// Among trees with a leaf, the first tree that has one begins the
/// fringe.
pub proof fn lemma_first_part(kids: Seq<Tree>, from: int)
    requires
        0 <= from <= kids.len(),
        fringe_of(kids, from).len() > 0,
    ensures
        from <= first_part(kids, from) < kids.len(),
        forall|j: int| from <= j < first_part(kids, from) ==> fringe(#[trigger] kids[j]).len() == 0,
        fringe(kids[first_part(kids, from)]).len() > 0,
        fringe_of(kids, from)[0] == fringe(kids[first_part(kids, from)])[0],
    decreases kids.len() - from,
{
    if from < kids.len() && fringe(kids[from]).len() == 0 {
        assert(fringe_of(kids, from) =~= fringe_of(kids, from + 1));
        lemma_first_part(kids, from + 1);
    }
}

/// The first terminal of a sentence derived from a variable is in the
/// variable's first set.
pub proof fn lemma_tree_first(g: &Grammar, tree: Tree, b: usize)
    requires
        g.wf(),
        derives(g, tree, Symbol::Variable(b)),
        fringe(tree).len() > 0,
    ensures
        in_first(g, b as int, fringe(tree)[0]),
    decreases tree,
{
    match tree {
        Tree::Leaf(t) => {
            assert(derives(g, Tree::Leaf(t), Symbol::Variable(b)));
        },
        Tree::Node(p, kids) => {
            lemma_first_part(kids, 0);
            let i = first_part(kids, 0);
            let t = fringe(tree)[0];
            assert forall|j: int| 0 <= j < i implies symbol_nullable(
                g,
                #[trigger] g.rhs(p as int)[j],
            ) by {
                assert(derives(g, kids[j], g.rhs(p as int)[j]));
                match kids[j] {
                    Tree::Leaf(_) => {},
                    Tree::Node(q, _) => {
                        lemma_tree_nullable(g, kids[j], g.lhs_of(q as int) as usize);
                    },
                }
            }
            assert(derives(g, kids[i], g.rhs(p as int)[i]));
            assert(starts(g, p as int, i, g.rhs(p as int)[i]));
            assert(begins_with(g, b as int, g.rhs(p as int)[i]));
            match kids[i] {
                Tree::Leaf(_) => {
                    assert(first_stage(g, 1)[b as int].contains(t));
                },
                Tree::Node(q, _) => {
                    let c = g.lhs_of(q as int) as usize;
                    lemma_tree_first(g, kids[i], c);
                    let k = choose|k: nat| first_stage(g, k)[c as int].contains(t);
                    assert(first_stage(g, k + 1)[b as int].contains(t));
                },
            }
        },
    }
}

/// What the sentence derived from the rest of a production begins with,
/// or what follows it where that sentence is empty, can follow the
/// position in front of that rest.
pub proof fn lemma_tree_feeds(g: &Grammar, p: int, kids: Seq<Tree>, from: int, la: Option<usize>)
    requires
        g.wf(),
        0 <= p < g.production_count(),
        kids.len() == g.rhs(p).len(),
        forall|i: int| 0 <= i < kids.len() ==> derives(g, #[trigger] kids[i], g.rhs(p)[i]),
        0 <= from <= kids.len(),
    ensures
        feeds_set(g, p, from, Set::<Option<usize>>::empty().insert(la)).contains(
            head_of(fringe_of(kids, from), la),
        ),
    decreases kids.len() - from,
{
    let base = Set::<Option<usize>>::empty().insert(la);
    if from < kids.len() {
        assert(derives(g, kids[from], g.rhs(p)[from]));
        let part = fringe(kids[from]);
        if part.len() > 0 {
            let t = part[0];
            match kids[from] {
                Tree::Leaf(_) => {},
                Tree::Node(q, _) => {
                    lemma_tree_first(g, kids[from], g.lhs_of(q as int) as usize);
                },
            }
            assert(symbol_first(g, g.rhs(p)[from], t));
            assert(tail_first(g, p, from, t));
        } else {
            match kids[from] {
                Tree::Leaf(_) => {},
                Tree::Node(q, _) => {
                    lemma_tree_nullable(g, kids[from], g.lhs_of(q as int) as usize);
                },
            }
            assert(symbol_nullable(g, g.rhs(p)[from]));
            assert(fringe_of(kids, from) =~= fringe_of(kids, from + 1));
            lemma_tree_feeds(g, p, kids, from + 1, la);
            let head = head_of(fringe_of(kids, from), la);
            if head is Some && tail_first(g, p, from + 1, head.unwrap()) {
                let t = head.unwrap();
                let m = choose|m: int|
                    from + 1 <= m < g.rhs(p).len() && symbol_first(g, #[trigger] g.rhs(p)[m], t)
                        && forall|u: int|
                        from + 1 <= u < m ==> symbol_nullable(g, #[trigger] g.rhs(p)[u]);
                assert(tail_first(g, p, from, t));
            } else {
                assert(tail_nullable(g, p, from + 1));
                assert(tail_nullable(g, p, from));
            }
        }
    }
}

/// The leaves of trees in a row are those of the first ones, then those
/// of the others.
pub proof fn lemma_fringe_join(a: Seq<Tree>, b: Seq<Tree>, from: int)
    requires
        0 <= from <= a.len(),
    ensures
        fringe_of(a + b, from) == fringe_of(a, from) + fringe_of(b, 0),
    decreases a.len() - from,
{
    if from < a.len() {
        lemma_fringe_join(a, b, from + 1);
        assert((a + b)[from] == a[from]);
        assert(fringe_of(a + b, from) =~= fringe_of(a, from) + fringe_of(b, 0));
    } else {
        lemma_fringe_shift(a, b, 0);
        assert(fringe_of(a + b, from) =~= fringe_of(a, from) + fringe_of(b, 0));
    }
}

/// Trees in front of a row do not change the leaves of those behind them.
pub proof fn lemma_fringe_shift(a: Seq<Tree>, b: Seq<Tree>, from: int)
    requires
        0 <= from <= b.len(),
    ensures
        fringe_of(a + b, a.len() + from) == fringe_of(b, from),
    decreases b.len() - from,
{
    if from < b.len() {
        lemma_fringe_shift(a, b, from + 1);
        assert((a + b)[a.len() + from] == b[from]);
    }
}

} // verus!
