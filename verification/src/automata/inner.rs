use vstd::prelude::*;
use vstd::relations::injective;
use vstd::set_lib::{lemma_sets_eq_iff_injective_map_eq, set_int_range, lemma_int_range};
use super::goto_map::{keys_distinct, GotoMap};
use crate::grammar::{Grammar, Symbol};

verus! {

/// An item variant: how its items are ordered, where the construction of
/// item sets starts, how the dot moves, and which items an item brings into
/// a closed set.
pub trait ItemModel<T: Copy>: Sized {
    /// The grammar whose items are built.
    spec fn grammar(&self) -> &Grammar;

    /// The builder's invariant.
    spec fn valid(&self) -> bool;

    /// `item` is an item of grammar `g`.
    spec fn item_ok(g: &Grammar, item: T) -> bool;

    /// Items are ordered by rank.
    spec fn rank(item: T) -> int;

    /// The ranks of the items of `g` lie below this bound.
    spec fn rank_bound(g: &Grammar) -> int;

    /// The item that the construction starts from.
    spec fn start(g: &Grammar) -> T;

    /// The symbol right of the dot, if the item is not complete.
    spec fn dot_symbol(g: &Grammar, item: T) -> Option<Symbol>;

    /// The item with the dot moved right by one.
    spec fn advanced(item: T) -> T;

    /// A closed set that holds `from` holds `to` on account of it.
    spec fn derived(g: &Grammar, from: T, to: T) -> bool;

    /// Ranks tell items apart, and the ranks of a grammar's items are
    /// bounded.
    proof fn lemma_rank(g: &Grammar, a: T, b: T)
        ensures
            Self::rank(a) == Self::rank(b) ==> a == b,
            Self::item_ok(g, a) ==> 0 <= Self::rank(a) < Self::rank_bound(g),
    ;

    /// The start item, the item behind a moved dot, and an item brought in
    /// by an item of the grammar are items of the grammar.
    proof fn lemma_items(g: &Grammar, a: T, b: T)
        requires
            g.wf(),
        ensures
            Self::item_ok(g, Self::start(g)),
            Self::item_ok(g, a) && Self::dot_symbol(g, a) is Some ==> Self::item_ok(
                g,
                Self::advanced(a),
            ),
            Self::item_ok(g, a) && Self::derived(g, a, b) ==> Self::item_ok(g, b),
    ;

    /// The initial kernel item: the augmented start production with the dot
    /// at the start.
    fn start_item(&self) -> (item: T)
        requires
            self.valid(),
            self.grammar().wf(),
        ensures
            item == Self::start(self.grammar()),
    ;

    /// The item with the dot moved right by one.
    fn advance(&self, item: &T) -> (next: T)
        requires
            self.valid(),
            self.grammar().wf(),
            Self::item_ok(self.grammar(), *item),
            Self::dot_symbol(self.grammar(), *item) is Some,
        ensures
            next == Self::advanced(*item),
    ;

    /// The symbol right of the dot, or `None` if the item is complete.
    fn symbol_at_dot(&self, item: &T) -> (s: Option<Symbol>)
        requires
            self.valid(),
            self.grammar().wf(),
            Self::item_ok(self.grammar(), *item),
        ensures
            s == Self::dot_symbol(self.grammar(), *item),
    ;

    /// Whether `a` comes before `b` in the order of items.
    fn precedes(&self, a: &T, b: &T) -> (r: bool)
        ensures
            r == (Self::rank(*a) < Self::rank(*b)),
    ;

    /// The items that `item` brings into a closed set.
    fn expand(&self, item: &T) -> (next: Vec<T>)
        requires
            self.valid(),
            self.grammar().wf(),
            Self::item_ok(self.grammar(), *item),
        ensures
            forall|to: T| next@.contains(to) <==> Self::derived(self.grammar(), *item, to),
    ;
}

/// The sequence is strictly ascending in the order of items.
pub open spec fn ranked<T: Copy, B: ItemModel<T>>(s: Seq<T>) -> bool {
    forall|i: int, j: int| 0 <= i < j < s.len() ==> B::rank(s[i]) < B::rank(s[j])
}

/// The sequence is an item set in canonical form: items of the grammar in
/// strictly ascending order.
pub open spec fn item_set_ok<T: Copy, B: ItemModel<T>>(g: &Grammar, s: Seq<T>) -> bool {
    &&& ranked::<T, B>(s)
    &&& forall|k: int| 0 <= k < s.len() ==> B::item_ok(g, #[trigger] s[k])
}

/// `to` comes into a closed set that holds `from` in `n` steps.
pub open spec fn derives_in<T: Copy, B: ItemModel<T>>(g: &Grammar, from: T, to: T, n: nat) -> bool
    decreases n,
{
    if n == 0 {
        from == to
    } else {
        exists|mid: T| #[trigger] B::derived(g, from, mid)
            && derives_in::<T, B>(g, mid, to, (n - 1) as nat)
    }
}

/// The closure of `seed`: the least set that holds `seed` and, with an
/// item, the items that it brings in.
pub open spec fn closure_of<T: Copy, B: ItemModel<T>>(g: &Grammar, seed: Set<T>) -> Set<T> {
    Set::new(|to: T| exists|from: T, n: nat| seed.contains(from)
        && #[trigger] derives_in::<T, B>(g, from, to, n))
}

/// The items of `s` that have `x` at the dot, with the dot moved past it.
pub open spec fn goto_seed<T: Copy, B: ItemModel<T>>(g: &Grammar, s: Set<T>, x: Symbol) -> Set<T> {
    Set::new(|to: T| exists|from: T| s.contains(from)
        && #[trigger] B::dot_symbol(g, from) == Some(x) && to == B::advanced(from))
}

/// Some item of `s` has `x` at the dot.
pub open spec fn has_dot<T: Copy, B: ItemModel<T>>(g: &Grammar, s: Seq<T>, x: Symbol) -> bool {
    exists|k: int| 0 <= k < s.len() && #[trigger] B::dot_symbol(g, s[k]) == Some(x)
}

/// State `i` has a transition on exactly the symbols at the dots of its
/// items, each to the state whose item set is the closure of the items
/// behind the moved dots.
pub open spec fn state_closed<T: Copy, B: ItemModel<T>>(
    g: &Grammar,
    itemsets: Seq<Vec<T>>,
    gotos: Seq<GotoMap>,
    i: int,
) -> bool {
    forall|x: Symbol|
        #![trigger gotos[i].target(x)]
        (gotos[i].target(x) is Some <==> has_dot::<T, B>(g, itemsets[i]@, x)) && (gotos[i].target(
            x,
        ) matches Some(j) ==> j < itemsets.len() && itemsets[j as int]@.to_set() == closure_of::<
            T,
            B,
        >(g, goto_seed::<T, B>(g, itemsets[i]@.to_set(), x)))
}

/// State `t` is entered from an earlier state.
pub open spec fn entered(gotos: Seq<GotoMap>, t: int) -> bool {
    exists|s: int, x: Symbol|
        0 <= s < t && (#[trigger] gotos[s].target(x)) is Some && gotos[s].target(x).unwrap() == t
}

/// Item `k` of state `i` has a symbol at the dot on which state `i` goes to
/// state `t`.
pub open spec fn enters<T: Copy, B: ItemModel<T>>(
    g: &Grammar,
    itemsets: Seq<Vec<T>>,
    gotos: Seq<GotoMap>,
    i: int,
    k: int,
    t: int,
) -> bool {
    &&& 0 <= i < itemsets.len()
    &&& i < gotos.len()
    &&& 0 <= k < itemsets[i]@.len()
    &&& B::dot_symbol(g, itemsets[i]@[k]) is Some
    &&& gotos[i].target(B::dot_symbol(g, itemsets[i]@[k]).unwrap()) is Some
    &&& gotos[i].target(B::dot_symbol(g, itemsets[i]@[k]).unwrap()).unwrap() == t
}

/// Item `k2` of state `i2` comes before item `k` of state `i` when the
/// states are gone through in order, and the items of each in order.
pub open spec fn item_before(i2: int, k2: int, i: int, k: int) -> bool {
    i2 < i || (i2 == i && k2 < k)
}

/// Some item before item `k2` of state `i2` leads to state `t1`.
pub open spec fn found_before<T: Copy, B: ItemModel<T>>(
    g: &Grammar,
    itemsets: Seq<Vec<T>>,
    gotos: Seq<GotoMap>,
    t1: int,
    i2: int,
    k2: int,
) -> bool {
    exists|i1: int, k1: int| #[trigger]
        enters::<T, B>(g, itemsets, gotos, i1, k1, t1) && item_before(i1, k1, i2, k2)
}

/// The states are numbered in the order in which they are found: before
/// any item that leads to a state there is, for each state but the initial
/// one with a smaller number, an item that leads to that state.
pub open spec fn found_in_order<T: Copy, B: ItemModel<T>>(
    g: &Grammar,
    itemsets: Seq<Vec<T>>,
    gotos: Seq<GotoMap>,
) -> bool {
    forall|t1: int, t2: int, i2: int, k2: int|
        #![trigger enters::<T, B>(g, itemsets, gotos, i2, k2, t2), found_before::<T, B>(g, itemsets,
            gotos, t1, i2, k2)]
        1 <= t1 < t2 && enters::<T, B>(g, itemsets, gotos, i2, k2, t2) ==> found_before::<T, B>(
            g,
            itemsets,
            gotos,
            t1,
            i2,
            k2,
        )
}

/// `itemsets` with `gotos` is the canonical collection of grammar `g`:
/// state 0 is the closure of the start item, every state has its
/// transitions, no item set occurs twice, every other state is entered
/// from an earlier one, and the states are numbered in the order in which
/// they are found.
pub open spec fn canonical_collection<T: Copy, B: ItemModel<T>>(
    g: &Grammar,
    itemsets: Seq<Vec<T>>,
    gotos: Seq<GotoMap>,
) -> bool {
    &&& itemsets.len() == gotos.len()
    &&& itemsets.len() >= 1
    &&& forall|i: int| 0 <= i < itemsets.len() ==> item_set_ok::<T, B>(g, #[trigger] itemsets[i]@)
    &&& itemsets[0]@.to_set() == closure_of::<T, B>(g, Set::<T>::empty().insert(B::start(g)))
    &&& forall|i: int| 0 <= i < itemsets.len()
        ==> #[trigger] state_closed::<T, B>(g, itemsets, gotos, i)
    &&& forall|i: int, j: int|
        0 <= i < itemsets.len() && 0 <= j < itemsets.len() && i != j ==> #[trigger] itemsets[i]@
            != #[trigger] itemsets[j]@
    &&& forall|t: int| 1 <= t < itemsets.len() ==> #[trigger] entered(gotos, t)
    &&& forall|i: int| 0 <= i < gotos.len() ==> keys_distinct(#[trigger] gotos[i].entries())
    &&& found_in_order::<T, B>(g, itemsets, gotos)
}

/// A closed set holds what its items bring in.
pub proof fn lemma_closure_closed<T: Copy, B: ItemModel<T>>(g: &Grammar, seed: Set<T>, from: T,
    to: T)
    requires
        closure_of::<T, B>(g, seed).contains(from),
        B::derived(g, from, to),
    ensures
        closure_of::<T, B>(g, seed).contains(to),
{
    let (first, n) = choose|first: T, n: nat| seed.contains(first)
        && #[trigger] derives_in::<T, B>(g, first, from, n);
    lemma_derives_step::<T, B>(g, first, from, to, n);
}

/// The item set of a state of the canonical collection holds what its
/// items bring in.
pub proof fn lemma_state_closed<T: Copy, B: ItemModel<T>>(
    g: &Grammar,
    itemsets: Seq<Vec<T>>,
    gotos: Seq<GotoMap>,
    state: int,
    from: T,
    to: T,
)
    requires
        canonical_collection::<T, B>(g, itemsets, gotos),
        0 <= state < itemsets.len(),
        itemsets[state]@.to_set().contains(from),
        B::derived(g, from, to),
    ensures
        itemsets[state]@.to_set().contains(to),
{
    if state == 0 {
        lemma_closure_closed::<T, B>(g, Set::<T>::empty().insert(B::start(g)), from, to);
    } else {
        assert(entered(gotos, state));
        let (s, x) = choose|s: int, x: Symbol|
            0 <= s < state && (#[trigger] gotos[s].target(x)) is Some && gotos[s].target(x).unwrap()
                == state;
        assert(state_closed::<T, B>(g, itemsets, gotos, s));
        lemma_closure_closed::<T, B>(g, goto_seed::<T, B>(g, itemsets[s]@.to_set(), x), from, to);
    }
}

/// In the canonical collection, the items of a state reached on `x` are
/// the closure of the items of the state before that have `x` at the dot,
/// with the dot moved past it.
pub proof fn lemma_goto_member<T: Copy, B: ItemModel<T>>(
    g: &Grammar,
    itemsets: Seq<Vec<T>>,
    gotos: Seq<GotoMap>,
    state: int,
    x: Symbol,
    k: int,
)
    requires
        canonical_collection::<T, B>(g, itemsets, gotos),
        0 <= state < itemsets.len(),
        gotos[state].target(x) is Some,
        0 <= k < itemsets[gotos[state].target(x).unwrap() as int]@.len(),
    ensures
        gotos[state].target(x).unwrap() < itemsets.len(),
        closure_of::<T, B>(g, goto_seed::<T, B>(g, itemsets[state]@.to_set(), x)).contains(
            itemsets[gotos[state].target(x).unwrap() as int]@[k],
        ),
{
    assert(state_closed::<T, B>(g, itemsets, gotos, state));
    let t = gotos[state].target(x).unwrap() as int;
    let item = itemsets[t]@[k];
    assert(itemsets[t]@.contains(item));
    assert(itemsets[t]@.to_set().contains(item));
}

/// A member of the set of items behind a moved dot stems from an item of
/// the set in front of it.
pub proof fn lemma_seed_member<T: Copy, B: ItemModel<T>>(
    g: &Grammar,
    items: Seq<T>,
    x: Symbol,
    item: T,
)
    requires
        goto_seed::<T, B>(g, items.to_set(), x).contains(item),
    ensures
        exists|k: int|
            0 <= k < items.len() && B::dot_symbol(g, #[trigger] items[k]) == Some(x) && item
                == B::advanced(items[k]),
{
    let from = choose|from: T|
        items.to_set().contains(from) && #[trigger] B::dot_symbol(g, from) == Some(x) && item
            == B::advanced(from);
    assert(items.contains(from));
    let k = choose|k: int| 0 <= k < items.len() && items[k] == from;
    assert(B::dot_symbol(g, items[k]) == Some(x) && item == B::advanced(items[k]));
}

/// In the canonical collection, a state with an item that has `x` at the
/// dot has a transition on `x` to a state that holds the item with the dot
/// moved past it.
pub proof fn lemma_state_step<T: Copy, B: ItemModel<T>>(
    g: &Grammar,
    itemsets: Seq<Vec<T>>,
    gotos: Seq<GotoMap>,
    state: int,
    item: T,
    x: Symbol,
)
    requires
        canonical_collection::<T, B>(g, itemsets, gotos),
        0 <= state < itemsets.len(),
        itemsets[state]@.to_set().contains(item),
        B::dot_symbol(g, item) == Some(x),
    ensures
        gotos[state].target(x) is Some,
        gotos[state].target(x).unwrap() < itemsets.len(),
        itemsets[gotos[state].target(x).unwrap() as int]@.to_set().contains(B::advanced(item)),
{
    assert(state_closed::<T, B>(g, itemsets, gotos, state));
    assert(itemsets[state]@.contains(item));
    let k = choose|k: int| 0 <= k < itemsets[state]@.len() && itemsets[state]@[k] == item;
    assert(B::dot_symbol(g, itemsets[state]@[k]) == Some(x));
    assert(has_dot::<T, B>(g, itemsets[state]@, x));
    let moved = B::advanced(item);
    assert(goto_seed::<T, B>(g, itemsets[state]@.to_set(), x).contains(moved));
    assert(derives_in::<T, B>(g, moved, moved, 0));
}

/// A step at the end of a chain.
pub proof fn lemma_derives_step<T: Copy, B: ItemModel<T>>(g: &Grammar, a: T, b: T, c: T, n: nat)
    requires
        derives_in::<T, B>(g, a, b, n),
        B::derived(g, b, c),
    ensures
        derives_in::<T, B>(g, a, c, n + 1),
    decreases n,
{
    if n == 0 {
        assert(derives_in::<T, B>(g, c, c, 0));
        assert(B::derived(g, a, c) && derives_in::<T, B>(g, c, c, 0));
    } else {
        let mid = choose|mid: T| #[trigger] B::derived(g, a, mid)
            && derives_in::<T, B>(g, mid, b, (n - 1) as nat);
        lemma_derives_step::<T, B>(g, mid, b, c, (n - 1) as nat);
        assert(B::derived(g, a, mid) && derives_in::<T, B>(g, mid, c, n));
    }
}

/// A chain of at least one step ends in a step.
pub proof fn lemma_last_step<T: Copy, B: ItemModel<T>>(g: &Grammar, a: T, b: T, n: nat)
    requires
        derives_in::<T, B>(g, a, b, n),
        n >= 1,
    ensures
        exists|m: T| derives_in::<T, B>(g, a, m, (n - 1) as nat) && #[trigger] B::derived(g, m, b),
    decreases n,
{
    let mid = choose|mid: T| #[trigger] B::derived(g, a, mid)
        && derives_in::<T, B>(g, mid, b, (n - 1) as nat);
    if n == 1 {
        assert(derives_in::<T, B>(g, a, a, 0));
        assert(derives_in::<T, B>(g, a, a, 0) && B::derived(g, a, b));
    } else {
        lemma_last_step::<T, B>(g, mid, b, (n - 1) as nat);
        let m = choose|m: T| derives_in::<T, B>(g, mid, m, (n - 2) as nat)
            && #[trigger] B::derived(g, m, b);
        assert(B::derived(g, a, mid) && derives_in::<T, B>(g, mid, m, (n - 2) as nat));
        assert(derives_in::<T, B>(g, a, m, (n - 1) as nat));
        assert(derives_in::<T, B>(g, a, m, (n - 1) as nat) && B::derived(g, m, b));
    }
}

/// An item of a closed set that is none of the items the set was closed
/// from was brought in by an item of the set.
pub proof fn lemma_brought_in<T: Copy, B: ItemModel<T>>(g: &Grammar, seed: Set<T>, item: T)
    requires
        closure_of::<T, B>(g, seed).contains(item),
        !seed.contains(item),
    ensures
        exists|m: T| closure_of::<T, B>(g, seed).contains(m) && #[trigger] B::derived(g, m, item),
{
    let (from, n) = choose|from: T, n: nat| seed.contains(from)
        && #[trigger] derives_in::<T, B>(g, from, item, n);
    lemma_last_step::<T, B>(g, from, item, n);
    let m = choose|m: T| derives_in::<T, B>(g, from, m, (n - 1) as nat)
        && #[trigger] B::derived(g, m, item);
    assert(closure_of::<T, B>(g, seed).contains(m) && B::derived(g, m, item));
}

/// The item set of a state of the canonical collection is a closure: of
/// the start item for the initial state, of the items behind a moved dot
/// for a state entered from another.
pub proof fn lemma_state_seed<T: Copy, B: ItemModel<T>>(
    g: &Grammar,
    itemsets: Seq<Vec<T>>,
    gotos: Seq<GotoMap>,
    state: int,
)
    requires
        canonical_collection::<T, B>(g, itemsets, gotos),
        0 <= state < itemsets.len(),
    ensures
        state == 0 ==> itemsets[state]@.to_set() == closure_of::<T, B>(
            g,
            Set::<T>::empty().insert(B::start(g)),
        ),
        state != 0 ==> exists|s: int, x: Symbol|
            0 <= s < itemsets.len() && (#[trigger] gotos[s].target(x)) is Some
                && itemsets[state]@.to_set() == closure_of::<T, B>(
                g,
                goto_seed::<T, B>(g, itemsets[s]@.to_set(), x),
            ),
{
    if state != 0 {
        assert(entered(gotos, state));
        let (s, x) = choose|s: int, x: Symbol|
            0 <= s < state && (#[trigger] gotos[s].target(x)) is Some && gotos[s].target(x).unwrap()
                == state;
        assert(state_closed::<T, B>(g, itemsets, gotos, s));
    }
}

/// In the canonical collection, a state reached by a transition holds an
/// item behind a moved dot.
pub proof fn lemma_target_kernel<T: Copy, B: ItemModel<T>>(
    g: &Grammar,
    itemsets: Seq<Vec<T>>,
    gotos: Seq<GotoMap>,
    state: int,
    x: Symbol,
)
    requires
        canonical_collection::<T, B>(g, itemsets, gotos),
        0 <= state < itemsets.len(),
        gotos[state].target(x) is Some,
    ensures
        gotos[state].target(x).unwrap() < itemsets.len(),
        exists|from: T, k: int|
            #![trigger itemsets[gotos[state].target(x).unwrap() as int]@[k], B::advanced(from)]
            B::item_ok(g, from) && B::dot_symbol(g, from) is Some && 0 <= k
                < itemsets[gotos[state].target(x).unwrap() as int]@.len()
                && itemsets[gotos[state].target(x).unwrap() as int]@[k] == B::advanced(from),
{
    assert(state_closed::<T, B>(g, itemsets, gotos, state));
    assert(has_dot::<T, B>(g, itemsets[state]@, x));
    let j = choose|j: int| 0 <= j < itemsets[state]@.len()
        && #[trigger] B::dot_symbol(g, itemsets[state]@[j]) == Some(x);
    let from = itemsets[state]@[j];
    assert(item_set_ok::<T, B>(g, itemsets[state]@));
    assert(B::item_ok(g, itemsets[state]@[j]));
    assert(itemsets[state]@.contains(from));
    lemma_state_step::<T, B>(g, itemsets, gotos, state, from, x);
    let t = gotos[state].target(x).unwrap() as int;
    assert(itemsets[t]@.contains(B::advanced(from)));
    let k = choose|k: int| 0 <= k < itemsets[t]@.len() && itemsets[t]@[k] == B::advanced(from);
    assert(itemsets[t]@[k] == B::advanced(from));
}

/// In the canonical collection, an item of a state that is neither the
/// start item of the initial state nor an item behind a moved dot was
/// brought in by an item of the state.
pub proof fn lemma_fresh_item<T: Copy, B: ItemModel<T>>(
    g: &Grammar,
    itemsets: Seq<Vec<T>>,
    gotos: Seq<GotoMap>,
    state: int,
    item: T,
)
    requires
        canonical_collection::<T, B>(g, itemsets, gotos),
        0 <= state < itemsets.len(),
        itemsets[state]@.to_set().contains(item),
        state == 0 ==> item != B::start(g),
        forall|from: T|
            B::item_ok(g, from) && B::dot_symbol(g, from) is Some
                ==> item != #[trigger] B::advanced(
                from,
            ),
    ensures
        exists|m: T| itemsets[state]@.to_set().contains(m) && #[trigger] B::derived(g, m, item),
{
    lemma_state_seed::<T, B>(g, itemsets, gotos, state);
    if state == 0 {
        let seed = Set::<T>::empty().insert(B::start(g));
        lemma_brought_in::<T, B>(g, seed, item);
    } else {
        let (s, x) = choose|s: int, x: Symbol|
            0 <= s < itemsets.len() && (#[trigger] gotos[s].target(x)) is Some
                && itemsets[state]@.to_set() == closure_of::<T, B>(
                g,
                goto_seed::<T, B>(g, itemsets[s]@.to_set(), x),
            );
        let seed = goto_seed::<T, B>(g, itemsets[s]@.to_set(), x);
        if seed.contains(item) {
            lemma_seed_member::<T, B>(g, itemsets[s]@, x, item);
            let k = choose|k: int|
                0 <= k < itemsets[s]@.len()
                    && B::dot_symbol(g, #[trigger] itemsets[s]@[k]) == Some(x)
                    && item == B::advanced(itemsets[s]@[k]);
            assert(item_set_ok::<T, B>(g, itemsets[s]@));
            assert(B::item_ok(g, itemsets[s]@[k]));
        }
        lemma_brought_in::<T, B>(g, seed, item);
    }
}

/// Chains compose.
pub proof fn lemma_derives_trans<T: Copy, B: ItemModel<T>>(
    g: &Grammar,
    a: T,
    b: T,
    c: T,
    n: nat,
    m: nat,
)
    requires
        derives_in::<T, B>(g, a, b, n),
        derives_in::<T, B>(g, b, c, m),
    ensures
        derives_in::<T, B>(g, a, c, n + m),
    decreases n,
{
    if n != 0 {
        let mid = choose|mid: T| #[trigger] B::derived(g, a, mid)
            && derives_in::<T, B>(g, mid, b, (n - 1) as nat);
        lemma_derives_trans::<T, B>(g, mid, b, c, (n - 1) as nat, m);
        assert(B::derived(g, a, mid) && derives_in::<T, B>(g, mid, c, ((n + m) - 1) as nat));
    }
}

/// Closing a closed set adds nothing: `closure(closure(S)) = closure(S)`.
pub proof fn lemma_closure_idempotent<T: Copy, B: ItemModel<T>>(g: &Grammar, seed: Set<T>)
    ensures
        closure_of::<T, B>(g, closure_of::<T, B>(g, seed)) == closure_of::<T, B>(g, seed),
{
    let once = closure_of::<T, B>(g, seed);
    let twice = closure_of::<T, B>(g, once);
    assert forall|to: T| twice.contains(to) <==> once.contains(to) by {
        if twice.contains(to) {
            let (mid, m) = choose|from: T, n: nat| once.contains(from)
                && #[trigger] derives_in::<T, B>(g, from, to, n);
            let (from, n) = choose|from: T, n: nat| seed.contains(from)
                && #[trigger] derives_in::<T, B>(g, from, mid, n);
            lemma_derives_trans::<T, B>(g, from, mid, to, n, m);
        }
        if once.contains(to) {
            assert(derives_in::<T, B>(g, to, to, 0));
        }
    }
    assert(twice =~= once);
}

/// A set that holds what its items bring in holds every chain that starts
/// in it.
proof fn lemma_closed_holds<T: Copy, B: ItemModel<T>>(g: &Grammar, s: Set<T>, a: T, b: T, n: nat)
    requires
        forall|from: T, to: T| s.contains(from) && #[trigger] B::derived(g, from, to)
            ==> s.contains(to),
        s.contains(a),
        derives_in::<T, B>(g, a, b, n),
    ensures
        s.contains(b),
    decreases n,
{
    if n != 0 {
        let mid = choose|mid: T| #[trigger] B::derived(g, a, mid)
            && derives_in::<T, B>(g, mid, b, (n - 1) as nat);
        lemma_closed_holds::<T, B>(g, s, mid, b, (n - 1) as nat);
    }
}

/// The rank of the entry at position `i` of an ascending sequence of items
/// of the grammar is at least `i`.
proof fn lemma_rank_floor<T: Copy, B: ItemModel<T>>(g: &Grammar, s: Seq<T>, i: int)
    requires
        item_set_ok::<T, B>(g, s),
        0 <= i < s.len(),
    ensures
        B::rank(s[i]) >= i,
    decreases i,
{
    if i > 0 {
        lemma_rank_floor::<T, B>(g, s, i - 1);
        assert(B::rank(s[i - 1]) < B::rank(s[i]));
    } else {
        B::lemma_rank(g, s[0], s[0]);
    }
}

/// An item set has no more items than the grammar has ranks.
pub proof fn lemma_ranked_len<T: Copy, B: ItemModel<T>>(g: &Grammar, s: Seq<T>)
    requires
        item_set_ok::<T, B>(g, s),
    ensures
        s.len() <= B::rank_bound(g) || s.len() == 0,
{
    if s.len() > 0 {
        lemma_rank_floor::<T, B>(g, s, s.len() - 1);
        B::lemma_rank(g, s[s.len() - 1], s[s.len() - 1]);
    }
}

/// Two ascending sequences with the same members are the same sequence.
pub proof fn lemma_ranked_unique<T: Copy, B: ItemModel<T>>(g: &Grammar, s1: Seq<T>, s2: Seq<T>)
    requires
        ranked::<T, B>(s1),
        ranked::<T, B>(s2),
        s1.to_set() == s2.to_set(),
    ensures
        s1 == s2,
    decreases s1.len(),
{
    if s1.len() == 0 {
        if s2.len() > 0 {
            assert(s2.contains(s2[0]));
            assert(s2.to_set().contains(s2[0]));
            assert(s1.contains(s2[0]));
        }
        assert(s1 =~= s2);
    } else if s2.len() == 0 {
        assert(s1.contains(s1[0]));
        assert(s1.to_set().contains(s1[0]));
        assert(s2.contains(s1[0]));
    } else {
        let x = s1.last();
        let y = s2.last();
        // The last entries are the members of greatest rank.
        assert(s1.contains(x));
        assert(s1.to_set().contains(x));
        assert(s2.contains(x));
        let kx = choose|k: int| 0 <= k < s2.len() && s2[k] == x;
        assert(s2.contains(y));
        assert(s2.to_set().contains(y));
        assert(s1.contains(y));
        let ky = choose|k: int| 0 <= k < s1.len() && s1[k] == y;
        if kx < s2.len() - 1 {
            assert(B::rank(s2[kx]) < B::rank(s2[s2.len() - 1]));
        }
        if ky < s1.len() - 1 {
            assert(B::rank(s1[ky]) < B::rank(s1[s1.len() - 1]));
        }
        B::lemma_rank(g, x, y);
        assert(x == y);
        let t1 = s1.drop_last();
        let t2 = s2.drop_last();
        assert forall|e: T| t1.to_set().contains(e) <==> t2.to_set().contains(e) by {
            if t1.contains(e) {
                let k = choose|k: int| 0 <= k < t1.len() && t1[k] == e;
                assert(s1[k] == e);
                assert(B::rank(s1[k]) < B::rank(s1[s1.len() - 1]));
                assert(s1.contains(e));
                assert(s1.to_set().contains(e));
                assert(s2.contains(e));
                let k2 = choose|k: int| 0 <= k < s2.len() && s2[k] == e;
                assert(k2 < s2.len() - 1);
                assert(t2[k2] == e);
            }
            if t2.contains(e) {
                let k = choose|k: int| 0 <= k < t2.len() && t2[k] == e;
                assert(s2[k] == e);
                assert(B::rank(s2[k]) < B::rank(s2[s2.len() - 1]));
                assert(s2.contains(e));
                assert(s2.to_set().contains(e));
                assert(s1.contains(e));
                let k1 = choose|k: int| 0 <= k < s1.len() && s1[k] == e;
                assert(k1 < s1.len() - 1);
                assert(t1[k1] == e);
            }
        }
        assert(t1.to_set() =~= t2.to_set());
        lemma_ranked_unique::<T, B>(g, t1, t2);
        assert(s1 =~= t1.push(x));
        assert(s2 =~= t2.push(y));
    }
}

/// Adds `item` to an ascending sequence of items; tells whether it was
/// new.
pub fn insert_ranked<T: Copy, B: ItemModel<T>>(builder: &B, set: &mut Vec<T>, item: T) -> (added:
    bool)
    requires
        ranked::<T, B>(old(set)@),
    ensures
        ranked::<T, B>(final(set)@),
        final(set)@.to_set() == old(set)@.to_set().insert(item),
        added == !old(set)@.to_set().contains(item),
        final(set)@.len() == old(set)@.len() + if added {
            1int
        } else {
            0int
        },
        forall|k: int|
            0 <= k < final(set)@.len() ==> old(set)@.contains(#[trigger] final(set)@[k])
                || final(set)@[k] == item,
{
    let mut i: usize = 0;
    while i < set.len() && builder.precedes(&set[i], &item)
        invariant
            *set == *old(set),
            ranked::<T, B>(set@),
            i <= set@.len(),
            forall|k: int| 0 <= k < i ==> B::rank(set@[k]) < B::rank(item),
        decreases set@.len() - i,
    {
        i = i + 1;
    }
    let ghost before = set@;
    let found = i < set.len() && !builder.precedes(&item, &set[i]);
    if found {
        proof {
            B::lemma_rank(builder.grammar(), before[i as int], item);
            assert(before.contains(item));
            assert(before.to_set() =~= before.to_set().insert(item));
        }
        false
    } else {
        proof {
            if before.contains(item) {
                let k = choose|k: int| 0 <= k < before.len() && before[k] == item;
                if k > i {
                    assert(B::rank(before[i as int]) < B::rank(before[k]));
                }
            }
        }
        set.insert(i, item);
        proof {
            let after = set@;
            assert(after == before.insert(i as int, item));
            assert forall|a: int, b: int| 0 <= a < b < after.len() implies B::rank(after[a])
                < B::rank(after[b]) by {
                let a0 = if a < i { a } else { a - 1 };
                let b0 = if b < i { b } else { b - 1 };
                if a != i && b != i {
                    assert(B::rank(before[a0]) < B::rank(before[b0]));
                }
            }
            assert forall|e: T| after.to_set().contains(e) <==> before.to_set().insert(
                item,
            ).contains(e) by {
                if after.contains(e) {
                    let k = choose|k: int| 0 <= k < after.len() && after[k] == e;
                    if k < i {
                        assert(before[k] == e);
                    } else if k > i {
                        assert(before[k - 1] == e);
                    }
                }
                if before.contains(e) {
                    let k = choose|k: int| 0 <= k < before.len() && before[k] == e;
                    if k < i {
                        assert(after[k] == e);
                    } else {
                        assert(after[k + 1] == e);
                    }
                }
                if e == item {
                    assert(after[i as int] == e);
                }
            }
            assert(after.to_set() =~= before.to_set().insert(item));
            assert forall|k: int| 0 <= k < after.len() implies before.contains(
                #[trigger] after[k],
            ) || after[k] == item by {
                if k < i {
                    assert(before[k] == after[k]);
                } else if k > i {
                    assert(before[k - 1] == after[k]);
                }
            }
        }
        true
    }
}

/// The closure of `items` under what items bring in, in canonical form.
pub fn close_items<T: Copy, B: ItemModel<T>>(builder: &B, items: &Vec<T>) -> (closed: Vec<T>)
    requires
        builder.valid(),
        builder.grammar().wf(),
        forall|k: int| 0 <= k < items@.len()
            ==> B::item_ok(builder.grammar(), #[trigger] items@[k]),
    ensures
        item_set_ok::<T, B>(builder.grammar(), closed@),
        closed@.to_set() == closure_of::<T, B>(builder.grammar(), items@.to_set()),
{
    let ghost g = builder.grammar();
    let ghost seed = items@.to_set();
    let ghost goal = closure_of::<T, B>(g, seed);
    let mut result: Vec<T> = Vec::new();
    let mut work: Vec<T> = Vec::new();
    let mut i: usize = 0;
    while i < items.len()
        invariant
            g == builder.grammar(),
            g.wf(),
            seed == items@.to_set(),
            goal == closure_of::<T, B>(g, seed),
            forall|k: int| 0 <= k < items@.len() ==> B::item_ok(g, #[trigger] items@[k]),
            i <= items@.len(),
            item_set_ok::<T, B>(g, result@),
            work@.len() == result@.len(),
            work@.to_set() == result@.to_set(),
            forall|k: int| 0 <= k < work@.len() ==> goal.contains(#[trigger] work@[k]),
            forall|k: int| 0 <= k < i ==> result@.to_set().contains(#[trigger] items@[k]),
        decreases items@.len() - i,
    {
        let item = items[i];
        let ghost work0 = work@;
        let ghost result0 = result@;
        let added = insert_ranked(builder, &mut result, item);
        if added {
            work.push(item);
        }
        proof {
            assert(items@.contains(item));
            assert(derives_in::<T, B>(g, item, item, 0));
            lemma_pushed_set(work0, item, added, work@);
            assert forall|k: int| 0 <= k < result@.len() implies B::item_ok(g,
                #[trigger] result@[k]) by {
                if result@[k] != item {
                    let j = choose|j: int| 0 <= j < result0.len() && result0[j] == result@[k];
                }
            }
        }
        i = i + 1;
    }
    let mut k: usize = 0;
    while k < work.len()
        invariant
            builder.valid(),
            g == builder.grammar(),
            g.wf(),
            seed == items@.to_set(),
            goal == closure_of::<T, B>(g, seed),
            item_set_ok::<T, B>(g, result@),
            work@.len() == result@.len(),
            work@.to_set() == result@.to_set(),
            k <= work@.len(),
            forall|j: int| 0 <= j < work@.len() ==> goal.contains(#[trigger] work@[j]),
            forall|j: int| 0 <= j < items@.len()
                ==> result@.to_set().contains(#[trigger] items@[j]),
            forall|j: int, to: T|
                0 <= j < k && #[trigger] B::derived(g, work@[j], to)
                    ==> result@.to_set().contains(to),
        decreases B::rank_bound(g) - k,
    {
        let item = work[k];
        proof {
            assert(work@.contains(item));
            assert(work@.to_set().contains(item));
            assert(result@.contains(item));
            let j = choose|j: int| 0 <= j < result@.len() && result@[j] == item;
            assert(B::item_ok(g, result@[j]));
            lemma_ranked_len::<T, B>(g, result@);
        }
        let next = builder.expand(&item);
        let mut m: usize = 0;
        while m < next.len()
            invariant
                g == builder.grammar(),
                g.wf(),
                goal == closure_of::<T, B>(g, seed),
                item_set_ok::<T, B>(g, result@),
                work@.len() == result@.len(),
                work@.to_set() == result@.to_set(),
                k < work@.len(),
                item == work@[k as int],
                B::item_ok(g, item),
                goal.contains(item),
                forall|to: T| next@.contains(to) <==> B::derived(g, item, to),
                m <= next@.len(),
                forall|j: int| 0 <= j < work@.len() ==> goal.contains(#[trigger] work@[j]),
                forall|j: int| 0 <= j < items@.len()
                    ==> result@.to_set().contains(#[trigger] items@[j]),
                forall|j: int, to: T|
                    0 <= j < k && #[trigger] B::derived(g, work@[j], to)
                        ==> result@.to_set().contains(
                        to,
                    ),
                forall|j: int| 0 <= j < m ==> result@.to_set().contains(#[trigger] next@[j]),
            decreases next@.len() - m,
        {
            let to = next[m];
            let ghost work0 = work@;
            let ghost result0 = result@;
            let added = insert_ranked(builder, &mut result, to);
            if added {
                work.push(to);
            }
            proof {
                assert(next@.contains(to));
                B::lemma_items(g, item, to);
                let (from, n) = choose|from: T, n: nat| seed.contains(from)
                    && #[trigger] derives_in::<T, B>(g, from, item, n);
                lemma_derives_step::<T, B>(g, from, item, to, n);
                assert(goal.contains(to));
                lemma_pushed_set(work0, to, added, work@);
                assert forall|j: int| 0 <= j < result@.len() implies B::item_ok(g,
                    #[trigger] result@[j]) by {
                    if result@[j] != to {
                        let j0 = choose|j0: int| 0 <= j0 < result0.len()
                            && result0[j0] == result@[j];
                    }
                }
                assert forall|j: int| 0 <= j < work@.len() implies goal.contains(#[trigger] work@[j]) by {
                    if j < work0.len() {
                        assert(work@[j] == work0[j]);
                    }
                }
                assert forall|j: int, t2: T|
                    0 <= j < k && #[trigger] B::derived(g, work@[j],
                        t2) implies result@.to_set().contains(
                    t2,
                ) by {
                    assert(work@[j] == work0[j]);
                    assert(result0.to_set().contains(t2));
                }
                assert forall|j: int| 0 <= j < items@.len() implies result@.to_set().contains(
                    #[trigger] items@[j],
                ) by {
                    assert(result0.to_set().contains(items@[j]));
                }
                assert forall|j: int| 0 <= j < m + 1 implies result@.to_set().contains(
                    #[trigger] next@[j],
                ) by {
                    if j < m {
                        assert(result0.to_set().contains(next@[j]));
                    }
                }
            }
            m = m + 1;
        }
        proof {
            assert forall|j: int, to: T|
                0 <= j < k + 1
                    && #[trigger] B::derived(g, work@[j], to) implies result@.to_set().contains(
                to,
            ) by {
                if j == k {
                    assert(next@.contains(to));
                    let m0 = choose|m0: int| 0 <= m0 < next@.len() && next@[m0] == to;
                    assert(result@.to_set().contains(next@[m0]));
                }
            }
        }
        k = k + 1;
    }
    proof {
        let s = result@.to_set();
        assert forall|from: T, to: T| s.contains(from)
            && #[trigger] B::derived(g, from, to) implies s.contains(
            to,
        ) by {
            assert(work@.contains(from));
            let j = choose|j: int| 0 <= j < work@.len() && work@[j] == from;
            assert(B::derived(g, work@[j], to));
        }
        assert forall|to: T| s.contains(to) <==> goal.contains(to) by {
            if s.contains(to) {
                assert(work@.contains(to));
                let j = choose|j: int| 0 <= j < work@.len() && work@[j] == to;
                assert(goal.contains(work@[j]));
            }
            if goal.contains(to) {
                let (from, n) = choose|from: T, n: nat| seed.contains(from)
                    && #[trigger] derives_in::<T, B>(g, from, to, n);
                assert(items@.contains(from));
                let j = choose|j: int| 0 <= j < items@.len() && items@[j] == from;
                assert(s.contains(items@[j]));
                lemma_closed_holds::<T, B>(g, s, from, to, n);
            }
        }
        assert(s =~= goal);
    }
    result
}

/// The members of a sequence to which an item was pushed if it was new.
proof fn lemma_pushed_set<T>(before: Seq<T>, item: T, added: bool, after: Seq<T>)
    requires
        after == if added {
            before.push(item)
        } else {
            before
        },
        added == !before.to_set().contains(item),
    ensures
        after.to_set() == before.to_set().insert(item),
{
    assert forall|e: T| after.to_set().contains(e)
        <==> before.to_set().insert(item).contains(e) by {
        if after.contains(e) {
            let k = choose|k: int| 0 <= k < after.len() && after[k] == e;
            if k < before.len() {
                assert(before[k] == e);
            }
        }
        if before.contains(e) {
            let k = choose|k: int| 0 <= k < before.len() && before[k] == e;
            assert(after[k] == e);
        }
        if e == item && added {
            assert(after[before.len() as int] == e);
        }
    }
    assert(after.to_set() =~= before.to_set().insert(item));
}

/// Whether two ascending sequences hold the same items.
pub fn same_items<T: Copy, B: ItemModel<T>>(builder: &B, x: &Vec<T>, y: &Vec<T>) -> (r: bool)
    ensures
        r == (x@ == y@),
{
    if x.len() != y.len() {
        return false;
    }
    let mut i: usize = 0;
    while i < x.len()
        invariant
            x@.len() == y@.len(),
            i <= x@.len(),
            forall|k: int| 0 <= k < i ==> x@[k] == y@[k],
        decreases x@.len() - i,
    {
        if builder.precedes(&x[i], &y[i]) || builder.precedes(&y[i], &x[i]) {
            return false;
        }
        proof {
            B::lemma_rank(builder.grammar(), x@[i as int], y@[i as int]);
        }
        i = i + 1;
    }
    proof {
        assert(x@ =~= y@);
    }
    true
}

/// The index of the item set equal to `wanted`, if there is one.
pub fn find_item_set<T: Copy, B: ItemModel<T>>(
    builder: &B,
    itemsets: &Vec<Vec<T>>,
    wanted: &Vec<T>,
) -> (r: Option<usize>)
    ensures
        r matches Some(j) ==> j < itemsets@.len() && itemsets@[j as int]@ == wanted@,
        r is None ==> forall|j: int| 0 <= j < itemsets@.len()
            ==> (#[trigger] itemsets@[j])@ != wanted@,
{
    let mut j: usize = 0;
    while j < itemsets.len()
        invariant
            j <= itemsets@.len(),
            forall|k: int| 0 <= k < j ==> (#[trigger] itemsets@[k])@ != wanted@,
        decreases itemsets@.len() - j,
    {
        if same_items(builder, &itemsets[j], wanted) {
            return Some(j);
        }
        j = j + 1;
    }
    None
}

/// The ranks of the items of a sequence.
pub open spec fn rank_set<T: Copy, B: ItemModel<T>>(s: Seq<T>) -> Set<int> {
    s.to_set().map(|t: T| B::rank(t))
}

/// The sets of numbers below `r`.
spec fn subsets_below(r: int) -> Set<Set<int>> {
    Set::new(|s: Set<int>| s.subset_of(set_int_range(0, r)))
}

proof fn lemma_subsets_finite(r: int)
    requires
        r >= 0,
    ensures
        subsets_below(r).finite(),
    decreases r,
{
    if r == 0 {
        let only = Set::<Set<int>>::empty().insert(Set::<int>::empty());
        assert forall|s: Set<int>| subsets_below(0).contains(s) <==> only.contains(s) by {
            if subsets_below(0).contains(s) {
                assert(s =~= Set::<int>::empty());
            }
        }
        assert(subsets_below(0) =~= only);
    } else {
        lemma_subsets_finite(r - 1);
        let prev = subsets_below(r - 1);
        let f = |s: Set<int>| s.insert(r - 1);
        prev.lemma_map_finite(f);
        let both = prev.union(prev.map(f));
        assert forall|s: Set<int>| subsets_below(r).contains(s) <==> both.contains(s) by {
            if subsets_below(r).contains(s) {
                if s.contains(r - 1) {
                    let s0 = s.remove(r - 1);
                    assert(s0.subset_of(set_int_range(0, r - 1)));
                    assert(prev.contains(s0));
                    assert(f(s0) =~= s);
                    assert(prev.map(f).contains(s));
                } else {
                    assert(s.subset_of(set_int_range(0, r - 1)));
                }
            }
            if prev.map(f).contains(s) {
                let s0 = choose|s0: Set<int>| prev.contains(s0) && s == f(s0);
                assert(s.subset_of(set_int_range(0, r)));
            }
            if prev.contains(s) {
                assert(s.subset_of(set_int_range(0, r)));
            }
        }
        assert(subsets_below(r) =~= both);
    }
}

/// The rank sets of the item sets found so far.
spec fn seen_sets<T: Copy, B: ItemModel<T>>(itemsets: Seq<Vec<T>>) -> Set<Set<int>> {
    Set::new(|r: Set<int>| exists|j: int| 0 <= j < itemsets.len()
        && #[trigger] rank_set::<T, B>(itemsets[j]@) == r)
}

/// How many sets of ranks no item set found so far has.
spec fn sets_left<T: Copy, B: ItemModel<T>>(g: &Grammar, itemsets: Seq<Vec<T>>) -> nat {
    subsets_below(B::rank_bound(g)).difference(seen_sets::<T, B>(itemsets)).len()
}

/// An item set that differs from all found so far leaves fewer sets of
/// ranks unused.
proof fn lemma_new_set<T: Copy, B: ItemModel<T>>(g: &Grammar, itemsets: Seq<Vec<T>>, fresh: Vec<T>)
    requires
        forall|i: int| 0 <= i < itemsets.len() ==> item_set_ok::<T, B>(g, #[trigger] itemsets[i]@),
        item_set_ok::<T, B>(g, fresh@),
        forall|j: int| 0 <= j < itemsets.len() ==> (#[trigger] itemsets[j])@ != fresh@,
    ensures
        sets_left::<T, B>(g, itemsets.push(fresh)) < sets_left::<T, B>(g, itemsets),
{
    let f = |t: T| B::rank(t);
    let bound = B::rank_bound(g);
    let all = subsets_below(bound);
    let seen = seen_sets::<T, B>(itemsets);
    let r = rank_set::<T, B>(fresh@);
    assert(injective(f)) by {
        assert forall|a: T, b: T| #[trigger] f(a) == #[trigger] f(b) implies a == b by {
            B::lemma_rank(g, a, b);
        }
    }
    if fresh@.len() > 0 {
        B::lemma_rank(g, fresh@[0], fresh@[0]);
    }
    if bound >= 0 {
        lemma_subsets_finite(bound);
    } else {
        assert(all =~= Set::<Set<int>>::empty().insert(Set::<int>::empty())) by {
            assert forall|s: Set<int>| all.contains(s) <==> s == Set::<int>::empty() by {
                if all.contains(s) {
                    assert(s =~= Set::<int>::empty());
                }
            }
        }
    }
    assert(all.contains(r)) by {
        assert forall|x: int| r.contains(x) implies set_int_range(0, bound).contains(x) by {
            let t = choose|t: T| fresh@.to_set().contains(t) && x == f(t);
            assert(fresh@.contains(t));
            let k = choose|k: int| 0 <= k < fresh@.len() && fresh@[k] == t;
            B::lemma_rank(g, fresh@[k], fresh@[k]);
        }
    }
    assert(!seen.contains(r)) by {
        if seen.contains(r) {
            let j = choose|j: int| 0 <= j < itemsets.len()
                && #[trigger] rank_set::<T, B>(itemsets[j]@) == r;
            lemma_sets_eq_iff_injective_map_eq(itemsets[j]@.to_set(), fresh@.to_set(), f);
            lemma_ranked_unique::<T, B>(g, itemsets[j]@, fresh@);
        }
    }
    let after = itemsets.push(fresh);
    assert(seen_sets::<T, B>(after) =~= seen.insert(r)) by {
        assert forall|s: Set<int>| seen_sets::<T, B>(after).contains(s)
            <==> seen.insert(r).contains(s) by {
            if seen_sets::<T, B>(after).contains(s) {
                let j = choose|j: int| 0 <= j < after.len()
                    && #[trigger] rank_set::<T, B>(after[j]@) == s;
                if j < itemsets.len() {
                    assert(rank_set::<T, B>(itemsets[j]@) == s);
                }
            }
            if seen.contains(s) {
                let j = choose|j: int| 0 <= j < itemsets.len()
                    && #[trigger] rank_set::<T, B>(itemsets[j]@) == s;
                assert(rank_set::<T, B>(after[j]@) == s);
            }
            if s == r {
                assert(rank_set::<T, B>(after[itemsets.len() as int]@) == s);
            }
        }
    }
    all.lemma_set_insert_diff_decreases(seen, r);
}

/// What holds of the state being worked on: each transition added so far
/// is on a symbol at a dot and leads to the right item set.
spec fn row_sound<T: Copy, B: ItemModel<T>>(
    g: &Grammar,
    itemsets: Seq<Vec<T>>,
    gotos: Seq<GotoMap>,
    i: int,
) -> bool {
    forall|x: Symbol|
        #![trigger gotos[i].target(x)]
        gotos[i].target(x) matches Some(j) ==> has_dot::<T, B>(g, itemsets[i]@, x) && j
            < itemsets.len() && itemsets[j as int]@.to_set() == closure_of::<T, B>(
            g,
            goto_seed::<T, B>(g, itemsets[i]@.to_set(), x),
        )
}

/// Up to item `k` of state `i`, the states are numbered in the order in
/// which they were found: `first` gives, for each state but the initial
/// one, the item that led to it first.
spec fn ordered<T: Copy, B: ItemModel<T>>(
    g: &Grammar,
    itemsets: Seq<Vec<T>>,
    gotos: Seq<GotoMap>,
    first: Seq<(int, int)>,
    i: int,
    k: int,
) -> bool {
    &&& first.len() == itemsets.len()
    &&& forall|t: int|
        1 <= t < itemsets.len() ==> #[trigger] enters::<T, B>(
            g,
            itemsets,
            gotos,
            first[t].0,
            first[t].1,
            t,
        ) && item_before(first[t].0, first[t].1, i, k)
    &&& forall|t1: int, t2: int|
        1 <= t1 < t2 < itemsets.len() ==> item_before(
            (#[trigger] first[t1]).0,
            first[t1].1,
            (#[trigger] first[t2]).0,
            first[t2].1,
        )
    &&& forall|i2: int, k2: int, t: int| #[trigger]
        enters::<T, B>(g, itemsets, gotos, i2, k2, t) && item_before(i2, k2, i, k) ==> t
            < itemsets.len() && (1 <= t ==> !item_before(i2, k2, first[t].0, first[t].1))
}

/// The transitions of state `i` are on symbols at the dots of its first
/// `k` items.
spec fn row_known<T: Copy, B: ItemModel<T>>(
    g: &Grammar,
    itemsets: Seq<Vec<T>>,
    gotos: Seq<GotoMap>,
    i: int,
    k: int,
) -> bool {
    forall|y: Symbol|
        (#[trigger] gotos[i].target(y)) is Some ==> exists|k0: int|
            0 <= k0 < k && #[trigger] B::dot_symbol(g, itemsets[i]@[k0]) == Some(y)
}

/// The order of finding holds on when item `k` of state `i` has been dealt
/// with: either nothing changed, or a transition on the symbol at its dot
/// was added, to a state found before or to a new last state.
proof fn lemma_ordered_step<T: Copy, B: ItemModel<T>>(
    g: &Grammar,
    sets0: Seq<Vec<T>>,
    gotos0: Seq<GotoMap>,
    sets1: Seq<Vec<T>>,
    gotos1: Seq<GotoMap>,
    first0: Seq<(int, int)>,
    first1: Seq<(int, int)>,
    i: int,
    k: int,
    added: Option<(Symbol, int)>,
)
    requires
        ordered::<T, B>(g, sets0, gotos0, first0, i, k),
        row_known::<T, B>(g, sets0, gotos0, i, k),
        sets0.len() == gotos0.len(),
        sets1.len() == gotos1.len(),
        0 <= i < sets0.len(),
        0 <= k < sets0[i]@.len(),
        sets0.len() <= sets1.len() <= sets0.len() + 1,
        forall|s: int| 0 <= s < sets0.len() ==> #[trigger] sets1[s] == sets0[s],
        forall|s: int| 0 <= s < gotos0.len() && s != i ==> #[trigger] gotos1[s] == gotos0[s],
        forall|j: int|
            0 <= j < k ==> (#[trigger] B::dot_symbol(g, sets0[i]@[j]) matches Some(y)
                ==> gotos0[i].target(y) is Some),
        match added {
            None => gotos1[i] == gotos0[i] && sets1.len() == sets0.len() && (B::dot_symbol(
                g,
                sets0[i]@[k],
            ) matches Some(y) ==> gotos0[i].target(y) is Some),
            Some((x, j)) => {
                &&& B::dot_symbol(g, sets0[i]@[k]) == Some(x)
                &&& gotos0[i].target(x) is None
                &&& forall|y: Symbol|
                    #![trigger gotos1[i].target(y)]
                    gotos1[i].target(y) == if y == x {
                        Some(j as usize)
                    } else {
                        gotos0[i].target(y)
                    }
                &&& 0 <= j < sets1.len()
                &&& j <= usize::MAX
                &&& sets1.len() > sets0.len() ==> j == sets0.len()
            },
        },
        first1 == if sets1.len() > sets0.len() {
            first0.push((i, k))
        } else {
            first0
        },
    ensures
        ordered::<T, B>(g, sets1, gotos1, first1, i, k + 1),
        row_known::<T, B>(g, sets1, gotos1, i, k + 1),
{
    let len0 = sets0.len() as int;
    // What led to a state before still leads to it.
    assert forall|i2: int, k2: int, t: int| #[trigger]
        enters::<T, B>(g, sets0, gotos0, i2, k2, t) && item_before(i2, k2, i, k) implies enters::<
        T,
        B,
    >(g, sets1, gotos1, i2, k2, t) by {
        assert(sets1[i2] == sets0[i2]);
        if i2 != i {
            assert(gotos1[i2] == gotos0[i2]);
        }
    }
    // What leads to a state now, from an item before, led to it before.
    assert forall|i2: int, k2: int, t: int| #[trigger]
        enters::<T, B>(g, sets1, gotos1, i2, k2, t) && item_before(i2, k2, i, k) implies enters::<
        T,
        B,
    >(g, sets0, gotos0, i2, k2, t) by {
        assert(sets1[i2] == sets0[i2]);
        if i2 != i {
            assert(gotos1[i2] == gotos0[i2]);
        } else {
            let y = B::dot_symbol(g, sets0[i]@[k2]).unwrap();
            assert(B::dot_symbol(g, sets0[i]@[k2]) matches Some(z) ==> gotos0[i].target(z) is Some);
        }
    }
    assert forall|t: int| 1 <= t < sets1.len() implies #[trigger] enters::<T, B>(
        g,
        sets1,
        gotos1,
        first1[t].0,
        first1[t].1,
        t,
    ) && item_before(first1[t].0, first1[t].1, i, k + 1) by {
        if t < len0 {
            assert(enters::<T, B>(g, sets0, gotos0, first0[t].0, first0[t].1, t));
        } else {
            assert(sets1[i] == sets0[i]);
        }
    }
    assert forall|t1: int, t2: int| 1 <= t1 < t2 < sets1.len() implies item_before(
        (#[trigger] first1[t1]).0,
        first1[t1].1,
        (#[trigger] first1[t2]).0,
        first1[t2].1,
    ) by {
        if t2 < len0 {
            assert(item_before(first0[t1].0, first0[t1].1, first0[t2].0, first0[t2].1));
        } else {
            assert(enters::<T, B>(g, sets0, gotos0, first0[t1].0, first0[t1].1, t1));
        }
    }
    assert forall|i2: int, k2: int, t: int| #[trigger]
        enters::<T, B>(g, sets1, gotos1, i2, k2, t) && item_before(i2, k2, i, k + 1) implies t
        < sets1.len() && (1 <= t ==> !item_before(i2, k2, first1[t].0, first1[t].1)) by {
        if item_before(i2, k2, i, k) {
            assert(enters::<T, B>(g, sets0, gotos0, i2, k2, t));
        } else {
            assert(i2 == i && k2 == k);
            assert(sets1[i] == sets0[i]);
            let y = B::dot_symbol(g, sets0[i]@[k]).unwrap();
            match added {
                None => {
                    assert(gotos0[i].target(y) is Some);
                    let k0 = choose|k0: int|
                        0 <= k0 < k && #[trigger] B::dot_symbol(g, sets0[i]@[k0]) == Some(y);
                    assert(enters::<T, B>(g, sets0, gotos0, i, k0, t));
                },
                Some((x, j)) => {
                    if 1 <= t && t < len0 {
                        assert(enters::<T, B>(g, sets0, gotos0, first0[t].0, first0[t].1, t));
                    }
                },
            }
        }
    }
    assert forall|y: Symbol| (#[trigger] gotos1[i].target(y)) is Some implies exists|k0: int|
        0 <= k0 < k + 1 && #[trigger] B::dot_symbol(g, sets1[i]@[k0]) == Some(y) by {
        assert(sets1[i] == sets0[i]);
        if gotos0[i].target(y) is Some {
            let k0 = choose|k0: int|
                0 <= k0 < k && #[trigger] B::dot_symbol(g, sets0[i]@[k0]) == Some(y);
            assert(0 <= k0 < k + 1 && B::dot_symbol(g, sets1[i]@[k0]) == Some(y));
        } else {
            assert(B::dot_symbol(g, sets1[i]@[k]) == Some(y));
        }
    }
}

/// The order of finding holds on from the last item of a state to the
/// first item of the next.
proof fn lemma_ordered_next<T: Copy, B: ItemModel<T>>(
    g: &Grammar,
    sets: Seq<Vec<T>>,
    gotos: Seq<GotoMap>,
    first: Seq<(int, int)>,
    i: int,
)
    requires
        0 <= i < sets.len(),
        ordered::<T, B>(g, sets, gotos, first, i, sets[i]@.len() as int),
    ensures
        ordered::<T, B>(g, sets, gotos, first, i + 1, 0),
{
    let n = sets[i]@.len() as int;
    assert(ordered::<T, B>(g, sets, gotos, first, i, n));
    assert(first.len() == sets.len());
    assert(forall|t: int|
        1 <= t < sets.len() ==> #[trigger] enters::<T, B>(g, sets, gotos, first[t].0, first[t].1, t)
            && item_before(first[t].0, first[t].1, i, n));
    assert forall|t: int| 1 <= t < sets.len() implies #[trigger] enters::<T, B>(
        g,
        sets,
        gotos,
        first[t].0,
        first[t].1,
        t,
    ) && item_before(first[t].0, first[t].1, i + 1, 0) by {
        assert(enters::<T, B>(g, sets, gotos, first[t].0, first[t].1, t) && item_before(
            first[t].0,
            first[t].1,
            i,
            sets[i]@.len() as int,
        ));
    }
    assert forall|i2: int, k2: int, t: int| #[trigger]
        enters::<T, B>(g, sets, gotos, i2, k2, t) && item_before(i2, k2, i + 1, 0) implies t
        < sets.len() && (1 <= t ==> !item_before(i2, k2, first[t].0, first[t].1)) by {
        assert(item_before(i2, k2, i, sets[i]@.len() as int));
    }
}

/// Once every state has been dealt with, the states are numbered in the
/// order in which they were found.
proof fn lemma_ordered_done<T: Copy, B: ItemModel<T>>(
    g: &Grammar,
    sets: Seq<Vec<T>>,
    gotos: Seq<GotoMap>,
    first: Seq<(int, int)>,
)
    requires
        ordered::<T, B>(g, sets, gotos, first, sets.len() as int, 0),
    ensures
        found_in_order::<T, B>(g, sets, gotos),
{
    assert forall|t1: int, t2: int, i2: int, k2: int|
        #![trigger enters::<T, B>(g, sets, gotos, i2, k2, t2), found_before::<T, B>(g, sets, gotos,
            t1, i2, k2)]
        1 <= t1 < t2 && enters::<T, B>(g, sets, gotos, i2, k2, t2) implies found_before::<T, B>(
        g,
        sets,
        gotos,
        t1,
        i2,
        k2,
    ) by {
        assert(item_before(i2, k2, sets.len() as int, 0));
        assert(t2 < sets.len());
        assert(item_before(first[t1].0, first[t1].1, first[t2].0, first[t2].1));
        assert(enters::<T, B>(g, sets, gotos, first[t1].0, first[t1].1, t1));
    }
}

/// The construction of item sets for an item variant: the closure of a set
/// of items, and from it the closed set behind a symbol and the canonical
/// collection.
pub trait BuildItemSets<T: Copy>: ItemModel<T> {
    /// The closure of a set of items, in the order of items.
    fn closure(&self, items: &Vec<T>) -> (closed: Vec<T>)
        requires
            self.valid(),
            self.grammar().wf(),
            forall|k: int| 0 <= k < items@.len()
                ==> Self::item_ok(self.grammar(), #[trigger] items@[k]),
        ensures
            item_set_ok::<T, Self>(self.grammar(), closed@),
            closed@.to_set() == closure_of::<T, Self>(self.grammar(), items@.to_set()),
    ;

    /// The closed set reached from `items` on symbol `x`: the closure of
    /// the items of `items` that have `x` at the dot, with the dot moved
    /// past it.
    fn goto(&self, items: &Vec<T>, x: &Symbol) -> (next: Vec<T>)
        requires
            self.valid(),
            self.grammar().wf(),
            forall|k: int| 0 <= k < items@.len()
                ==> Self::item_ok(self.grammar(), #[trigger] items@[k]),
        ensures
            item_set_ok::<T, Self>(self.grammar(), next@),
            next@.to_set() == closure_of::<T, Self>(
                self.grammar(),
                goto_seed::<T, Self>(self.grammar(), items@.to_set(), *x),
            ),
    {
        let ghost g = self.grammar();
        let mut seed: Vec<T> = Vec::new();
        let mut k: usize = 0;
        while k < items.len()
            invariant
                self.valid(),
                g == self.grammar(),
                g.wf(),
                forall|j: int| 0 <= j < items@.len() ==> Self::item_ok(g, #[trigger] items@[j]),
                k <= items@.len(),
                forall|j: int| 0 <= j < seed@.len() ==> Self::item_ok(g, #[trigger] seed@[j]),
                forall|j: int|
                    0 <= j < seed@.len() ==> goto_seed::<T, Self>(g, items@.to_set(), *x).contains(
                        #[trigger] seed@[j],
                    ),
                forall|j: int|
                    0 <= j < k && #[trigger] Self::dot_symbol(g, items@[j]) == Some(*x)
                        ==> seed@.contains(
                        Self::advanced(items@[j]),
                    ),
            decreases items@.len() - k,
        {
            let item = items[k];
            let ghost seed0 = seed@;
            if let Some(y) = self.symbol_at_dot(&item) {
                if *x == y {
                    let moved = self.advance(&item);
                    seed.push(moved);
                    proof {
                        Self::lemma_items(g, item, item);
                        assert(items@.contains(item));
                        assert(Self::dot_symbol(g, item) == Some(*x));
                        assert(seed@[seed0.len() as int] == moved);
                    }
                }
            }
            proof {
                assert forall|j: int|
                    0 <= j < k + 1
                        && #[trigger] Self::dot_symbol(g,
                            items@[j]) == Some(*x) implies seed@.contains(
                    Self::advanced(items@[j]),
                ) by {
                    if j < k {
                        let m = choose|m: int| 0 <= m < seed0.len()
                            && seed0[m] == Self::advanced(items@[j]);
                        assert(seed@[m] == Self::advanced(items@[j]));
                    } else {
                        assert(seed@[seed0.len() as int] == Self::advanced(items@[j]));
                    }
                }
            }
            k = k + 1;
        }
        proof {
            let want = goto_seed::<T, Self>(g, items@.to_set(), *x);
            assert forall|to: T| seed@.to_set().contains(to) <==> want.contains(to) by {
                if seed@.contains(to) {
                    let j = choose|j: int| 0 <= j < seed@.len() && seed@[j] == to;
                    assert(want.contains(seed@[j]));
                }
                if want.contains(to) {
                    let from = choose|from: T| items@.to_set().contains(from)
                        && #[trigger] Self::dot_symbol(g, from) == Some(*x)
                            && to == Self::advanced(from);
                    assert(items@.contains(from));
                    let j = choose|j: int| 0 <= j < items@.len() && items@[j] == from;
                    assert(Self::dot_symbol(g, items@[j]) == Some(*x));
                }
            }
            assert(seed@.to_set() =~= want);
        }
        self.closure(&seed)
    }

    /// The canonical collection of item sets with its transitions: state 0
    /// is the closure of the start item, and every state reached on a
    /// symbol from a state is a state. States are numbered in the order in
    /// which they are found, going through the states in order and through
    /// each state's items in order.
    fn build(&self) -> (r: (Vec<Vec<T>>, Vec<GotoMap>))
        requires
            self.valid(),
            self.grammar().wf(),
        ensures
            canonical_collection::<T, Self>(self.grammar(), r.0@, r.1@),
    {
        let ghost g = self.grammar();
        let mut start: Vec<T> = Vec::new();
        start.push(self.start_item());
        proof {
            Self::lemma_items(g, start@[0], start@[0]);
            assert(start@.to_set() =~= Set::<T>::empty().insert(Self::start(g)));
        }
        let initial_items = self.closure(&start);
        let mut itemsets: Vec<Vec<T>> = Vec::new();
        itemsets.push(initial_items);
        let mut gotos: Vec<GotoMap> = Vec::new();
        gotos.push(GotoMap::new());
        let ghost mut first: Seq<(int, int)> = seq![(0int, 0int)];
        let mut i: usize = 0;
        while i < itemsets.len()
            invariant
                self.valid(),
                g == self.grammar(),
                g.wf(),
                itemsets@.len() == gotos@.len(),
                itemsets@.len() >= 1,
                i <= itemsets@.len(),
                forall|s: int| 0 <= s < itemsets@.len()
                    ==> item_set_ok::<T, Self>(g, #[trigger] itemsets@[s]@),
                itemsets@[0]@.to_set() == closure_of::<T, Self>(g,
                    Set::<T>::empty().insert(Self::start(g))),
                forall|s: int| 0 <= s < i
                    ==> #[trigger] state_closed::<T, Self>(g, itemsets@, gotos@, s),
                forall|s: int, x: Symbol|
                    i <= s < itemsets@.len() ==> (#[trigger] gotos@[s].target(x)) is None,
                forall|s: int, t: int|
                    0 <= s < itemsets@.len() && 0 <= t < itemsets@.len() && s != t
                        ==> #[trigger] itemsets@[s]@ != #[trigger] itemsets@[t]@,
                forall|t: int| 1 <= t < itemsets@.len() ==> #[trigger] entered(gotos@, t),
                forall|s: int| 0 <= s < gotos@.len()
                    ==> keys_distinct(#[trigger] gotos@[s].entries()),
                ordered::<T, Self>(g, itemsets@, gotos@, first, i as int, 0),
            decreases sets_left::<T, Self>(g, itemsets@), itemsets@.len() - i,
        {
            let ghost len0 = itemsets@.len();
            let ghost left0 = sets_left::<T, Self>(g, itemsets@);
            let count = itemsets[i].len();
            let mut k: usize = 0;
            while k < count
                invariant
                    self.valid(),
                    g == self.grammar(),
                    g.wf(),
                    itemsets@.len() == gotos@.len(),
                    i < itemsets@.len(),
                    len0 <= itemsets@.len(),
                    itemsets@.len() == len0 ==> sets_left::<T, Self>(g, itemsets@) == left0,
                    itemsets@.len() > len0 ==> sets_left::<T, Self>(g, itemsets@) < left0,
                    count == itemsets@[i as int]@.len(),
                    k <= count,
                    forall|s: int| 0 <= s < itemsets@.len()
                        ==> item_set_ok::<T, Self>(g, #[trigger] itemsets@[s]@),
                    itemsets@[0]@.to_set() == closure_of::<T, Self>(g,
                        Set::<T>::empty().insert(Self::start(g))),
                    forall|s: int| 0 <= s < i
                        ==> #[trigger] state_closed::<T, Self>(g, itemsets@, gotos@, s),
                    row_sound::<T, Self>(g, itemsets@, gotos@, i as int),
                    forall|j: int|
                        0 <= j < k ==> (#[trigger] Self::dot_symbol(g,
                            itemsets@[i as int]@[j]) matches Some(x)
                            ==> gotos@[i as int].target(x) is Some),
                    forall|s: int, x: Symbol|
                        i < s < itemsets@.len() ==> (#[trigger] gotos@[s].target(x)) is None,
                    forall|s: int, t: int|
                        0 <= s < itemsets@.len() && 0 <= t < itemsets@.len() && s != t
                            ==> #[trigger] itemsets@[s]@ != #[trigger] itemsets@[t]@,
                    forall|t: int| 1 <= t < itemsets@.len() ==> #[trigger] entered(gotos@, t),
                    forall|s: int|
                        0 <= s < gotos@.len() ==> keys_distinct(#[trigger] gotos@[s].entries()),
                    ordered::<T, Self>(g, itemsets@, gotos@, first, i as int, k as int),
                    row_known::<T, Self>(g, itemsets@, gotos@, i as int, k as int),
                decreases count - k,
            {
                let item = itemsets[i][k];
                let ghost sets0 = itemsets@;
                let ghost gotos0 = gotos@;
                let ghost first0 = first;
                let ghost mut added: Option<(Symbol, int)> = None;
                if let Some(x) = self.symbol_at_dot(&item) {
                    if !gotos[i].contains_key(&x) {
                        let temp = self.goto(&itemsets[i], &x);
                        let found = find_item_set(self, &itemsets, &temp);
                        let j = match found {
                            Some(index) => index,
                            None => {
                                let new_index = itemsets.len();
                                proof {
                                    lemma_new_set::<T, Self>(g, sets0, temp);
                                }
                                itemsets.push(temp);
                                gotos.push(GotoMap::new());
                                new_index
                            },
                        };
                        // Record transition on x
                        gotos[i].insert(x, j);
                        proof {
                            added = Some((x, j as int));
                            if itemsets@.len() > sets0.len() {
                                first = first.push((i as int, k as int));
                            }
                            let sets1 = itemsets@;
                            let gotos1 = gotos@;
                            assert(sets1[i as int] == sets0[i as int]);
                            assert(has_dot::<T, Self>(g, sets1[i as int]@, x)) by {
                                assert(Self::dot_symbol(g, sets1[i as int]@[k as int]) == Some(x));
                            }
                            assert forall|s: int| 0 <= s < sets1.len() implies item_set_ok::<T,
                                Self>(
                                g,
                                #[trigger] sets1[s]@,
                            ) by {
                                if s < sets0.len() {
                                    assert(sets1[s] == sets0[s]);
                                }
                            }
                            assert forall|s: int| 0 <= s < i implies #[trigger] state_closed::<T,
                                Self>(
                                g,
                                sets1,
                                gotos1,
                                s,
                            ) by {
                                assert(state_closed::<T, Self>(g, sets0, gotos0, s));
                                assert(gotos1[s] == gotos0[s]);
                                assert(sets1[s] == sets0[s]);
                                assert forall|y: Symbol|
                                    #![trigger gotos1[s].target(y)]
                                    (gotos1[s].target(y) is Some
                                        <==> has_dot::<T, Self>(g, sets1[s]@, y))
                                        && (gotos1[s].target(y) matches Some(t) ==> t < sets1.len()
                                        && sets1[t as int]@.to_set() == closure_of::<T, Self>(
                                        g,
                                        goto_seed::<T, Self>(g, sets1[s]@.to_set(), y),
                                    )) by {
                                    if let Some(t) = gotos0[s].target(y) {
                                        assert(sets1[t as int] == sets0[t as int]);
                                    }
                                }
                            }
                            assert forall|y: Symbol|
                                #![trigger gotos1[i as int].target(y)]
                                gotos1[i as int].target(y) matches Some(t) ==> has_dot::<T, Self>(
                                    g,
                                    sets1[i as int]@,
                                    y,
                                ) && t < sets1.len()
                                    && sets1[t as int]@.to_set() == closure_of::<T, Self>(
                                    g,
                                    goto_seed::<T, Self>(g, sets1[i as int]@.to_set(), y),
                                ) by {
                                if y != x {
                                    assert(gotos1[i as int].target(y) == gotos0[i as int].target(y));
                                    if let Some(t) = gotos0[i as int].target(y) {
                                        assert(sets1[t as int] == sets0[t as int]);
                                    }
                                }
                            }
                            assert forall|m: int|
                                0 <= m < k + 1 implies (#[trigger] Self::dot_symbol(
                                g,
                                sets1[i as int]@[m],
                            ) matches Some(y) ==> gotos1[i as int].target(y) is Some) by {
                                if m < k {
                                    if let Some(y) = Self::dot_symbol(g, sets0[i as int]@[m]) {
                                        assert(gotos0[i as int].target(y) is Some);
                                    }
                                }
                            }
                            assert forall|s: int, y: Symbol| i < s < sets1.len() implies (
                            #[trigger] gotos1[s].target(y)) is None by {
                                if s < sets0.len() {
                                    assert(gotos1[s] == gotos0[s]);
                                }
                            }
                            assert forall|s: int, t: int|
                                0 <= s < sets1.len() && 0 <= t < sets1.len()
                                    && s != t implies #[trigger] sets1[s]@
                                != #[trigger] sets1[t]@ by {
                                if s < sets0.len() && t < sets0.len() {
                                    assert(sets1[s] == sets0[s]);
                                    assert(sets1[t] == sets0[t]);
                                } else if s < sets0.len() {
                                    assert(sets1[s] == sets0[s]);
                                } else if t < sets0.len() {
                                    assert(sets1[t] == sets0[t]);
                                }
                            }
                            assert forall|t: int| 1 <= t < sets1.len() implies #[trigger] entered(
                                gotos1,
                                t,
                            ) by {
                                if t < sets0.len() {
                                    assert(entered(gotos0, t));
                                    let (s, y) = choose|s: int, y: Symbol|
                                        0 <= s < t && (#[trigger] gotos0[s].target(y)) is Some
                                            && gotos0[s].target(y).unwrap() == t;
                                    if s == i {
                                        assert(gotos1[s].target(y) == Some(t as usize));
                                    } else {
                                        assert(gotos1[s] == gotos0[s]);
                                        assert(gotos1[s].target(y) == Some(t as usize));
                                    }
                                } else {
                                    assert(gotos1[i as int].target(x) == Some(t as usize));
                                }
                            }
                            assert forall|s: int| 0 <= s < gotos1.len() implies keys_distinct(
                                #[trigger] gotos1[s].entries(),
                            ) by {
                                if s == i {
                                    let before = gotos0[s].entries();
                                    GotoMap::lemma_entries(before, x);
                                    assert(gotos1[s].entries() == before.push((x, j)));
                                    assert(keys_distinct(before));
                                    assert forall|a: int, b: int|
                                        0 <= a < b < gotos1[s].entries().len() implies (
                                    #[trigger] gotos1[s].entries()[a]).0 != (
                                    #[trigger] gotos1[s].entries()[b]).0 by {
                                        if b < before.len() {
                                            assert(before[a].0 != before[b].0);
                                        } else {
                                            assert(before[a].0 != x);
                                        }
                                    }
                                } else if s < gotos0.len() {
                                    assert(gotos1[s] == gotos0[s]);
                                }
                            }
                            if sets1.len() == sets0.len() {
                                assert(sets1 =~= sets0);
                            } else {
                                assert(sets1 =~= sets0.push(temp));
                            }
                        }
                    }
                }
                proof {
                    assert forall|s: int| 0 <= s < sets0.len() implies #[trigger] itemsets@[s]
                        == sets0[s] by {}
                    assert forall|s: int| 0 <= s < gotos0.len()
                        && s != i implies #[trigger] gotos@[s]
                        == gotos0[s] by {}
                    lemma_ordered_step::<T, Self>(
                        g,
                        sets0,
                        gotos0,
                        itemsets@,
                        gotos@,
                        first0,
                        first,
                        i as int,
                        k as int,
                        added,
                    );
                }
                k = k + 1;
            }
            proof {
                lemma_ordered_next::<T, Self>(g, itemsets@, gotos@, first, i as int);
                assert forall|x: Symbol|
                    #![trigger gotos@[i as int].target(x)]
                    (gotos@[i as int].target(x) is Some
                        <==> has_dot::<T, Self>(g, itemsets@[i as int]@, x))
                        && (gotos@[i as int].target(x) matches Some(j) ==> j < itemsets@.len()
                        && itemsets@[j as int]@.to_set() == closure_of::<T, Self>(
                        g,
                        goto_seed::<T, Self>(g, itemsets@[i as int]@.to_set(), x),
                    )) by {
                    if has_dot::<T, Self>(g, itemsets@[i as int]@, x) {
                        let m = choose|m: int|
                            0 <= m < itemsets@[i as int]@.len() && #[trigger] Self::dot_symbol(
                                g,
                                itemsets@[i as int]@[m],
                            ) == Some(x);
                        assert(gotos@[i as int].target(x) is Some);
                    }
                }
            }
            i = i + 1;
        }
        proof {
            lemma_ordered_done::<T, Self>(g, itemsets@, gotos@, first);
        }
        (itemsets, gotos)
    }
}

} // verus!
