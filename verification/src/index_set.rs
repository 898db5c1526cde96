use vstd::prelude::*;
use crate::transitive_closure::Accumulate;

verus! {

/// `s` is strictly ascending.
pub open spec fn ascending(s: Seq<usize>) -> bool {
    forall|i: int, j: int| 0 <= i < j < s.len() ==> s[i] < s[j]
}

/// The entry at position `i` of an ascending sequence is at least `i`.
pub proof fn lemma_ascending_floor(s: Seq<usize>, i: int)
    requires
        ascending(s),
        0 <= i < s.len(),
    ensures
        s[i] >= i,
    decreases i,
{
    if i > 0 {
        lemma_ascending_floor(s, i - 1);
        assert(s[i - 1] < s[i]);
    }
}

/// A finite set of indices, kept as a strictly ascending sequence.
#[derive(Debug)]
pub struct IndexSet {
    elems: Vec<usize>,
}

impl View for IndexSet {
    type V = Set<usize>;

    closed spec fn view(&self) -> Set<usize> {
        self.elems@.to_set()
    }
}

impl IndexSet {
    /// The members in ascending order.
    pub closed spec fn seq(&self) -> Seq<usize> {
        self.elems@
    }

    /// The representation invariant: the members are stored in strictly
    /// ascending order.
    pub closed spec fn wf(&self) -> bool {
        ascending(self.elems@)
    }

    /// The ascending sequence and the set hold the same members, each once.
    pub proof fn lemma_seq(&self)
        requires
            self.wf(),
        ensures
            ascending(self.seq()),
            self.seq().to_set() == self@,
            self.seq().no_duplicates(),
            self@.finite(),
            self@.len() == self.seq().len(),
            forall|x: usize| self@.contains(x) <==> self.seq().contains(x),
    {
        self.elems@.unique_seq_to_set();
    }

    /// The empty set.
    pub fn new() -> (s: Self)
        ensures
            s.wf(),
            s@ == Set::<usize>::empty(),
            s.seq() == Seq::<usize>::empty(),
    {
        let s = IndexSet { elems: Vec::new() };
        assert(s.elems@.to_set() =~= Set::<usize>::empty());
        s
    }

    /// Number of members.
    pub fn len(&self) -> (n: usize)
        requires
            self.wf(),
        ensures
            n == self@.len(),
            n == self.seq().len(),
    {
        proof {
            self.lemma_seq();
        }
        self.elems.len()
    }

    /// The `i`-th member in ascending order.
    pub fn get(&self, i: usize) -> (x: usize)
        requires
            self.wf(),
            i < self.seq().len(),
        ensures
            x == self.seq()[i as int],
            self@.contains(x),
    {
        assert(self.elems@.contains(self.elems@[i as int]));
        self.elems[i]
    }

    /// The members in ascending order.
    pub fn as_slice(&self) -> (s: &[usize])
        requires
            self.wf(),
        ensures
            s@ == self.seq(),
    {
        self.elems.as_slice()
    }

    /// Whether `x` is a member.
    pub fn contains(&self, x: usize) -> (r: bool)
        requires
            self.wf(),
        ensures
            r == self@.contains(x),
    {
        let mut i: usize = 0;
        while i < self.elems.len()
            invariant
                i <= self.elems@.len(),
                forall|k: int| 0 <= k < i ==> self.elems@[k] != x,
            decreases self.elems@.len() - i,
        {
            if self.elems[i] == x {
                assert(self.elems@.contains(x));
                return true;
            }
            i = i + 1;
        }
        false
    }

    /// Adds `x`; tells whether it was new.
    pub fn insert(&mut self, x: usize) -> (added: bool)
        requires
            old(self).wf(),
        ensures
            final(self).wf(),
            final(self)@ == old(self)@.insert(x),
            added == !old(self)@.contains(x),
            final(self).seq().len() == old(self).seq().len() + if added {
                1int
            } else {
                0int
            },
    {
        let mut i: usize = 0;
        while i < self.elems.len() && self.elems[i] < x
            invariant
                *self == *old(self),
                ascending(self.elems@),
                i <= self.elems@.len(),
                forall|k: int| 0 <= k < i ==> self.elems@[k] < x,
            decreases self.elems@.len() - i,
        {
            i = i + 1;
        }
        if i < self.elems.len() && self.elems[i] == x {
            assert(self.elems@.contains(x));
            assert(self.elems@.to_set() =~= self.elems@.to_set().insert(x));
            false
        } else {
            let ghost before = self.elems@;
            assert(!before.contains(x)) by {
                if before.contains(x) {
                    let k = choose|k: int| 0 <= k < before.len() && before[k] == x;
                    if k > i {
                        assert(before[i as int] < before[k]);
                    }
                }
            }
            self.elems.insert(i, x);
            proof {
                let after = self.elems@;
                assert(after == before.insert(i as int, x));
                assert forall|a: int, b: int| 0 <= a < b < after.len() implies after[a]
                    < after[b] by {
                    let a0 = if a < i { a } else { a - 1 };
                    let b0 = if b < i { b } else { b - 1 };
                    if a != i && b != i {
                        assert(before[a0] < before[b0]);
                    }
                }
                assert forall|e: usize| after.to_set().contains(e) <==> before.to_set().insert(
                    x,
                ).contains(e) by {
                    if after.contains(e) {
                        let k = choose|k: int| 0 <= k < after.len() && after[k] == e;
                        if k < i {
                            assert(before[k] == e);
                        } else if k > i {
                            assert(before[k - 1] == e);
                        }
                    }
                    if before.contains(e) {
                        let k = choose|k: int| 0 <= k < before.len() && before[k] == e;
                        if k < i {
                            assert(after[k] == e);
                        } else {
                            assert(after[k + 1] == e);
                        }
                    }
                    if e == x {
                        assert(after[i as int] == e);
                    }
                }
                assert(after.to_set() =~= before.to_set().insert(x));
            }
            true
        }
    }

    /// Adds every member of `other`; tells whether any was new.
    pub fn union_with(&mut self, other: &IndexSet) -> (grew: bool)
        requires
            old(self).wf(),
            other.wf(),
        ensures
            final(self).wf(),
            final(self)@ == old(self)@.union(other@),
            grew == !other@.subset_of(old(self)@),
            final(self).seq().len() >= old(self).seq().len(),
            grew ==> final(self).seq().len() > old(self).seq().len(),
    {
        let mut grew = false;
        let mut i: usize = 0;
        while i < other.elems.len()
            invariant
                self.wf(),
                other.wf(),
                i <= other.elems@.len(),
                self@ == old(self)@.union(other.elems@.subrange(0, i as int).to_set()),
                grew == !other.elems@.subrange(0, i as int).to_set().subset_of(old(self)@),
                self.seq().len() >= old(self).seq().len(),
                grew ==> self.seq().len() > old(self).seq().len(),
            decreases other.elems@.len() - i,
        {
            let x = other.elems[i];
            let added = self.insert(x);
            proof {
                let head = other.elems@.subrange(0, i as int);
                let next = other.elems@.subrange(0, i + 1);
                assert(next == head.push(x));
                assert(next.to_set() =~= head.to_set().insert(x)) by {
                    assert forall|e: usize| next.to_set().contains(e) <==> head.to_set().insert(
                        x,
                    ).contains(e) by {
                        if next.contains(e) {
                            let k = choose|k: int| 0 <= k < next.len() && next[k] == e;
                            if k < i {
                                assert(head[k] == e);
                            }
                        }
                        if head.contains(e) {
                            let k = choose|k: int| 0 <= k < head.len() && head[k] == e;
                            assert(next[k] == e);
                        }
                        if e == x {
                            assert(next[i as int] == e);
                        }
                    }
                }
                assert(self@ =~= old(self)@.union(next.to_set()));
                if added {
                    assert(next.to_set().contains(x));
                }
            }
            if added {
                grew = true;
            }
            i = i + 1;
        }
        proof {
            assert(other.elems@.subrange(0, i as int) == other.elems@);
        }
        grew
    }

    /// A copy of the set.
    pub fn duplicate(&self) -> (copy: Self)
        requires
            self.wf(),
        ensures
            copy.wf(),
            copy@ == self@,
            copy.seq() == self.seq(),
    {
        let mut elems: Vec<usize> = Vec::new();
        let mut i: usize = 0;
        while i < self.elems.len()
            invariant
                i <= self.elems@.len(),
                elems@ == self.elems@.subrange(0, i as int),
            decreases self.elems@.len() - i,
        {
            elems.push(self.elems[i]);
            i = i + 1;
            assert(self.elems@.subrange(0, i as int) == self.elems@.subrange(0, i - 1).push(
                self.elems@[i - 1],
            ));
        }
        assert(self.elems@.subrange(0, i as int) == self.elems@);
        IndexSet { elems }
    }
}

impl Accumulate for IndexSet {
    type Elem = usize;

    open spec fn contents(&self) -> Set<usize> {
        self@
    }

    open spec fn wf(&self) -> bool {
        IndexSet::wf(self)
    }

    fn absorb(&mut self, other: &Self) {
        let _ = self.union_with(other);
    }

    fn duplicate(&self) -> (copy: Self) {
        IndexSet::duplicate(self)
    }
}

/// A lookahead class is either a terminal class or end of input (`None`).
/// Its column is 0 for end of input and `t + 1` for terminal `t`.
pub open spec fn column_of(la: Option<usize>) -> int {
    match la {
        None => 0,
        Some(t) => t + 1,
    }
}

/// The class has a column: a terminal index leaves room for the
/// end-of-input column.
pub open spec fn class_ok(la: Option<usize>) -> bool {
    match la {
        None => true,
        Some(t) => t < usize::MAX,
    }
}

/// The class in a column.
pub open spec fn class_of(column: int) -> Option<usize> {
    if column == 0 {
        None
    } else {
        Some((column - 1) as usize)
    }
}

/// The column of a lookahead class.
pub fn column(la: Option<usize>) -> (c: usize)
    requires
        class_ok(la),
    ensures
        c == column_of(la),
        class_of(c as int) == la,
{
    match la {
        None => 0,
        Some(t) => t + 1,
    }
}

/// The lookahead class of a column.
pub fn class_at(column: usize) -> (la: Option<usize>)
    ensures
        la == class_of(column as int),
        class_ok(la),
        column_of(la) == column,
{
    if column == 0 {
        None
    } else {
        Some(column - 1)
    }
}

/// A finite set of lookahead classes, kept as the ascending sequence of
/// their columns: end of input comes first, then the terminals in order.
#[derive(Debug)]
pub struct LookaheadSet {
    columns: IndexSet,
}

impl View for LookaheadSet {
    type V = Set<Option<usize>>;

    closed spec fn view(&self) -> Set<Option<usize>> {
        Set::new(|la: Option<usize>| class_ok(la) && self.columns@.contains(column_of(la) as usize))
    }
}

impl LookaheadSet {
    /// The columns of the members in ascending order.
    pub closed spec fn columns(&self) -> Seq<usize> {
        self.columns.seq()
    }

    /// The representation invariant.
    pub closed spec fn wf(&self) -> bool {
        self.columns.wf()
    }

    /// The members are the classes of the stored columns.
    pub proof fn lemma_members(&self)
        requires
            self.wf(),
        ensures
            ascending(self.columns()),
            forall|la: Option<usize>|
                self@.contains(la) <==> class_ok(la) && self.columns().contains(
                    column_of(la) as usize,
                ),
            forall|i: int|
                0 <= i < self.columns().len() ==> self@.contains(
                    class_of(#[trigger] self.columns()[i] as int),
                ),
    {
        self.columns.lemma_seq();
        assert forall|i: int| 0 <= i < self.columns().len() implies self@.contains(
            class_of(#[trigger] self.columns()[i] as int),
        ) by {
            let c = self.columns()[i];
            assert(self.columns().contains(c));
            assert(column_of(class_of(c as int)) == c);
        }
    }

    /// A set whose members all have columns up to `m` has at most `m + 1`
    /// members.
    pub proof fn lemma_len_bound(&self, m: int)
        requires
            self.wf(),
            0 <= m,
            forall|la: Option<usize>| self@.contains(la) ==> column_of(la) <= m,
        ensures
            self.columns().len() <= m + 1,
    {
        self.lemma_members();
        let s = self.columns();
        if s.len() > 0 {
            lemma_ascending_floor(s, s.len() - 1);
            let c = s[s.len() - 1];
            assert(self@.contains(class_of(c as int)));
            assert(column_of(class_of(c as int)) == c);
        }
    }

    /// The empty set.
    pub fn new() -> (s: Self)
        ensures
            s.wf(),
            s@ == Set::<Option<usize>>::empty(),
            s.columns() == Seq::<usize>::empty(),
    {
        let s = LookaheadSet { columns: IndexSet::new() };
        assert(s@ =~= Set::<Option<usize>>::empty());
        s
    }

    /// Number of members.
    pub fn len(&self) -> (n: usize)
        requires
            self.wf(),
        ensures
            n == self.columns().len(),
    {
        self.columns.len()
    }

    /// The `i`-th member: end of input first, if it is one, then the
    /// terminals in ascending order.
    pub fn get(&self, i: usize) -> (la: Option<usize>)
        requires
            self.wf(),
            i < self.columns().len(),
        ensures
            la == class_of(self.columns()[i as int] as int),
            self@.contains(la),
    {
        proof {
            self.lemma_members();
        }
        class_at(self.columns.get(i))
    }

    /// Whether `la` is a member.
    pub fn contains(&self, la: Option<usize>) -> (r: bool)
        requires
            self.wf(),
            class_ok(la),
        ensures
            r == self@.contains(la),
    {
        self.columns.contains(column(la))
    }

    /// Adds `la`; tells whether it was new.
    pub fn insert(&mut self, la: Option<usize>) -> (added: bool)
        requires
            old(self).wf(),
            class_ok(la),
        ensures
            final(self).wf(),
            final(self)@ == old(self)@.insert(la),
            added == !old(self)@.contains(la),
            final(self).columns().len() == old(self).columns().len() + if added {
                1int
            } else {
                0int
            },
    {
        let added = self.columns.insert(column(la));
        assert(self@ =~= old(self)@.insert(la));
        added
    }

    /// Adds every member of `other`; tells whether any was new.
    pub fn union_with(&mut self, other: &LookaheadSet) -> (grew: bool)
        requires
            old(self).wf(),
            other.wf(),
        ensures
            final(self).wf(),
            final(self)@ == old(self)@.union(other@),
            grew == !other@.subset_of(old(self)@),
            final(self).columns().len() >= old(self).columns().len(),
            grew ==> final(self).columns().len() > old(self).columns().len(),
    {
        let grew = self.columns.union_with(&other.columns);
        proof {
            assert(self@ =~= old(self)@.union(other@));
            if other@.subset_of(old(self)@) {
                assert forall|c: usize| other.columns@.contains(c) implies old(
                    self,
                ).columns@.contains(c) by {
                    let la = class_of(c as int);
                    assert(column_of(la) == c);
                    assert(other@.contains(la));
                }
            }
            if other.columns@.subset_of(old(self).columns@) {
                assert forall|la: Option<usize>| other@.contains(la) implies old(self)@.contains(
                    la,
                ) by {}
            }
        }
        grew
    }

    /// A copy of the set.
    pub fn duplicate(&self) -> (copy: Self)
        requires
            self.wf(),
        ensures
            copy.wf(),
            copy@ == self@,
            copy.columns() == self.columns(),
    {
        let copy = LookaheadSet { columns: self.columns.duplicate() };
        assert(copy@ =~= self@);
        copy
    }
}

impl Accumulate for LookaheadSet {
    type Elem = Option<usize>;

    open spec fn contents(&self) -> Set<Option<usize>> {
        self@
    }

    open spec fn wf(&self) -> bool {
        LookaheadSet::wf(self)
    }

    fn absorb(&mut self, other: &Self) {
        let _ = self.union_with(other);
    }

    fn duplicate(&self) -> (copy: Self) {
        LookaheadSet::duplicate(self)
    }
}

} // verus!
