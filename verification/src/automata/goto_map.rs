use vstd::prelude::*;
use crate::grammar::Symbol;

verus! {

/// What the entries say about `s`: the target of the last entry for it.
pub open spec fn lookup(entries: Seq<(Symbol, usize)>, s: Symbol) -> Option<usize>
    decreases entries.len(),
{
    if entries.len() == 0 {
        None
    } else if entries.last().0 == s {
        Some(entries.last().1)
    } else {
        lookup(entries.drop_last(), s)
    }
}

/// No two entries are for the same symbol.
pub open spec fn keys_distinct(entries: Seq<(Symbol, usize)>) -> bool {
    forall|a: int, b: int|
        0 <= a < b < entries.len() ==> (#[trigger] entries[a]).0 != (#[trigger] entries[b]).0
}

/// The transitions out of one state: a partial function from symbols to
/// states, kept in the order in which the transitions were added.
#[derive(Debug)]
pub struct GotoMap {
    entries: Vec<(Symbol, usize)>,
}

impl GotoMap {
    /// The transitions in the order in which they were added.
    pub closed spec fn entries(&self) -> Seq<(Symbol, usize)> {
        self.entries@
    }

    /// The state reached on `s`, if there is a transition on `s`.
    pub open spec fn target(&self, s: Symbol) -> Option<usize> {
        lookup(self.entries(), s)
    }

    /// A symbol has a transition exactly if an entry names it.
    pub proof fn lemma_entries(entries: Seq<(Symbol, usize)>, s: Symbol)
        ensures
            lookup(entries, s) is Some <==> exists|k: int|
                0 <= k < entries.len() && (#[trigger] entries[k]).0 == s,
        decreases entries.len(),
    {
        if entries.len() != 0 {
            Self::lemma_entries(entries.drop_last(), s);
            if entries.last().0 != s {
                if lookup(entries, s) is Some {
                    let k = choose|k: int|
                        0 <= k < entries.drop_last().len() && (#[trigger] entries.drop_last()[k]).0
                            == s;
                    assert(entries[k].0 == s);
                }
                if exists|k: int| 0 <= k < entries.len() && (#[trigger] entries[k]).0 == s {
                    let k = choose|k: int| 0 <= k < entries.len() && (#[trigger] entries[k]).0 == s;
                    assert(entries.drop_last()[k].0 == s);
                }
            } else {
                assert(entries[entries.len() - 1].0 == s);
            }
        }
    }

    /// The transitions are a function: a symbol leads to at most one
    /// state.
    pub proof fn lemma_deterministic(&self, s: Symbol, a: usize, b: usize)
        requires
            self.target(s) == Some(a),
            self.target(s) == Some(b),
        ensures
            a == b,
    {
    }

    /// A map without transitions.
    pub fn new() -> (map: Self)
        ensures
            map.entries() == Seq::<(Symbol, usize)>::empty(),
            forall|s: Symbol| map.target(s) is None,
    {
        GotoMap { entries: Vec::new() }
    }

    /// Number of entries.
    pub fn len(&self) -> (n: usize)
        ensures
            n == self.entries().len(),
    {
        self.entries.len()
    }

    /// The `k`-th entry: a symbol and the state it led to when it was
    /// added.
    pub fn entry(&self, k: usize) -> (e: (Symbol, usize))
        requires
            k < self.entries().len(),
        ensures
            e == self.entries()[k as int],
    {
        self.entries[k]
    }

    /// The state reached on `s`, if there is a transition on `s`.
    pub fn get(&self, s: &Symbol) -> (r: Option<usize>)
        ensures
            r == self.target(*s),
    {
        let mut k = self.entries.len();
        proof {
            assert(self.entries@.subrange(0, k as int) =~= self.entries@);
        }
        while k > 0
            invariant
                k <= self.entries@.len(),
                lookup(self.entries@, *s) == lookup(self.entries@.subrange(0, k as int), *s),
            decreases k,
        {
            k = k - 1;
            let e = self.entries[k];
            proof {
                let head = self.entries@.subrange(0, k + 1);
                assert(head.last() == self.entries@[k as int]);
                assert(head.drop_last() =~= self.entries@.subrange(0, k as int));
            }
            if e.0 == *s {
                return Some(e.1);
            }
        }
        proof {
            assert(self.entries@.subrange(0, 0).len() == 0);
        }
        None
    }

    /// Whether there is a transition on `s`.
    pub fn contains_key(&self, s: &Symbol) -> (r: bool)
        ensures
            r == self.target(*s) is Some,
    {
        self.get(s).is_some()
    }

    /// Sets the transition on `s` to lead to `state`.
    pub fn insert(&mut self, s: Symbol, state: usize)
        ensures
            final(self).entries() == old(self).entries().push((s, state)),
            forall|x: Symbol|
                #![trigger final(self).target(x)]
                final(self).target(x) == if x == s {
                    Some(state)
                } else {
                    old(self).target(x)
                },
    {
        self.entries.push((s, state));
        proof {
            assert(self.entries@.drop_last() =~= old(self).entries@);
        }
    }
}

} // verus!
