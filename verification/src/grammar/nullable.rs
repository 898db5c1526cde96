use vstd::prelude::*;
use super::grammar::Grammar;
use super::nullability::{derives_empty, nullability};

verus! {

/// For each variable of a grammar, whether it derives the empty string.
pub struct Nullable(Vec<bool>);

impl View for Nullable {
    type V = Seq<bool>;

    closed spec fn view(&self) -> Seq<bool> {
        self.0@
    }
}

impl Nullable {
    /// The flags are those of grammar `g`: one per variable, set exactly
    /// for the variables that derive the empty string.
    pub open spec fn describes(&self, g: &Grammar) -> bool {
        &&& self@.len() == g.var_count()
        &&& forall|a: int| 0 <= a < g.var_count() ==> #[trigger] self@[a] == derives_empty(g, a)
    }

    /// Computes the flags of `grammar`.
    pub fn new(grammar: &Grammar) -> (nullable: Self)
        requires
            grammar.wf(),
        ensures
            nullable.describes(grammar),
    {
        Nullable(nullability(grammar))
    }

    /// Whether variable `var` derives the empty string.
    pub fn get(&self, var: usize) -> (r: bool)
        requires
            var < self@.len(),
        ensures
            r == self@[var as int],
    {
        self.0[var]
    }
}

impl Grammar {
    /// For each variable, whether it derives the empty string.
    pub fn nullability(&self) -> (nullable: Nullable)
        requires
            self.wf(),
        ensures
            nullable.describes(self),
    {
        Nullable::new(self)
    }
}

} // verus!
