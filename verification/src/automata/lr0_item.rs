use vstd::prelude::*;
use crate::grammar::{Grammar, Symbol};

verus! {

/// A production with a dot marking how many of its right-hand side symbols
/// have been matched.
#[derive(Debug, Clone, Copy, PartialEq, Eq, PartialOrd, Ord, Hash, Structural)]
pub struct LR0Item {
    pub production: usize,  // index of production
    pub pos: usize,  // index position of dot in production RHS
}

impl LR0Item {
    /// The item belongs to grammar `g`: its production exists and the dot
    /// stands within or at the end of the right-hand side.
    pub open spec fn wf(self, g: &Grammar) -> bool {
        &&& self.production < g.production_count()
        &&& self.pos <= g.rhs(self.production as int).len()
    }

    /// The symbol right of the dot, if the dot is not at the end.
    pub open spec fn dot(self, g: &Grammar) -> Option<Symbol> {
        if self.pos < g.rhs(self.production as int).len() {
            Some(g.rhs(self.production as int)[self.pos as int])
        } else {
            None
        }
    }

    /// The symbol behind the symbol right of the dot, if there is one.
    pub open spec fn after_dot(self, g: &Grammar) -> Option<Symbol> {
        if self.pos + 1 < g.rhs(self.production as int).len() {
            Some(g.rhs(self.production as int)[self.pos + 1])
        } else {
            None
        }
    }

    /// The item of `production` with the dot before position `pos`.
    #[must_use]
    pub fn new(production: usize, pos: usize) -> (item: Self)
        ensures
            item.production == production,
            item.pos == pos,
    {
        Self { production, pos }
    }

    /// I.e. is the start rule or dot *not* at the start.
    #[must_use]
    pub fn is_kernel_item(&self, grammar: &Grammar) -> (r: bool)
        requires
            grammar.wf(),
        ensures
            r == (self.production == grammar.start_production() || self.pos > 0),
    {
        self.production == grammar.production_total() - 1 || self.pos > 0
    }

    /// I.e. dot is past the end.
    #[must_use]
    pub fn is_complete(&self, grammar: &Grammar) -> (r: bool)
        requires
            grammar.shape_ok(),
            self.production < grammar.production_count(),
        ensures
            r == (self.pos >= grammar.rhs(self.production as int).len()),
            r == self.dot(grammar) is None,
    {
        self.pos >= grammar.rhs_len(self.production)
    }

    /// The symbol right of the dot, or `None` if the item is complete.
    #[must_use]
    pub fn symbol_at_dot(&self, grammar: &Grammar) -> (s: Option<Symbol>)
        requires
            grammar.shape_ok(),
            self.production < grammar.production_count(),
        ensures
            s == self.dot(grammar),
    {
        grammar.symbol(self.production, self.pos)
    }

    /// The symbol behind the symbol right of the dot, or `None` if there is
    /// none.
    #[must_use]
    pub fn symbol_after_dot(&self, grammar: &Grammar) -> (s: Option<Symbol>)
        requires
            grammar.shape_ok(),
            self.production < grammar.production_count(),
        ensures
            s == self.after_dot(grammar),
    {
        if self.pos < grammar.rhs_len(self.production) {
            grammar.symbol(self.production, self.pos + 1)
        } else {
            None
        }
    }
}

} // verus!
