use vstd::prelude::*;
use super::lr0_item::LR0Item;

verus! {

/// An LR(0) item paired with a lookahead class; `None` is end of input.
#[derive(Debug, Clone, Copy, PartialEq, Eq, PartialOrd, Ord, Hash)]
pub struct LR1Item {
    pub lr0_item: LR0Item,
    pub lookahead: Option<usize>,  // class of lookahead terminal
}

impl LR1Item {
    /// The item of production `alt` with the dot before position `pos` and
    /// the given lookahead.
    #[must_use]
    pub fn new(alt: usize, pos: usize, lookahead: Option<usize>) -> (item: Self)
        ensures
            item.lr0_item.production == alt,
            item.lr0_item.pos == pos,
            item.lookahead == lookahead,
    {
        Self { lr0_item: LR0Item::new(alt, pos), lookahead }
    }
}

} // verus!
