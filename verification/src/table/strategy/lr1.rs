use vstd::prelude::*;
use crate::automata::{LRAutomaton, LR1A};
use crate::grammar::Grammar;
use crate::table::{
    built_from, Action, Conflict, ConstructionError, LR1TableConstruction, NaiveLR1Table,
};

verus! {

/// Construction of the table from the canonical LR(1) automaton.
pub struct LR1;

/// What the LR(1) construction yields for `grammar` with resolver `f`: what
/// building the table from the canonical LR(1) automaton of the grammar
/// gives.
pub open spec fn lr1_constructs<F: Fn(Conflict) -> Result<Action, Conflict>>(
    grammar: &Grammar,
    f: F,
    r: Result<NaiveLR1Table, ConstructionError>,
) -> bool {
    exists|a: LR1A| #[trigger] a.is_canonical() && a.source() == grammar && built_from(&a, f, r)
}

impl LR1TableConstruction for LR1 {
    /// The table of the canonical LR(1) automaton of `grammar`.
    fn construct<F: Fn(Conflict) -> Result<Action, Conflict>>(
        grammar: &Grammar,
        conflict_resolution: F,
    ) -> (r: Result<NaiveLR1Table, ConstructionError>)
        ensures
            lr1_constructs(grammar, conflict_resolution, r),
    {
        let automaton = LR1A::new(grammar);
        let r = NaiveLR1Table::build(&automaton, conflict_resolution);
        proof {
            assert(automaton.is_canonical() && automaton.source() == grammar && built_from(
                &automaton,
                conflict_resolution,
                r,
            ));
        }
        r
    }
}

} // verus!
