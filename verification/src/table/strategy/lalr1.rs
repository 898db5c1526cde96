use vstd::prelude::*;
use crate::automata::{LRAutomaton, LALR1A};
use crate::grammar::Grammar;
use crate::table::{
    built_from, Action, Conflict, ConstructionError, LR1TableConstruction, NaiveLR1Table,
};

verus! {

/// Construction of the table from the LALR(1) automaton.
pub struct LALR1;

/// What the LALR(1) construction yields for `grammar` with resolver `f`:
/// what building the table from the LALR(1) automaton of the grammar
/// gives.
pub open spec fn lalr1_constructs<F: Fn(Conflict) -> Result<Action, Conflict>>(
    grammar: &Grammar,
    f: F,
    r: Result<NaiveLR1Table, ConstructionError>,
) -> bool {
    exists|a: LALR1A| #[trigger] a.is_lalr() && a.lr0().grammar_of() == grammar
        && built_from(&a, f, r)
}

impl LR1TableConstruction for LALR1 {
    /// The table of the LALR(1) automaton of `grammar`.
    fn construct<F: Fn(Conflict) -> Result<Action, Conflict>>(
        grammar: &Grammar,
        conflict_resolution: F,
    ) -> (r: Result<NaiveLR1Table, ConstructionError>)
        ensures
            lalr1_constructs(grammar, conflict_resolution, r),
    {
        let automaton = LALR1A::new(grammar);
        let r = NaiveLR1Table::build(&automaton, conflict_resolution);
        proof {
            assert(automaton.is_lalr() && automaton.lr0().grammar_of() == grammar && built_from(
                &automaton,
                conflict_resolution,
                r,
            ));
        }
        r
    }
}

} // verus!
