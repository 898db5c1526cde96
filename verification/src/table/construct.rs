use vstd::prelude::*;
use super::table::{drawn, never_fails, Action, LR1Table, NaiveLR1Table};
use crate::grammar::Grammar;

verus! {

/// Why a table could not be built: the conflict that the resolver handed
/// back, and the state in whose row it arose.
#[derive(Debug, PartialEq, Eq)]
pub struct ConstructionError {
    pub state: usize,
    pub conflict: Conflict,
}

/// Two actions compete for one table entry.
#[derive(Debug, Clone, Copy, PartialEq, Eq)]
pub enum Conflict {
    /// On `word`, shift to `next_state` or reduce by `production`.
    ShiftReduce { word: usize, next_state: usize, production: usize },
    /// Reduce by `production1`, entered first, or by `production2`.
    ReduceReduce { production1: usize, production2: usize },
}

/// A way to construct the table of a grammar.
pub trait LR1TableConstruction {
    /// The table of `grammar`. Where two actions compete for an entry,
    /// `conflict_resolution` decides: the action it returns is entered; the
    /// conflict it returns ends the construction, and comes back with the
    /// state in whose row it arose.
    fn construct<F: Fn(Conflict) -> Result<Action, Conflict>>(
        grammar: &Grammar,
        conflict_resolution: F,
    ) -> (r: Result<NaiveLR1Table, ConstructionError>)
        requires
            grammar.wf(),
            forall|c: Conflict| conflict_resolution.requires((c,)),
        ensures
            never_fails(conflict_resolution) ==> r is Ok,
            drawn(conflict_resolution) ==> (r matches Ok(table) ==> table.wf()),
    ;
}

} // verus!
