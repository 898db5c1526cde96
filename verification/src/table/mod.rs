//! The ACTION/GOTO table, its construction from an automaton, and the
//! parser that runs on it.

mod table;
pub use self::table::{
    action_fine, blank_row, built_from, cell_fine, conflict_in_state, drawn, drawn_from,
    hands_back, holds_complete, item_done, item_failed,
    la_err, la_ok, lemma_flat_index, never_fails, reduce_into, reduce_step, row_err, row_fine,
    row_ok, row_settled, shift_into, shift_step, word_before,
    Action, LR1Table, NaiveLR1Table, Reduction, START_STATE,
};

mod construct;
pub use self::construct::{Conflict, ConstructionError, LR1TableConstruction};

mod competing;
pub use self::competing::{
    accept_clear, accept_free, accept_is_clear, accepts_at, arbitrated, asks_end, end_free,
    granted, lemma_conflict_named, lemma_end_kept, lemma_no_competition, lemma_wishes_granted,
    rejects_all, wish,
};

mod derivation;
pub use self::derivation::{
    lemma_derives_push, lemma_derives_reduce, lemma_reversed_push, lemma_terminals_push,
    reversed, rm_derives, rm_step, terminals,
};

mod parse;
pub use self::parse::{
    accepts_all, acted, advanced, begun, behind, classified, front, initial, labelled,
    lemma_depth, lemma_descend, lemma_left_start, looked_up, on_path, stepped, token_of, Event,
    Parse, ParseError, ParseState,
};

mod machine;
pub use self::machine::{
    accepts_in, ahead, due, lemma_runs_join, lemma_steps_all_len, lemma_steps_join, lemma_steps_len,
    lemma_steps_shift, lemma_trace_join, lemma_trace_len, made, moved, moves, runs, steps_all,
    steps_of, trace, Config, Move,
};

mod tracking;
pub use self::tracking::{
    behind_classes, classes_of, lemma_parsed_run, lemma_tracked_action, lemma_tracked_run,
    lemma_tracked_step, lookahead_of, parsed, parses_as, reported, tracks,
};

mod sentence;
pub use self::sentence::{
    lemma_accepted_by_lr1, lemma_kids_run, lemma_parsed_by_lr1, lemma_run_tree,
    lemma_sentence_accepted, lemma_sentence_parsed, lemma_table_for, lemma_tree_run, table_for,
    table_of_lr1,
};

mod lalr_sentence;
pub use self::lalr_sentence::{
    lemma_accepted_by_lalr, lemma_lalr_kids_run, lemma_lalr_sentence_accepted,
    lemma_lalr_sentence_parsed, lemma_lalr_tree_run, lemma_parsed_by_lalr, lemma_tables_agree,
    table_of_lalr,
};

pub mod strategy;
