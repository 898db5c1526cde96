//! Context-free grammars and the classical analyses over them.

mod grammar;
pub use self::grammar::{
    Alternatives, Grammar, GrammarBuildError, GrammarBuilder, ProductionView, Productions, Rule,
    RuleView, Rules, Symbol,
};

mod nullability;
pub use self::nullability::{
    alt_flagged, derives_empty, lemma_nullable_mono, lemma_start_nullable, nullability,
    nullable_stage, nullable_within, symbol_flag, var_flagged,
};

mod nullable;
pub use self::nullable::Nullable;

mod first;
pub use self::first::{
    begins_with, compute_var_firsts, first_set, first_stage, in_first, lemma_first_bounded,
    nullable_prefix, starts, symbol_nullable, First,
};

mod follow;
pub use self::follow::{
    add_first, classes_ascending, compute_var_follows, feeds_set, first_classes, follow_set,
    follow_stage, in_follow, lemma_feeds_end, lemma_feeds_terminal, lemma_feeds_variable,
    lemma_follow_end, occurs, symbol_first, tail_first, tail_nullable, within, Follow,
};

mod tree;
pub use self::tree::{
    derives, first_part, fringe, fringe_of, head_of, lemma_first_part, lemma_fringe_join,
    lemma_fringe_part, lemma_fringe_shift, lemma_nullable_later, lemma_tree_feeds, lemma_tree_first, lemma_tree_nullable,
    lemma_weight_part, weight, weight_of, Tree,
};
