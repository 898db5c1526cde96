//! Items, item sets and the LR automata built from them.

mod lr0_item;
mod lr1_item;
pub use self::{lr0_item::LR0Item, lr1_item::LR1Item};

mod goto_map;
pub use self::goto_map::{keys_distinct, lookup, GotoMap};

mod lr_automaton;
pub use self::lr_automaton::{DottedItem, LRAutomaton};

mod lalr1a;
mod lr0a;
mod lr1a;
pub use self::{
    lalr1a::{
        classes, dr_set, follow_set, goto_of, holds, includes_at, includes_fn, includes_rel,
        is_transition, item_la, la_set, lemma_la_bounded, lemma_transition_items, lemma_walk,
        lookahead_ok, lookback_at,
        lookback_ok, lookback_rel, read_set, reads_fn, reads_rel, target_of, walk, LALR1ABuilder,
        LALR1ItemProxy, LALR1ItemSet, NonterminalTransition, StateReductionPair, LALR1A,
    },
    lr0a::{lemma_lr0_fresh, lemma_lr0_kernel, lemma_lr0_variable, radix, LR0ABuilder, State, LR0A},
    lr1a::{
        carried, lemma_lr1_fresh, lemma_lr1_kernel, lemma_lr1_variable, LR1ABuilder, LR1ItemProxy,
        LR1ItemSet, LR1A,
    },
};

// =================
// === INTERNALS ===
// =================

mod inner;
pub use self::inner::{
    canonical_collection, close_items, closure_of, derives_in, entered, enters, find_item_set,
    found_before, found_in_order, goto_seed, item_before,
    has_dot, insert_ranked, item_set_ok, lemma_closure_closed, lemma_closure_idempotent,
    lemma_brought_in, lemma_fresh_item, lemma_goto_member, lemma_last_step,
    lemma_ranked_unique,
    lemma_seed_member, lemma_state_seed, lemma_target_kernel,
    lemma_state_closed, lemma_state_step, rank_set, ranked,
    same_items, state_closed, BuildItemSets, ItemModel,
};
