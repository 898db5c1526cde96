//! Construction of LR-family parsing tables from context-free grammars.

pub mod automata;
pub mod grammar;
pub mod index_set;
pub mod table;
pub mod transitive_closure;
