//! The ways to construct a table.

mod lalr1;
mod lr1;
pub use self::lalr1::{lalr1_constructs, LALR1};
pub use self::lr1::{lr1_constructs, LR1};
