//! LR(1) parser generator: grammar analysis, canonical collection of LR(1)
//! item sets, ACTION/GOTO tables and a shift-reduce driver.
mod bounds;
mod canonical_collections;
mod first;
mod grammar;
mod item;
mod item_set;
mod parser;
mod regex_ast;
mod rule;
mod symbol;
mod table;
mod tables;
mod utils;

pub use canonical_collections::canonical_collections;
pub use grammar::{Grammar, GrammarError};
pub use item::Item;
pub use item_set::{CanonicalCollection, closure, goto};
pub use parser::{Driver, ParseResult, Step, parse};
pub use regex_ast::{Alternation, Concatenation, Escape, Expr, Group, KleeneStar, Literal};
pub use rule::{Rule, RuleId};
pub use symbol::Symbol;
pub use table::Table;
pub use tables::{Action, TableError, build_tables, fill_tables};
pub use utils::DFA;
