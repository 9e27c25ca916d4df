//! The data model of a problem: variables, literals and clauses.
pub use crate::literal::{Literal, Variable, MAX_LITERAL};
pub use crate::clause::Clause;
