//! A conflict-driven clause-learning SAT solver whose core is verified.
//!
//! - `literal`, `clause`, `cnf`: variables, packed literals, normalised
//!   clauses, and what it means for a valuation to satisfy them.
//! - `clause_store`, `clause_index`: the clause arena with occurrence lists,
//!   and the per-clause count of unresolved variables.
//! - `assignment_set`, `trail`, `knowledge_graph`: the cumulative
//!   assignment, the trail of decision levels, and the implication graph.
//! - `unit_propagator`, `backtrack`, `dfs`: propagation, 1UIP conflict
//!   analysis, and the search loop, with `state` holding the invariant that
//!   ties them together.
//! - `variable_registry`, `problem_builder`, `dimacs`: naming variables,
//!   the Tseitin builder, and the DIMACS reader and writer.
pub mod literal;
pub mod decimal;
pub mod cnf;
pub mod sorted_vec;
pub mod clause;
pub mod assignment_set;
pub mod trail;
pub mod clause_store;
pub mod clause_index;
pub mod knowledge_graph;
pub mod state;
pub mod unit_propagator;
pub mod backtrack;
pub mod dfs;
pub mod variable_registry;
pub mod problem_builder;
pub mod dimacs;
pub mod instance;
pub mod solver;
