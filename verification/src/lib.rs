//! Satisfiability of propositional formulas in conjunctive normal form:
//! a backtracking decision procedure for clauses of any width and an
//! implication-graph procedure for clauses of two literals.

pub mod cnf;
pub mod variables;
pub mod simplify;
pub mod occurrences;
pub mod dpll;
pub mod graph;
pub mod implication;
pub mod components;
pub mod digraph;
pub mod rand_cnf;
