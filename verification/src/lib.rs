//! A DPLL-style SAT solver over bit-packed clauses.
//!
//! A clause is a pair of bit vectors over the variables (positive and
//! negative occurrences).  The solver keeps its clauses sorted by
//! cardinality, simplifies the set by tautology removal, subsumption,
//! self-subsumption and pure-literal elimination, and decides
//! satisfiability by branching on a literal of the smallest clause.

pub mod arena;
pub mod bits;
pub mod bitvec;
pub mod clause;
pub mod clause_set;
pub mod logic;
pub mod problem;
pub mod solver;
pub mod utils;
