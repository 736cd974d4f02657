//! A DPLL-based satisfiability solver for boolean formulas in conjunctive
//! normal form, together with a parser for the DIMACS text format.
//!
//! The solver decides whether some assignment of truth values makes every
//! clause of a formula true.  Its central data structure is a
//! partial-assignment view of the formula that classifies each clause as
//! satisfied, falsified, or still undetermined while literals are decided.

pub mod cnf;
pub mod dimacs_parser;
pub mod semantics;
pub mod solver;

pub use crate::cnf::OwnedCNF as CNF;
pub use crate::dimacs_parser::parse_from_dimacs_str;
pub use crate::dimacs_parser::ParseError;
pub use crate::solver::outcome::Outcome;
pub use crate::solver::solve;
