//! Minimization of course prerequisites.
//!
//! Requirements are trees of "all of" and "any of" over qualifications (a course
//! taken, a score on an exam). They become formulas in conjunctive normal form over
//! integer symbols; the formulas of all courses form a database in which a symbol
//! stands for its own requirement. Clauses and symbols that the rest of the database
//! already guarantees are removed until none is left, and the results are turned back
//! into trees.
//!
//! - `sum`: clauses, as strictly increasing symbol vectors.
//! - `logic`: formulas and their combinators; the database.
//! - `oracle`: the implication search over the database.
//! - `minimize`: removal of redundant symbols and clauses, with its laws.
//! - `restrictions`, `convert`: qualifications, requirement trees, the symbol table
//!   and the conversions between trees and formulas.
//! - `parse_prerequisite_string`: reading prerequisite texts into trees.
//! - `process`, `subject`: semester ranges, courses and subjects of the catalog.

pub mod sum;
pub mod logic;
pub mod oracle;
pub mod minimize;
pub mod restrictions;
pub mod convert;
pub mod process;
pub mod subject;
pub mod parse_prerequisite_string;
