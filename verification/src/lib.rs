//! A minimal logic-programming engine: facts and inference rules over
//! predicates with fixed arity, answered by a backtracking search built on
//! first-order unification with an occurs-check.

pub mod ast;
pub mod env;
pub mod error;
pub mod evaluation;
pub mod model;
pub mod unifier;
