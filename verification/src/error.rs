//! The error taxonomy of the engine.

use vstd::prelude::*;

verus! {

/// What can go wrong while statements are processed.
///
/// A unification failure and a lookup of an undefined predicate are not
/// errors: the former silently prunes one search branch, the latter simply
/// yields no candidate rules.
#[derive(Debug, PartialEq)]
pub enum ErrorKind {
    /// The input text could not be parsed; carries the parser's message.
    Parser(String),
    /// A predicate was used with an argument count that contradicts the
    /// one recorded for it: the name, the previously recorded arity and
    /// the offending arity.
    ArityMismatch(String, usize, usize),
    /// A term reached a renaming scope with an identifier already assigned
    /// to the named variable: an internal invariant violation that
    /// well-formed statements never trigger.
    VariableIDAlreadyAssigned(String),
    /// The interactive driver was given an instruction it does not know.
    UnknownInstruction,
}

} // verus!
