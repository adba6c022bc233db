//! The rules-validation entry point, which has no checks written yet.

use vstd::prelude::*;

verus! {

/// The rules validator.
pub struct Rules;

/// Why a legality check did not pass.
#[derive(Debug, Clone, Copy, PartialEq, Eq, Structural)]
pub enum RulesError {
    /// No legality rules have been written, so nothing can be vouched for.
    NotImplemented,
}

impl Rules {
    pub fn new() -> (rules: Self)
        ensures
            rules == (Rules {}),
    {
        Rules
    }

    /// Check the legality of the game. No rule is implemented, so the check never passes.
    pub fn validate_legality(&self) -> (result: Result<(), RulesError>)
        ensures
            result == Err::<(), RulesError>(RulesError::NotImplemented),
    {
        Err(RulesError::NotImplemented)
    }
}

} // verus!
