//! The two-valued search result.

use vstd::prelude::*;

verus! {

/// The result of deciding a formula: some assignment satisfies it, or none
/// does.
#[derive(Debug, Copy, Clone, PartialEq, Eq, Structural)]
pub enum Outcome {
    Satisfiable,
    Unsatisfiable,
}

impl Outcome {
    /// Combination of two branch results: `Unsatisfiable` only if both are.
    ///
    /// Callers must evaluate the positive branch first and may skip the
    /// negative branch once the positive branch yields `Satisfiable`.
    pub fn combine(self, rhs: Outcome) -> (r: Outcome)
        ensures
            (r == Outcome::Unsatisfiable) <==> (self == Outcome::Unsatisfiable && rhs
                == Outcome::Unsatisfiable),
    {
        match (self, rhs) {
            (Outcome::Unsatisfiable, Outcome::Unsatisfiable) => Outcome::Unsatisfiable,
            _ => Outcome::Satisfiable,
        }
    }
}

} // verus!
