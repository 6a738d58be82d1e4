//! The error taxonomy shared by the compiler, the table loader, the matching
//! engine and the witness assertion logic.

use vstd::prelude::*;

verus! {

/// Every failure the library reports, as a distinguishable kind.
#[derive(Clone, Copy, PartialEq, Eq, Structural, Debug)]
pub enum RegexError {
    /// A fragment pattern outside the supported finite-automaton grammar,
    /// or one whose derivative automaton exceeds the state budget.
    InvalidPattern,
    /// An empty fragment list.
    InvalidConfig,
    /// Transition-table text that cannot be parsed.
    MalformedTable,
    /// Two public fragments could claim the same input position.
    OverlapViolation,
    /// An input or claim extending past the maximum string length.
    LengthExceeded,
    /// Success-mode assertion found a mismatch.
    AssertionFailure,
    /// Failure-mode assertion found the sequences equal everywhere.
    UnexpectedMatch,
}

} // verus!
