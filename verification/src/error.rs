use vstd::prelude::*;

verus! {

/// Everything that can go wrong while computing a transport distance.
///
/// Every failure is detected synchronously and reported to the immediate
/// caller; a call either fully succeeds with an exact distance or fails
/// with no partial result.
#[derive(Debug, Clone, Copy, PartialEq, Eq, Structural)]
pub enum Error {
    /// A mass value is malformed (for the integer entry points: the flat
    /// data of a grid does not match its shape, or a row of a matrix has
    /// the wrong length).
    InvalidInput,
    /// The two distributions do not share an identical shape (or length).
    ShapeMismatch,
    /// The total masses of the two distributions differ, so the
    /// transportation problem has no solution.
    ImbalancedMass,
    /// Both distributions carry zero total mass.
    EmptyInput,
    /// Defensive guard: the pivot loop hit its iteration cap or an internal
    /// invariant of the solver failed. Unreachable for a correct solver.
    SolverDidNotConverge,
}

} // verus!
