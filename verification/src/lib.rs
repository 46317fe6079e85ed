use vstd::prelude::*;

pub mod dataset;
pub mod generation;
pub mod individual;
pub mod perm;
pub mod rng;
pub mod utils;

verus! {

/// A reason a dataset is refused at construction time.
#[derive(Clone, Copy, Debug, PartialEq, Eq, Structural)]
pub enum ValidationError {
    /// Fewer than two labels were given.
    TooFewNodes,
    /// Two labels are equal.
    DuplicateLabels,
    /// The distance matrix has a row count or a row width that differs from
    /// the label count.
    NonSquareMatrix,
    /// More labels than the engine's arithmetic is sized for.
    TooManyNodes,
    /// A coordinate lies outside the range the engine's arithmetic is sized
    /// for.
    CoordinateOutOfRange,
}

/// An internal step that is expected to always succeed has failed. This
/// reports a construction or parameter defect, not a recoverable runtime
/// condition.
#[derive(Clone, Copy, Debug, PartialEq, Eq, Structural)]
pub enum InvariantViolation {
    /// Every selection weight of a population is zero, so no parent can be
    /// drawn from it.
    DegenerateSelection,
}

} // verus!
