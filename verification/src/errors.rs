use vstd::prelude::*;

verus! {

/// Error kinds surfaced by the triangular solvers.
///
/// `SingularMatrix` is a property of the numeric data (a required pivot is
/// missing or zero); `BadStorageType` is returned only by the sparse
/// right-hand-side entry point when the matrix's storage orientation does
/// not match the one the algorithm needs.
#[derive(Clone, Copy, Debug, PartialEq, Eq, Structural)]
pub enum SprsError {
    /// A pivot (diagonal entry) was missing or equal to zero.
    SingularMatrix,
    /// The matrix's storage orientation does not fit the entry point.
    BadStorageType,
}

} // verus!
