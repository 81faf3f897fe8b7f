//! The error taxonomy of the library.
//!
//! Every variant is a deterministic precondition or protocol violation;
//! the caller recovers by rejecting the construction or the proof.

use vstd::prelude::*;

verus! {

/// Why a construction, an evaluation, or a proof verification was refused.
#[derive(Clone, Copy, PartialEq, Eq, Structural, Debug)]
pub enum Error {
    /// An evaluation vector's length is not `2^num_vars`.
    InvalidLength,
    /// A polynomial was requested with zero variables.
    InvalidArity,
    /// A variable index at or past the polynomial's arity.
    IndexOutOfRange,
    /// An assignment whose length differs from the arity.
    ArityMismatch,
    /// A gate addresses a slot outside its layer's width.
    WidthMismatch,
    /// A value vector too small to lift to a polynomial.
    ArityTooSmall,
    /// A trace position outside the recorded trace.
    LayerIndexOutOfRange,
    /// A proof whose round count differs from the arity.
    RoundCountMismatch,
    /// A round polynomial inconsistent with the running claim.
    InconsistentRound,
    /// The final claim disagrees with the polynomial's evaluation.
    FinalMismatch,
}

} // verus!
