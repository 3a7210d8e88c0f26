//! The ways in which building a run or a value can fail.

use vstd::prelude::*;

verus! {

/// Why a run or a value could not be built.
#[derive(Debug, Clone, Copy, PartialEq, Eq, Structural)]
pub enum Error {
    /// The length of a run is not a power of two.
    InvalidLength,
    /// The value does not have the shape of a uniform run.
    NotAUniformRun,
    /// The number of bits is not a multiple of eight.
    MisalignedByteLength,
    /// The bits ran out before the type was fully decoded.
    OutOfBits,
}

} // verus!
