//! The conditions that end a run.

use vstd::prelude::*;

verus! {

/// Why a run could not start or could not go on. None of these is recovered from.
#[derive(Debug, Clone, Copy, PartialEq, Eq, Structural)]
pub enum Error {
    /// The configuration is not one that a run can be made from.
    Configuration,
    /// The targets do not all have the same length.
    TargetMismatch,
    /// A seek or a write on a target failed.
    Io,
    /// A generator was asked for that does not have full period over its
    /// modulus: the modulus is not a power of two (zero is none), the seed does
    /// not lie below the modulus, or the modulus that a range of blocks needs
    /// does not fit the machine word.
    DegenerateGenerator,
}

} // verus!
