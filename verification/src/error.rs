//! The ways in which a run can fail.

use vstd::prelude::*;

verus! {

/// Why a configuration was refused or a count could not be kept.
#[derive(Debug, Clone, Copy, PartialEq, Eq, Structural)]
pub enum Error {
    /// The minimum n-gram length is zero.
    ZeroLength,
    /// The maximum n-gram length is below the minimum.
    EmptyRange,
    /// A count would exceed the largest number that the machine can hold.
    CountOverflow,
}

} // verus!
