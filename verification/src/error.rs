//! Why a checked call was turned down.

use vstd::prelude::*;

verus! {

/// The reason a checked operation did nothing.
#[derive(Clone, Copy, Debug, PartialEq, Eq, Structural)]
pub enum DbmError {
    /// A matrix needs at least the reference clock.
    NoClocks,
    /// The square of the number of clocks does not fit a `usize`.
    TooManyClocks,
    /// A clock index is not below the number of clocks.
    ClockOutOfRange,
}

} // verus!
