//! The round counts that the circuits and the plain sponge share.

use vstd::prelude::*;

verus! {

/// The number of rounds that raise every word of the state.
pub const FULL_ROUND: usize = 8;

/// The number of rounds that raise the first word only.
pub const PARTIAL_ROUND: usize = 57;

} // verus!
