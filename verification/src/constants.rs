//! Solver-wide defaults.
use vstd::prelude::*;

verus! {

/// Maximum number of players the trainer supports.
pub const MAX_PLAYERS: usize = 3;

/// Number of players the trainer is configured for by default.
pub const NUM_PLAYERS: usize = 2;

/// Default all-in threshold, in thousandths of the remaining stack.
pub const ALLIN_THRESHOLD: u32 = 670;

/// Default maximum raises per street (2: at most a 3-bet).
pub const MAX_RAISES: u8 = 2;

} // verus!
