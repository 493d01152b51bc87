//! The statistics kept for one position.

use vstd::prelude::*;

verus! {

/// What the bandit rule knows about a position.
#[derive(Debug, Copy, Clone, PartialEq, Eq, Structural)]
pub struct UCTData {
    /// The reward gathered so far, in half points.
    pub half_wins: u64,
    /// How many playouts went through the position.
    pub num_plays: u64,
    /// How many of those ended in a win or a tie. Kept for reporting only.
    pub win_tie: u64,
}

impl UCTData {
    /// Statistics with the given reward and play count, and no win or tie
    /// counted yet.
    pub fn new(half_wins: u64, num_plays: u64) -> (data: UCTData)
        ensures
            data == (UCTData { half_wins, num_plays, win_tie: 0 }),
    {
        UCTData { half_wins, num_plays, win_tie: 0 }
    }

    /// The statistics of a position that no playout has gone through.
    pub open spec fn zero() -> UCTData {
        UCTData { half_wins: 0, num_plays: 0, win_tie: 0 }
    }
}

} // verus!
