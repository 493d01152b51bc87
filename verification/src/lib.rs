//! Monte Carlo tree search for two-player games with alternating moves and
//! perfect information.
//!
//! A search keeps statistics for the positions it has met and repeats four
//! steps while its time lasts:
//!
//! 1. selection and expansion ([`policy`]): a walk from the root through
//!    positions whose moves have all been tried, taking at each the child
//!    with the greatest bandit score, until a move leads somewhere new;
//! 2. simulation ([`simulation`]): random play from there to the end of the
//!    game;
//! 3. backpropagation ([`backprop`]): the outcome is credited to every
//!    position of the walk, as seen by the side that moved into it;
//! 4. and, when time is up ([`search`], [`finalize`]): the move at the root
//!    whose position was visited most is the answer.
//!
//! The game is whatever implements [`game::Game`]; [`nim`] is a small one.
//! Statistics are kept by the key of a position, so that two orders of moves
//! that reach the same position share them. Rewards are counted in half
//! points ([`reward`], [`stats`]), which keeps them whole numbers. The bandit
//! score is a function that the caller hands in: the search says which
//! questions it puts to it and takes the answers as they come.

pub mod backprop;
pub mod clock;
pub mod finalize;
pub mod game;
pub mod nim;
pub mod policy;
pub mod random;
pub mod reward;
pub mod search;
pub mod simulation;
pub mod stats;

pub use crate::backprop::back_propogate;
pub use crate::policy::{tree_policy, TreePolicyResult};
pub use crate::random::choose_random;
pub use crate::reward::victory;
pub use crate::search::tree_search;
pub use crate::simulation::run_simulation;
pub use crate::stats::UCTData;
