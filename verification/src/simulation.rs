//! Simulation: a random playout from a position to the end of the game.

use rand::rngs::StdRng;
use vstd::prelude::*;
use crate::game::{follows, is_leaf, moves_of, moves_shorten, Color, End, Game};
use crate::random::choose_random;
use crate::reward::victory;

verus! {

/// A playout: every position but the last is open and has a legal move that
/// leads to the next one; the last is a leaf.
pub open spec fn is_playout<G: Game>(trail: Seq<G>) -> bool {
    &&& trail.len() >= 1
    &&& forall|i: int|
        0 <= i < trail.len() - 1 ==> !is_leaf(#[trigger] trail[i]) && follows(trail[i], trail[i + 1])
    &&& is_leaf(trail.last())
}

/// Whether some playout from `start` ends in a position that reports
/// `outcome`.
pub open spec fn can_end_in<G: Game>(start: G, outcome: End) -> bool {
    exists|trail: Seq<G>|
        #[trigger] is_playout(trail) && trail[0] == start && trail.last().win_spec() == outcome
}

/// Plays random legal moves from `state` until the game is won or tied or the
/// side to move has no move, and returns what the last position reports. A
/// position without moves that is not decided reports a game in progress.
///
/// `player` is the side for which the caller will score the outcome; the
/// outcome itself does not depend on it.
#[allow(unused_variables)]
pub fn run_simulation<G: Game>(state: G, player: Color, rng: &mut StdRng) -> (outcome: End)
    requires
        moves_shorten::<G>(),
    ensures
        can_end_in(state, outcome),
{
    let mut current_state = state;
    let ghost mut trail = seq![state];
    while !victory(current_state.win())
        invariant
            moves_shorten::<G>(),
            trail.len() >= 1,
            trail[0] == state,
            trail.last() == current_state,
            forall|i: int|
                0 <= i < trail.len() - 1 ==> !is_leaf(#[trigger] trail[i]) && follows(
                    trail[i],
                    trail[i + 1],
                ),
        ensures
            is_leaf(current_state),
        decreases current_state.plies_left(),
    {
        let current_player = current_state.player();
        let possible_moves = current_state.legal_moves(current_player);
        if possible_moves.len() < 1 {
            break;
        }
        let random_move = choose_random(&possible_moves, rng);
        let next_state = current_state.place(&random_move);
        proof {
            let i = choose|i: int| 0 <= i < possible_moves.len() && random_move == possible_moves[i];
            assert(next_state == current_state.place_spec(moves_of(current_state)[i]));
            trail = trail.push(next_state);
        }
        current_state = next_state;
    }
    assert(is_playout(trail));
    current_state.win()
}

} // verus!
