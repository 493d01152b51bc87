//! Rewards: what an outcome is worth to one side.
//!
//! A reward is counted in half points, so that a tie is a whole number: a win
//! is worth 2, a tie 1, anything else 0.

use vstd::prelude::*;
use crate::game::{is_decided, Color, End, Game};

verus! {

/// The other side.
pub open spec fn opponent(side: Color) -> Color {
    match side {
        Color::White => Color::Black,
        Color::Black => Color::White,
    }
}

/// The reward of `result` for `player`, in half points.
pub open spec fn reward_halves(result: End, player: Color) -> nat {
    match result {
        End::Tie => 1,
        End::Victory(winner) => if winner == player { 2 } else { 0 },
        End::InProgress => 0,
    }
}

/// 1 if `result` is a win for `player` or a tie, else 0.
pub open spec fn win_or_tie(result: End, player: Color) -> nat {
    match result {
        End::Tie => 1,
        End::Victory(winner) => if winner == player { 1 } else { 0 },
        End::InProgress => 0,
    }
}

/// Whether `end` is a win or a tie.
pub fn victory(end: End) -> (decided: bool)
    ensures
        decided == is_decided(end),
{
    match end {
        End::Victory(_) => true,
        End::Tie => true,
        End::InProgress => false,
    }
}

/// The reward of `result` for `player` in half points: 2 for a win, 1 for a
/// tie, 0 for a loss or a game that is not over.
pub fn get_result_value(result: End, player: Color) -> (value: u64)
    ensures
        value == reward_halves(result, player),
{
    match result {
        End::Tie => 1,
        End::Victory(color) => {
            if color == player {
                2
            } else {
                0
            }
        },
        End::InProgress => 0,
    }
}

/// Counts a tie like a win: 1 for either, 0 otherwise.
pub fn get_tie_or_win(result: End, player: Color) -> (count: u64)
    ensures
        count == win_or_tie(result, player),
{
    match result {
        End::Tie => 1,
        End::Victory(color) => {
            if color == player {
                1
            } else {
                0
            }
        },
        End::InProgress => 0,
    }
}

/// The side that made the move leading into `state`: the opponent of the
/// side that moves next.
pub fn state_previous_player<G: Game>(state: &G) -> (mover: Color)
    ensures
        mover == opponent(state.player_spec()),
{
    match state.player() {
        Color::White => Color::Black,
        Color::Black => Color::White,
    }
}

/// A reward is 0, 1 or 2 half points and the win-or-tie count is 0 or 1;
/// whoever is rewarded at all is counted.
pub proof fn lemma_reward_range(result: End, player: Color)
    ensures
        reward_halves(result, player) == 0 || reward_halves(result, player) == 1
            || reward_halves(result, player) == 2,
        win_or_tie(result, player) == 0 || win_or_tie(result, player) == 1,
        reward_halves(result, player) == 2 ==> win_or_tie(result, player) == 1,
        reward_halves(result, player) == 1 ==> win_or_tie(result, player) == 1,
        reward_halves(result, player) <= 2 * win_or_tie(result, player),
{
}

} // verus!
