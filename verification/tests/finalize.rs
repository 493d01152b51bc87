use monte_carlo::finalize::{
    candidates, mean_exceeds, most_visited, optimal_move_highest_win, optimal_move_most_visisted,
};
use monte_carlo::game::Color;
use monte_carlo::nim::Nim;
use monte_carlo::stats::UCTData;
use std::collections::HashMap;

fn played(num_plays: u64) -> UCTData {
    UCTData { half_wins: 0, num_plays, win_tie: 0 }
}

fn rewarded(half_wins: u64, num_plays: u64) -> UCTData {
    UCTData { half_wins, num_plays, win_tie: 0 }
}

#[test]
fn most_visited_takes_the_greatest_play_count() {
    let moves = vec![('a', played(3)), ('b', played(5)), ('c', played(4))];
    assert_eq!(optimal_move_most_visisted(&moves, '-'), 'b');
    let moves = vec![('a', played(1)), ('b', played(2)), ('c', played(9))];
    assert_eq!(optimal_move_most_visisted(&moves, '-'), 'c');
}

#[test]
fn most_visited_keeps_the_earlier_of_equal_counts() {
    let moves = vec![('a', played(2)), ('b', played(7)), ('c', played(7))];
    assert_eq!(optimal_move_most_visisted(&moves, '-'), 'b');
    let moves = vec![('a', played(4)), ('b', played(4))];
    assert_eq!(optimal_move_most_visisted(&moves, '-'), 'a');
}

#[test]
fn most_visited_takes_the_first_move_when_nothing_was_played() {
    let moves = vec![('a', played(0)), ('b', played(0))];
    assert_eq!(optimal_move_most_visisted(&moves, '-'), 'a');
    assert_eq!(optimal_move_most_visisted(&vec![('z', played(0))], '-'), 'z');
}

#[test]
fn most_visited_without_a_candidate_is_the_fallback() {
    let moves: Vec<(char, UCTData)> = Vec::new();
    assert_eq!(optimal_move_most_visisted(&moves, '-'), '-');
}

#[test]
fn most_visited_does_not_look_at_the_reward() {
    let moves = vec![('a', rewarded(20, 10)), ('b', rewarded(0, 11))];
    assert_eq!(optimal_move_most_visisted(&moves, '-'), 'b');
}

#[test]
fn mean_exceeds_compares_the_averages_exactly() {
    // 3/4 against 2/3 of a half point per play.
    assert!(mean_exceeds(&rewarded(3, 4), &rewarded(2, 3)));
    assert!(!mean_exceeds(&rewarded(2, 3), &rewarded(3, 4)));
    // 2/4 and 1/2 are the same average.
    assert!(!mean_exceeds(&rewarded(2, 4), &rewarded(1, 2)));
    assert!(!mean_exceeds(&rewarded(1, 2), &rewarded(2, 4)));
}

#[test]
fn mean_exceeds_counts_no_plays_as_an_average_of_zero() {
    assert!(mean_exceeds(&rewarded(1, 9), &rewarded(0, 0)));
    assert!(!mean_exceeds(&rewarded(0, 0), &rewarded(1, 9)));
    assert!(!mean_exceeds(&rewarded(0, 5), &rewarded(0, 0)));
    assert!(!mean_exceeds(&rewarded(7, 0), &rewarded(0, 3)));
}

#[test]
fn mean_exceeds_holds_for_the_greatest_counts() {
    let most = rewarded(u64::MAX, u64::MAX);
    let nearly = rewarded(u64::MAX - 1, u64::MAX);
    assert!(mean_exceeds(&most, &nearly));
    assert!(!mean_exceeds(&nearly, &most));
    assert!(!mean_exceeds(&most, &most));
}

#[test]
fn highest_win_takes_the_greatest_average_reward() {
    let moves = vec![('a', rewarded(10, 10)), ('b', rewarded(3, 2)), ('c', rewarded(40, 50))];
    assert_eq!(optimal_move_highest_win(&moves, '-'), 'b');
}

#[test]
fn highest_win_keeps_the_earlier_of_equal_averages() {
    let moves = vec![('a', rewarded(1, 4)), ('b', rewarded(2, 4)), ('c', rewarded(1, 2))];
    assert_eq!(optimal_move_highest_win(&moves, '-'), 'b');
    let moves = vec![('a', rewarded(0, 3)), ('b', rewarded(0, 0))];
    assert_eq!(optimal_move_highest_win(&moves, '-'), 'a');
}

#[test]
fn highest_win_without_a_candidate_is_the_fallback() {
    let moves: Vec<(u8, UCTData)> = Vec::new();
    assert_eq!(optimal_move_highest_win(&moves, 255), 255);
}

#[test]
fn the_two_strategies_can_disagree() {
    let moves = vec![('a', rewarded(10, 20)), ('b', rewarded(6, 3))];
    assert_eq!(optimal_move_most_visisted(&moves, '-'), 'a');
    assert_eq!(optimal_move_highest_win(&moves, '-'), 'b');
}

#[test]
fn candidates_pair_each_move_with_the_statistics_of_its_position() {
    let root = Nim::new(5, Color::White);
    let mut stats = HashMap::new();
    // Taking 1, 2 or 3 of 5 stones leaves 4, 3 or 2 with Black to move.
    stats.insert(2 * 4 + 1, rewarded(6, 4));
    stats.insert(2 * 3 + 1, rewarded(1, 2));
    stats.insert(2 * 2 + 1, rewarded(0, 7));
    let list = candidates(&root, &stats);
    assert_eq!(list, vec![(1, rewarded(6, 4)), (2, rewarded(1, 2)), (3, rewarded(0, 7))]);
}

#[test]
fn candidates_give_an_unknown_position_zero_statistics() {
    let root = Nim::new(2, Color::Black);
    let mut stats = HashMap::new();
    stats.insert(2 * 1, rewarded(2, 1));
    let list = candidates(&root, &stats);
    assert_eq!(list, vec![(1, rewarded(2, 1)), (2, rewarded(0, 0))]);
}

#[test]
fn candidates_of_a_position_without_moves_are_none() {
    let root = Nim::new(0, Color::White);
    let stats = HashMap::new();
    assert!(candidates(&root, &stats).is_empty());
}

#[test]
fn most_visited_is_the_first_index_of_the_greatest_count() {
    assert_eq!(most_visited(&vec![('a', played(3)), ('b', played(5)), ('c', played(4))]), 1);
    assert_eq!(most_visited(&vec![('a', played(6)), ('b', played(6))]), 0);
    assert_eq!(most_visited(&vec![('a', played(0)), ('b', played(0)), ('c', played(1))]), 2);
    assert_eq!(most_visited(&vec![('a', played(0))]), 0);
}
