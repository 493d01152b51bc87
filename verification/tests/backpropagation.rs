use monte_carlo::backprop::back_propogate;
use monte_carlo::game::{Color, End, Game};
use monte_carlo::reward::state_previous_player;
use monte_carlo::stats::UCTData;
use std::collections::HashMap;

/// A position that is nothing but its key and the side to move.
#[derive(Clone, Copy)]
struct Marked {
    key: u64,
    player: Color,
}

impl Game for Marked {
    type Move = u8;

    fn key(&self) -> u64 {
        self.key
    }

    fn player(&self) -> Color {
        self.player
    }

    fn legal_moves(&self, _color: Color) -> Vec<u8> {
        Vec::new()
    }

    fn place(&self, _mv: &u8) -> Marked {
        *self
    }

    fn win(&self) -> End {
        End::InProgress
    }

    fn default_move() -> u8 {
        0
    }
}

fn white_to_move(key: u64) -> Marked {
    Marked { key, player: Color::White }
}

fn black_to_move(key: u64) -> Marked {
    Marked { key, player: Color::Black }
}

fn zeroed(keys: &[u64]) -> HashMap<u64, UCTData> {
    keys.iter().map(|key| (*key, UCTData::new(0, 0))).collect()
}

fn entry(half_wins: u64, num_plays: u64, win_tie: u64) -> UCTData {
    UCTData { half_wins, num_plays, win_tie }
}

#[test]
fn the_previous_mover_is_the_opponent_of_the_side_to_move() {
    assert_eq!(state_previous_player(&white_to_move(1)), Color::Black);
    assert_eq!(state_previous_player(&black_to_move(1)), Color::White);
}

#[test]
fn new_statistics_start_without_a_win_or_tie() {
    assert_eq!(UCTData::new(0, 0), entry(0, 0, 0));
    assert_eq!(UCTData::new(5, 3), entry(5, 3, 0));
}

#[test]
fn a_win_is_credited_to_the_positions_the_winner_moved_into() {
    let mut stats = zeroed(&[1, 2, 3]);
    let path = vec![white_to_move(1), black_to_move(2), white_to_move(3)];
    back_propogate(End::Victory(Color::White), &mut stats, &path);
    assert_eq!(stats[&1], entry(0, 1, 0));
    assert_eq!(stats[&2], entry(2, 1, 1));
    assert_eq!(stats[&3], entry(0, 1, 0));
}

#[test]
fn a_win_of_the_other_side_is_credited_the_other_way_round() {
    let mut stats = zeroed(&[1, 2, 3]);
    let path = vec![white_to_move(1), black_to_move(2), white_to_move(3)];
    back_propogate(End::Victory(Color::Black), &mut stats, &path);
    assert_eq!(stats[&1], entry(2, 1, 1));
    assert_eq!(stats[&2], entry(0, 1, 0));
    assert_eq!(stats[&3], entry(2, 1, 1));
}

#[test]
fn a_tie_brings_every_position_half_a_point() {
    let mut stats = zeroed(&[1, 2]);
    let path = vec![white_to_move(1), black_to_move(2)];
    back_propogate(End::Tie, &mut stats, &path);
    assert_eq!(stats[&1], entry(1, 1, 1));
    assert_eq!(stats[&2], entry(1, 1, 1));
}

#[test]
fn an_open_game_counts_as_a_play_and_nothing_else() {
    let mut stats = zeroed(&[1, 2]);
    let path = vec![white_to_move(1), black_to_move(2)];
    back_propogate(End::InProgress, &mut stats, &path);
    assert_eq!(stats[&1], entry(0, 1, 0));
    assert_eq!(stats[&2], entry(0, 1, 0));
}

#[test]
fn the_credit_is_added_to_what_is_there() {
    let mut stats = HashMap::new();
    stats.insert(1, entry(7, 10, 5));
    stats.insert(2, entry(20, 12, 11));
    let path = vec![white_to_move(1), black_to_move(2)];
    back_propogate(End::Victory(Color::White), &mut stats, &path);
    assert_eq!(stats[&1], entry(7, 11, 5));
    assert_eq!(stats[&2], entry(22, 13, 12));
}

#[test]
fn a_position_without_statistics_is_passed_over() {
    let mut stats = zeroed(&[1]);
    let path = vec![white_to_move(1), black_to_move(2)];
    back_propogate(End::Victory(Color::White), &mut stats, &path);
    assert_eq!(stats.len(), 1);
    assert_eq!(stats[&1], entry(0, 1, 0));
    assert!(!stats.contains_key(&2));
}

#[test]
fn positions_off_the_path_keep_their_statistics() {
    let mut stats = zeroed(&[1, 2]);
    stats.insert(9, entry(3, 4, 2));
    let path = vec![white_to_move(1), black_to_move(2)];
    back_propogate(End::Tie, &mut stats, &path);
    assert_eq!(stats[&9], entry(3, 4, 2));
    assert_eq!(stats.len(), 3);
}

#[test]
fn an_empty_path_changes_nothing() {
    let mut stats = zeroed(&[1]);
    let path: Vec<Marked> = Vec::new();
    back_propogate(End::Victory(Color::White), &mut stats, &path);
    assert_eq!(stats[&1], entry(0, 0, 0));
    assert_eq!(stats.len(), 1);
}

#[test]
fn a_position_that_lies_twice_on_the_path_is_credited_twice() {
    let mut stats = zeroed(&[1, 2]);
    let path = vec![black_to_move(1), white_to_move(2), black_to_move(1)];
    back_propogate(End::Victory(Color::White), &mut stats, &path);
    assert_eq!(stats[&1], entry(4, 2, 2));
    assert_eq!(stats[&2], entry(0, 1, 0));
}

#[test]
fn plays_count_the_backpropagations_through_a_position() {
    let mut stats = zeroed(&[1, 2, 3]);
    let through_two = vec![white_to_move(1), black_to_move(2)];
    let through_three = vec![white_to_move(1), black_to_move(3)];
    for round in 0..30u64 {
        let path = if round % 3 == 0 { &through_three } else { &through_two };
        back_propogate(End::Tie, &mut stats, path);
    }
    assert_eq!(stats[&1].num_plays, 30);
    assert_eq!(stats[&2].num_plays, 20);
    assert_eq!(stats[&3].num_plays, 10);
    assert_eq!(stats[&1].half_wins, 30);
    assert_eq!(stats[&1].win_tie, 30);
}

#[test]
fn the_order_of_the_path_does_not_matter() {
    let mut forward = zeroed(&[1, 2, 3]);
    let mut backward = zeroed(&[1, 2, 3]);
    let path = vec![white_to_move(1), black_to_move(2), white_to_move(3)];
    let reversed = vec![white_to_move(3), black_to_move(2), white_to_move(1)];
    back_propogate(End::Victory(Color::Black), &mut forward, &path);
    back_propogate(End::Victory(Color::Black), &mut backward, &reversed);
    assert_eq!(forward, backward);
}
