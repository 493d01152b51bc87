use monte_carlo::game::{Color, End};
use monte_carlo::reward::{get_result_value, get_tie_or_win, victory};

const SIDES: [Color; 2] = [Color::White, Color::Black];

fn outcomes() -> Vec<End> {
    vec![End::Victory(Color::White), End::Victory(Color::Black), End::Tie, End::InProgress]
}

#[test]
fn a_win_is_worth_two_half_points() {
    assert_eq!(get_result_value(End::Victory(Color::White), Color::White), 2);
    assert_eq!(get_result_value(End::Victory(Color::Black), Color::Black), 2);
}

#[test]
fn a_tie_is_worth_one_half_point_to_either_side() {
    assert_eq!(get_result_value(End::Tie, Color::White), 1);
    assert_eq!(get_result_value(End::Tie, Color::Black), 1);
}

#[test]
fn a_loss_and_an_open_game_are_worth_nothing() {
    assert_eq!(get_result_value(End::Victory(Color::Black), Color::White), 0);
    assert_eq!(get_result_value(End::Victory(Color::White), Color::Black), 0);
    assert_eq!(get_result_value(End::InProgress, Color::White), 0);
    assert_eq!(get_result_value(End::InProgress, Color::Black), 0);
}

#[test]
fn win_or_tie_counts_wins_and_ties_only() {
    assert_eq!(get_tie_or_win(End::Victory(Color::White), Color::White), 1);
    assert_eq!(get_tie_or_win(End::Tie, Color::White), 1);
    assert_eq!(get_tie_or_win(End::Tie, Color::Black), 1);
    assert_eq!(get_tie_or_win(End::Victory(Color::Black), Color::White), 0);
    assert_eq!(get_tie_or_win(End::InProgress, Color::Black), 0);
}

#[test]
fn every_reward_is_in_range_and_counted() {
    for outcome in outcomes() {
        for side in SIDES {
            let reward = get_result_value(outcome, side);
            let counted = get_tie_or_win(outcome, side);
            assert!(reward <= 2);
            assert!(counted <= 1);
            if reward >= 1 {
                assert_eq!(counted, 1);
            }
        }
    }
}

#[test]
fn victory_tells_decided_games_from_open_ones() {
    assert!(victory(End::Victory(Color::White)));
    assert!(victory(End::Victory(Color::Black)));
    assert!(victory(End::Tie));
    assert!(!victory(End::InProgress));
}
