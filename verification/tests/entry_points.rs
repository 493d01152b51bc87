use monte_carlo::game::{Color, End};
use monte_carlo::nim::Nim;
use monte_carlo::{back_propogate, choose_random, run_simulation, tree_policy, victory, TreePolicyResult, UCTData};
use rand::rngs::StdRng;
use rand::SeedableRng;
use std::collections::{HashMap, HashSet};

fn mean_score(half_wins: u64, plays: u64, _total: u64) -> u64 {
    half_wins * 500 / plays
}

#[test]
fn one_round_by_hand_on_a_heap_of_two() {
    let mut rng = StdRng::seed_from_u64(12);
    let root = Nim::new(2, Color::White);
    let mut visited: HashSet<u64> = HashSet::new();
    let mut stats: HashMap<u64, UCTData> = HashMap::new();
    visited.insert(4);
    stats.insert(4, UCTData::new(0, 0));

    let walk: TreePolicyResult<Nim> = tree_policy(&root, &visited, &stats, &mean_score, &mut rng);
    assert_eq!(walk.path.len(), 2);
    assert_eq!(walk.path[0], root);
    let reached = walk.expanded_node;
    assert!(reached == Nim::new(1, Color::Black) || reached == Nim::new(0, Color::Black));

    let key = 2 * reached.stones as u64 + 1;
    visited.insert(key);
    stats.insert(key, UCTData::new(0, 0));
    let outcome = run_simulation(reached, Color::White, &mut rng);
    // With one stone left Black takes it; with none left White has taken the last.
    let expected = if reached.stones == 1 { Color::Black } else { Color::White };
    assert_eq!(outcome, End::Victory(expected));
    assert!(victory(outcome));

    back_propogate(outcome, &mut stats, &walk.path);
    let white_won = expected == Color::White;
    assert_eq!(stats[&4].num_plays, 1);
    assert_eq!(stats[&4].half_wins, if white_won { 0 } else { 2 });
    assert_eq!(stats[&key].num_plays, 1);
    assert_eq!(stats[&key].half_wins, if white_won { 2 } else { 0 });
    assert_eq!(stats[&key].win_tie, if white_won { 1 } else { 0 });
}

#[test]
fn a_choice_among_the_moves_of_a_heap_is_one_of_them() {
    let mut rng = StdRng::seed_from_u64(3);
    for _ in 0..30 {
        let take = choose_random(&vec![1u8, 2, 3], &mut rng);
        assert!((1..=3).contains(&take));
    }
}
