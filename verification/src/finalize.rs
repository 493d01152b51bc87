//! The last step of a search: naming a move by the statistics of the
//! positions that the moves at the root lead to.

use std::collections::HashMap;
use vstd::prelude::*;
use crate::game::{moves_of, Game};
use crate::policy::{child, is_first_maximum};
use crate::stats::UCTData;

verus! {

broadcast use vstd::std_specs::hash::group_hash_axioms;

/// The statistics of `key`, or those of a position never played through
/// where none are kept.
pub open spec fn data_or_zero(stats: Map<u64, UCTData>, key: u64) -> UCTData {
    if stats.contains_key(key) {
        stats[key]
    } else {
        UCTData::zero()
    }
}

/// The legal moves at `root`, each with the statistics of the position it
/// leads to.
pub open spec fn candidates_spec<G: Game>(root: G, stats: Map<u64, UCTData>) -> Seq<
    (G::Move, UCTData),
> {
    Seq::new(
        moves_of(root).len(),
        |i: int| (moves_of(root)[i], data_or_zero(stats, child(root, i).key_spec())),
    )
}

/// The play counts of a list of candidates.
pub open spec fn plays_of<M>(candidates: Seq<(M, UCTData)>) -> Seq<u64> {
    Seq::new(candidates.len(), |i: int| candidates[i].1.num_plays)
}

/// `best` is the candidate with the most plays, the first of them if several
/// share the count, or `fallback` if there is no candidate.
pub open spec fn is_most_visited<M>(candidates: Seq<(M, UCTData)>, fallback: M, best: M) -> bool {
    if candidates.len() == 0 {
        best == fallback
    } else {
        exists|i: int| #[trigger] is_first_maximum(plays_of(candidates), i) && best == candidates[i].0
    }
}

/// `best` is the answer of a search from `root` that has gathered `stats`.
pub open spec fn is_robust_choice<G: Game>(root: G, stats: Map<u64, UCTData>, best: G::Move) -> bool {
    is_most_visited(candidates_spec(root, stats), G::default_move_spec(), best)
}

/// `found` is the answer of a search from `root` that has gathered `stats`,
/// together with the statistics of the position that the answer leads to. A
/// root without a legal move has the default move and zero statistics.
pub open spec fn is_report<G: Game>(root: G, stats: Map<u64, UCTData>, found: (G::Move, UCTData)) -> bool {
    let list = candidates_spec(root, stats);
    if list.len() == 0 {
        found == (G::default_move_spec(), UCTData::zero())
    } else {
        exists|i: int| #[trigger] is_first_maximum(plays_of(list), i) && found == list[i]
    }
}

/// The index of the candidate with the most plays, the first of them if
/// several share the count.
pub fn most_visited<M>(possible_moves: &Vec<(M, UCTData)>) -> (best: usize)
    requires
        possible_moves.len() > 0,
    ensures
        is_first_maximum(plays_of(possible_moves@), best as int),
{
    let mut best: usize = 0;
    let mut most_played: u64 = possible_moves[0].1.num_plays;
    let mut i: usize = 1;
    let ghost plays = plays_of(possible_moves@);
    while i < possible_moves.len()
        invariant
            1 <= i <= possible_moves.len(),
            best < i,
            plays == plays_of(possible_moves@),
            most_played == plays[best as int],
            forall|j: int| 0 <= j < i ==> plays[j] <= plays[best as int],
            forall|j: int| 0 <= j < best ==> plays[j] < plays[best as int],
        decreases possible_moves.len() - i,
    {
        if possible_moves[i].1.num_plays > most_played {
            most_played = possible_moves[i].1.num_plays;
            best = i;
        }
        i += 1;
    }
    best
}

/// The move of the candidate with the most plays. Of several with the same
/// count the first wins. Without a candidate the answer is `fallback`.
pub fn optimal_move_most_visisted<M: Copy>(possible_moves: &Vec<(M, UCTData)>, fallback: M) -> (best_move: M)
    ensures
        is_most_visited(possible_moves@, fallback, best_move),
{
    if possible_moves.len() == 0 {
        return fallback;
    }
    let best = most_visited(possible_moves);
    possible_moves[best].0
}

/// The legal moves at `root`, each with the statistics of the position it
/// leads to: zero statistics where the position is not known.
pub fn candidates<G: Game>(root: &G, stats: &HashMap<u64, UCTData>) -> (list: Vec<(G::Move, UCTData)>)
    ensures
        list@ == candidates_spec(*root, stats@),
{
    let moves = root.legal_moves(root.player());
    let mut list: Vec<(G::Move, UCTData)> = Vec::new();
    let mut i: usize = 0;
    while i < moves.len()
        invariant
            i <= moves.len(),
            moves@ == moves_of(*root),
            list.len() == i,
            forall|j: int| 0 <= j < i ==> list[j] == candidates_spec(*root, stats@)[j],
        decreases moves.len() - i,
    {
        let mv = moves[i];
        assert(moves@.contains(mv));
        let key = root.place(&mv).key();
        let data = match stats.get(&key) {
            Some(found) => *found,
            None => UCTData::new(0, 0),
        };
        list.push((mv, data));
        i += 1;
    }
    assert(list@ =~= candidates_spec(*root, stats@));
    list
}

/// The answer of a search is a legal move at the root wherever there is one:
/// the only one if there is no other, and the default move of the game if
/// there is none.
pub proof fn lemma_robust_choice<G: Game>(root: G, stats: Map<u64, UCTData>, best: G::Move)
    requires
        is_robust_choice(root, stats, best),
    ensures
        moves_of(root).len() == 0 ==> best == G::default_move_spec(),
        moves_of(root).len() == 1 ==> best == moves_of(root)[0],
        moves_of(root).len() >= 1 ==> moves_of(root).contains(best),
{
    let list = candidates_spec(root, stats);
    if list.len() > 0 {
        let i = choose|i: int| #[trigger] is_first_maximum(plays_of(list), i) && best == list[i].0;
        assert(best == moves_of(root)[i]);
    }
}

/// The average reward of `data` as a fraction, half points over plays.
/// Without plays the average is 0.
pub open spec fn mean_reward(data: UCTData) -> (int, int) {
    if data.num_plays == 0 {
        (0, 1)
    } else {
        (data.half_wins as int, data.num_plays as int)
    }
}

/// Whether the average reward of `a` is less than that of `b`.
pub open spec fn mean_below(a: UCTData, b: UCTData) -> bool {
    mean_reward(a).0 * mean_reward(b).1 < mean_reward(b).0 * mean_reward(a).1
}

/// The candidate at `i` has the greatest average reward, and is the first
/// that has it.
pub open spec fn is_first_highest_mean<M>(candidates: Seq<(M, UCTData)>, i: int) -> bool {
    &&& 0 <= i < candidates.len()
    &&& forall|j: int| 0 <= j < candidates.len() ==> !mean_below(candidates[i].1, candidates[j].1)
    &&& forall|j: int| 0 <= j < i ==> mean_below(candidates[j].1, candidates[i].1)
}

/// `best` is the candidate with the greatest average reward, the first of
/// them if several share it, or `fallback` if there is no candidate.
pub open spec fn is_highest_win<M>(candidates: Seq<(M, UCTData)>, fallback: M, best: M) -> bool {
    if candidates.len() == 0 {
        best == fallback
    } else {
        exists|i: int| #[trigger] is_first_highest_mean(candidates, i) && best == candidates[i].0
    }
}

/// Average rewards are ordered like the fractions they are: what is not
/// above `b` is below whatever `b` is below.
pub proof fn lemma_mean_order(a: UCTData, b: UCTData, c: UCTData)
    requires
        !mean_below(b, a),
        mean_below(b, c),
    ensures
        mean_below(a, c),
{
    let (na, da) = mean_reward(a);
    let (nb, db) = mean_reward(b);
    let (nc, dc) = mean_reward(c);
    assert(na * dc < nc * da) by (nonlinear_arith)
        requires
            na * db <= nb * da,
            nb * dc < nc * db,
            da > 0,
            db > 0,
            dc > 0,
            na >= 0,
            nb >= 0,
            nc >= 0,
    {
        assert((na * db) * dc <= (nb * da) * dc);
        assert((nb * dc) * da < (nc * db) * da);
        assert((na * dc) * db < (nc * da) * db);
    }
}

/// Whether the average reward of `candidate` is greater than that of
/// `leader`.
pub fn mean_exceeds(candidate: &UCTData, leader: &UCTData) -> (more: bool)
    ensures
        more == mean_below(*leader, *candidate),
{
    let candidate_reward: u64 = if candidate.num_plays == 0 {
        0
    } else {
        candidate.half_wins
    };
    let candidate_plays: u64 = if candidate.num_plays == 0 {
        1
    } else {
        candidate.num_plays
    };
    let leader_reward: u64 = if leader.num_plays == 0 {
        0
    } else {
        leader.half_wins
    };
    let leader_plays: u64 = if leader.num_plays == 0 {
        1
    } else {
        leader.num_plays
    };
    assert(leader_reward * candidate_plays <= 0xffff_ffff_ffff_ffff * 0xffff_ffff_ffff_ffff)
        by (nonlinear_arith)
        requires
            0 <= leader_reward <= 0xffff_ffff_ffff_ffff,
            0 <= candidate_plays <= 0xffff_ffff_ffff_ffff,
    ;
    assert(candidate_reward * leader_plays <= 0xffff_ffff_ffff_ffff * 0xffff_ffff_ffff_ffff)
        by (nonlinear_arith)
        requires
            0 <= candidate_reward <= 0xffff_ffff_ffff_ffff,
            0 <= leader_plays <= 0xffff_ffff_ffff_ffff,
    ;
    let left: u128 = (leader_reward as u128) * (candidate_plays as u128);
    let right: u128 = (candidate_reward as u128) * (leader_plays as u128);
    left < right
}

/// The move of the candidate with the greatest average reward. Of several
/// with the same average the first wins. Without a candidate the answer is
/// `fallback`.
pub fn optimal_move_highest_win<M: Copy>(possible_moves: &Vec<(M, UCTData)>, fallback: M) -> (best_move: M)
    ensures
        is_highest_win(possible_moves@, fallback, best_move),
{
    if possible_moves.len() == 0 {
        return fallback;
    }
    let mut best: usize = 0;
    let mut i: usize = 1;
    while i < possible_moves.len()
        invariant
            1 <= i <= possible_moves.len(),
            best < i,
            forall|j: int| 0 <= j < i ==> !mean_below(possible_moves[best as int].1, possible_moves[j].1),
            forall|j: int| 0 <= j < best ==> mean_below(possible_moves[j].1, possible_moves[best as int].1),
        decreases possible_moves.len() - i,
    {
        if mean_exceeds(&possible_moves[i].1, &possible_moves[best].1) {
            proof {
                assert forall|j: int| 0 <= j < i implies mean_below(
                    possible_moves[j].1,
                    possible_moves[i as int].1,
                ) by {
                    lemma_mean_order(
                        possible_moves[j].1,
                        possible_moves[best as int].1,
                        possible_moves[i as int].1,
                    );
                }
            }
            best = i;
        }
        i += 1;
    }
    assert(is_first_highest_mean(possible_moves@, best as int));
    possible_moves[best].0
}

} // verus!
