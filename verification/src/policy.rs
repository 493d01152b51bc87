//! The tree policy: the walk from the root to the position that the next
//! playout starts from.
//!
//! The score of a position is not computed here. The caller hands in a
//! function from the position's reward in half points, its plays and the
//! plays of its parent to a number; a greater number is a better score. The
//! walk only asks about positions with at least one play.

use std::collections::{HashMap, HashSet};
use rand::rngs::StdRng;
use vstd::prelude::*;
use crate::backprop::keys_differ;
use crate::game::{follows, is_leaf, is_legal, moves_of, moves_shorten, well_founded, Game};
use crate::random::choose_random;
use crate::reward::victory;
use crate::stats::UCTData;

verus! {

broadcast use vstd::std_specs::hash::group_hash_axioms;

/// The positions that one walk went through, the root first, and the position
/// it ended at, which is the last of them.
pub struct TreePolicyResult<G: Game> {
    pub path: Vec<G>,
    pub expanded_node: G,
}

impl<G: Game> TreePolicyResult<G> {
    pub fn new(path: Vec<G>, expanded_node: G) -> (result: TreePolicyResult<G>)
        ensures
            result.path == path,
            result.expanded_node == expanded_node,
    {
        TreePolicyResult { path, expanded_node }
    }
}

/// The position that the `i`-th legal move at `parent` leads to.
pub open spec fn child<G: Game>(parent: G, i: int) -> G {
    parent.place_spec(moves_of(parent)[i])
}

/// The test for a move at `parent` that leads to a position not yet visited.
pub open spec fn leads_to_new<G: Game>(parent: G, visited: Set<u64>) -> spec_fn(G::Move) -> bool {
    |mv: G::Move| !visited.contains(parent.place_spec(mv).key_spec())
}

/// Every legal move at `parent` leads to a visited position.
pub open spec fn fully_explored<G: Game>(parent: G, visited: Set<u64>) -> bool {
    forall|i: int|
        0 <= i < moves_of(parent).len() ==> visited.contains(
            (#[trigger] child(parent, i)).key_spec(),
        )
}

/// `best` is the first index at which `scores` is greatest.
pub open spec fn is_first_maximum(scores: Seq<u64>, best: int) -> bool {
    &&& 0 <= best < scores.len()
    &&& forall|j: int| 0 <= j < scores.len() ==> scores[j] <= scores[best]
    &&& forall|j: int| 0 <= j < best ==> scores[j] < scores[best]
}

/// What the score function is asked about the `i`-th child of `parent`: the
/// child's reward in half points, the child's plays, and the parent's plays.
pub open spec fn score_query<G: Game>(parent: G, i: int, stats: Map<u64, UCTData>) -> (
    u64,
    u64,
    u64,
) {
    let data = stats[child(parent, i).key_spec()];
    (data.half_wins, data.num_plays, stats[parent.key_spec()].num_plays)
}

/// `scores` holds, child by child, a score that `score` gives to the child.
pub open spec fn scored_by<G: Game, F: Fn(u64, u64, u64) -> u64>(
    score: F,
    parent: G,
    stats: Map<u64, UCTData>,
    scores: Seq<u64>,
) -> bool {
    &&& scores.len() == moves_of(parent).len()
    &&& forall|i: int|
        0 <= i < scores.len() ==> call_ensures(
            score,
            score_query(parent, i, stats),
            #[trigger] scores[i],
        )
}

/// A selection step: `parent` is open and fully explored, and `chosen` is its
/// child with the greatest score, the first of them if several share it.
pub open spec fn selection_step<G: Game, F: Fn(u64, u64, u64) -> u64>(
    parent: G,
    chosen: G,
    visited: Set<u64>,
    stats: Map<u64, UCTData>,
    score: F,
) -> bool {
    &&& !is_leaf(parent)
    &&& fully_explored(parent, visited)
    &&& exists|scores: Seq<u64>, best: int|
        #![trigger scored_by(score, parent, stats, scores), is_first_maximum(scores, best)]
        scored_by(score, parent, stats, scores) && is_first_maximum(scores, best) && chosen
            == child(parent, best)
}

/// An expansion step: `parent` is open and `chosen` is a child of it that has
/// not been visited.
pub open spec fn expansion_step<G: Game>(parent: G, chosen: G, visited: Set<u64>) -> bool {
    &&& !is_leaf(parent)
    &&& !visited.contains(chosen.key_spec())
    &&& exists|i: int| 0 <= i < moves_of(parent).len() && chosen == #[trigger] child(parent, i)
}

/// A walk of the tree policy: selection steps, followed either by a leaf or
/// by one expansion step.
pub open spec fn is_walk<G: Game, F: Fn(u64, u64, u64) -> u64>(
    path: Seq<G>,
    visited: Set<u64>,
    stats: Map<u64, UCTData>,
    score: F,
) -> bool {
    let n = path.len() as int;
    &&& n >= 1
    &&& forall|i: int|
        0 <= i < n - 2 ==> selection_step(#[trigger] path[i], path[i + 1], visited, stats, score)
    &&& n == 1 ==> is_leaf(path[0])
    &&& n >= 2 ==> {
        ||| selection_step(path[n - 2], path[n - 1], visited, stats, score) && is_leaf(path[n - 1])
        ||| expansion_step(path[n - 2], path[n - 1], visited)
    }
}

/// Whether the walk `path` ended with an expansion step.
pub open spec fn ends_in_expansion<G: Game>(path: Seq<G>, visited: Set<u64>) -> bool {
    path.len() >= 2 && expansion_step(path[path.len() - 2], path[path.len() - 1], visited)
}

/// Every visited position has statistics, and every one but `root` has been
/// played through at least once. The statistics of `root` are there too.
pub open spec fn stats_cover<G: Game>(root: G, visited: Set<u64>, stats: Map<u64, UCTData>) -> bool {
    &&& stats.contains_key(root.key_spec())
    &&& forall|k: u64| #[trigger]
        visited.contains(k) ==> stats.contains_key(k) && (k != root.key_spec()
            ==> stats[k].num_plays > 0)
}

/// The score function accepts every question about a position with at least
/// one play.
pub open spec fn scores_played<F: Fn(u64, u64, u64) -> u64>(score: F) -> bool {
    forall|wins: u64, plays: u64, total: u64| plays > 0 ==> call_requires(score, (wins, plays, total))
}

/// The first index at which `scores` is greatest.
pub fn first_maximum(scores: &Vec<u64>) -> (best: usize)
    requires
        scores.len() > 0,
    ensures
        is_first_maximum(scores@, best as int),
{
    let mut best: usize = 0;
    let mut i: usize = 1;
    while i < scores.len()
        invariant
            1 <= i <= scores.len(),
            best < i,
            forall|j: int| 0 <= j < i ==> scores[j] <= scores[best as int],
            forall|j: int| 0 <= j < best ==> scores[j] < scores[best as int],
        decreases scores.len() - i,
    {
        if scores[i] > scores[best] {
            best = i;
        }
        i += 1;
    }
    best
}

/// The legal moves at `parent` that lead to a position not yet visited, in
/// the order of `moves`.
pub fn unexplored_moves<G: Game>(parent: &G, moves: &Vec<G::Move>, visited: &HashSet<u64>) -> (fresh:
    Vec<G::Move>)
    requires
        moves@ == moves_of(*parent),
    ensures
        fresh@ == moves@.filter(leads_to_new(*parent, visited@)),
{
    let mut fresh: Vec<G::Move> = Vec::new();
    let mut i: usize = 0;
    let ghost pred = leads_to_new(*parent, visited@);
    proof {
        reveal(Seq::filter);
        assert(moves@.take(0) =~= Seq::<G::Move>::empty());
    }
    while i < moves.len()
        invariant
            i <= moves.len(),
            moves@ == moves_of(*parent),
            pred == leads_to_new(*parent, visited@),
            fresh@ == moves@.take(i as int).filter(pred),
        decreases moves.len() - i,
    {
        let mv = moves[i];
        proof {
            reveal(Seq::filter);
            assert(moves@.take(i + 1).drop_last() =~= moves@.take(i as int));
            assert(moves@.take(i + 1).last() == mv);
            assert(moves@.contains(mv));
        }
        let next = parent.place(&mv);
        let key = next.key();
        if !visited.contains(&key) {
            fresh.push(mv);
        }
        i += 1;
    }
    assert(moves@.take(moves.len() as int) =~= moves@);
    fresh
}

/// The score of every child of a fully explored `parent`, in the order of
/// `moves`.
pub fn child_scores<G: Game, F: Fn(u64, u64, u64) -> u64>(
    parent: &G,
    moves: &Vec<G::Move>,
    stats: &HashMap<u64, UCTData>,
    score: &F,
) -> (scores: Vec<u64>)
    requires
        moves@ == moves_of(*parent),
        stats@.contains_key(parent.key_spec()),
        forall|i: int|
            0 <= i < moves.len() ==> stats@.contains_key((#[trigger] child(*parent, i)).key_spec())
                && stats@[child(*parent, i).key_spec()].num_plays > 0,
        scores_played(*score),
    ensures
        scored_by(*score, *parent, stats@, scores@),
{
    let parent_key = parent.key();
    let total_played = stats.get(&parent_key).unwrap().num_plays;
    let mut scores: Vec<u64> = Vec::new();
    let mut i: usize = 0;
    while i < moves.len()
        invariant
            i <= moves.len(),
            scores.len() == i,
            moves@ == moves_of(*parent),
            stats@.contains_key(parent.key_spec()),
            total_played == stats@[parent.key_spec()].num_plays,
            forall|j: int|
                0 <= j < moves.len() ==> stats@.contains_key(
                    (#[trigger] child(*parent, j)).key_spec(),
                ) && stats@[child(*parent, j).key_spec()].num_plays > 0,
            scores_played(*score),
            forall|j: int|
                0 <= j < i ==> call_ensures(
                    *score,
                    score_query(*parent, j, stats@),
                    #[trigger] scores[j],
                ),
        decreases moves.len() - i,
    {
        let mv = moves[i];
        assert(moves@.contains(mv));
        let next = parent.place(&mv);
        assert(next == child(*parent, i as int));
        let key = next.key();
        let data = stats.get(&key).unwrap();
        let uct = score(data.half_wins, data.num_plays, total_played);
        scores.push(uct);
        i += 1;
    }
    scores
}

/// Walks from `current_state` down through fully explored positions, at each
/// taking the child with the greatest score, until it meets a leaf or a
/// position with a move that leads somewhere new. In the second case it takes
/// one such move at random and ends at the new position.
///
/// Nothing is changed: the walk only reads the visited set and the
/// statistics.
pub fn tree_policy<G: Game, F: Fn(u64, u64, u64) -> u64>(
    current_state: &G,
    visited_states: &HashSet<u64>,
    stats: &HashMap<u64, UCTData>,
    score: &F,
    rng: &mut StdRng,
) -> (result: TreePolicyResult<G>)
    requires
        well_founded::<G>(),
        stats_cover(*current_state, visited_states@, stats@),
        scores_played(*score),
    ensures
        result.path@[0] == *current_state,
        result.expanded_node == result.path@.last(),
        is_walk(result.path@, visited_states@, stats@, *score),
        is_leaf(*current_state) ==> result.path@ =~= seq![*current_state],
{
    let mut path: Vec<G> = Vec::new();
    let mut current_node = *current_state;
    loop
        invariant
            well_founded::<G>(),
            stats_cover(*current_state, visited_states@, stats@),
            scores_played(*score),
            current_node.plies_left() <= current_state.plies_left(),
            stats@.contains_key(current_node.key_spec()),
            path@.len() == 0 ==> current_node == *current_state,
            path@.len() > 0 ==> path@[0] == *current_state && !is_leaf(*current_state),
            forall|i: int|
                0 <= i < path@.len() ==> selection_step(
                    #[trigger] path@.push(current_node)[i],
                    path@.push(current_node)[i + 1],
                    visited_states@,
                    stats@,
                    *score,
                ),
        decreases current_node.plies_left(),
    {
        path.push(current_node);
        let possible_moves = current_node.legal_moves(current_node.player());
        if possible_moves.len() < 1 || victory(current_node.win()) {
            return TreePolicyResult::new(path, current_node);
        }
        let not_explored = unexplored_moves(&current_node, &possible_moves, visited_states);
        let ghost fresh = leads_to_new(current_node, visited_states@);
        if not_explored.len() > 0 {
            let random_choice = choose_random(&not_explored, rng);
            proof {
                let pos = choose|i: int| 0 <= i < not_explored.len() && random_choice == not_explored[i];
                possible_moves@.lemma_filter_pred(fresh, pos);
                lemma_filter_keeps(possible_moves@, fresh, pos);
            }
            let chosen_node = current_node.place(&random_choice);
            path.push(chosen_node);
            proof {
                let at = choose|i: int| 0 <= i < possible_moves.len() && possible_moves[i] == random_choice;
                assert(chosen_node == child(current_node, at));
            }
            return TreePolicyResult::new(path, chosen_node);
        } else {
            proof {
                assert forall|i: int| 0 <= i < possible_moves.len() implies visited_states@.contains(
                    (#[trigger] child(current_node, i)).key_spec(),
                ) && stats@.contains_key(child(current_node, i).key_spec())
                    && stats@[child(current_node, i).key_spec()].num_plays > 0 by {
                    if fresh(possible_moves[i]) {
                        possible_moves@.lemma_filter_contains(fresh, i);
                    }
                    assert(is_legal(current_node, possible_moves[i]));
                    assert(child(current_node, i).plies_left() < current_node.plies_left());
                }
            }
            let scores = child_scores(&current_node, &possible_moves, stats, score);
            let best = first_maximum(&scores);
            let best_move = possible_moves[best];
            assert(possible_moves@.contains(best_move));
            let chosen_node = current_node.place(&best_move);
            assert(chosen_node == child(current_node, best as int));
            assert(is_legal(current_node, best_move));
            current_node = chosen_node;
        }
    }
}

/// An item of a filtered list is an item of the list.
proof fn lemma_filter_keeps<T>(items: Seq<T>, pred: spec_fn(T) -> bool, i: int)
    requires
        0 <= i < items.filter(pred).len(),
    ensures
        items.contains(items.filter(pred)[i]),
    decreases items.len(),
{
    reveal(Seq::filter);
    if items.len() > 0 {
        let rest = items.drop_last();
        if i < rest.filter(pred).len() {
            lemma_filter_keeps(rest, pred, i);
            let j = choose|j: int| 0 <= j < rest.len() && rest[j] == rest.filter(pred)[i];
            assert(items[j] == items.filter(pred)[i]);
        } else {
            assert(items[items.len() - 1] == items.filter(pred)[i]);
        }
    }
}

/// One step of a walk leads to a position that is closer to the end.
pub proof fn lemma_step_descends<G: Game>(parent: G, chosen: G)
    requires
        moves_shorten::<G>(),
        !is_leaf(parent),
        follows(parent, chosen),
    ensures
        chosen.plies_left() < parent.plies_left(),
{
    let i = choose|i: int|
        0 <= i < moves_of(parent).len() && chosen == #[trigger] parent.place_spec(moves_of(parent)[i]);
    assert(moves_of(parent).contains(moves_of(parent)[i]));
}

/// Each position of a walk is reached from the one before it by a legal move
/// played at an open position.
pub proof fn lemma_walk_steps<G: Game, F: Fn(u64, u64, u64) -> u64>(
    path: Seq<G>,
    visited: Set<u64>,
    stats: Map<u64, UCTData>,
    score: F,
    i: int,
)
    requires
        is_walk(path, visited, stats, score),
        0 <= i < path.len() - 1,
    ensures
        !is_leaf(path[i]),
        follows(path[i], path[i + 1]),
{
    let n = path.len() as int;
    if i < n - 2 || selection_step(path[n - 2], path[n - 1], visited, stats, score) {
        assert(selection_step(path[i], path[i + 1], visited, stats, score));
        let (scores, best) = choose|scores: Seq<u64>, best: int|
            #![trigger scored_by(score, path[i], stats, scores), is_first_maximum(scores, best)]
            scored_by(score, path[i], stats, scores) && is_first_maximum(scores, best)
                && path[i + 1] == child(path[i], best);
        assert(path[i + 1] == path[i].place_spec(moves_of(path[i])[best]));
    } else {
        assert(expansion_step(path[i], path[i + 1], visited));
        let at = choose|at: int|
            0 <= at < moves_of(path[i]).len() && path[i + 1] == #[trigger] child(path[i], at);
        assert(path[i + 1] == path[i].place_spec(moves_of(path[i])[at]));
    }
}

/// Along a walk the end of the game comes closer with every position.
pub proof fn lemma_walk_descends<G: Game, F: Fn(u64, u64, u64) -> u64>(
    path: Seq<G>,
    visited: Set<u64>,
    stats: Map<u64, UCTData>,
    score: F,
    i: int,
    j: int,
)
    requires
        moves_shorten::<G>(),
        is_walk(path, visited, stats, score),
        0 <= i < j < path.len(),
    ensures
        path[j].plies_left() < path[i].plies_left(),
    decreases j - i,
{
    lemma_walk_steps(path, visited, stats, score, j - 1);
    lemma_step_descends(path[j - 1], path[j]);
    if i < j - 1 {
        lemma_walk_descends(path, visited, stats, score, i, j - 1);
    }
}

/// A walk goes through no position twice.
pub proof fn lemma_walk_keys_differ<G: Game, F: Fn(u64, u64, u64) -> u64>(
    path: Seq<G>,
    visited: Set<u64>,
    stats: Map<u64, UCTData>,
    score: F,
)
    requires
        well_founded::<G>(),
        is_walk(path, visited, stats, score),
    ensures
        keys_differ(path),
{
    assert forall|i: int, j: int| 0 <= i < j < path.len() implies (#[trigger] path[i]).key_spec() != (
    #[trigger] path[j]).key_spec() by {
        lemma_walk_descends(path, visited, stats, score, i, j);
    }
}

/// A walk from a visited root ends at a position that is new exactly when
/// its last step is an expansion: selection never leaves the visited
/// positions, and expansion never offers one of them.
pub proof fn lemma_new_means_expanded<G: Game, F: Fn(u64, u64, u64) -> u64>(
    path: Seq<G>,
    visited: Set<u64>,
    stats: Map<u64, UCTData>,
    score: F,
)
    requires
        is_walk(path, visited, stats, score),
        visited.contains(path[0].key_spec()),
    ensures
        !visited.contains(path.last().key_spec()) <==> ends_in_expansion(path, visited),
{
    let n = path.len() as int;
    if n >= 2 && selection_step(path[n - 2], path[n - 1], visited, stats, score) {
        let (scores, best) = choose|scores: Seq<u64>, best: int|
            #![trigger scored_by(score, path[n - 2], stats, scores), is_first_maximum(scores, best)]
            scored_by(score, path[n - 2], stats, scores) && is_first_maximum(scores, best) && path[n
                - 1] == child(path[n - 2], best);
        assert(visited.contains(child(path[n - 2], best).key_spec()));
    }
}

} // verus!
