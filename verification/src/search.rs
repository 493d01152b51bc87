//! The search driver: it starts from a root, repeats selection, expansion,
//! simulation and backpropagation while its budget lasts, and then names the
//! move whose position was visited most.

use std::collections::{HashMap, HashSet};
use rand::rngs::StdRng;
use vstd::prelude::*;
use crate::backprop::{
    back_propogate, backpropagated, lemma_totals_bounded, lemma_visits_once, reward_total, visits,
    win_tie_total,
};
use crate::clock::{monotonic_ns, within_budget, SEARCH_BUDGET_NS};
use crate::finalize::{
    candidates, data_or_zero, is_report, is_robust_choice, lemma_robust_choice, most_visited,
    optimal_move_most_visisted,
};
use crate::game::{moves_of, well_founded, End, Game};
use crate::policy::{is_walk, lemma_walk_keys_differ, scores_played, tree_policy, TreePolicyResult};
use crate::random::seeded_generator;
use crate::simulation::{can_end_in, run_simulation};
use crate::stats::UCTData;

verus! {

broadcast use vstd::std_specs::hash::group_hash_axioms;

/// The greatest number of iterations that one search makes: with no more, no
/// counter of the statistics can overflow.
pub const ITERATION_LIMIT: u64 = 0x7fff_ffff_ffff_ffff;

/// `stats` with zero statistics for `key` where it had none.
pub open spec fn with_entry(stats: Map<u64, UCTData>, key: u64) -> Map<u64, UCTData> {
    if stats.contains_key(key) {
        stats
    } else {
        stats.insert(key, UCTData::zero())
    }
}

/// The state of one search: the root, the positions expanded so far, their
/// statistics, and the number of iterations made.
pub struct Search<G: Game> {
    pub root: G,
    pub visited_states: HashSet<u64>,
    pub statistics: HashMap<u64, UCTData>,
    pub iterations: u64,
}

impl<G: Game> Search<G> {
    /// What holds between iterations: statistics are kept for exactly the
    /// visited positions; the root went through every iteration; every other
    /// position was played through at least once and at most once per
    /// iteration; and no position holds more reward, or more wins and ties,
    /// than its plays can have brought.
    pub open spec fn wf(&self) -> bool {
        &&& self.visited_states@ == self.statistics@.dom()
        &&& self.iterations <= ITERATION_LIMIT
        &&& self.statistics@.contains_key(self.root.key_spec())
        &&& self.statistics@[self.root.key_spec()].num_plays == self.iterations
        &&& forall|k: u64| #[trigger]
            self.statistics@.contains_key(k) ==> {
                &&& self.statistics@[k].num_plays <= self.iterations
                &&& self.statistics@[k].half_wins <= 2 * self.statistics@[k].win_tie
                &&& self.statistics@[k].win_tie <= self.statistics@[k].num_plays
                &&& k != self.root.key_spec() ==> self.statistics@[k].num_plays >= 1
            }
    }

    /// A search that has not started: only the root is visited, with zero
    /// statistics.
    pub fn new(root: G) -> (search: Search<G>)
        ensures
            search.wf(),
            search.root == root,
            search.iterations == 0,
            search.visited_states@ == set![root.key_spec()],
            search.statistics@ == map![root.key_spec() => UCTData::zero()],
    {
        let mut visited_states: HashSet<u64> = HashSet::new();
        let mut statistics: HashMap<u64, UCTData> = HashMap::new();
        let key = root.key();
        visited_states.insert(key);
        statistics.insert(key, UCTData::new(0, 0));
        assert(visited_states@ =~= set![key]);
        assert(statistics@ =~= map![key => UCTData::zero()]);
        assert(visited_states@ =~= statistics@.dom());
        Search { root, visited_states, statistics, iterations: 0 }
    }

    /// One iteration: a walk of the tree policy from the root, the expansion
    /// of the position it ended at if that is new, a playout from there, and
    /// the backpropagation of the playout's outcome along the walk. Returns
    /// the walk and the outcome.
    pub fn iterate<F: Fn(u64, u64, u64) -> u64>(&mut self, score: &F, rng: &mut StdRng) -> (step: (
        TreePolicyResult<G>,
        End,
    ))
        requires
            old(self).wf(),
            old(self).iterations < ITERATION_LIMIT,
            well_founded::<G>(),
            scores_played(*score),
        ensures
            final(self).wf(),
            final(self).root == old(self).root,
            final(self).iterations == old(self).iterations + 1,
            step.0.path@[0] == old(self).root,
            step.0.expanded_node == step.0.path@.last(),
            is_walk(step.0.path@, old(self).visited_states@, old(self).statistics@, *score),
            final(self).visited_states@ == old(self).visited_states@.insert(
                step.0.expanded_node.key_spec(),
            ),
            can_end_in(step.0.expanded_node, step.1),
            backpropagated(
                with_entry(old(self).statistics@, step.0.expanded_node.key_spec()),
                final(self).statistics@,
                step.0.path@,
                step.1,
            ),
    {
        let selected_state = tree_policy(&self.root, &self.visited_states, &self.statistics, score, rng);
        let key = selected_state.expanded_node.key();
        if !self.visited_states.contains(&key) {
            self.statistics.insert(key, UCTData::new(0, 0));
            self.visited_states.insert(key);
        }
        let ghost widened = self.statistics@;
        assert(widened =~= with_entry(old(self).statistics@, key));
        assert(self.visited_states@ =~= old(self).visited_states@.insert(key));
        assert(self.visited_states@ =~= widened.dom());
        let result = run_simulation(selected_state.expanded_node, self.root.player(), rng);
        proof {
            let path = selected_state.path@;
            lemma_walk_keys_differ(path, old(self).visited_states@, old(self).statistics@, *score);
            assert forall|k: u64| #[trigger] widened.contains_key(k) implies {
                &&& visits(path, k) <= 1
                &&& reward_total(path, k, result) <= 2 * win_tie_total(path, k, result)
                &&& win_tie_total(path, k, result) <= visits(path, k)
                &&& k == self.root.key_spec() ==> visits(path, k) == 1
                &&& k == key ==> visits(path, k) == 1
            } by {
                lemma_visits_once(path, k);
                lemma_totals_bounded(path, k, result);
                assert(path[0].key_spec() == self.root.key_spec());
                assert(path[path.len() - 1].key_spec() == key);
            }
        }
        back_propogate(result, &mut self.statistics, &selected_state.path);
        assert(self.visited_states@ =~= self.statistics@.dom());
        self.iterations = self.iterations + 1;
        (selected_state, result)
    }

    /// The answer of the search as it stands, with the statistics of the
    /// position that it leads to: how often the search played through it, and
    /// how often it won or tied there.
    pub fn report(&self) -> (found: (G::Move, UCTData))
        ensures
            is_report(self.root, self.statistics@, found),
            is_robust_choice(self.root, self.statistics@, found.0),
    {
        let possible_moves = candidates(&self.root, &self.statistics);
        if possible_moves.len() == 0 {
            return (G::default_move(), UCTData::new(0, 0));
        }
        let best = most_visited(&possible_moves);
        possible_moves[best]
    }

    /// The answer of the search as it stands: the legal move at the root
    /// whose position has the most plays, the first such move in the order of
    /// the game. A root without a legal move gives the game's default move.
    pub fn best_move(&self) -> (best: G::Move)
        ensures
            is_robust_choice(self.root, self.statistics@, best),
            moves_of(self.root).len() == 0 ==> best == G::default_move_spec(),
            moves_of(self.root).len() == 1 ==> best == moves_of(self.root)[0],
            moves_of(self.root).len() >= 1 ==> moves_of(self.root).contains(best),
    {
        let possible_moves = candidates(&self.root, &self.statistics);
        let best = optimal_move_most_visisted(&possible_moves, G::default_move());
        proof {
            lemma_robust_choice(self.root, self.statistics@, best);
        }
        best
    }
}

/// Searches from `root` for `budget_ns` nanoseconds by the clock, and for
/// [`ITERATION_LIMIT`] iterations at most, and returns the state reached. An
/// iteration that has begun is finished.
pub fn search_for<G: Game, F: Fn(u64, u64, u64) -> u64>(
    root: G,
    score: &F,
    rng: &mut StdRng,
    budget_ns: u64,
) -> (search: Search<G>)
    requires
        well_founded::<G>(),
        scores_played(*score),
    ensures
        search.wf(),
        search.root == root,
{
    let mut search = Search::new(root);
    let current_time = monotonic_ns();
    while search.iterations < ITERATION_LIMIT && within_budget(current_time, monotonic_ns(), budget_ns)
        invariant
            well_founded::<G>(),
            scores_played(*score),
            search.wf(),
            search.root == root,
        decreases ITERATION_LIMIT - search.iterations,
    {
        search.iterate(score, rng);
    }
    search
}

/// Searches from `root` for [`SEARCH_BUDGET_NS`] nanoseconds with a generator
/// seeded from the clock, and returns the move found best: see
/// [`Search::best_move`].
pub fn tree_search<G: Game, F: Fn(u64, u64, u64) -> u64>(root: G, score: &F) -> (best_move: G::Move)
    requires
        well_founded::<G>(),
        scores_played(*score),
    ensures
        exists|stats: Map<u64, UCTData>| #[trigger] is_robust_choice(root, stats, best_move),
        moves_of(root).len() == 0 ==> best_move == G::default_move_spec(),
        moves_of(root).len() == 1 ==> best_move == moves_of(root)[0],
        moves_of(root).len() >= 1 ==> moves_of(root).contains(best_move),
{
    let mut rng = seeded_generator(monotonic_ns());
    let search = search_for(root, score, &mut rng, SEARCH_BUDGET_NS);
    search.best_move()
}

/// Across the iterations of a search no play is lost and none is counted
/// twice: a position that every one of the walks goes through once has, after
/// them, as many more plays as there were iterations. A position that the
/// first of them expands starts from none. `stores` holds the statistics
/// before the first iteration and after each; `expanded` holds the key of the
/// position that each walk ended at.
pub proof fn lemma_plays_count_iterations<G: Game>(
    stores: Seq<Map<u64, UCTData>>,
    expanded: Seq<u64>,
    paths: Seq<Seq<G>>,
    outcomes: Seq<End>,
    key: u64,
)
    requires
        paths.len() >= 1,
        stores.len() == paths.len() + 1,
        expanded.len() == paths.len(),
        outcomes.len() == paths.len(),
        forall|i: int|
            #![trigger paths[i]]
            0 <= i < paths.len() ==> backpropagated(
                with_entry(stores[i], expanded[i]),
                stores[i + 1],
                paths[i],
                outcomes[i],
            ),
        forall|i: int| 0 <= i < paths.len() ==> visits(#[trigger] paths[i], key) == 1,
        stores[0].contains_key(key) || expanded[0] == key,
    ensures
        stores.last().contains_key(key),
        stores.last()[key].num_plays == data_or_zero(stores[0], key).num_plays + paths.len(),
    decreases paths.len(),
{
    let n = paths.len() as int;
    let last_path = paths[n - 1];
    assert(backpropagated(
        with_entry(stores[n - 1], expanded[n - 1]),
        stores[n],
        last_path,
        outcomes[n - 1],
    ));
    if n == 1 {
        assert(with_entry(stores[0], expanded[0]).contains_key(key));
    } else {
        let earlier = paths.drop_last();
        assert forall|i: int| #![trigger earlier[i]] 0 <= i < earlier.len() implies backpropagated(
            with_entry(stores.drop_last()[i], expanded.drop_last()[i]),
            stores.drop_last()[i + 1],
            earlier[i],
            outcomes.drop_last()[i],
        ) by {
            assert(earlier[i] == paths[i]);
        }
        assert forall|i: int| 0 <= i < earlier.len() implies visits(#[trigger] earlier[i], key)
            == 1 by {
            assert(earlier[i] == paths[i]);
        }
        lemma_plays_count_iterations(
            stores.drop_last(),
            expanded.drop_last(),
            earlier,
            outcomes.drop_last(),
            key,
        );
        assert(stores.drop_last().last() == stores[n - 1]);
        assert(with_entry(stores[n - 1], expanded[n - 1]).contains_key(key));
    }
}

} // verus!
