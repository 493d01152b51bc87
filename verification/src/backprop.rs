//! Backpropagation: crediting the outcome of a playout to the positions that
//! led to it.

use std::collections::HashMap;
use vstd::prelude::*;
use crate::game::{End, Game};
use crate::reward::{
    get_result_value, get_tie_or_win, lemma_reward_range, opponent, reward_halves,
    state_previous_player, win_or_tie,
};
use crate::stats::UCTData;

verus! {

broadcast use vstd::std_specs::hash::group_hash_axioms;

/// How many positions of `path` have the key `key`.
pub open spec fn visits<G: Game>(path: Seq<G>, key: u64) -> nat
    decreases path.len(),
{
    if path.len() == 0 {
        0
    } else {
        visits(path.drop_last(), key) + if path.last().key_spec() == key {
            1nat
        } else {
            0nat
        }
    }
}

/// The reward, in half points, that `outcome` brings to the positions of
/// `path` with the key `key`: each is rewarded from the point of view of the
/// side that moved into it.
pub open spec fn reward_total<G: Game>(path: Seq<G>, key: u64, outcome: End) -> nat
    decreases path.len(),
{
    if path.len() == 0 {
        0
    } else {
        reward_total(path.drop_last(), key, outcome) + if path.last().key_spec() == key {
            reward_halves(outcome, opponent(path.last().player_spec()))
        } else {
            0nat
        }
    }
}

/// How many positions of `path` with the key `key` count `outcome` as a win
/// or a tie of the side that moved into them.
pub open spec fn win_tie_total<G: Game>(path: Seq<G>, key: u64, outcome: End) -> nat
    decreases path.len(),
{
    if path.len() == 0 {
        0
    } else {
        win_tie_total(path.drop_last(), key, outcome) + if path.last().key_spec() == key {
            win_or_tie(outcome, opponent(path.last().player_spec()))
        } else {
            0nat
        }
    }
}

/// Every counter that `path` touches can take what `outcome` adds to it.
pub open spec fn has_room<G: Game>(stats: Map<u64, UCTData>, path: Seq<G>, outcome: End) -> bool {
    forall|k: u64| #[trigger]
        stats.contains_key(k) ==> {
            &&& stats[k].num_plays + visits(path, k) <= u64::MAX
            &&& stats[k].half_wins + reward_total(path, k, outcome) <= u64::MAX
            &&& stats[k].win_tie + win_tie_total(path, k, outcome) <= u64::MAX
        }
}

/// `after` is `before` with `outcome` credited along `path`: the same
/// positions are known, and each has one more play, the reward and the
/// win-or-tie count for every time it lies on the path.
pub open spec fn backpropagated<G: Game>(
    before: Map<u64, UCTData>,
    after: Map<u64, UCTData>,
    path: Seq<G>,
    outcome: End,
) -> bool {
    &&& forall|k: u64| before.contains_key(k) <==> after.contains_key(k)
    &&& forall|k: u64| #[trigger]
        before.contains_key(k) ==> {
            &&& after[k].num_plays == before[k].num_plays + visits(path, k)
            &&& after[k].half_wins == before[k].half_wins + reward_total(path, k, outcome)
            &&& after[k].win_tie == before[k].win_tie + win_tie_total(path, k, outcome)
        }
}

/// What one more position at the end of a path adds to the three sums.
pub proof fn lemma_totals_step<G: Game>(path: Seq<G>, i: int, key: u64, outcome: End)
    requires
        0 <= i < path.len(),
    ensures
        visits(path.take(i + 1), key) == visits(path.take(i), key) + if path[i].key_spec() == key {
            1nat
        } else {
            0nat
        },
        reward_total(path.take(i + 1), key, outcome) == reward_total(path.take(i), key, outcome)
            + if path[i].key_spec() == key {
            reward_halves(outcome, opponent(path[i].player_spec()))
        } else {
            0nat
        },
        win_tie_total(path.take(i + 1), key, outcome) == win_tie_total(path.take(i), key, outcome)
            + if path[i].key_spec() == key {
            win_or_tie(outcome, opponent(path[i].player_spec()))
        } else {
            0nat
        },
{
    assert(path.take(i + 1).drop_last() =~= path.take(i));
    assert(path.take(i + 1).last() == path[i]);
}

/// The sums over the first `i` positions of a path do not exceed the sums
/// over the whole path.
pub proof fn lemma_totals_grow<G: Game>(path: Seq<G>, i: int, key: u64, outcome: End)
    requires
        0 <= i <= path.len(),
    ensures
        visits(path.take(i), key) <= visits(path, key),
        reward_total(path.take(i), key, outcome) <= reward_total(path, key, outcome),
        win_tie_total(path.take(i), key, outcome) <= win_tie_total(path, key, outcome),
    decreases path.len() - i,
{
    if i == path.len() {
        assert(path.take(i) =~= path);
    } else {
        lemma_totals_step(path, i, key, outcome);
        lemma_totals_grow(path, i + 1, key, outcome);
    }
}

/// Credits `win_value` to every position of `path`: one play each, and the
/// reward and the win-or-tie count as seen by the side that moved into the
/// position. A position without statistics is passed over.
pub fn back_propogate<G: Game>(win_value: End, stats: &mut HashMap<u64, UCTData>, path: &Vec<G>)
    requires
        has_room(old(stats)@, path@, win_value),
    ensures
        backpropagated(old(stats)@, final(stats)@, path@, win_value),
{
    let mut i: usize = 0;
    assert(path@.take(0) =~= Seq::<G>::empty());
    while i < path.len()
        invariant
            i <= path.len(),
            has_room(old(stats)@, path@, win_value),
            backpropagated(old(stats)@, stats@, path@.take(i as int), win_value),
        decreases path.len() - i,
    {
        let node = path[i];
        let key = node.key();
        let mover = state_previous_player(&node);
        proof {
            let done = path@.take(i as int);
            let next = path@.take(i + 1);
            assert forall|k: u64| #[trigger] old(stats)@.contains_key(k) implies {
                &&& visits(next, k) <= visits(path@, k)
                &&& reward_total(next, k, win_value) <= reward_total(path@, k, win_value)
                &&& win_tie_total(next, k, win_value) <= win_tie_total(path@, k, win_value)
                &&& visits(next, k) == visits(done, k) + if k == key {
                    1nat
                } else {
                    0nat
                }
                &&& reward_total(next, k, win_value) == reward_total(done, k, win_value) + if k
                    == key {
                    reward_halves(win_value, mover)
                } else {
                    0nat
                }
                &&& win_tie_total(next, k, win_value) == win_tie_total(done, k, win_value) + if k
                    == key {
                    win_or_tie(win_value, mover)
                } else {
                    0nat
                }
            } by {
                lemma_totals_step(path@, i as int, k, win_value);
                lemma_totals_grow(path@, i + 1, k, win_value);
            }
        }
        match stats.get(&key) {
            Some(stat) => {
                let updated = UCTData {
                    half_wins: stat.half_wins + get_result_value(win_value, mover),
                    num_plays: stat.num_plays + 1,
                    win_tie: stat.win_tie + get_tie_or_win(win_value, mover),
                };
                stats.insert(key, updated);
            },
            None => (),
        }
        i += 1;
    }
    assert(path@.take(path.len() as int) =~= path@);
}

/// No two positions of `path` have the same key.
pub open spec fn keys_differ<G: Game>(path: Seq<G>) -> bool {
    forall|i: int, j: int|
        0 <= i < j < path.len() ==> (#[trigger] path[i]).key_spec() != (#[trigger] path[j]).key_spec()
}

/// On a path that goes through no position twice, a key is visited once if
/// a position of the path has it, and not at all otherwise.
pub proof fn lemma_visits_once<G: Game>(path: Seq<G>, key: u64)
    requires
        keys_differ(path),
    ensures
        visits(path, key) == if exists|i: int| 0 <= i < path.len() && (#[trigger] path[i]).key_spec() == key {
            1nat
        } else {
            0nat
        },
    decreases path.len(),
{
    if path.len() > 0 {
        let rest = path.drop_last();
        assert forall|i: int, j: int| 0 <= i < j < rest.len() implies (#[trigger] rest[i]).key_spec() != (
        #[trigger] rest[j]).key_spec() by {
            assert(rest[i] == path[i] && rest[j] == path[j]);
        }
        lemma_visits_once(rest, key);
        if path.last().key_spec() == key {
            assert(path[path.len() - 1].key_spec() == key);
            if exists|i: int| 0 <= i < rest.len() && (#[trigger] rest[i]).key_spec() == key {
                let i = choose|i: int| 0 <= i < rest.len() && (#[trigger] rest[i]).key_spec() == key;
                assert(rest[i] == path[i]);
                assert(false);
            }
        } else {
            if exists|i: int| 0 <= i < path.len() && (#[trigger] path[i]).key_spec() == key {
                let i = choose|i: int| 0 <= i < path.len() && (#[trigger] path[i]).key_spec() == key;
                assert(rest[i] == path[i]);
            }
            if exists|i: int| 0 <= i < rest.len() && (#[trigger] rest[i]).key_spec() == key {
                let i = choose|i: int| 0 <= i < rest.len() && (#[trigger] rest[i]).key_spec() == key;
                assert(rest[i] == path[i]);
            }
        }
    }
}

/// A visit brings at most two half points and at most one win or tie.
pub proof fn lemma_totals_bounded<G: Game>(path: Seq<G>, key: u64, outcome: End)
    ensures
        reward_total(path, key, outcome) <= 2 * visits(path, key),
        win_tie_total(path, key, outcome) <= visits(path, key),
        reward_total(path, key, outcome) <= 2 * win_tie_total(path, key, outcome),
    decreases path.len(),
{
    if path.len() > 0 {
        lemma_totals_bounded(path.drop_last(), key, outcome);
        lemma_reward_range(outcome, opponent(path.last().player_spec()));
    }
}

/// No update is lost and none is counted twice: after a run of
/// backpropagations, each along a path that goes once through the position
/// with the key `key`, the position has as many more plays as there were
/// backpropagations. `stores` holds the statistics before the first and after
/// each of them.
pub proof fn lemma_plays_count_backpropagations<G: Game>(
    stores: Seq<Map<u64, UCTData>>,
    paths: Seq<Seq<G>>,
    outcomes: Seq<End>,
    key: u64,
)
    requires
        stores.len() == paths.len() + 1,
        outcomes.len() == paths.len(),
        forall|i: int|
            #![trigger paths[i]]
            0 <= i < paths.len() ==> backpropagated(stores[i], stores[i + 1], paths[i], outcomes[i]),
        forall|i: int| 0 <= i < paths.len() ==> visits(#[trigger] paths[i], key) == 1,
        stores[0].contains_key(key),
    ensures
        stores.last().contains_key(key),
        stores.last()[key].num_plays == stores[0][key].num_plays + paths.len(),
    decreases paths.len(),
{
    if paths.len() > 0 {
        let n = paths.len() as int;
        let earlier = paths.drop_last();
        assert forall|i: int| #![trigger earlier[i]] 0 <= i < earlier.len() implies backpropagated(
            stores.drop_last()[i],
            stores.drop_last()[i + 1],
            earlier[i],
            outcomes.drop_last()[i],
        ) by {
            assert(earlier[i] == paths[i]);
        }
        assert forall|i: int| 0 <= i < earlier.len() implies visits(#[trigger] earlier[i], key) == 1 by {
            assert(earlier[i] == paths[i]);
        }
        lemma_plays_count_backpropagations(stores.drop_last(), earlier, outcomes.drop_last(), key);
        assert(stores.drop_last().last() == stores[n - 1]);
        let last_path = paths[n - 1];
        assert(backpropagated(stores[n - 1], stores[n], last_path, outcomes[n - 1]));
    }
}

} // verus!
