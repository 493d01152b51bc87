//! Random choice among the items of a list.

use rand::rngs::StdRng;
use rand::{Rng, SeedableRng};
use vstd::prelude::*;

verus! {

/// `rand::rngs::StdRng`, the generator that the search draws from. Nothing is
/// known of its state.
#[verifier::external_type_specification]
#[verifier::external_body]
pub struct ExStdRng(StdRng);

/// Calls `rand::Rng::gen::<usize>` on `rng`. Any number may come back.
#[verifier::external_body]
fn next_draw(rng: &mut StdRng) -> usize {
    rng.gen::<usize>()
}

/// Calls `rand::SeedableRng::seed_from_u64` for `StdRng`: a generator whose
/// draws are settled by `seed`.
#[verifier::external_body]
pub(crate) fn seeded_generator(seed: u64) -> StdRng {
    StdRng::seed_from_u64(seed)
}

/// The item that the number `draw` selects: the one at `draw` modulo the
/// length of the list.
pub fn pick<T: Copy>(items: &Vec<T>, draw: usize) -> (chosen: T)
    requires
        items.len() > 0,
    ensures
        chosen == items[draw as int % items.len() as int],
{
    items[draw % items.len()]
}

/// One item of the list, the one that the next draw from `rng` selects: see
/// [`pick`]. The list must not be empty.
pub fn choose_random<T: Copy>(possible_moves: &Vec<T>, rng: &mut StdRng) -> (chosen: T)
    requires
        possible_moves.len() > 0,
    ensures
        exists|i: int| 0 <= i < possible_moves.len() && chosen == possible_moves[i],
{
    let random_number = next_draw(rng);
    let random_move = pick(possible_moves, random_number);
    random_move
}

} // verus!
