//! A small game to search: one heap of stones, from which the sides in turn
//! take one, two or three. Whoever takes the last stone wins.

use vstd::prelude::*;
use crate::game::{is_leaf, is_legal, keys_identify, moves_of, moves_shorten, well_founded, Color, End, Game};
use crate::reward::opponent;

verus! {

/// The most stones that one move takes.
pub const MAX_TAKE: u8 = 3;

/// A position: the stones left on the heap and the side that takes next.
#[derive(Clone, Copy, Debug, PartialEq, Eq, Structural, Hash)]
pub struct Nim {
    pub stones: u8,
    pub player: Color,
}

impl Nim {
    /// A heap of `stones` with `player` to take first.
    pub fn new(stones: u8, player: Color) -> (heap: Nim)
        ensures
            heap == (Nim { stones, player }),
    {
        Nim { stones, player }
    }

    /// How many different moves the side to move has.
    pub open spec fn choices(&self) -> nat {
        if self.stones < MAX_TAKE {
            self.stones as nat
        } else {
            MAX_TAKE as nat
        }
    }
}

impl Game for Nim {
    /// The number of stones taken.
    type Move = u8;

    open spec fn key_spec(&self) -> u64 {
        match self.player {
            Color::White => (2 * self.stones) as u64,
            Color::Black => (2 * self.stones + 1) as u64,
        }
    }

    open spec fn player_spec(&self) -> Color {
        self.player
    }

    /// The side to move may take 1, 2 or 3 stones, as far as the heap
    /// reaches; the other side has no move.
    open spec fn legal_moves_spec(&self, color: Color) -> Seq<u8> {
        if color == self.player {
            Seq::new(self.choices(), |i: int| (i + 1) as u8)
        } else {
            Seq::empty()
        }
    }

    open spec fn place_spec(&self, mv: u8) -> Nim {
        Nim {
            stones: if mv <= self.stones {
                (self.stones - mv) as u8
            } else {
                0
            },
            player: opponent(self.player),
        }
    }

    /// An empty heap is a win for the side that emptied it.
    open spec fn win_spec(&self) -> End {
        if self.stones == 0 {
            End::Victory(opponent(self.player))
        } else {
            End::InProgress
        }
    }

    open spec fn plies_left(&self) -> nat {
        self.stones as nat
    }

    open spec fn default_move_spec() -> u8 {
        0
    }

    fn key(&self) -> (k: u64) {
        let doubled: u64 = 2 * (self.stones as u64);
        match self.player {
            Color::White => doubled,
            Color::Black => doubled + 1,
        }
    }

    fn player(&self) -> (side: Color) {
        self.player
    }

    fn legal_moves(&self, color: Color) -> (moves: Vec<u8>) {
        let mut moves: Vec<u8> = Vec::new();
        if color == self.player {
            let mut take: u8 = 1;
            while take <= MAX_TAKE && take <= self.stones
                invariant
                    1 <= take <= MAX_TAKE + 1,
                    take <= self.stones + 1,
                    moves.len() == take - 1,
                    forall|i: int| 0 <= i < moves.len() ==> moves[i] == (i + 1) as u8,
                decreases MAX_TAKE + 1 - take,
            {
                moves.push(take);
                take += 1;
            }
        }
        assert(moves@ =~= self.legal_moves_spec(color));
        moves
    }

    fn place(&self, mv: &u8) -> (next: Nim) {
        let stones: u8 = if *mv <= self.stones {
            self.stones - *mv
        } else {
            0
        };
        let player = match self.player {
            Color::White => Color::Black,
            Color::Black => Color::White,
        };
        Nim { stones, player }
    }

    fn win(&self) -> (end: End) {
        if self.stones == 0 {
            match self.player {
                Color::White => End::Victory(Color::Black),
                Color::Black => End::Victory(Color::White),
            }
        } else {
            End::InProgress
        }
    }

    fn default_move() -> (mv: u8) {
        0
    }
}

/// A legal move takes at least one stone and no more than the heap holds.
pub proof fn lemma_nim_moves(heap: Nim, mv: u8)
    requires
        is_legal(heap, mv),
    ensures
        1 <= mv <= MAX_TAKE,
        mv <= heap.stones,
{
    let moves = moves_of(heap);
    let i = choose|i: int| 0 <= i < moves.len() && moves[i] == mv;
    assert(moves[i] == (i + 1) as u8);
}

/// The heap game is one that the search accepts: its key tells positions
/// apart, and every move leaves fewer stones.
pub proof fn lemma_nim_well_founded()
    ensures
        well_founded::<Nim>(),
{
    assert forall|a: Nim, b: Nim| #[trigger] a.key_spec() == #[trigger] b.key_spec() implies a == b by {
        assert(a.stones == b.stones);
        assert(a.player == b.player);
    }
    assert forall|pos: Nim, mv: u8| !is_leaf(pos) && is_legal(pos, mv) implies (#[trigger] pos.place_spec(
        mv,
    )).plies_left() < pos.plies_left() by {
        lemma_nim_moves(pos, mv);
    }
    assert(keys_identify::<Nim>());
    assert(moves_shorten::<Nim>());
}

} // verus!
