//! The interface a game must offer to be searched.
//!
//! A position is a value of a type that implements [`Game`]. The search never
//! looks inside a position: it asks for the side to move, the legal moves, the
//! position a move leads to, the result reached so far, and a key that tells
//! positions apart.

use vstd::prelude::*;

verus! {

/// One of the two sides of an alternating game.
#[derive(Clone, Copy, Debug, PartialEq, Eq, Structural, Hash)]
pub enum Color {
    White,
    Black,
}

/// What a position reports about the end of the game.
#[derive(Clone, Copy, Debug, PartialEq, Eq, Structural, Hash)]
pub enum End {
    /// The named side has won.
    Victory(Color),
    /// The game ended without a winner.
    Tie,
    /// No result yet.
    InProgress,
}

/// A position of a two-player, perfect-information, alternating game.
///
/// Each executable method comes with a spec function of the same name plus
/// `_spec` and promises to return what that function says, so a method is a
/// pure function of the position and its arguments. The bodies given here
/// say nothing of a game; an implementation puts the rules of its game in
/// their place.
pub trait Game: Copy {
    /// One action a side can take.
    type Move: Copy;

    /// The identity of the position. Positions that are to share their
    /// statistics have the same key.
    open spec fn key_spec(&self) -> u64 {
        arbitrary()
    }

    /// The side that moves next.
    open spec fn player_spec(&self) -> Color {
        arbitrary()
    }

    /// The moves open to `color`, in the order the game lists them.
    open spec fn legal_moves_spec(&self, color: Color) -> Seq<Self::Move> {
        arbitrary()
    }

    /// The position that `mv` leads to.
    open spec fn place_spec(&self, mv: Self::Move) -> Self {
        arbitrary()
    }

    /// The result the position reports.
    open spec fn win_spec(&self) -> End {
        arbitrary()
    }

    /// A bound on the number of moves that can still be played from here.
    open spec fn plies_left(&self) -> nat {
        arbitrary()
    }

    /// The move that stands for "no legal move".
    open spec fn default_move_spec() -> Self::Move {
        arbitrary()
    }

    fn key(&self) -> (k: u64)
        ensures
            k == self.key_spec(),
    ;

    fn player(&self) -> (side: Color)
        ensures
            side == self.player_spec(),
    ;

    fn legal_moves(&self, color: Color) -> (moves: Vec<Self::Move>)
        ensures
            moves@ == self.legal_moves_spec(color),
    ;

    /// Plays `mv`. The search only ever plays a legal move of the side to move.
    fn place(&self, mv: &Self::Move) -> (next: Self)
        requires
            self.legal_moves_spec(self.player_spec()).contains(*mv),
        ensures
            next == self.place_spec(*mv),
    ;

    fn win(&self) -> (end: End)
        ensures
            end == self.win_spec(),
    ;

    fn default_move() -> (mv: Self::Move)
        ensures
            mv == Self::default_move_spec(),
    ;
}

/// The legal moves of the side to move.
pub open spec fn moves_of<G: Game>(pos: G) -> Seq<G::Move> {
    pos.legal_moves_spec(pos.player_spec())
}

/// Whether `mv` is a legal move of the side to move at `pos`.
pub open spec fn is_legal<G: Game>(pos: G, mv: G::Move) -> bool {
    moves_of(pos).contains(mv)
}

/// Whether the game is over: won by either side, or tied.
pub open spec fn is_decided(end: End) -> bool {
    end != End::InProgress
}

/// A position where the search stops: no legal move, or a decided game.
pub open spec fn is_leaf<G: Game>(pos: G) -> bool {
    moves_of(pos).len() == 0 || is_decided(pos.win_spec())
}

/// Whether `child` is reached from `parent` by one legal move.
pub open spec fn follows<G: Game>(parent: G, child: G) -> bool {
    exists|i: int| 0 <= i < moves_of(parent).len() && child == #[trigger] parent.place_spec(moves_of(parent)[i])
}

/// The key is an identity: positions with the same key are the same position.
pub open spec fn keys_identify<G: Game>() -> bool {
    forall|a: G, b: G| #[trigger] a.key_spec() == #[trigger] b.key_spec() ==> a == b
}

/// The game is finite: each legal move played at an open position brings the
/// end closer.
pub open spec fn moves_shorten<G: Game>() -> bool {
    forall|pos: G, mv: G::Move|
        !is_leaf(pos) && is_legal(pos, mv) ==> (#[trigger] pos.place_spec(mv)).plies_left()
            < pos.plies_left()
}

/// What the search asks of a game beyond the methods of [`Game`].
pub open spec fn well_founded<G: Game>() -> bool {
    keys_identify::<G>() && moves_shorten::<G>()
}

/// The same move played at the same position leads to the same position, and
/// so to the same key.
pub proof fn lemma_place_respects_equality<G: Game>(a: G, b: G, ma: G::Move, mb: G::Move)
    requires
        a == b,
        ma == mb,
    ensures
        a.place_spec(ma) == b.place_spec(mb),
        a.place_spec(ma).key_spec() == b.place_spec(mb).key_spec(),
{
}

} // verus!
