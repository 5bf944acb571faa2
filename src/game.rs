use vstd::prelude::*;

verus! {

/// What a search engine needs to know of a turn-based game with perfect information.
///
/// States are plain values that copy cheaply.
pub trait GameState: Sized + Copy {
    /// Who takes turns.
    type Player: Copy;

    /// What a player does on a turn.
    type Move: Copy;

    /// Why a move is rejected.
    type Error: Copy + core::fmt::Debug;

    /// The moves open to the player to act; empty exactly when the game has ended.
    spec fn moves_spec(&self) -> Seq<Self::Move>;

    /// The winner, if the game has concluded with one.
    spec fn winner_spec(&self) -> Option<Self::Player>;

    /// The player to act.
    spec fn current_spec(&self) -> Self::Player;

    /// The player who acted last.
    spec fn prev_spec(&self) -> Self::Player;

    /// The error that applying `mv` gives, or `None` when the move applies.
    spec fn move_error(&self, mv: Self::Move) -> Option<Self::Error>;

    /// `next` is the state reached by applying the (applicable) move `mv`.
    spec fn applies(&self, mv: Self::Move, next: Self) -> bool;

    /// An upper bound on the number of moves still to be played.
    spec fn moves_left(&self) -> nat;

    /// A legal move applies.
    proof fn lemma_legal_move_applies(&self, mv: Self::Move)
        requires
            self.moves_spec().contains(mv),
        ensures
            self.move_error(mv) is None,
    ;

    /// Each applied move brings the end of the game closer.
    proof fn lemma_move_progress(&self, mv: Self::Move, next: Self)
        requires
            self.applies(mv, next),
        ensures
            next.moves_left() < self.moves_left(),
    ;

    /// Returns a new game state that has the given move performed.
    fn from_move(&self, mv: Self::Move) -> (r: Result<Self, Self::Error>)
        ensures
            match self.move_error(mv) {
                Some(e) => r == Err::<Self, Self::Error>(e),
                None => r is Ok && self.applies(mv, r->Ok_0),
            },
    ;

    /// Mutates the current game state with the new move; a rejected move leaves it unchanged.
    fn make_move(&mut self, mv: Self::Move) -> (r: Result<(), Self::Error>)
        ensures
            match old(self).move_error(mv) {
                Some(e) => r == Err::<(), Self::Error>(e) && *final(self) == *old(self),
                None => r is Ok && old(self).applies(mv, *final(self)),
            },
    ;

    /// Whether two moves are the same.
    fn same_move(a: &Self::Move, b: &Self::Move) -> (r: bool)
        ensures
            r == (*a == *b),
    ;

    /// Whether two players are the same.
    fn same_player(a: &Self::Player, b: &Self::Player) -> (r: bool)
        ensures
            r == (*a == *b),
    ;

    /// Returns the available moves of the current player.
    fn get_moves(&self) -> (r: Vec<Self::Move>)
        ensures
            r@ == self.moves_spec(),
    ;

    /// Returns the current winner.
    fn get_winner(&self) -> (r: Option<Self::Player>)
        ensures
            r == self.winner_spec(),
    ;

    /// Returns the current player.
    fn get_current_player(&self) -> (r: Self::Player)
        ensures
            r == self.current_spec(),
    ;

    /// Returns the player who moved last.
    fn get_prev_player(&self) -> (r: Self::Player)
        ensures
            r == self.prev_spec(),
    ;
}

/// `b` is reached from `a` by `n` legal moves, each applied in turn.
pub open spec fn reaches<S: GameState>(a: S, b: S, n: nat) -> bool
    decreases n,
{
    if n == 0 {
        a == b
    } else {
        exists|mid: S, mv: S::Move|
            reaches(a, mid, (n - 1) as nat) && mid.moves_spec().contains(mv) && mid.applies(mv, b)
    }
}

} // verus!
