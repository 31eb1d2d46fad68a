//! The two sides of a game, how a game may end, and what the search asks of
//! a game position and of a player.

use vstd::prelude::*;

verus! {

/// One of the two sides of a game.
#[derive(Clone, Copy, Debug, PartialEq, Eq, Structural)]
pub enum PlayerEnum {
    One,
    Two,
}

/// Marker for the side that moves first.
pub enum PlayerOne {
    First,
}

/// Marker for the side that moves second.
pub enum PlayerTwo {
    Second,
}

impl PlayerEnum {
    /// The opposing side.
    pub open spec fn opponent(self) -> PlayerEnum {
        match self {
            PlayerEnum::One => PlayerEnum::Two,
            PlayerEnum::Two => PlayerEnum::One,
        }
    }

    /// The opposing side: every ply hands the move to it.
    pub fn other(&self) -> (flipped: PlayerEnum)
        ensures
            flipped == self.opponent(),
    {
        match *self {
            PlayerEnum::One => PlayerEnum::Two,
            PlayerEnum::Two => PlayerEnum::One,
        }
    }
}

/// How a finished game ended.
#[derive(Clone, Copy, Debug, PartialEq, Eq, Structural)]
pub enum Conclusion {
    Win(PlayerEnum),
    Draw,
}

/// A position of a deterministic game in which two sides move in turn.
///
/// A position is known to the search by its content address, `key`: equal
/// positions have equal keys, positions with equal keys are taken for the
/// same position, and every rule of the game is a function of the key. The
/// game must end: `plies_left` bounds the plies that can still follow.
pub trait GameState: Sized {
    /// A label of a transition between positions.
    type Move: Copy;

    /// The content address of this position.
    spec fn key(&self) -> u64;

    /// The side that is to move in the position `key`.
    spec fn turn(key: u64) -> PlayerEnum;

    /// Whether `player` may play `game_move` in the position `key`.
    spec fn legal(key: u64, game_move: Self::Move, player: PlayerEnum) -> bool;

    /// The place of the legal move `game_move` in the enumeration of the
    /// moves that `player` may play in the position `key`, counted from zero.
    spec fn place(key: u64, game_move: Self::Move, player: PlayerEnum) -> u64;

    /// The position that `game_move`, played by `player`, leads to from `key`.
    spec fn successor(key: u64, game_move: Self::Move, player: PlayerEnum) -> u64;

    /// How the game has ended in the position `key` with `next_player` to
    /// move, or `None` while it goes on.
    spec fn outcome(key: u64, next_player: PlayerEnum) -> Option<Conclusion>;

    /// A bound on the number of plies that can follow the position `key`.
    spec fn plies_left(key: u64) -> u64;

    /// Only the side whose turn it is has legal moves. Every move hands the
    /// turn to the other side and brings the end of the game nearer.
    proof fn moves_in_turn(key: u64, game_move: Self::Move, player: PlayerEnum)
        requires
            Self::legal(key, game_move, player),
        ensures
            player == Self::turn(key),
            Self::turn(Self::successor(key, game_move, player)) == player.opponent(),
            Self::plies_left(Self::successor(key, game_move, player)) < Self::plies_left(key),
    ;

    /// While the game goes on, the side to move has a legal move.
    proof fn open_game_has_move(key: u64, next_player: PlayerEnum)
        requires
            Self::outcome(key, next_player) is None,
        ensures
            exists|m: Self::Move| Self::legal(key, m, next_player),
    ;

    /// Computes the content address.
    fn position_key(&self) -> (k: u64)
        ensures
            k == self.key(),
    ;

    /// A copy of the position.
    fn duplicate(&self) -> (copy: Self)
        ensures
            copy.key() == self.key(),
    ;

    /// Whether two labels are the same move.
    fn same_move(a: &Self::Move, b: &Self::Move) -> (same: bool)
        ensures
            same == (*a == *b),
    ;

    /// Plays `game_move` for `player`.
    fn update(&mut self, game_move: Self::Move, player: PlayerEnum)
        requires
            Self::legal(old(self).key(), game_move, player),
        ensures
            final(self).key() == Self::successor(old(self).key(), game_move, player),
    ;

    /// Plays for `player` the move that `f` picks for this position.
    fn update_with_closure<F: FnOnce(&Self) -> Self::Move>(&mut self, f: F, player: PlayerEnum)
        requires
            call_requires(f, (&*old(self),)),
            forall|m: Self::Move|
                call_ensures(f, (&*old(self),), m) ==> Self::legal(old(self).key(), m, player),
        ensures
            exists|m: Self::Move|
                call_ensures(f, (&*old(self),), m) && final(self).key() == #[trigger] Self::successor(
                    old(self).key(),
                    m,
                    player,
                ),
    {
        let game_move = f(self);
        self.update(game_move, player);
    }

    /// The moves that `player` may play, each once, in the order of their
    /// places.
    fn all_legal_moves(&self, player: PlayerEnum) -> (moves: Vec<Self::Move>)
        ensures
            moves@.no_duplicates(),
            forall|m: Self::Move|
                #[trigger] moves@.contains(m) <==> Self::legal(self.key(), m, player),
            forall|i: int|
                0 <= i < moves@.len() ==> Self::place(self.key(), #[trigger] moves@[i], player) == i,
    ;

    /// How the game has ended, if it has, with `next_player` to move.
    fn try_conclude(&self, next_player: PlayerEnum) -> (conclusion: Option<Conclusion>)
        ensures
            conclusion == Self::outcome(self.key(), next_player),
    ;
}

/// Whether `player` has a legal move in the position `key`.
pub open spec fn can_move<Game: GameState>(key: u64, player: PlayerEnum) -> bool {
    exists|m: Game::Move| Game::legal(key, m, player)
}

/// A participant of a game, playing one side of it.
pub trait Player<Game: GameState> {
    /// The side that this player moves for.
    spec fn side(&self) -> PlayerEnum;

    /// What the player's own state must satisfy between calls.
    spec fn ready(&self) -> bool;

    /// Picks a move for the player's side in `game`, in which that side has a
    /// legal move.
    fn choose_move(&mut self, game: Game) -> (chosen: Game::Move)
        requires
            old(self).ready(),
            can_move::<Game>(game.key(), old(self).side()),
        ensures
            final(self).ready(),
            final(self).side() == old(self).side(),
            Game::legal(game.key(), chosen, old(self).side()),
    ;

    /// Tells the player that `game_move` was played, by either side, and led
    /// to `new_state`.
    fn inform_of_move_played(&mut self, new_state: Game, game_move: &Game::Move)
        requires
            old(self).ready(),
        ensures
            final(self).ready(),
            final(self).side() == old(self).side(),
    ;
}

} // verus!
