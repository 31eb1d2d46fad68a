//! The driver of a game: it lets the two players move in turn and notes how
//! the game ends.

use crate::game::{can_move, Conclusion, GameState, Player, PlayerEnum};
use vstd::prelude::*;

verus! {

/// A game that stands in `key` with `mover` to move is played out in the
/// position `end` with `conclusion`, within `plies` plies: the side to move
/// plays a legal move; if the game is concluded for the other side in the
/// position that the move leads to, that position is `end`; else the game
/// is played out from there, the other side moving.
pub open spec fn played_out<Game: GameState>(
    key: u64,
    mover: PlayerEnum,
    end: u64,
    conclusion: Conclusion,
    plies: nat,
) -> bool
    decreases plies,
{
    plies > 0 && exists|m: Game::Move| #[trigger]
        Game::legal(key, m, mover) && match Game::outcome(
            Game::successor(key, m, mover),
            mover.opponent(),
        ) {
            Some(how) => end == Game::successor(key, m, mover) && conclusion == how,
            None => played_out::<Game>(
                Game::successor(key, m, mover),
                mover.opponent(),
                end,
                conclusion,
                (plies - 1) as nat,
            ),
        }
}

/// What is played out within some plies is played out within more.
pub proof fn played_out_later<Game: GameState>(
    key: u64,
    mover: PlayerEnum,
    end: u64,
    conclusion: Conclusion,
    plies: nat,
    more: nat,
)
    requires
        played_out::<Game>(key, mover, end, conclusion, plies),
        plies <= more,
    ensures
        played_out::<Game>(key, mover, end, conclusion, more),
    decreases plies,
{
    let m = choose|m: Game::Move| #[trigger]
        Game::legal(key, m, mover) && match Game::outcome(
            Game::successor(key, m, mover),
            mover.opponent(),
        ) {
            Some(how) => end == Game::successor(key, m, mover) && conclusion == how,
            None => played_out::<Game>(
                Game::successor(key, m, mover),
                mover.opponent(),
                end,
                conclusion,
                (plies - 1) as nat,
            ),
        };
    if Game::outcome(Game::successor(key, m, mover), mover.opponent()) is None {
        played_out_later::<Game>(
            Game::successor(key, m, mover),
            mover.opponent(),
            end,
            conclusion,
            (plies - 1) as nat,
            (more - 1) as nat,
        );
    }
}

/// A game in progress between two players.
pub struct Adjudicator<Game: GameState, First: Player<Game>, Second: Player<Game>> {
    current_turn: PlayerEnum,
    game_state: Game,
    player_one: First,
    player_two: Second,
    conclusion: Option<Conclusion>,
}

impl<Game: GameState, First: Player<Game>, Second: Player<Game>> Adjudicator<Game, First, Second> {
    /// The side that moves next.
    pub closed spec fn turn(&self) -> PlayerEnum {
        self.current_turn
    }

    /// The content address of the current position.
    pub closed spec fn position(&self) -> u64 {
        self.game_state.key()
    }

    /// How the game ended, once it has.
    pub closed spec fn outcome(&self) -> Option<Conclusion> {
        self.conclusion
    }

    /// The player of side one.
    pub closed spec fn first(&self) -> First {
        self.player_one
    }

    /// The player of side two.
    pub closed spec fn second(&self) -> Second {
        self.player_two
    }

    /// Both players are ready, and each plays the side of its seat.
    pub open spec fn seated(&self) -> bool {
        &&& self.first().ready()
        &&& self.first().side() == PlayerEnum::One
        &&& self.second().ready()
        &&& self.second().side() == PlayerEnum::Two
    }

    /// Starts a game in `game_state`, with side one to move.
    pub fn new(game_state: Game, player_one: First, player_two: Second) -> (started: Self)
        ensures
            started.turn() == PlayerEnum::One,
            started.position() == game_state.key(),
            started.outcome() is None,
            started.first() == player_one,
            started.second() == player_two,
    {
        Self {
            current_turn: PlayerEnum::One,
            game_state,
            player_one,
            player_two,
            conclusion: None,
        }
    }

    /// Plays one ply: the player whose turn it is chooses a move, the move is
    /// played, both players are told, and the game is concluded if it has
    /// ended for the side that would move next. Otherwise the turn passes on,
    /// and that side has a move.
    pub fn progress_one_turn(&mut self)
        requires
            old(self).seated(),
            can_move::<Game>(old(self).position(), old(self).turn()),
        ensures
            final(self).seated(),
            exists|m: Game::Move|
                Game::legal(old(self).position(), m, old(self).turn()) && final(self).position()
                    == #[trigger] Game::successor(old(self).position(), m, old(self).turn()),
            match Game::outcome(final(self).position(), old(self).turn().opponent()) {
                Some(conclusion) => {
                    &&& final(self).outcome() == Some(conclusion)
                    &&& final(self).turn() == old(self).turn()
                },
                None => {
                    &&& final(self).outcome() == old(self).outcome()
                    &&& final(self).turn() == old(self).turn().opponent()
                    &&& can_move::<Game>(final(self).position(), final(self).turn())
                },
            },
    {
        let chosen_move = match self.current_turn {
            PlayerEnum::One => {
                let chosen_move = self.player_one.choose_move(self.game_state.duplicate());
                self.game_state.update(chosen_move, PlayerEnum::One);
                chosen_move
            },
            PlayerEnum::Two => {
                let chosen_move = self.player_two.choose_move(self.game_state.duplicate());
                self.game_state.update(chosen_move, PlayerEnum::Two);
                chosen_move
            },
        };
        assert(self.game_state.key() == Game::successor(
            old(self).position(),
            chosen_move,
            old(self).turn(),
        ));

        self.player_one.inform_of_move_played(self.game_state.duplicate(), &chosen_move);
        self.player_two.inform_of_move_played(self.game_state.duplicate(), &chosen_move);

        let next_player = self.current_turn.other();

        match self.game_state.try_conclude(next_player) {
            Some(conclusion) => {
                self.conclusion = Some(conclusion);
            },
            None => {
                proof {
                    Game::open_game_has_move(self.game_state.key(), next_player);
                }
                self.current_turn = next_player;
            },
        }
    }

    /// Whether the side to move has a legal move, so that a ply can be played.
    pub fn can_progress(&self) -> (able: bool)
        ensures
            able == can_move::<Game>(self.position(), self.turn()),
    {
        let moves = self.game_state.all_legal_moves(self.current_turn);
        proof {
            if moves@.len() > 0 {
                assert(moves@.contains(moves@[0]));
            }
            if can_move::<Game>(self.position(), self.turn()) {
                let m = choose|m: Game::Move| Game::legal(self.position(), m, self.turn());
                assert(moves@.contains(m));
            }
        }
        moves.len() > 0
    }

    /// Plays the game to its end, ply by ply, and returns how it ended: the
    /// game has gone by legal moves, the sides moving in turn, to a position
    /// in which it is concluded, and through none before. A game that was
    /// concluded already stays as it is.
    pub fn play(&mut self) -> (conclusion: Conclusion)
        requires
            old(self).seated(),
            old(self).outcome() is None ==> can_move::<Game>(old(self).position(), old(self).turn()),
        ensures
            final(self).seated(),
            final(self).outcome() == Some(conclusion),
            old(self).outcome() is Some ==> final(self).outcome() == old(self).outcome()
                && final(self).position() == old(self).position() && final(self).turn() == old(
                self,
            ).turn(),
            old(self).outcome() is None ==> {
                &&& played_out::<Game>(
                    old(self).position(),
                    old(self).turn(),
                    final(self).position(),
                    conclusion,
                    Game::plies_left(old(self).position()) as nat,
                )
                &&& Game::outcome(final(self).position(), final(self).turn().opponent()) == Some(conclusion)
            },
    {
        let ghost start = self.position();
        let ghost first = self.turn();
        loop
            invariant
                start == old(self).position(),
                first == old(self).turn(),
                self.seated(),
                self.outcome() is None ==> can_move::<Game>(self.position(), self.turn()),
                old(self).outcome() is Some ==> self.outcome() == old(self).outcome() && self.position()
                    == old(self).position() && self.turn() == old(self).turn(),
                old(self).outcome() is None && self.outcome() is Some ==> {
                    &&& played_out::<Game>(
                        start,
                        first,
                        self.position(),
                        self.outcome()->0,
                        Game::plies_left(start) as nat,
                    )
                    &&& Game::outcome(self.position(), self.turn().opponent()) == self.outcome()
                },
                self.outcome() is None ==> forall|end: u64, how: Conclusion|
                    played_out::<Game>(
                        self.position(),
                        self.turn(),
                        end,
                        how,
                        Game::plies_left(self.position()) as nat,
                    ) ==> #[trigger] played_out::<Game>(start, first, end, how, Game::plies_left(start) as nat),
            decreases Game::plies_left(self.position()),
        {
            match self.conclusion {
                Some(conclusion) => {
                    return conclusion;
                },
                None => (),
            }
            let ghost before = self.position();
            let ghost mover = self.turn();
            self.progress_one_turn();
            proof {
                let m = choose|m: Game::Move|
                    Game::legal(before, m, mover) && self.position() == #[trigger] Game::successor(
                        before,
                        m,
                        mover,
                    );
                Game::moves_in_turn(before, m, mover);
                let next = self.position();
                match Game::outcome(next, mover.opponent()) {
                    Some(how) => {
                        assert(played_out::<Game>(before, mover, next, how, Game::plies_left(before) as nat));
                    },
                    None => {
                        assert forall|end: u64, how: Conclusion|
                            played_out::<Game>(
                                next,
                                mover.opponent(),
                                end,
                                how,
                                Game::plies_left(next) as nat,
                            ) implies #[trigger] played_out::<Game>(
                            start,
                            first,
                            end,
                            how,
                            Game::plies_left(start) as nat,
                        ) by {
                            played_out_later::<Game>(
                                next,
                                mover.opponent(),
                                end,
                                how,
                                Game::plies_left(next) as nat,
                                (Game::plies_left(before) - 1) as nat,
                            );
                            assert(played_out::<Game>(before, mover, end, how, Game::plies_left(before) as nat));
                        }
                    },
                }
            }
        }
    }

    /// How the game ended, or `None` while it goes on.
    pub fn conclusion(&self) -> (conclusion: Option<Conclusion>)
        ensures
            conclusion == self.outcome(),
    {
        self.conclusion
    }

    /// The side that moves next.
    pub fn current_turn(&self) -> (side: PlayerEnum)
        ensures
            side == self.turn(),
    {
        self.current_turn
    }

    /// The current position.
    pub fn game_state(&self) -> (state: &Game)
        ensures
            state.key() == self.position(),
    {
        &self.game_state
    }
}

} // verus!
