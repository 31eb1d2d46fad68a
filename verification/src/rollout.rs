//! Simulation: playing a position out with random moves, and crediting the
//! result to the record the simulation started from.

use crate::game::{Conclusion, GameState, Player, PlayerEnum};
use crate::graph::{graph_wf, has_child, has_parent, lawful, node_wf, sided, Graph, NodeView};
use crate::node::{graph_of, Cache, Node};
use crate::random::RandomPlayer;
use vstd::prelude::*;

verus! {

broadcast use vstd::std_specs::hash::group_hash_axioms;

/// Whether a game that stands in `key` with `player` to move can end in
/// `conclusion` within `plies` plies of legal moves, the sides moving in turn.
pub open spec fn may_end<Game: GameState>(
    key: u64,
    player: PlayerEnum,
    conclusion: Conclusion,
    plies: nat,
) -> bool
    decreases plies,
{
    if Game::outcome(key, player) is Some {
        Game::outcome(key, player) == Some(conclusion)
    } else if plies == 0 {
        false
    } else {
        exists|m: Game::Move|
            #[trigger] Game::legal(key, m, player) && may_end::<Game>(
                Game::successor(key, m, player),
                player.opponent(),
                conclusion,
                (plies - 1) as nat,
            )
    }
}

/// What can end within some plies can end within more.
pub proof fn may_end_later<Game: GameState>(
    key: u64,
    player: PlayerEnum,
    conclusion: Conclusion,
    plies: nat,
    more: nat,
)
    requires
        may_end::<Game>(key, player, conclusion, plies),
        plies <= more,
    ensures
        may_end::<Game>(key, player, conclusion, more),
    decreases plies,
{
    if Game::outcome(key, player) is None {
        let m = choose|m: Game::Move|
            #[trigger] Game::legal(key, m, player) && may_end::<Game>(
                Game::successor(key, m, player),
                player.opponent(),
                conclusion,
                (plies - 1) as nat,
            );
        may_end_later::<Game>(
            Game::successor(key, m, player),
            player.opponent(),
            conclusion,
            (plies - 1) as nat,
            (more - 1) as nat,
        );
    }
}

/// Plays `state` out, `player` moving first, with moves picked at random by
/// either side in turn, and returns how the game ended. The store is not
/// touched: the simulation works on its own copy of the position.
pub fn rollout<Game: GameState>(state: Game, player: PlayerEnum) -> (conclusion: Conclusion)
    ensures
        may_end::<Game>(state.key(), player, conclusion, Game::plies_left(state.key()) as nat),
{
    let ghost start = state.key();
    let mut current = state;
    let mut random_player = RandomPlayer(player);
    loop
        invariant
            start == state.key(),
            forall|c: Conclusion|
                may_end::<Game>(current.key(), random_player.0, c, Game::plies_left(current.key()) as nat)
                    ==> #[trigger] may_end::<Game>(start, player, c, Game::plies_left(start) as nat),
        decreases Game::plies_left(current.key()),
    {
        let current_player = random_player.0;
        let ghost key = current.key();
        match current.try_conclude(current_player) {
            Some(conclusion) => {
                assert(may_end::<Game>(key, current_player, conclusion, Game::plies_left(key) as nat));
                return conclusion;
            },
            None => (),
        }
        proof {
            Game::open_game_has_move(key, current_player);
        }
        let game_move = random_player.choose_move(current.duplicate());
        current.update(game_move, current_player);
        random_player = RandomPlayer(current_player.other());
        proof {
            Game::moves_in_turn(key, game_move, current_player);
            assert forall|c: Conclusion|
                may_end::<Game>(
                    current.key(),
                    random_player.0,
                    c,
                    Game::plies_left(current.key()) as nat,
                ) implies #[trigger] may_end::<Game>(start, player, c, Game::plies_left(start) as nat) by {
                may_end_later::<Game>(
                    current.key(),
                    random_player.0,
                    c,
                    Game::plies_left(current.key()) as nat,
                    (Game::plies_left(key) - 1) as nat,
                );
                assert(may_end::<Game>(key, current_player, c, Game::plies_left(key) as nat));
            }
        }
    }
}

/// The record after a simulation that started in its position has ended in
/// `conclusion`: one more attempt, and one more win or loss where a side
/// has won, seen from the side to move in the position. A draw counts as an
/// attempt alone. A record whose attempts have reached the limit of the
/// counter stays as it is.
pub open spec fn credited<M>(node: NodeView<M>, conclusion: Conclusion) -> NodeView<M> {
    if node.local_attempts == u64::MAX {
        node
    } else {
        match conclusion {
            Conclusion::Win(winner) => if winner == node.player {
                NodeView {
                    local_wins: (node.local_wins + 1) as u64,
                    local_attempts: (node.local_attempts + 1) as u64,
                    ..node
                }
            } else {
                NodeView {
                    local_losses: (node.local_losses + 1) as u64,
                    local_attempts: (node.local_attempts + 1) as u64,
                    ..node
                }
            },
            Conclusion::Draw => NodeView { local_attempts: (node.local_attempts + 1) as u64, ..node },
        }
    }
}

impl<Game: GameState> Node<Game> {
    /// Credits the result of a simulation that started in this position.
    pub fn credit(&mut self, conclusion: Conclusion)
        requires
            node_wf(old(self)@),
        ensures
            final(self)@ == credited(old(self)@, conclusion),
            node_wf(final(self)@),
    {
        if self.local_attempts == u64::MAX {
            return ;
        }
        match conclusion {
            Conclusion::Win(winner) => {
                if winner == self.player {
                    self.local_wins += 1;
                } else {
                    self.local_losses += 1;
                }
                self.local_attempts += 1;
            },
            Conclusion::Draw => {
                // A draw counts as neither win nor loss.
                self.local_attempts += 1;
            },
        }
    }
}

/// The store after the simulation from `key` was credited.
pub open spec fn with_credit<M>(g: Graph<M>, key: u64, conclusion: Conclusion) -> Graph<M> {
    if g.contains_key(key) {
        g.insert(key, credited(g[key], conclusion))
    } else {
        g
    }
}

/// Crediting changes counters of one record alone: the store stays
/// well-formed, lawful and sided.
pub proof fn with_credit_wf<Game: GameState>(g: Graph<Game::Move>, key: u64, conclusion: Conclusion)
    requires
        graph_wf(g),
    ensures
        graph_wf(with_credit(g, key, conclusion)),
        lawful::<Game>(g) ==> lawful::<Game>(with_credit(g, key, conclusion)),
        sided::<Game>(g) ==> sided::<Game>(with_credit(g, key, conclusion)),
        with_credit(g, key, conclusion).dom() == g.dom(),
{
    let g2 = with_credit(g, key, conclusion);
    assert(g2.dom() =~= g.dom());
    assert forall|a: u64, m: Game::Move, b: u64|
        #![trigger has_child(g2, a, m, b)]
        #![trigger has_parent(g2, b, m, a)]
        (has_child(g2, a, m, b) <==> has_child(g, a, m, b)) && (has_parent(g2, b, m, a) <==> has_parent(
            g,
            b,
            m,
            a,
        )) by {}
    assert forall|a: u64, m: Game::Move, b: u64|
        #![trigger has_child(g2, a, m, b)]
        #![trigger has_parent(g2, b, m, a)]
        has_child(g2, a, m, b) <==> has_parent(g2, b, m, a) by {
        assert(has_child(g, a, m, b) <==> has_parent(g, b, m, a));
    }
    assert forall|k: u64| g2.contains_key(k) implies node_wf(#[trigger] g2[k]) by {
        assert(node_wf(g[k]));
    }
    if lawful::<Game>(g) {
        assert forall|a: u64, game_move: Game::Move, b: u64| #[trigger]
            has_child(g2, a, game_move, b) implies Game::legal(a, game_move, Game::turn(a)) && b
            == Game::successor(a, game_move, Game::turn(a)) by {
            assert(has_child(g, a, game_move, b));
        }
    }
    if sided::<Game>(g) {
        assert forall|k: u64|
            g2.contains_key(k) implies (#[trigger] g2[k]).player == Game::turn(k) by {
            assert(g[k].player == Game::turn(k));
        }
    }
}

/// Credits the result of a simulation to the record of the position `key`
/// that it started from, if the store has that record.
pub fn credit_outcome<Game: GameState>(cache: &mut Cache<Game>, key: u64, conclusion: Conclusion)
    requires
        graph_wf(graph_of(old(cache)@)),
    ensures
        graph_of(final(cache)@) == with_credit(graph_of(old(cache)@), key, conclusion),
{
    let ghost g = graph_of(cache@);
    match cache.remove(&key) {
        Some(node) => {
            let mut node = node;
            assert(node@ == g[key]);
            assert(node_wf(g[key]));
            node.credit(conclusion);
            cache.insert(key, node);
            assert(graph_of(cache@) =~= with_credit(g, key, conclusion));
        },
        None => {
            assert(graph_of(cache@) =~= g);
        },
    }
}

} // verus!
