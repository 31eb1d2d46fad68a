//! The player that decides by Monte Carlo tree search, with an exploration
//! graph that it keeps from one decision to the next.

use crate::aggregate::descends;
use crate::decision::{decide, decided, BudgetExhausted};
use crate::game::{can_move, Conclusion, GameState, Player, PlayerEnum};
use crate::graph::{
    cascaded_wf, excised, excised_wf, graph_wf, grown, has_child, lawful, pruned, pruning_bystanders,
    removed_tree, removed_tree_wf, sided, survivors_lawful, Graph,
};
use crate::node::{graph_of, Cache, Node};
use crate::pruning::{prune, remove_tree};
use crate::random::RandomPlayer;
use crate::rollout::{credit_outcome, may_end, rollout, with_credit, with_credit_wf};
use crate::selection::{descended, select_and_expand, simulation_due, UpperConfidence};
use std::collections::HashMap;
use vstd::prelude::*;

verus! {

broadcast use vstd::std_specs::hash::group_hash_axioms;

/// The number of iterations of a decision, unless another is set.
pub const DEFAULT_BUDGET: u64 = 99;

/// A player that explores the game from the position to decide in, by
/// selection, expansion and simulation, and moves to the most visited child.
pub struct MonteCarloTreeSearchPlayer<Game: GameState, Policy: UpperConfidence> {
    player: PlayerEnum,
    policy: Policy,
    budget: u64,
    explored_states: Cache<Game>,
    last_turn: Option<Game>,
}

/// One iteration of the search for a decision of `player` in `root` has led
/// from the store `before` to the store `after`: selection has descended to
/// a position where a simulation was due, growing the store by at most the
/// record of that position, and the result of a simulation from there was
/// credited to that record.
pub open spec fn explored_once<Game: GameState, Policy: UpperConfidence>(
    policy: Policy,
    before: Graph<Game::Move>,
    after: Graph<Game::Move>,
    root: u64,
    player: PlayerEnum,
) -> bool {
    exists|selected: Graph<Game::Move>, target: u64, conclusion: Conclusion|
        {
            &&& descended::<Game, Policy>(
                policy,
                before,
                selected,
                root,
                player,
                None,
                target,
                Game::plies_left(root) as nat,
            )
            &&& grown(before, selected)
            &&& selected.dom() == before.dom().insert(target)
            &&& selected.contains_key(root)
            &&& simulation_due::<Game>(selected, target)
            &&& target == root || descends(selected, selected[root].children, target)
            &&& may_end::<Game>(target, selected[target].player, conclusion, Game::plies_left(target) as nat)
            &&& after == #[trigger] with_credit(selected, target, conclusion)
        }
}

/// What an iteration of the search for a decision of `player` in `root` does
/// to the record of `root`: the record is there afterwards, for the same
/// side as before or, if it is new, for `player`. Unless its side cannot
/// move, a simulation has started in it or a child of it is known; and a
/// child is known once the iteration found the record with an attempt or a
/// child.
pub open spec fn took_root<Game: GameState>(
    before: Graph<Game::Move>,
    after: Graph<Game::Move>,
    root: u64,
    player: PlayerEnum,
) -> bool {
    &&& after.contains_key(root)
    &&& after[root].player == if before.contains_key(root) {
        before[root].player
    } else {
        player
    }
    &&& after[root].children.len() > 0 || after[root].local_attempts > 0 || !can_move::<Game>(
        root,
        after[root].player,
    )
    &&& before.contains_key(root) && (before[root].children.len() > 0 || before[root].local_attempts > 0)
        && can_move::<Game>(root, before[root].player) ==> after[root].children.len() > 0
}

/// `rounds` iterations of the search for a decision of `player` in `root`,
/// one after the other, have led from the store `before` to the store
/// `after`.
pub open spec fn explored<Game: GameState, Policy: UpperConfidence>(
    policy: Policy,
    before: Graph<Game::Move>,
    after: Graph<Game::Move>,
    root: u64,
    player: PlayerEnum,
    rounds: nat,
) -> bool
    decreases rounds,
{
    if rounds == 0 {
        after == before
    } else {
        exists|last: Graph<Game::Move>|
            explored::<Game, Policy>(policy, before, last, root, player, (rounds - 1) as nat)
                && #[trigger] explored_once::<Game, Policy>(policy, last, after, root, player)
    }
}

impl<Game: GameState, Policy: UpperConfidence> MonteCarloTreeSearchPlayer<Game, Policy> {
    /// The exploration graph.
    pub closed spec fn graph(&self) -> Graph<Game::Move> {
        graph_of(self.explored_states@)
    }

    /// The side that the player moves for.
    pub closed spec fn playing(&self) -> PlayerEnum {
        self.player
    }

    /// The number of iterations of a decision.
    pub closed spec fn iterations(&self) -> u64 {
        self.budget
    }

    /// The rule by which the player ranks the known children of a position;
    /// it holds the exploration constant.
    pub closed spec fn policy(&self) -> Policy {
        self.policy
    }

    /// The position that the game was last known to be in.
    pub closed spec fn last_position(&self) -> Option<u64> {
        match self.last_turn {
            Some(state) => Some(state.key()),
            None => None,
        }
    }

    /// The invariant of the player: its store is well-formed, and every edge
    /// in it is a legal move of the game.
    pub open spec fn sound(&self) -> bool {
        &&& graph_wf(self.graph())
        &&& lawful::<Game>(self.graph())
    }

    /// Every record of the store names the side that is to move in its
    /// position. This holds as long as the player searches on its own turn.
    pub open spec fn sided(&self) -> bool {
        sided::<Game>(self.graph())
    }

    /// A player for the side `player` that ranks known children by `policy`,
    /// with an empty store.
    pub fn new(player: PlayerEnum, policy: Policy) -> (made: Self)
        ensures
            made.sound(),
            made.sided(),
            made.graph() == Map::<u64, crate::graph::NodeView<Game::Move>>::empty(),
            made.playing() == player,
            made.policy() == policy,
            made.iterations() == DEFAULT_BUDGET,
            made.last_position() is None,
    {
        let made = Self {
            player,
            policy,
            budget: DEFAULT_BUDGET,
            explored_states: HashMap::new(),
            last_turn: None,
        };
        assert(made.graph() =~= Map::<u64, crate::graph::NodeView<Game::Move>>::empty());
        made
    }

    /// Sets the number of iterations of each decision.
    pub fn set_budget(&mut self, budget: u64)
        ensures
            final(self).iterations() == budget,
            final(self).graph() == old(self).graph(),
            final(self).sided() == old(self).sided(),
            final(self).playing() == old(self).playing(),
            final(self).policy() == old(self).policy(),
            final(self).last_position() == old(self).last_position(),
    {
        self.budget = budget;
    }

    /// The side that the player moves for.
    pub fn player(&self) -> (side: PlayerEnum)
        ensures
            side == self.playing(),
    {
        self.player
    }

    /// The rule by which the player ranks the known children of a position.
    pub fn confidence_rule(&self) -> (rule: &Policy)
        ensures
            *rule == self.policy(),
    {
        &self.policy
    }

    /// The number of iterations of a decision.
    pub fn budget(&self) -> (budget: u64)
        ensures
            budget == self.iterations(),
    {
        self.budget
    }

    /// The position that the game was last known to be in.
    pub fn last_turn(&self) -> (last: Option<&Game>)
        ensures
            match last {
                Some(state) => self.last_position() == Some(state.key()),
                None => self.last_position() is None,
            },
    {
        self.last_turn.as_ref()
    }

    /// The store of the records.
    pub fn explored_states(&self) -> (cache: &Cache<Game>)
        ensures
            graph_of(cache@) == self.graph(),
    {
        &self.explored_states
    }

    /// The record of the position `game`, if the player knows it.
    pub fn record(&self, game: &Game) -> (known: Option<&Node<Game>>)
        ensures
            match known {
                Some(node) => self.graph().contains_key(game.key()) && node@ == self.graph()[game.key()],
                None => !self.graph().contains_key(game.key()),
            },
    {
        self.explored_states.get(&game.position_key())
    }

    /// Checks that the laws of the store are obeyed: a known parent and a
    /// known child are mutual, and a position that a record knows as its
    /// child or parent has not been destroyed by pruning. A sound player
    /// passes.
    pub fn audit(&self) -> (passed: bool)
        ensures
            passed == crate::graph::mutual(self.graph()),
            self.sound() ==> passed,
    {
        crate::store::audit(&self.explored_states)
    }

    /// Selects the next position to simulate from, for a decision in `game`.
    ///
    /// Starting with `game`: makes a record for the position if required;
    /// returns it if a simulation is due there; else chooses one of its legal
    /// moves by rank and repeats with the position the move leads to.
    pub fn selection_and_expansion(&mut self, game: Game) -> (target: Game)
        requires
            old(self).sound(),
        ensures
            final(self).sound(),
            final(self).playing() == old(self).playing(),
            final(self).policy() == old(self).policy(),
            final(self).iterations() == old(self).iterations(),
            final(self).last_position() == old(self).last_position(),
            grown(old(self).graph(), final(self).graph()),
            final(self).graph().dom() == old(self).graph().dom().insert(target.key()),
            final(self).graph().contains_key(game.key()),
            simulation_due::<Game>(final(self).graph(), target.key()),
            target.key() == game.key() || descends(
                final(self).graph(),
                final(self).graph()[game.key()].children,
                target.key(),
            ),
            descended::<Game, Policy>(
                old(self).policy(),
                old(self).graph(),
                final(self).graph(),
                game.key(),
                old(self).playing(),
                None,
                target.key(),
                Game::plies_left(game.key()) as nat,
            ),
            old(self).sided() && old(self).playing() == Game::turn(game.key()) ==> final(self).sided(),
    {
        select_and_expand(&mut self.explored_states, &self.policy, game, self.player)
    }

    /// One iteration of the search for a decision in `game`: selection and
    /// expansion, a simulation from the position selected, and the credit for
    /// its result.
    pub fn explore(&mut self, game: &Game)
        requires
            old(self).sound(),
        ensures
            final(self).sound(),
            final(self).playing() == old(self).playing(),
            final(self).policy() == old(self).policy(),
            final(self).iterations() == old(self).iterations(),
            final(self).last_position() == old(self).last_position(),
            explored_once::<Game, Policy>(
                old(self).policy(),
                old(self).graph(),
                final(self).graph(),
                game.key(),
                old(self).playing(),
            ),
            old(self).sided() && old(self).playing() == Game::turn(game.key()) ==> final(self).sided(),
            took_root::<Game>(old(self).graph(), final(self).graph(), game.key(), old(self).playing()),
    {
        let ghost before = self.graph();
        // Selection and expansion.
        let state_to_explore = self.selection_and_expansion(game.duplicate());
        let ghost selected = self.graph();
        proof {
            let root = game.key();
            let target = state_to_explore.key();
            if before.contains_key(root) {
                assert(crate::graph::extends(before[root], selected[root]));
            } else {
                assert(selected.dom().contains(root));
                assert(target == root);
                assert(crate::graph::arrived(before, root, self.playing(), None)[root] == crate::graph::fresh::<
                    Game::Move,
                >(self.playing(), None));
            }
            if target != root {
                let path = choose|path: Seq<u64>|
                    path.len() >= 1 && crate::graph::points_to(selected[root].children, path[0])
                        && path.last() == target && #[trigger] crate::aggregate::walk(selected, path);
            }
        }
        let key = state_to_explore.position_key();
        let side = match self.explored_states.get(&key) {
            Some(node_to_explore) => node_to_explore.player,
            None => self.player,
        };
        // Simulation.
        let conclusion = rollout(state_to_explore, side);
        // Credit to the record that the simulation started from.
        proof {
            with_credit_wf::<Game>(selected, key, conclusion);
        }
        credit_outcome(&mut self.explored_states, key, conclusion);
        assert(self.graph() == with_credit(selected, key, conclusion));
    }

    /// Deletes the record of `game_state` with all that hangs on it alone.
    pub fn remove_tree(&mut self, game_state: Game)
        requires
            old(self).sound(),
        ensures
            final(self).sound(),
            final(self).playing() == old(self).playing(),
            final(self).policy() == old(self).policy(),
            final(self).iterations() == old(self).iterations(),
            final(self).last_position() == old(self).last_position(),
            final(self).graph() == removed_tree(old(self).graph(), game_state.key()),
            old(self).sided() ==> final(self).sided(),
    {
        let key = game_state.position_key();
        proof {
            removed_tree_wf(self.graph(), key);
            survivors_lawful::<Game>(self.graph(), removed_tree(self.graph(), key));
        }
        remove_tree(&mut self.explored_states, key);
    }

    /// Removes the records that the move `game_move`, played in
    /// `current_state`, has made impossible. Without a position there is
    /// nothing to remove. Returns the children of the position that the move
    /// does not lead to and that stay because another position leads to them.
    pub fn pruning(&mut self, current_state: Option<Game>, game_move: &Game::Move) -> (left: Vec<
        u64,
    >)
        requires
            old(self).sound(),
        ensures
            final(self).sound(),
            final(self).playing() == old(self).playing(),
            final(self).policy() == old(self).policy(),
            final(self).iterations() == old(self).iterations(),
            final(self).last_position() == old(self).last_position(),
            match current_state {
                Some(state) => {
                    &&& final(self).graph() == pruned(old(self).graph(), state.key(), *game_move)
                    &&& left@ == pruning_bystanders(old(self).graph(), state.key(), *game_move)
                },
                None => final(self).graph() == old(self).graph() && left@.len() == 0,
            },
            old(self).sided() ==> final(self).sided(),
    {
        let current_state = match current_state {
            Some(state) => state,
            None => return Vec::new(),
        };
        let key = current_state.position_key();
        proof {
            let g = self.graph();
            if g.contains_key(key) {
                excised_wf(g, key);
                cascaded_wf(
                    excised(g, key),
                    g[key].children,
                    crate::graph::child_by(g[key].children, *game_move),
                    (g.dom().len() - 1) as nat,
                );
                survivors_lawful::<Game>(g, excised(g, key));
                survivors_lawful::<Game>(excised(g, key), pruned(g, key, *game_move));
            }
        }
        prune(&mut self.explored_states, key, game_move)
    }

    /// Notes that `game_move` was played and led to `new_state`, and prunes
    /// the store of what the move has made impossible in the position that
    /// was noted before. Returns the children of that position that the move
    /// does not lead to and that stay because another position leads to them.
    pub fn note_move_played(&mut self, new_state: Game, game_move: &Game::Move) -> (left: Vec<u64>)
        requires
            old(self).sound(),
        ensures
            final(self).sound(),
            final(self).playing() == old(self).playing(),
            final(self).policy() == old(self).policy(),
            final(self).iterations() == old(self).iterations(),
            final(self).last_position() == Some(new_state.key()),
            match old(self).last_position() {
                Some(key) => {
                    &&& final(self).graph() == pruned(old(self).graph(), key, *game_move)
                    &&& left@ == pruning_bystanders(old(self).graph(), key, *game_move)
                },
                None => final(self).graph() == old(self).graph() && left@.len() == 0,
            },
            old(self).sided() ==> final(self).sided(),
    {
        let last_turn = self.last_turn.take();
        self.last_turn = Some(new_state);
        self.pruning(last_turn, game_move)
    }

    /// Decides on a move in `game` from what the store holds: the move to the
    /// child of `game` below which the most simulations started. Fails if no
    /// child of `game` is known.
    pub fn decide(&self, game: &Game) -> (decision: Result<Game::Move, BudgetExhausted>)
        requires
            self.sound(),
        ensures
            match decision {
                Ok(game_move) => decided(self.graph(), game.key(), game_move),
                Err(_) => !self.graph().contains_key(game.key()) || self.graph()[game.key()].children.len()
                    == 0,
            },
    {
        decide(&self.explored_states, game.position_key())
    }

    /// Searches for as many iterations as the budget allows, then decides.
    pub fn search(&mut self, game: &Game) -> (decision: Result<Game::Move, BudgetExhausted>)
        requires
            old(self).sound(),
        ensures
            final(self).sound(),
            final(self).playing() == old(self).playing(),
            final(self).policy() == old(self).policy(),
            final(self).iterations() == old(self).iterations(),
            final(self).last_position() == old(self).last_position(),
            explored::<Game, Policy>(
                old(self).policy(),
                old(self).graph(),
                final(self).graph(),
                game.key(),
                old(self).playing(),
                old(self).iterations() as nat,
            ),
            match decision {
                Ok(game_move) => decided(final(self).graph(), game.key(), game_move),
                Err(_) => !final(self).graph().contains_key(game.key()) || final(self).graph()[game.key()].children.len()
                    == 0,
            },
            old(self).sided() && old(self).playing() == Game::turn(game.key()) ==> final(self).sided(),
            old(self).sided() && can_move::<Game>(game.key(), old(self).playing()) && old(self).iterations()
                >= 2 ==> decision is Ok,
    {
        let ghost on_turn = self.sided() && can_move::<Game>(game.key(), self.playing());
        proof {
            if on_turn {
                let m = choose|m: Game::Move| Game::legal(game.key(), m, self.playing());
                Game::moves_in_turn(game.key(), m, self.playing());
            }
        }
        let mut done: u64 = 0;
        while done < self.budget
            invariant
                done <= self.budget,
                self.sound(),
                self.playing() == old(self).playing(),
                self.policy() == old(self).policy(),
                self.iterations() == old(self).iterations(),
                self.last_position() == old(self).last_position(),
                explored::<Game, Policy>(
                    old(self).policy(),
                    old(self).graph(),
                    self.graph(),
                    game.key(),
                    old(self).playing(),
                    done as nat,
                ),
                old(self).sided() && old(self).playing() == Game::turn(game.key()) ==> self.sided(),
                on_turn == (old(self).sided() && can_move::<Game>(game.key(), old(self).playing())),
                on_turn ==> self.playing() == Game::turn(game.key()),
                on_turn && done >= 1 ==> self.graph().contains_key(game.key()) && (
                self.graph()[game.key()].children.len() > 0 || self.graph()[game.key()].local_attempts > 0),
                on_turn && done >= 2 ==> self.graph().contains_key(game.key())
                    && self.graph()[game.key()].children.len() > 0,
            decreases self.budget - done,
        {
            let ghost last = self.graph();
            self.explore(game);
            done += 1;
            proof {
                let now = self.graph();
                let root = game.key();
                if on_turn {
                    assert(now[root].player == Game::turn(root));
                    if last.contains_key(root) {
                        assert(last[root].player == Game::turn(root));
                    }
                }
            }
            assert(explored_once::<Game, Policy>(
                self.policy(),
                last,
                self.graph(),
                game.key(),
                self.playing(),
            ));
        }
        // Pick the child with the most simulations made.
        self.decide(game)
    }
}

impl<Game: GameState, Policy: UpperConfidence> Player<Game> for MonteCarloTreeSearchPlayer<Game, Policy> {
    open spec fn side(&self) -> PlayerEnum {
        self.playing()
    }

    open spec fn ready(&self) -> bool {
        self.sound() && self.sided()
    }

    /// Searches from `game` and moves to the most visited child. With a budget
    /// of two iterations or more the search always finds a child. With a
    /// smaller budget it may find none, and a legal move is then picked at
    /// random; `search` signals that case instead.
    fn choose_move(&mut self, game: Game) -> (chosen: Game::Move)
        ensures
            final(self).policy() == old(self).policy(),
            final(self).iterations() == old(self).iterations(),
            final(self).last_position() == old(self).last_position(),
            explored::<Game, Policy>(
                old(self).policy(),
                old(self).graph(),
                final(self).graph(),
                game.key(),
                old(self).playing(),
                old(self).iterations() as nat,
            ),
            decided(final(self).graph(), game.key(), chosen) || !final(self).graph().contains_key(game.key())
                || final(self).graph()[game.key()].children.len() == 0,
            old(self).iterations() >= 2 ==> decided(final(self).graph(), game.key(), chosen),
    {
        proof {
            let m = choose|m: Game::Move| Game::legal(game.key(), m, self.playing());
            Game::moves_in_turn(game.key(), m, self.playing());
        }
        match self.search(&game) {
            Ok(decision) => {
                proof {
                    let g = self.graph();
                    let key = game.key();
                    let i = choose|i: int| #[trigger]
                        crate::decision::most_visited(g, g[key].children, i) && g[key].children[i].0
                            == decision;
                    assert(g[key].children.contains(g[key].children[i]));
                    assert(has_child(g, key, decision, g[key].children[i].1));
                    let m = choose|m: Game::Move| Game::legal(key, m, self.playing());
                    Game::moves_in_turn(key, m, self.playing());
                }
                decision
            },
            Err(_) => {
                let mut fallback = RandomPlayer(self.player);
                fallback.choose_move(game)
            },
        }
    }

    /// Notes the position that the game is in now, and prunes the store of
    /// what the move has made impossible in the position before.
    fn inform_of_move_played(&mut self, new_state: Game, game_move: &Game::Move)
        ensures
            final(self).policy() == old(self).policy(),
            final(self).iterations() == old(self).iterations(),
            final(self).last_position() == Some(new_state.key()),
            final(self).graph() == match old(self).last_position() {
                Some(key) => pruned(old(self).graph(), key, *game_move),
                None => old(self).graph(),
            },
    {
        self.note_move_played(new_state, game_move);
    }
}

} // verus!
