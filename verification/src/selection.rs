//! Choosing where to search next: ranking the moves of a position, and the
//! descent from the root of a decision to the position to simulate from.

use crate::aggregate::{
    child_within_parent, descends, descends_first, descends_in_grown,
    descends_next, edge, rooted, total_below, Counter,
};
use crate::game::{can_move, GameState, PlayerEnum};
use crate::graph::{
    arrived, arrived_lawful, arrived_wf, distinct_moves, extends, fresh, graph_wf, grown,
    grown_reflexive, grown_transitive, has_child, lawful, may_arrive, no_dangling_edges, node_wf,
    one_child_per_move, sided, Graph,
};
use crate::node::{find_child, graph_of, Cache, Node};
use crate::store::arrive;
use vstd::prelude::*;

verus! {

broadcast use vstd::std_specs::hash::group_hash_axioms;

/// The rule that weighs what is known of a child against how little it has
/// been tried. The value is a function of the rule and of the three numbers
/// it is asked with, so that the same store always gives the same ranks.
pub trait UpperConfidence {
    /// The upper confidence value of a child from the wins and the attempts
    /// below it and the attempts below its parent.
    spec fn value(&self, wins: u128, attempts: u128, parent_attempts: u128) -> u64;

    /// Computes the upper confidence value. A larger value makes the child
    /// more worth a visit. The rule is asked only of a child below which
    /// something has been tried, so that every ratio and every logarithm it
    /// may take of these numbers is defined.
    fn uct_value(&self, wins: u128, attempts: u128, parent_attempts: u128) -> (value: u64)
        requires
            1 <= attempts <= parent_attempts,
            wins <= attempts,
        ensures
            value == self.value(wins, attempts, parent_attempts),
    ;
}

/// The share of `wins` in `attempts` in fixed point, with 32 bits behind the
/// point: a value between zero and two to the 32. Numbers of 96 bits or
/// more are taken without their lowest 32 bits.
pub open spec fn share(wins: u128, attempts: u128) -> u64 {
    let (part, whole): (int, int) = if attempts < 0x1_0000_0000_0000_0000_0000_0000 {
        (wins as int, attempts as int)
    } else {
        (wins as int / 0x1_0000_0000, attempts as int / 0x1_0000_0000)
    };
    ((part * 0x1_0000_0000) / whole) as u64
}

/// The confidence rule with the exploration constant zero: a child is worth
/// what its side has won below it, and nothing is added for a child that was
/// tried little.
#[derive(Clone, Copy, Debug)]
pub struct Exploitation;

impl UpperConfidence for Exploitation {
    open spec fn value(&self, wins: u128, attempts: u128, parent_attempts: u128) -> u64 {
        share(wins, attempts)
    }

    fn uct_value(&self, wins: u128, attempts: u128, parent_attempts: u128) -> (value: u64) {
        let (part, whole) = if attempts < 0x1_0000_0000_0000_0000_0000_0000 {
            (wins, attempts)
        } else {
            (wins / 0x1_0000_0000, attempts / 0x1_0000_0000)
        };
        proof {
            assert(part <= whole);
            assert(whole >= 1);
            assert(part * 0x1_0000_0000 <= whole * 0x1_0000_0000);
            vstd::arithmetic::div_mod::lemma_div_is_ordered(
                part * 0x1_0000_0000,
                whole * 0x1_0000_0000,
                whole as int,
            );
            vstd::arithmetic::div_mod::lemma_div_multiples_vanish(0x1_0000_0000, whole as int);
            assert(whole * 0x1_0000_0000 == whole as int * 0x1_0000_0000);
            vstd::arithmetic::div_mod::lemma_div_pos_is_pos(part * 0x1_0000_0000, whole as int);
        }
        let scaled: u128 = part * 0x1_0000_0000 / whole;
        scaled as u64
    }
}

/// Whether the rank `a` is strictly better than the rank `b`. A move without
/// a known child has no rank and is better than any ranked move.
pub open spec fn outranks(a: Option<u64>, b: Option<u64>) -> bool {
    match (a, b) {
        (None, Some(_)) => true,
        (Some(x), Some(y)) => x > y,
        _ => false,
    }
}

/// The place `i` holds a best rank, and no earlier place holds one as good.
pub open spec fn is_first_best(ranks: Seq<Option<u64>>, i: int) -> bool {
    &&& 0 <= i < ranks.len()
    &&& forall|j: int| 0 <= j < i ==> outranks(ranks[i], #[trigger] ranks[j])
    &&& forall|j: int| i < j < ranks.len() ==> !outranks(#[trigger] ranks[j], ranks[i])
}

/// The first place among those with the best rank, or `None` if there is no
/// place at all.
pub fn first_best(ranks: &Vec<Option<u64>>) -> (best: Option<usize>)
    ensures
        best is None <==> ranks.len() == 0,
        best matches Some(i) ==> is_first_best(ranks@, i as int),
{
    if ranks.len() == 0 {
        return None;
    }
    let mut best: usize = 0;
    let mut j: usize = 1;
    while j < ranks.len()
        invariant
            1 <= j <= ranks.len(),
            best < j,
            forall|t: int| 0 <= t < best ==> outranks(ranks@[best as int], #[trigger] ranks@[t]),
            forall|t: int| best < t < j ==> !outranks(#[trigger] ranks@[t], ranks@[best as int]),
        decreases ranks.len() - j,
    {
        let better = match (ranks[j], ranks[best]) {
            (None, Some(_)) => true,
            (Some(x), Some(y)) => x > y,
            _ => false,
        };
        if better {
            best = j;
        }
        j += 1;
    }
    Some(best)
}

/// What is known of a move for ranking it: nothing where the move has no
/// known child, else the wins and the attempts below the child, as they
/// count in the child.
pub open spec fn known_of<M>(g: Graph<M>, children: Seq<(M, u64)>, game_move: M) -> Option<(nat, nat)> {
    if exists|b: u64| children.contains((game_move, b)) {
        let b = choose|b: u64| children.contains((game_move, b));
        Some(
            (
                total_below(g, Counter::Wins, g[b].children),
                total_below(g, Counter::Attempts, g[b].children),
            ),
        )
    } else {
        None
    }
}

/// The rank of a move of which `known` is known, where `known` is as
/// `known_of` gives it and `parent` attempts were made below the parent: no
/// rank where nothing is known, the highest value where no attempt was made
/// below the child, and else the value of the confidence rule.
pub open spec fn rank_for<Policy: UpperConfidence>(
    policy: Policy,
    parent: nat,
    known: Option<(nat, nat)>,
) -> Option<u64> {
    match known {
        None => None,
        Some((wins, attempts)) => if attempts == 0 {
            Some(u64::MAX)
        } else {
            Some(policy.value(wins as u128, attempts as u128, parent as u128))
        },
    }
}

/// What is known of a move, in unbounded numbers.
pub open spec fn unbounded(known: Option<(u128, u128)>) -> Option<(nat, nat)> {
    match known {
        Some((wins, attempts)) => Some((wins as nat, attempts as nat)),
        None => None,
    }
}

/// Ranks moves by what is known of them: a move of which nothing is known
/// gets no rank, a move with no attempt below its child gets the highest
/// value, and for any other move the confidence rule is asked, with the wins
/// and attempts below the child and the attempts below the parent.
pub fn rank_moves<Policy: UpperConfidence>(
    policy: &Policy,
    known: &Vec<Option<(u128, u128)>>,
    parent_attempts: u128,
) -> (ranks: Vec<Option<u64>>)
    requires
        forall|i: int|
            0 <= i < known@.len() ==> (#[trigger] known@[i] matches Some((wins, attempts)) ==> wins <= attempts
                <= parent_attempts),
    ensures
        ranks@.len() == known@.len(),
        forall|i: int|
            0 <= i < known@.len() ==> #[trigger] ranks@[i] == rank_for(
                *policy,
                parent_attempts as nat,
                unbounded(known@[i]),
            ),
{
    let mut ranks: Vec<Option<u64>> = Vec::new();
    let mut i: usize = 0;
    while i < known.len()
        invariant
            i <= known.len(),
            ranks@.len() == i,
            forall|t: int|
                0 <= t < known@.len() ==> (#[trigger] known@[t] matches Some((wins, attempts)) ==> wins
                    <= attempts <= parent_attempts),
            forall|t: int|
                0 <= t < i ==> #[trigger] ranks@[t] == rank_for(
                    *policy,
                    parent_attempts as nat,
                    unbounded(known@[t]),
                ),
        decreases known.len() - i,
    {
        let rank = match known[i] {
            Some((wins, attempts)) => {
                // If never explored, maximum exploration value.
                if attempts == 0 {
                    Some(u64::MAX)
                } else {
                    Some(policy.uct_value(wins, attempts, parent_attempts))
                }
            },
            None => None,
        };
        ranks.push(rank);
        i += 1;
    }
    ranks
}

impl<Game: GameState> Node<Game> {
    /// What is known of each of `moves` for ranking it, in the order of
    /// `moves`: see `known_of`.
    pub fn known_of_moves(&self, moves: &Vec<Game::Move>, cache: &Cache<Game>) -> (known: Vec<
        Option<(u128, u128)>,
    >)
        requires
            graph_wf(graph_of(cache@)),
            rooted(graph_of(cache@), self@.children),
            distinct_moves(self@.children),
        ensures
            known@.len() == moves@.len(),
            forall|i: int|
                0 <= i < moves@.len() ==> unbounded(#[trigger] known@[i]) == known_of(
                    graph_of(cache@),
                    self@.children,
                    moves@[i],
                ),
            forall|i: int|
                0 <= i < known@.len() ==> (#[trigger] known@[i] matches Some((wins, attempts)) ==> wins
                    <= attempts <= total_below(graph_of(cache@), Counter::Attempts, self@.children)),
    {
        let ghost g = graph_of(cache@);
        let mut known: Vec<Option<(u128, u128)>> = Vec::new();
        let mut i: usize = 0;
        while i < moves.len()
            invariant
                i <= moves.len(),
                g == graph_of(cache@),
                graph_wf(g),
                rooted(g, self@.children),
                distinct_moves(self@.children),
                known@.len() == i,
                forall|t: int|
                    0 <= t < i ==> unbounded(#[trigger] known@[t]) == known_of(g, self@.children, moves@[t]),
                forall|t: int|
                    0 <= t < i ==> (#[trigger] known@[t] matches Some((wins, attempts)) ==> wins <= attempts
                        <= total_below(g, Counter::Attempts, self@.children)),
            decreases moves.len() - i,
        {
            let game_move = moves[i];
            // Try to find a child with this move.
            let entry = match find_child::<Game>(&self.children, &game_move) {
                Some(child) => {
                    proof {
                        let t = choose|t: int|
                            0 <= t < self@.children.len() && self@.children[t] == (game_move, child);
                        assert(self@.children[t].1 == child);
                        assert(g.contains_key(self@.children[t].1));
                        // A move labels one edge at most here, so the child found is the only one.
                        let b = choose|b: u64| self@.children.contains((game_move, b));
                        one_child_per_move(self@.children, game_move, b, child);
                    }
                    match cache.get(&child) {
                        Some(record) => {
                            assert(record@ == g[child]);
                            proof {
                                assert forall|t: int| 0 <= t < record@.children.len() implies g.contains_key(
                                    (#[trigger] record@.children[t]).1,
                                ) by {
                                    assert(record@.children.contains(record@.children[t]));
                                    no_dangling_edges(g, child, record@.children[t]);
                                }
                                child_within_parent(g, self@.children, child);
                            }
                            Some((record.wins(cache), record.attempts(cache)))
                        },
                        None => None,
                    }
                },
                None => None,
            };
            known.push(entry);
            i += 1;
        }
        known
    }

    /// Chooses the move to follow from this record, the record of the
    /// position `game`: the first of the legal moves with the best rank.
    /// Returns `None` only if the side to move has no legal move.
    pub fn choose_move_by_uct_value<Policy: UpperConfidence>(
        &self,
        policy: &Policy,
        game: &Game,
        cache: &Cache<Game>,
    ) -> (chosen: Option<Game::Move>)
        requires
            graph_wf(graph_of(cache@)),
            rooted(graph_of(cache@), self@.children),
            distinct_moves(self@.children),
        ensures
            chosen is None <==> !can_move::<Game>(game.key(), self@.player),
            chosen matches Some(game_move) ==> {
                &&& Game::legal(game.key(), game_move, self@.player)
                &&& best_ranked::<Game, Policy>(
                    *policy,
                    graph_of(cache@),
                    self@.children,
                    game.key(),
                    self@.player,
                    game_move,
                )
            },
    {
        let ghost g = graph_of(cache@);
        let attempts = self.attempts(cache);
        let moves = game.all_legal_moves(self.player);
        let known = self.known_of_moves(&moves, cache);
        let ranks = rank_moves(policy, &known, attempts);
        match first_best(&ranks) {
            Some(best) => {
                proof {
                    assert(enumerates::<Game>(moves@, game.key(), self@.player));
                    assert(moves@.contains(moves@[best as int]));
                    assert(Game::place(game.key(), moves@[best as int], self@.player) == best);
                    assert(is_first_best(
                        ranks@,
                        Game::place(game.key(), moves@[best as int], self@.player) as int,
                    ));
                    assert forall|i: int| 0 <= i < moves@.len() implies #[trigger] ranks@[i] == rank_for(
                        *policy,
                        total_below(g, Counter::Attempts, self@.children),
                        known_of(g, self@.children, moves@[i]),
                    ) by {
                        assert(unbounded(known@[i]) == known_of(g, self@.children, moves@[i]));
                    }
                    assert(best_ranked::<Game, Policy>(
                        *policy,
                        g,
                        self@.children,
                        game.key(),
                        self@.player,
                        moves@[best as int],
                    ));
                }
                Some(moves[best])
            },
            None => {
                proof {
                    if can_move::<Game>(game.key(), self@.player) {
                        let m = choose|m: Game::Move| Game::legal(game.key(), m, self@.player);
                        assert(moves@.contains(m));
                    }
                }
                None
            },
        }
    }
}

/// `game_move` is the first of the legal moves of `player` in `key` with the
/// best rank, the ranks being those that `policy` gives: see `rank_for`.
pub open spec fn best_ranked<Game: GameState, Policy: UpperConfidence>(
    policy: Policy,
    g: Graph<Game::Move>,
    children: Seq<(Game::Move, u64)>,
    key: u64,
    player: PlayerEnum,
    game_move: Game::Move,
) -> bool {
    exists|moves: Seq<Game::Move>, ranks: Seq<Option<u64>>|
        {
            &&& #[trigger] enumerates::<Game>(moves, key, player)
            &&& ranks.len() == moves.len()
            &&& forall|i: int|
                0 <= i < moves.len() ==> #[trigger] ranks[i] == rank_for(
                    policy,
                    total_below(g, Counter::Attempts, children),
                    known_of(g, children, moves[i]),
                )
            &&& #[trigger] is_first_best(ranks, Game::place(key, game_move, player) as int)
            &&& moves[Game::place(key, game_move, player) as int] == game_move
        }
}

/// `moves` is the enumeration of the legal moves of `player` in `key`.
pub open spec fn enumerates<Game: GameState>(
    moves: Seq<Game::Move>,
    key: u64,
    player: PlayerEnum,
) -> bool {
    &&& forall|m: Game::Move| #[trigger] moves.contains(m) <==> Game::legal(key, m, player)
    &&& forall|i: int| 0 <= i < moves.len() ==> Game::place(key, #[trigger] moves[i], player) == i
}

/// A simulation is due in the position `key`: nothing is known below it and
/// none has started in it, or its side to move has no legal move.
pub open spec fn simulation_due<Game: GameState>(g: Graph<Game::Move>, key: u64) -> bool {
    &&& g.contains_key(key)
    &&& g[key].children.len() == 0 && g[key].local_attempts == 0 || !can_move::<Game>(key, g[key].player)
}

/// The search has descended from the store `before` to the store `after` and
/// the position `target`, having arrived in the position `key` by `parent`
/// with `player` to move, in no more than `plies` plies: it has arrived;
/// where a simulation is due it has stopped; else it has played a legal move
/// of the best rank for the side of the record and gone on from the
/// position that the move leads to, with the other side to move.
pub open spec fn descended<Game: GameState, Policy: UpperConfidence>(
    policy: Policy,
    before: Graph<Game::Move>,
    after: Graph<Game::Move>,
    key: u64,
    player: PlayerEnum,
    parent: Option<(Game::Move, u64)>,
    target: u64,
    plies: nat,
) -> bool
    decreases plies,
{
    let here = arrived(before, key, player, parent);
    if simulation_due::<Game>(here, key) {
        after == here && target == key
    } else if plies == 0 {
        false
    } else {
        exists|game_move: Game::Move| #[trigger]
            best_ranked::<Game, Policy>(
                policy,
                here,
                here[key].children,
                key,
                here[key].player,
                game_move,
            ) && Game::legal(key, game_move, here[key].player) && descended::<Game, Policy>(
                policy,
                here,
                after,
                Game::successor(key, game_move, here[key].player),
                here[key].player.opponent(),
                Some((game_move, key)),
                target,
                (plies - 1) as nat,
            )
    }
}

/// A descent within some plies is a descent within more.
pub proof fn descended_later<Game: GameState, Policy: UpperConfidence>(
    policy: Policy,
    before: Graph<Game::Move>,
    after: Graph<Game::Move>,
    key: u64,
    player: PlayerEnum,
    parent: Option<(Game::Move, u64)>,
    target: u64,
    plies: nat,
    more: nat,
)
    requires
        descended::<Game, Policy>(policy, before, after, key, player, parent, target, plies),
        plies <= more,
    ensures
        descended::<Game, Policy>(policy, before, after, key, player, parent, target, more),
    decreases plies,
{
    let here = arrived(before, key, player, parent);
    if !simulation_due::<Game>(here, key) {
        let game_move = choose|game_move: Game::Move| #[trigger]
            best_ranked::<Game, Policy>(
                policy,
                here,
                here[key].children,
                key,
                here[key].player,
                game_move,
            ) && Game::legal(key, game_move, here[key].player) && descended::<Game, Policy>(
                policy,
                here,
                after,
                Game::successor(key, game_move, here[key].player),
                here[key].player.opponent(),
                Some((game_move, key)),
                target,
                (plies - 1) as nat,
            );
        descended_later::<Game, Policy>(
            policy,
            here,
            after,
            Game::successor(key, game_move, here[key].player),
            here[key].player.opponent(),
            Some((game_move, key)),
            target,
            (plies - 1) as nat,
            (more - 1) as nat,
        );
    }
}

/// Selects the position to simulate from, for a decision of `player` in `game`.
///
/// Starting with `game`, the position in hand gets a record if it has none,
/// and the edge by which it was reached is noted at both ends. If a
/// simulation is due there, the position is returned. Otherwise the move
/// that `choose_move_by_uct_value` picks is played, and the search goes on
/// in the position it leads to, with the other side to move.
///
/// The store stays well-formed and lawful. It gains at most one record, that
/// of the position returned; no counter changes and no edge is lost.
pub fn select_and_expand<Game: GameState, Policy: UpperConfidence>(
    cache: &mut Cache<Game>,
    policy: &Policy,
    game: Game,
    player: PlayerEnum,
) -> (target: Game)
    requires
        graph_wf(graph_of(old(cache)@)),
        lawful::<Game>(graph_of(old(cache)@)),
    ensures
        graph_wf(graph_of(final(cache)@)),
        lawful::<Game>(graph_of(final(cache)@)),
        grown(graph_of(old(cache)@), graph_of(final(cache)@)),
        graph_of(final(cache)@).dom() == graph_of(old(cache)@).dom().insert(target.key()),
        graph_of(final(cache)@).contains_key(game.key()),
        simulation_due::<Game>(graph_of(final(cache)@), target.key()),
        target.key() == game.key() || descends(
            graph_of(final(cache)@),
            graph_of(final(cache)@)[game.key()].children,
            target.key(),
        ),
        descended::<Game, Policy>(
            *policy,
            graph_of(old(cache)@),
            graph_of(final(cache)@),
            game.key(),
            player,
            None,
            target.key(),
            Game::plies_left(game.key()) as nat,
        ),
        sided::<Game>(graph_of(old(cache)@)) && player == Game::turn(game.key()) ==> sided::<Game>(
            graph_of(final(cache)@),
        ),
{
    let ghost g0 = graph_of(cache@);
    let ghost root = game.key();
    let mut current_parent: Option<(Game::Move, u64)> = None;
    let mut current_state = game;
    let mut current_player = player;
    proof {
        grown_reflexive(g0);
    }

    loop
        invariant
            g0 == graph_of(old(cache)@),
            root == game.key(),
            graph_wf(graph_of(cache@)),
            lawful::<Game>(graph_of(cache@)),
            grown(g0, graph_of(cache@)),
            graph_of(cache@).dom() == g0.dom(),
            current_parent is None ==> current_state.key() == root && current_player == player,
            current_parent matches Some(edge) ==> {
                &&& graph_of(cache@).contains_key(edge.1)
                &&& graph_of(cache@).contains_key(root)
                &&& Game::legal(edge.1, edge.0, Game::turn(edge.1))
                &&& current_state.key() == Game::successor(edge.1, edge.0, Game::turn(edge.1))
                &&& current_player == Game::turn(current_state.key())
                &&& Game::plies_left(current_state.key()) < Game::plies_left(edge.1)
                &&& edge.1 == root || descends(graph_of(cache@), graph_of(cache@)[root].children, edge.1)
            },
            sided::<Game>(g0) && player == Game::turn(root) ==> sided::<Game>(graph_of(cache@)),
            forall|after: Graph<Game::Move>, target: u64|
                descended::<Game, Policy>(
                    *policy,
                    graph_of(cache@),
                    after,
                    current_state.key(),
                    current_player,
                    current_parent,
                    target,
                    Game::plies_left(current_state.key()) as nat,
                ) ==> #[trigger] descended::<Game, Policy>(
                    *policy,
                    g0,
                    after,
                    root,
                    player,
                    None,
                    target,
                    Game::plies_left(root) as nat,
                ),
        decreases Game::plies_left(current_state.key()),
    {
        let ghost g = graph_of(cache@);
        let key = current_state.position_key();
        proof {
            assert(may_arrive(g, key, current_parent)) by {
                if let Some(edge) = current_parent {
                    assert forall|b: u64|
                        #[trigger] g[edge.1].children.contains((edge.0, b)) implies b
                        == key by {
                        assert(has_child(g, edge.1, edge.0, b));
                    }
                }
            }
            arrived_wf(g, key, current_player, current_parent);
            arrived_lawful::<Game>(g, key, current_player, current_parent);
            grown_transitive(g0, g, arrived(g, key, current_player, current_parent));
        }
        // Create the record of the current state, if it doesn't already exist,
        // and make sure that the parent points to this move.
        arrive::<Game>(cache, key, current_player, current_parent);
        let ghost g1 = graph_of(cache@);
        proof {
            assert(g1.dom() =~= g0.dom().insert(key));
            if let Some(via) = current_parent {
                // The position in hand lies below the root.
                assert(has_child(g1, via.1, via.0, key));
                let t = choose|t: int|
                    0 <= t < g1[via.1].children.len() && g1[via.1].children[t] == (via.0, key);
                assert(g1[via.1].children[t].1 == key);
                assert(edge(g1, via.1, key));
                if via.1 == root {
                    descends_first(g1, g1[root].children, key);
                } else {
                    assert(extends(g[root], g1[root]));
                    descends_in_grown(g, g1, g[root].children, g1[root].children, via.1);
                    descends_next(g1, g1[root].children, via.1, key);
                }
            }
            if sided::<Game>(g0) && player == Game::turn(root) {
                assert forall|k: u64|
                    g1.contains_key(k) implies (#[trigger] g1[k]).player == Game::turn(
                    k,
                ) by {
                    if g.contains_key(k) {
                        assert(extends(g[k], g1[k]));
                        assert(g[k].player == Game::turn(k));
                    }
                }
            }
        }

        // If this is a leaf with 0 attempts, or there are no legal moves, use this.
        // Else choose a legal move.
        let step: Option<(Game::Move, PlayerEnum)> = match cache.get(&key) {
            Some(current_node) => {
                assert(current_node@ == g1[key]);
                if current_node.is_leaf() && current_node.local_attempts == 0 {
                    None
                } else {
                    proof {
                        assert(node_wf(g1[key]));
                        assert forall|t: int|
                            0 <= t < g1[key].children.len() implies g1.contains_key(
                            (#[trigger] g1[key].children[t]).1,
                        ) by {
                            assert(g1[key].children.contains(g1[key].children[t]));
                            no_dangling_edges(g1, key, g1[key].children[t]);
                        }
                    }
                    match current_node.choose_move_by_uct_value(policy, &current_state, &*cache) {
                        Some(chosen_move) => Some((chosen_move, current_node.player)),
                        None => None,
                    }
                }
            },
            None => None,
        };

        match step {
            None => {
                assert(descended::<Game, Policy>(
                    *policy,
                    g,
                    g1,
                    key,
                    current_player,
                    current_parent,
                    key,
                    Game::plies_left(key) as nat,
                ));
                return current_state;
            },
            Some((chosen_move, acting)) => {
                // Got a new move, iterate down.
                proof {
                    Game::moves_in_turn(key, chosen_move, acting);
                    let next = Game::successor(key, chosen_move, acting);
                    assert forall|after: Graph<Game::Move>, target: u64|
                        descended::<Game, Policy>(
                            *policy,
                            g1,
                            after,
                            next,
                            acting.opponent(),
                            Some((chosen_move, key)),
                            target,
                            Game::plies_left(next) as nat,
                        ) implies #[trigger] descended::<Game, Policy>(
                        *policy,
                        g0,
                        after,
                        root,
                        player,
                        None,
                        target,
                        Game::plies_left(root) as nat,
                    ) by {
                        descended_later::<Game, Policy>(
                            *policy,
                            g1,
                            after,
                            next,
                            acting.opponent(),
                            Some((chosen_move, key)),
                            target,
                            Game::plies_left(next) as nat,
                            (Game::plies_left(key) - 1) as nat,
                        );
                        assert(best_ranked::<Game, Policy>(
                            *policy,
                            g1,
                            g1[key].children,
                            key,
                            g1[key].player,
                            chosen_move,
                        ));
                        assert(!simulation_due::<Game>(g1, key));
                        assert(descended::<Game, Policy>(
                            *policy,
                            g,
                            after,
                            key,
                            current_player,
                            current_parent,
                            target,
                            Game::plies_left(key) as nat,
                        ));
                    }
                    // The record was there before: a new one is a leaf without attempts.
                    assert(g.contains_key(key)) by {
                        if !g.contains_key(key) {
                            assert(g1[key] == fresh(current_player, current_parent));
                        }
                    }
                    assert(g1.dom() =~= g0.dom());
                }
                current_parent = Some((chosen_move, key));
                current_state.update(chosen_move, acting);
                current_player = acting.other();
            },
        }
    }
}

} // verus!
