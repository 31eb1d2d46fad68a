//! The exploration record of one position, and the edge lists it holds.

use crate::game::{GameState, PlayerEnum};
use crate::graph::{fresh, without, Edge, Graph, NodeView};
use std::collections::HashMap;
use vstd::prelude::*;

verus! {

/// The exploration record of one position: its statistics and its known edges.
pub struct Node<Game: GameState> {
    /// The side to move in the position.
    pub player: PlayerEnum,
    /// The number of simulations that started in this very position.
    pub local_attempts: u64,
    /// How many of them the side to move won.
    pub local_wins: u64,
    /// How many of them the side to move lost.
    pub local_losses: u64,
    /// Known children (some may be unknown), each with the move that leads to it.
    pub children: Vec<(Game::Move, u64)>,
    /// Known parents (many may be unknown), each with the move that leads from it.
    pub parents: Vec<(Game::Move, u64)>,
}

impl<Game: GameState> View for Node<Game> {
    type V = NodeView<Game::Move>;

    open spec fn view(&self) -> NodeView<Game::Move> {
        NodeView {
            player: self.player,
            local_attempts: self.local_attempts,
            local_wins: self.local_wins,
            local_losses: self.local_losses,
            children: self.children@,
            parents: self.parents@,
        }
    }
}

/// The store as contracts see it: the view of each record under its key.
pub open spec fn graph_of<Game: GameState>(records: Map<u64, Node<Game>>) -> Graph<Game::Move> {
    Map::new(|k: u64| records.contains_key(k), |k: u64| records[k]@)
}

/// The store of the records, by the content address of their positions.
pub type Cache<Game> = HashMap<u64, Node<Game>>;

impl<Game: GameState> Node<Game> {
    /// The record of a position that was just reached with `player` to move,
    /// by the move and from the position in `parent` if there is one.
    pub fn new(player: PlayerEnum, parent: Option<(Game::Move, u64)>) -> (node: Self)
        ensures
            node@ == fresh(player, parent),
    {
        let mut parents: Vec<(Game::Move, u64)> = Vec::new();
        match parent {
            Some(edge) => {
                parents.push(edge);
            },
            None => (),
        }
        let node = Self {
            player,
            local_attempts: 0,
            local_wins: 0,
            local_losses: 0,
            children: Vec::new(),
            parents,
        };
        assert(node@.parents =~= fresh(player, parent).parents);
        assert(node@.children =~= fresh(player, parent).children);
        node
    }

    /// Whether no successor of the position is known.
    pub fn is_leaf(&self) -> (leaf: bool)
        ensures
            leaf == (self@.children.len() == 0),
    {
        self.children.len() == 0
    }
}

/// The place of the first edge of `edges` that carries `game_move`.
pub open spec fn first_with<M>(edges: Seq<Edge<M>>, game_move: M, i: int) -> bool {
    &&& 0 <= i < edges.len()
    &&& edges[i].0 == game_move
    &&& forall|j: int| 0 <= j < i ==> (#[trigger] edges[j]).0 != game_move
}

/// The successor that `edges` holds for `game_move`, if any: the end of the
/// first edge that carries the move.
pub fn find_child<Game: GameState>(
    edges: &Vec<(Game::Move, u64)>,
    game_move: &Game::Move,
) -> (found: Option<
    u64,
>)
    ensures
        match found {
            Some(key) => edges@.contains((*game_move, key)) && exists|i: int| #[trigger]
                first_with(edges@, *game_move, i) && edges@[i].1 == key,
            None => forall|key: u64| !edges@.contains((*game_move, key)),
        },
{
    let mut i: usize = 0;
    while i < edges.len()
        invariant
            i <= edges.len(),
            forall|j: int| 0 <= j < i ==> (#[trigger] edges@[j]).0 != *game_move,
        decreases edges.len() - i,
    {
        if Game::same_move(&edges[i].0, game_move) {
            assert(edges@[i as int] == (*game_move, edges@[i as int].1));
            assert(first_with(edges@, *game_move, i as int));
            return Some(edges[i].1);
        }
        i += 1;
    }
    None
}

/// Whether `edges` holds the edge labelled `game_move` that ends in `key`.
pub fn holds_edge<Game: GameState>(
    edges: &Vec<(Game::Move, u64)>,
    game_move: &Game::Move,
    key: u64,
) -> (held:
    bool)
    ensures
        held == edges@.contains((*game_move, key)),
{
    let mut i: usize = 0;
    while i < edges.len()
        invariant
            i <= edges.len(),
            forall|j: int| 0 <= j < i ==> edges@[j] != (*game_move, key),
        decreases edges.len() - i,
    {
        if edges[i].1 == key && Game::same_move(&edges[i].0, game_move) {
            assert(edges@[i as int] == (*game_move, key));
            return true;
        }
        i += 1;
    }
    false
}

/// The edges of `edges` that do not end in `key`, in their order.
pub fn edges_without<Game: GameState>(edges: &Vec<(Game::Move, u64)>, key: u64) -> (kept: Vec<
    (Game::Move, u64),
>)
    ensures
        kept@ == without(edges@, key),
{
    let mut kept: Vec<(Game::Move, u64)> = Vec::new();
    let mut i: usize = 0;
    while i < edges.len()
        invariant
            i <= edges.len(),
            kept@ == without(edges@.take(i as int), key),
        decreases edges.len() - i,
    {
        proof {
            assert(edges@.take(i + 1).drop_last() =~= edges@.take(i as int));
        }
        if edges[i].1 != key {
            kept.push(edges[i]);
        }
        i += 1;
    }
    proof {
        assert(edges@.take(i as int) =~= edges@);
    }
    kept
}

} // verus!
