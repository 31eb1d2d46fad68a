//! Uniform sampling in one pass, and the player that moves at random.

use crate::game::{GameState, Player, PlayerEnum};
use vstd::prelude::*;

verus! {

/// Calls `rand::random_ratio(1, k)`: a draw from the thread's generator that is
/// a hit with probability one in `k`. The draw itself is left open; the crate
/// documents that a ratio of one in one always hits, and that it panics on a
/// zero denominator, which `requires` keeps out.
#[verifier::external_body]
fn one_in(k: u32) -> (hit: bool)
    requires
        k >= 1,
    ensures
        k == 1 ==> hit,
{
    rand::random_ratio(1, k)
}

/// The place of the candidate that is kept after the draws `hits`, one draw
/// for each candidate in turn: the last candidate whose draw was a hit.
pub open spec fn kept_index(hits: Seq<bool>) -> Option<int>
    decreases hits.len(),
{
    if hits.len() == 0 {
        None
    } else if hits.last() {
        Some(hits.len() - 1)
    } else {
        kept_index(hits.drop_last())
    }
}

/// The kept place lies among the candidates, and one is kept once any draw hit.
pub proof fn kept_index_in_range(hits: Seq<bool>)
    ensures
        kept_index(hits) matches Some(i) ==> 0 <= i < hits.len() && hits[i],
        kept_index(hits) is None <==> forall|i: int| 0 <= i < hits.len() ==> !hits[i],
    decreases hits.len(),
{
    if hits.len() > 0 && !hits.last() {
        kept_index_in_range(hits.drop_last());
        assert forall|i: int| 0 <= i < hits.len() && hits[i] implies hits.drop_last()[i] by {}
    }
}

/// The candidate that one pass keeps when the candidate at place `i` replaces
/// the one held so far exactly where `hits[i]` is set.
pub fn sample_by_hits<T: Copy>(items: &Vec<T>, hits: &Vec<bool>) -> (kept: Option<T>)
    requires
        hits.len() == items.len(),
    ensures
        kept == match kept_index(hits@) {
            Some(i) => Some(items@[i]),
            None => None,
        },
{
    let mut elem: Option<T> = None;
    let mut i: usize = 0;
    while i < items.len()
        invariant
            i <= items.len(),
            hits.len() == items.len(),
            elem == match kept_index(hits@.take(i as int)) {
                Some(j) => Some(items@[j]),
                None => None,
            },
        decreases items.len() - i,
    {
        proof {
            assert(hits@.take(i + 1).drop_last() =~= hits@.take(i as int));
        }
        if hits[i] {
            elem = Some(items[i]);
        }
        i += 1;
    }
    proof {
        assert(hits@.take(i as int) =~= hits@);
    }
    elem
}

/// Picks one of `items`, each with the same chance, in a single pass that need
/// not know their number: the candidate in place `k`, counted from one,
/// replaces the one held with probability one in `k`. Returns `None` only if
/// there is no item. Places beyond `u32::MAX` are never drawn for.
pub fn random_sample<T: Copy>(items: &Vec<T>) -> (sample: Option<T>)
    ensures
        sample is None <==> items.len() == 0,
        sample matches Some(item) ==> items@.contains(item),
{
    let mut hits: Vec<bool> = Vec::new();
    let mut i: usize = 0;
    while i < items.len()
        invariant
            i <= items.len(),
            hits.len() == i,
            i > 0 ==> hits@[0],
        decreases items.len() - i,
    {
        let hit = if i < u32::MAX as usize {
            one_in((i + 1) as u32)
        } else {
            false
        };
        hits.push(hit);
        i += 1;
    }
    proof {
        kept_index_in_range(hits@);
    }
    sample_by_hits(items, &hits)
}

/// A player that picks uniformly among the legal moves of its side.
pub struct RandomPlayer(pub PlayerEnum);

impl<Game: GameState> Player<Game> for RandomPlayer {
    open spec fn side(&self) -> PlayerEnum {
        self.0
    }

    open spec fn ready(&self) -> bool {
        true
    }

    fn choose_move(&mut self, game: Game) -> (chosen: Game::Move) {
        let moves = game.all_legal_moves(self.0);
        proof {
            let m = choose|m: Game::Move| Game::legal(game.key(), m, self.0);
            assert(moves@.contains(m));
        }
        match random_sample(&moves) {
            Some(chosen) => chosen,
            None => moves[0],
        }
    }

    fn inform_of_move_played(&mut self, new_state: Game, game_move: &Game::Move) {
    }
}

} // verus!
