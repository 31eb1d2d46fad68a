//! The decision: the move whose subgraph the search has visited most.

use crate::aggregate::{total_below, Counter};
use crate::game::GameState;
use crate::graph::{graph_wf, no_dangling_edges, Edge, Graph};
use crate::node::{graph_of, Cache};
use vstd::prelude::*;

verus! {

broadcast use vstd::std_specs::hash::group_hash_axioms;

/// The iterations of a decision have ended without a known child of the
/// position to decide in, so that there is nothing to choose from.
#[derive(Clone, Copy, Debug, PartialEq, Eq, Structural)]
pub struct BudgetExhausted;

/// The number of simulations that started anywhere below the position `key`.
pub open spec fn attempts_below<M>(g: Graph<M>, key: u64) -> nat {
    total_below(g, Counter::Attempts, g[key].children)
}

/// The edge in place `i` of `edges` leads to a child that is visited at
/// least as much as each child before it, and more than each child after it:
/// the last of the most visited.
pub open spec fn most_visited<M>(g: Graph<M>, edges: Seq<Edge<M>>, i: int) -> bool {
    &&& 0 <= i < edges.len()
    &&& forall|j: int|
        0 <= j < i ==> attempts_below(g, (#[trigger] edges[j]).1) <= attempts_below(g, edges[i].1)
    &&& forall|j: int|
        i < j < edges.len() ==> attempts_below(g, (#[trigger] edges[j]).1) < attempts_below(g, edges[i].1)
}

/// `game_move` is the decision in the position `key`: the move to its most
/// visited child.
pub open spec fn decided<M>(g: Graph<M>, key: u64, game_move: M) -> bool {
    &&& g.contains_key(key)
    &&& exists|i: int|
        #[trigger] most_visited(g, g[key].children, i) && g[key].children[i].0 == game_move
}

/// Decides on a move in the position `key`: among its known children, the
/// move to the one below which the most simulations started; among equals,
/// the one found last. Fails if no child is known.
pub fn decide<Game: GameState>(cache: &Cache<Game>, key: u64) -> (decision: Result<
    Game::Move,
    BudgetExhausted,
>)
    requires
        graph_wf(graph_of(cache@)),
    ensures
        match decision {
            Ok(game_move) => decided(graph_of(cache@), key, game_move),
            Err(_) => !graph_of(cache@).contains_key(key) || graph_of(cache@)[key].children.len() == 0,
        },
{
    let ghost g = graph_of(cache@);
    let current_node = match cache.get(&key) {
        Some(node) => node,
        None => return Err(BudgetExhausted),
    };
    assert(current_node@ == g[key]);
    if current_node.children.len() == 0 {
        return Err(BudgetExhausted);
    }
    let ghost edges = current_node@.children;
    let mut best: usize = 0;
    let mut best_attempts: u128 = 0;
    let mut i: usize = 0;
    while i < current_node.children.len()
        invariant
            i <= current_node.children.len(),
            edges == current_node@.children,
            edges.len() > 0,
            g == graph_of(cache@),
            graph_wf(g),
            g.contains_key(key),
            current_node@ == g[key],
            i > 0 ==> most_visited(g, edges.take(i as int), best as int) && best_attempts == attempts_below(
                g,
                edges[best as int].1,
            ),
            i == 0 ==> best == 0,
        decreases current_node.children.len() - i,
    {
        let child = current_node.children[i].1;
        proof {
            assert(edges.contains(edges[i as int]));
            no_dangling_edges(g, key, edges[i as int]);
        }
        let child_attempts = match cache.get(&child) {
            Some(record) => {
                assert(record@ == g[child]);
                proof {
                    assert forall|t: int| 0 <= t < record@.children.len() implies g.contains_key(
                        (#[trigger] record@.children[t]).1,
                    ) by {
                        assert(record@.children.contains(record@.children[t]));
                        no_dangling_edges(g, child, record@.children[t]);
                    }
                }
                record.attempts(cache)
            },
            None => 0,
        };
        proof {
            let now = edges.take(i + 1);
            let before = edges.take(i as int);
            assert(now[i as int] == edges[i as int]);
            assert forall|j: int| 0 <= j < i implies #[trigger] now[j] == before[j] by {}
        }
        if i == 0 || child_attempts >= best_attempts {
            proof {
                let now = edges.take(i + 1);
                let before = edges.take(i as int);
                if i > 0 {
                    assert forall|j: int|
                        0 <= j < i implies attempts_below(g, (#[trigger] now[j]).1)
                        <= attempts_below(g, now[i as int].1) by {
                        assert(now[j] == before[j]);
                        if j < best {
                            assert(attempts_below(g, before[j].1) <= attempts_below(g, before[best as int].1));
                        } else if j > best {
                            assert(attempts_below(g, before[j].1) < attempts_below(g, before[best as int].1));
                        }
                    }
                }
            }
            best = i;
            best_attempts = child_attempts;
        } else {
            proof {
                let now = edges.take(i + 1);
                let before = edges.take(i as int);
                assert forall|j: int| 0 <= j < best implies attempts_below(g, (#[trigger] now[j]).1)
                    <= attempts_below(g, now[best as int].1) by {
                    assert(now[j] == before[j]);
                }
                assert forall|j: int|
                    best < j < now.len() implies attempts_below(g, (#[trigger] now[j]).1)
                    < attempts_below(g, now[best as int].1) by {
                    if j < i {
                        assert(now[j] == before[j]);
                    }
                }
            }
        }
        i += 1;
    }
    proof {
        assert(edges.take(i as int) =~= edges);
    }
    Ok(current_node.children[best].0)
}

} // verus!
