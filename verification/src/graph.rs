//! The mathematical model of the exploration graph: a map from the content
//! address of a position to its record, with move-labelled edges in both
//! directions, and the transitions that the search makes on it.

use crate::game::{GameState, PlayerEnum};
use vstd::prelude::*;

verus! {

/// An edge of the graph as a record holds it: the move, and the position at
/// the other end.
pub type Edge<M> = (M, u64);

/// The record of one position, as contracts see it.
pub struct NodeView<M> {
    /// The side to move in the position.
    pub player: PlayerEnum,
    /// The number of simulations that started in this very position.
    pub local_attempts: u64,
    /// How many of them the side to move won.
    pub local_wins: u64,
    /// How many of them the side to move lost.
    pub local_losses: u64,
    /// The known successors, in the order in which they were found.
    pub children: Seq<Edge<M>>,
    /// The known predecessors.
    pub parents: Seq<Edge<M>>,
}

/// The whole store: the records by content address.
pub type Graph<M> = Map<u64, NodeView<M>>;

/// The record of a position that was just reached, through `parent` if there
/// is one.
pub open spec fn fresh<M>(player: PlayerEnum, parent: Option<Edge<M>>) -> NodeView<M> {
    NodeView {
        player,
        local_attempts: 0,
        local_wins: 0,
        local_losses: 0,
        children: Seq::empty(),
        parents: match parent {
            Some(edge) => seq![edge],
            None => Seq::empty(),
        },
    }
}

/// Whether some edge of `edges` ends in `key`.
pub open spec fn points_to<M>(edges: Seq<Edge<M>>, key: u64) -> bool {
    exists|i: int| 0 <= i < edges.len() && (#[trigger] edges[i]).1 == key
}

/// No two edges of `edges` carry the same move.
pub open spec fn distinct_moves<M>(edges: Seq<Edge<M>>) -> bool {
    forall|i: int, j: int|
        0 <= i < j < edges.len() ==> (#[trigger] edges[i]).0 != (#[trigger] edges[j]).0
}

/// `edges` without the edges that end in `key`, the others in their order.
pub open spec fn without<M>(edges: Seq<Edge<M>>, key: u64) -> Seq<Edge<M>>
    decreases edges.len(),
{
    if edges.len() == 0 {
        edges
    } else if edges.last().1 == key {
        without(edges.drop_last(), key)
    } else {
        without(edges.drop_last(), key).push(edges.last())
    }
}

/// What `without` keeps: exactly the edges that end elsewhere.
pub proof fn without_keeps<M>(edges: Seq<Edge<M>>, key: u64)
    ensures
        forall|e: Edge<M>|
            #[trigger] without(edges, key).contains(e) <==> edges.contains(e) && e.1 != key,
        without(edges, key).len() <= edges.len(),
        distinct_moves(edges) ==> distinct_moves(without(edges, key)),
        edges.no_duplicates() ==> without(edges, key).no_duplicates(),
        !points_to(edges, key) ==> without(edges, key) == edges,
        !points_to(without(edges, key), key),
    decreases edges.len(),
{
    if edges.len() > 0 {
        let init = edges.drop_last();
        let last = edges.last();
        without_keeps(init, key);
        let kept = without(init, key);
        let out = without(edges, key);
        assert forall|e: Edge<M>|
            #[trigger] out.contains(e) <==> edges.contains(e) && e.1 != key by {
            if out.contains(e) {
                let i = choose|i: int| 0 <= i < out.len() && out[i] == e;
                if i < kept.len() {
                    assert(kept[i] == e);
                    assert(kept.contains(e));
                    let j = choose|j: int| 0 <= j < init.len() && init[j] == e;
                    assert(edges[j] == e);
                } else {
                    assert(e == last);
                    assert(edges[edges.len() - 1] == e);
                }
            }
            if edges.contains(e) && e.1 != key {
                let j = choose|j: int| 0 <= j < edges.len() && edges[j] == e;
                if j < init.len() {
                    assert(init[j] == e);
                    assert(init.contains(e));
                    assert(kept.contains(e));
                    let i = choose|i: int| 0 <= i < kept.len() && kept[i] == e;
                    assert(out[i] == e);
                } else {
                    assert(out[out.len() - 1] == e);
                }
            }
        }
        if distinct_moves(edges) {
            assert(distinct_moves(init)) by {
                assert forall|i: int, j: int| 0 <= i < j < init.len() implies (#[trigger] init[i]).0
                    != (#[trigger] init[j]).0 by {
                    assert(edges[i].0 != edges[j].0);
                }
            }
            assert forall|i: int, j: int| 0 <= i < j < out.len() implies (#[trigger] out[i]).0 != (
            #[trigger] out[j]).0 by {
                if j == kept.len() {
                    assert(kept.contains(kept[i]));
                    assert(init.contains(kept[i]));
                    let k = choose|k: int| 0 <= k < init.len() && init[k] == kept[i];
                    assert(edges[k].0 != edges[edges.len() - 1].0);
                } else {
                    assert(kept[i].0 != kept[j].0);
                }
            }
        }
        if edges.no_duplicates() {
            assert(init.no_duplicates()) by {
                assert forall|i: int, j: int|
                    0 <= i < init.len() && 0 <= j < init.len() && i != j implies init[i]
                    != init[j] by {
                    assert(edges[i] != edges[j]);
                }
            }
            assert forall|i: int, j: int|
                0 <= i < out.len() && 0 <= j < out.len() && i != j implies out[i]
                != out[j] by {
                if i == kept.len() || j == kept.len() {
                    let o = if i == kept.len() { j } else { i };
                    assert(kept.contains(kept[o]));
                    assert(init.contains(kept[o]));
                    let k = choose|k: int| 0 <= k < init.len() && init[k] == kept[o];
                    assert(edges[k] != edges[edges.len() - 1]);
                } else {
                    assert(kept[i] != kept[j]);
                }
            }
        }
        if !points_to(edges, key) {
            assert(edges[edges.len() - 1].1 != key);
            assert(!points_to(init, key)) by {
                if points_to(init, key) {
                    let i = choose|i: int| 0 <= i < init.len() && (#[trigger] init[i]).1 == key;
                    assert(edges[i].1 == key);
                }
            }
            assert(out =~= edges);
        }
        assert(!points_to(out, key)) by {
            if points_to(out, key) {
                let i = choose|i: int| 0 <= i < out.len() && (#[trigger] out[i]).1 == key;
                assert(out.contains(out[i]));
            }
        }
    } else {
        assert(!points_to(without(edges, key), key));
    }
}

/// The record of `a` holds an edge labelled `game_move` to its successor `b`.
pub open spec fn has_child<M>(g: Graph<M>, a: u64, game_move: M, b: u64) -> bool {
    g.contains_key(a) && g[a].children.contains((game_move, b))
}

/// The record of `b` holds an edge labelled `game_move` from its predecessor `a`.
pub open spec fn has_parent<M>(g: Graph<M>, b: u64, game_move: M, a: u64) -> bool {
    g.contains_key(b) && g[b].parents.contains((game_move, a))
}

/// The edges are mutual: `a` knows `b` as its successor by a move exactly if `b`
/// knows `a` as its predecessor by that move. Both ends of every edge thus
/// have a record.
pub open spec fn mutual<M>(g: Graph<M>) -> bool {
    forall|a: u64, game_move: M, b: u64|
        #![trigger has_child(g, a, game_move, b)]
        #![trigger has_parent(g, b, game_move, a)]
        has_child(g, a, game_move, b) <==> has_parent(g, b, game_move, a)
}

/// What holds of every record by itself: a move labels at most one edge to a
/// successor, no edge from a predecessor is held twice, and the simulations
/// won and lost are among those counted.
pub open spec fn node_wf<M>(node: NodeView<M>) -> bool {
    &&& distinct_moves(node.children)
    &&& node.parents.no_duplicates()
    &&& node.local_wins + node.local_losses <= node.local_attempts
}

/// The invariant of the store.
pub open spec fn graph_wf<M>(g: Graph<M>) -> bool {
    &&& g.dom().finite()
    &&& mutual(g)
    &&& forall|k: u64| g.contains_key(k) ==> node_wf(#[trigger] g[k])
}

/// No edge dangles: in a well-formed store every position that an edge
/// names, in either direction, has a record.
pub proof fn no_dangling_edges<M>(g: Graph<M>, key: u64, edge: Edge<M>)
    requires
        graph_wf(g),
        g.contains_key(key),
        g[key].children.contains(edge) || g[key].parents.contains(edge),
    ensures
        g.contains_key(edge.1),
{
    if g[key].children.contains(edge) {
        assert(has_child(g, key, edge.0, edge.1));
        assert(has_parent(g, edge.1, edge.0, key));
    } else {
        assert(has_parent(g, key, edge.0, edge.1));
        assert(has_child(g, edge.1, edge.0, key));
    }
}

/// Every edge of the store is a legal move of the side to move at its source,
/// and leads where the game says it does.
pub open spec fn lawful<Game: GameState>(g: Graph<Game::Move>) -> bool {
    forall|a: u64, game_move: Game::Move, b: u64| #[trigger]
        has_child(g, a, game_move, b) ==> Game::legal(a, game_move, Game::turn(a)) && b
            == Game::successor(a, game_move, Game::turn(a))
}

/// `edges` with `edge` among them: added at the end unless it is there.
pub open spec fn with_edge<M>(edges: Seq<Edge<M>>, edge: Edge<M>) -> Seq<Edge<M>> {
    if edges.contains(edge) {
        edges
    } else {
        edges.push(edge)
    }
}

/// The store after the search has arrived in the position `key` with `player`
/// to move: the position has a record, made now if it had none. Where the
/// search came by `parent`, a move and the position it was played in, the
/// edge is known at both of its ends.
pub open spec fn arrived<M>(
    g: Graph<M>,
    key: u64,
    player: PlayerEnum,
    parent: Option<Edge<M>>,
) -> Graph<M> {
    match parent {
        None => if g.contains_key(key) {
            g
        } else {
            g.insert(key, fresh(player, None))
        },
        Some(edge) => {
            let node = if g.contains_key(key) {
                NodeView { parents: with_edge(g[key].parents, edge), ..g[key] }
            } else {
                fresh(player, Some(edge))
            };
            let g1 = g.insert(key, node);
            g1.insert(
                edge.1,
                NodeView { children: with_edge(g1[edge.1].children, (edge.0, key)), ..g1[edge.1] },
            )
        },
    }
}

/// Whether the search may arrive in `key` by `parent`: the position it came
/// from has a record and is another position, and the move is not known
/// there to lead elsewhere.
pub open spec fn may_arrive<M>(g: Graph<M>, key: u64, parent: Option<Edge<M>>) -> bool {
    parent matches Some(edge) ==> {
        &&& g.contains_key(edge.1)
        &&& edge.1 != key
        &&& forall|b: u64| #[trigger] g[edge.1].children.contains((edge.0, b)) ==> b == key
    }
}

/// The record `after` is the record `before` with edges added at the end of
/// its lists, or none.
pub open spec fn extends<M>(before: NodeView<M>, after: NodeView<M>) -> bool {
    &&& after.player == before.player
    &&& after.local_attempts == before.local_attempts
    &&& after.local_wins == before.local_wins
    &&& after.local_losses == before.local_losses
    &&& before.children.is_prefix_of(after.children)
    &&& before.parents.is_prefix_of(after.parents)
}

/// The store `after` holds every record of `before`, each with the same side
/// and counters and with the edges it had, in their places.
pub open spec fn grown<M>(before: Graph<M>, after: Graph<M>) -> bool {
    &&& before.dom().subset_of(after.dom())
    &&& forall|k: u64| #[trigger] before.contains_key(k) ==> extends(before[k], after[k])
}

/// Arriving keeps the store well-formed, adds no record but that of `key`,
/// changes no counter, and adds no edge but the one by which it came.
pub proof fn arrived_wf<M>(g: Graph<M>, key: u64, player: PlayerEnum, parent: Option<Edge<M>>)
    requires
        graph_wf(g),
        may_arrive(g, key, parent),
    ensures
        graph_wf(arrived(g, key, player, parent)),
        arrived(g, key, player, parent).dom() == g.dom().insert(key),
        grown(g, arrived(g, key, player, parent)),
        !g.contains_key(key) ==> arrived(g, key, player, parent)[key] == fresh(player, parent),
        forall|a: u64, m: M, b: u64|
            #![trigger has_child(arrived(g, key, player, parent), a, m, b)]
            has_child(arrived(g, key, player, parent), a, m, b) <==> has_child(g, a, m, b) || (parent
                == Some((m, a)) && b == key),
{
    let g2 = arrived(g, key, player, parent);
    assert(g2.dom() =~= g.dom().insert(key));
    match parent {
        None => {
            assert forall|k: u64| #[trigger] g.contains_key(k) implies extends(g[k], g2[k]) by {
                assert(g[k].children.is_prefix_of(g[k].children));
                assert(g[k].parents.is_prefix_of(g[k].parents));
            }
            if !g.contains_key(key) {
                assert forall|a: u64, m: M, b: u64|
                    #![trigger has_child(g2, a, m, b)]
                    #![trigger has_parent(g2, b, m, a)]
                    (has_child(g2, a, m, b) <==> has_child(g, a, m, b)) && (has_parent(g2, b, m, a)
                        <==> has_parent(g, b, m, a)) by {
                    assert(has_child(g, a, m, b) <==> has_parent(g, b, m, a));
                }
            }
        },
        Some(edge) => {
            let a0 = edge.1;
            let m0 = edge.0;
            let fwd: Edge<M> = (m0, key);
            assert forall|k: u64| #[trigger] g.contains_key(k) implies extends(g[k], g2[k]) by {
                with_edge_holds(g[k].children, fwd, fwd);
                with_edge_holds(g[k].parents, edge, edge);
                assert(g[k].children.is_prefix_of(g[k].children));
                assert(g[k].parents.is_prefix_of(g[k].parents));
            }
            assert forall|a: u64, m: M, b: u64|
                #![trigger has_child(g2, a, m, b)]
                has_child(g2, a, m, b) <==> has_child(g, a, m, b) || (parent == Some((m, a)) && b
                    == key) by {
                if a == a0 {
                    with_edge_holds(g[a0].children, fwd, (m, b));
                }
            }
            assert forall|a: u64, m: M, b: u64|
                #![trigger has_parent(g2, b, m, a)]
                has_parent(g2, b, m, a) <==> has_parent(g, b, m, a) || (parent == Some((m, a)) && b
                    == key) by {
                if b == key {
                    if g.contains_key(key) {
                        with_edge_holds(g[key].parents, edge, (m, a));
                    } else {
                        assert(seq![edge][0] == edge);
                    }
                }
            }
            assert forall|a: u64, m: M, b: u64|
                #![trigger has_child(g2, a, m, b)]
                #![trigger has_parent(g2, b, m, a)]
                has_child(g2, a, m, b) <==> has_parent(g2, b, m, a) by {
                assert(has_child(g, a, m, b) <==> has_parent(g, b, m, a));
            }
            assert forall|k: u64| g2.contains_key(k) implies node_wf(#[trigger] g2[k]) by {
                if k == a0 {
                    let s = g[a0].children;
                    assert(node_wf(g[a0]));
                    if !s.contains(fwd) {
                        let t = s.push(fwd);
                        assert forall|i: int, j: int|
                            0 <= i < j < t.len() implies (#[trigger] t[i]).0 != (
                        #[trigger] t[j]).0 by {
                            if j == s.len() {
                                if s[i].0 == m0 {
                                    assert(s.contains((m0, s[i].1)));
                                }
                            }
                        }
                    }
                } else if k == key {
                    if g.contains_key(key) {
                        assert(node_wf(g[key]));
                    }
                } else {
                    assert(node_wf(g[k]));
                }
            }
        },
    }
}

/// What `with_edge` holds: the edges it was given, in their places, and `edge`.
pub proof fn with_edge_holds<M>(edges: Seq<Edge<M>>, edge: Edge<M>, other: Edge<M>)
    ensures
        with_edge(edges, edge).contains(other) <==> edges.contains(other) || other == edge,
        edges.is_prefix_of(with_edge(edges, edge)),
{
    let out = with_edge(edges, edge);
    if !edges.contains(edge) {
        assert(out[edges.len() as int] == edge);
        if out.contains(other) {
            let i = choose|i: int| 0 <= i < out.len() && out[i] == other;
            if i < edges.len() {
                assert(edges[i] == other);
            }
        }
        if edges.contains(other) {
            let i = choose|i: int| 0 <= i < edges.len() && edges[i] == other;
            assert(out[i] == other);
        }
    }
}

/// The store without the record of `key` and without any edge to or from it.
pub open spec fn excised<M>(g: Graph<M>, key: u64) -> Graph<M> {
    Map::new(
        |k: u64| g.contains_key(k) && k != key,
        |k: u64|
            NodeView {
                children: without(g[k].children, key),
                parents: without(g[k].parents, key),
                ..g[k]
            },
    )
}

/// Excising a record keeps the store well-formed. The records that stay keep
/// their counters, and exactly their edges to and from other positions.
pub proof fn excised_wf<M>(g: Graph<M>, key: u64)
    requires
        graph_wf(g),
    ensures
        graph_wf(excised(g, key)),
        excised(g, key).dom() == g.dom().remove(key),
        forall|a: u64, m: M, b: u64|
            #![trigger has_child(excised(g, key), a, m, b)]
            has_child(excised(g, key), a, m, b) <==> has_child(g, a, m, b) && a != key && b != key,
        forall|a: u64, m: M, b: u64|
            #![trigger has_parent(excised(g, key), b, m, a)]
            has_parent(excised(g, key), b, m, a) <==> has_parent(g, b, m, a) && a != key && b != key,
        !g.contains_key(key) ==> excised(g, key) == g,
        survives(g, excised(g, key)),
{
    let ex = excised(g, key);
    assert(ex.dom() =~= g.dom().remove(key));
    assert forall|a: u64, m: M, b: u64|
        #![trigger has_child(ex, a, m, b)]
        has_child(ex, a, m, b) <==> has_child(g, a, m, b) && a != key && b != key by {
        if g.contains_key(a) {
            without_keeps(g[a].children, key);
        }
    }
    assert forall|a: u64, m: M, b: u64|
        #![trigger has_parent(ex, b, m, a)]
        has_parent(ex, b, m, a) <==> has_parent(g, b, m, a) && a != key && b != key by {
        if g.contains_key(b) {
            without_keeps(g[b].parents, key);
        }
    }
    assert forall|a: u64, m: M, b: u64|
        #![trigger has_child(ex, a, m, b)]
        #![trigger has_parent(ex, b, m, a)]
        has_child(ex, a, m, b) <==> has_parent(ex, b, m, a) by {
        assert(has_child(g, a, m, b) <==> has_parent(g, b, m, a));
    }
    assert forall|k: u64| ex.contains_key(k) implies node_wf(#[trigger] ex[k]) by {
        assert(node_wf(g[k]));
        without_keeps(g[k].children, key);
        without_keeps(g[k].parents, key);
    }
    if !g.contains_key(key) {
        assert forall|k: u64| g.contains_key(k) implies #[trigger] ex[k] == g[k] by {
            without_keeps(g[k].children, key);
            without_keeps(g[k].parents, key);
            assert(!points_to(g[k].children, key)) by {
                if points_to(g[k].children, key) {
                    let i = choose|i: int|
                        0 <= i < g[k].children.len() && (#[trigger] g[k].children[i]).1 == key;
                    assert(g[k].children.contains(g[k].children[i]));
                    no_dangling_edges(g, k, g[k].children[i]);
                }
            }
            assert(!points_to(g[k].parents, key)) by {
                if points_to(g[k].parents, key) {
                    let i = choose|i: int|
                        0 <= i < g[k].parents.len() && (#[trigger] g[k].parents[i]).1 == key;
                    assert(g[k].parents.contains(g[k].parents[i]));
                    no_dangling_edges(g, k, g[k].parents[i]);
                }
            }
        }
        assert(ex =~= g);
    }
    assert forall|a: u64, m: M, b: u64|
        #![trigger has_child(ex, a, m, b)]
        has_child(ex, a, m, b) <==> has_child(g, a, m, b) && ex.contains_key(a) && ex.contains_key(
            b,
        ) by {
        if has_child(g, a, m, b) {
            no_dangling_edges(g, a, (m, b));
        }
    }
    assert forall|a: u64, m: M, b: u64|
        #![trigger has_parent(ex, b, m, a)]
        has_parent(ex, b, m, a) <==> has_parent(g, b, m, a) && ex.contains_key(a) && ex.contains_key(
            b,
        ) by {
        if has_parent(g, b, m, a) {
            no_dangling_edges(g, b, (m, a));
        }
    }
}

/// A position that has a record and no known predecessor.
pub open spec fn orphan<M>(g: Graph<M>, key: u64) -> bool {
    g.contains_key(key) && g[key].parents.len() == 0
}

/// The position that the edge of `edges` with the move `game_move` leads to,
/// if there is such an edge.
pub open spec fn child_by<M>(edges: Seq<Edge<M>>, game_move: M) -> Option<u64> {
    if exists|b: u64| edges.contains((game_move, b)) {
        Some(choose|b: u64| edges.contains((game_move, b)))
    } else {
        None
    }
}

/// The store after the record of `key` has been deleted, with every successor
/// that this left without a predecessor, and so on down the graph; but the
/// record of the position `spared`, if one is named, is deleted nowhere on
/// the way. A store without a record of `key` stays as it is.
pub open spec fn removed_sparing<M>(g: Graph<M>, key: u64, spared: Option<u64>) -> Graph<M>
    decreases g.dom().len(), 0nat,
{
    if g.dom().finite() && g.contains_key(key) {
        cascaded(excised(g, key), g[key].children, spared, (g.dom().len() - 1) as nat)
    } else {
        g
    }
}

/// The store after the record of `key` has been deleted, with every successor
/// that this left without a predecessor, and so on down the graph. A store
/// without a record of `key` stays as it is.
pub open spec fn removed_tree<M>(g: Graph<M>, key: u64) -> Graph<M> {
    removed_sparing(g, key, None)
}

/// The store after the successors `edges` of a record that was just excised
/// have been looked at in turn: one that is an orphan by then is deleted
/// with `removed_sparing`, any other is left. An edge that ends in the
/// position `spared` is passed over. `bound` is the size that the store can
/// have.
pub open spec fn cascaded<M>(
    g: Graph<M>,
    edges: Seq<Edge<M>>,
    spared: Option<u64>,
    bound: nat,
) -> Graph<M>
    decreases bound, edges.len(),
{
    if edges.len() == 0 {
        g
    } else {
        let next = if g.dom().finite() && g.dom().len() <= bound && spared != Some(edges[0].1) && orphan(
            g,
            edges[0].1,
        ) {
            removed_sparing(g, edges[0].1, spared)
        } else {
            g
        };
        cascaded(next, edges.drop_first(), spared, bound)
    }
}

/// The store after the move `game_move` was played in the position `key`: the
/// record of `key` is deleted, and so is every successor that this left
/// without a predecessor, with what hangs on it alone. The position that the
/// move played leads to is kept, with or without a predecessor.
pub open spec fn pruned<M>(g: Graph<M>, key: u64, game_move: M) -> Graph<M> {
    if g.dom().finite() && g.contains_key(key) {
        cascaded(
            excised(g, key),
            g[key].children,
            child_by(g[key].children, game_move),
            (g.dom().len() - 1) as nat,
        )
    } else {
        g
    }
}

/// Deleting keeps the store well-formed and makes no record: what stays was
/// there, with its counters, and keeps exactly its edges to what stays.
pub proof fn removed_sparing_wf<M>(g: Graph<M>, key: u64, spared: Option<u64>)
    requires
        graph_wf(g),
    ensures
        graph_wf(removed_sparing(g, key, spared)),
        removed_sparing(g, key, spared).dom().subset_of(g.dom().remove(key)),
        survives(g, removed_sparing(g, key, spared)),
    decreases g.dom().len(), 0nat,
{
    if g.contains_key(key) {
        excised_wf(g, key);
        cascaded_wf(excised(g, key), g[key].children, spared, (g.dom().len() - 1) as nat);
        survives_transitive(g, excised(g, key), removed_sparing(g, key, spared));
    } else {
        survives_reflexive(g);
    }
}

/// The same where no position is spared.
pub proof fn removed_tree_wf<M>(g: Graph<M>, key: u64)
    requires
        graph_wf(g),
    ensures
        graph_wf(removed_tree(g, key)),
        removed_tree(g, key).dom().subset_of(g.dom().remove(key)),
        survives(g, removed_tree(g, key)),
{
    removed_sparing_wf(g, key, None);
}

/// The same of a cascade over the successors of an excised record.
pub proof fn cascaded_wf<M>(g: Graph<M>, edges: Seq<Edge<M>>, spared: Option<u64>, bound: nat)
    requires
        graph_wf(g),
        g.dom().len() <= bound,
    ensures
        graph_wf(cascaded(g, edges, spared, bound)),
        cascaded(g, edges, spared, bound).dom().subset_of(g.dom()),
        survives(g, cascaded(g, edges, spared, bound)),
    decreases bound, edges.len(),
{
    if edges.len() == 0 {
        survives_reflexive(g);
    } else {
        let taken = spared != Some(edges[0].1) && orphan(g, edges[0].1);
        let next = if taken {
            removed_sparing(g, edges[0].1, spared)
        } else {
            g
        };
        if taken {
            removed_sparing_wf(g, edges[0].1, spared);
        } else {
            survives_reflexive(g);
        }
        vstd::set_lib::lemma_len_subset(next.dom(), g.dom());
        cascaded_wf(next, edges.drop_first(), spared, bound);
        survives_transitive(g, next, cascaded(g, edges, spared, bound));
    }
}

/// Every record of `after` was in `before` with the same side and counters,
/// and its edges are exactly those it had in `before` to positions that are
/// still there.
pub open spec fn survives<M>(before: Graph<M>, after: Graph<M>) -> bool {
    &&& after.dom().subset_of(before.dom())
    &&& forall|k: u64| #[trigger]
        after.contains_key(k) ==> {
            &&& after[k].player == before[k].player
            &&& after[k].local_attempts == before[k].local_attempts
            &&& after[k].local_wins == before[k].local_wins
            &&& after[k].local_losses == before[k].local_losses
        }
    &&& forall|a: u64, m: M, b: u64|
        #![trigger has_child(after, a, m, b)]
        has_child(after, a, m, b) <==> has_child(before, a, m, b) && after.contains_key(a)
            && after.contains_key(b)
    &&& forall|a: u64, m: M, b: u64|
        #![trigger has_parent(after, b, m, a)]
        has_parent(after, b, m, a) <==> has_parent(before, b, m, a) && after.contains_key(a)
            && after.contains_key(b)
}

proof fn survives_reflexive<M>(g: Graph<M>)
    requires
        graph_wf(g),
    ensures
        survives(g, g),
{
    assert forall|a: u64, m: M, b: u64|
        #![trigger has_child(g, a, m, b)]
        has_child(g, a, m, b) implies g.contains_key(b) by {
        no_dangling_edges(g, a, (m, b));
    }
    assert forall|a: u64, m: M, b: u64|
        #![trigger has_parent(g, b, m, a)]
        has_parent(g, b, m, a) implies g.contains_key(a) by {
        no_dangling_edges(g, b, (m, a));
    }
}

proof fn survives_transitive<M>(g0: Graph<M>, g1: Graph<M>, g2: Graph<M>)
    requires
        survives(g0, g1),
        survives(g1, g2),
    ensures
        survives(g0, g2),
{
    assert forall|a: u64, m: M, b: u64|
        #![trigger has_child(g2, a, m, b)]
        has_child(g2, a, m, b) <==> has_child(g0, a, m, b) && g2.contains_key(a) && g2.contains_key(
            b,
        ) by {
        assert(has_child(g1, a, m, b) <==> has_child(g0, a, m, b) && g1.contains_key(a)
            && g1.contains_key(b));
    }
    assert forall|a: u64, m: M, b: u64|
        #![trigger has_parent(g2, b, m, a)]
        has_parent(g2, b, m, a) <==> has_parent(g0, b, m, a) && g2.contains_key(a)
            && g2.contains_key(b) by {
        assert(has_parent(g1, b, m, a) <==> has_parent(g0, b, m, a) && g1.contains_key(a)
            && g1.contains_key(b));
    }
}

/// The successors among `edges` that a cascade leaves in the store because
/// they have another predecessor when their turn comes, in the order of
/// `edges`. An edge that ends in the position `spared` is passed over.
pub open spec fn bystanders<M>(
    g: Graph<M>,
    edges: Seq<Edge<M>>,
    spared: Option<u64>,
    bound: nat,
) -> Seq<u64>
    decreases edges.len(),
{
    if edges.len() == 0 {
        Seq::empty()
    } else {
        let rest = bystanders(
            cascaded(g, edges.take(1), spared, bound),
            edges.drop_first(),
            spared,
            bound,
        );
        if spared != Some(edges[0].1) && g.contains_key(edges[0].1) && !orphan(g, edges[0].1) {
            seq![edges[0].1] + rest
        } else {
            rest
        }
    }
}

/// The successors of `key` that pruning after `game_move` leaves in the
/// store although the move that was played does not lead to them: each was
/// still reachable from another position.
pub open spec fn pruning_bystanders<M>(g: Graph<M>, key: u64, game_move: M) -> Seq<u64> {
    if g.dom().finite() && g.contains_key(key) {
        bystanders(
            excised(g, key),
            g[key].children,
            child_by(g[key].children, game_move),
            (g.dom().len() - 1) as nat,
        )
    } else {
        Seq::empty()
    }
}

/// Where no two edges carry the same move, a move leads to one position.
pub proof fn one_child_per_move<M>(edges: Seq<Edge<M>>, game_move: M, b1: u64, b2: u64)
    requires
        distinct_moves(edges),
        edges.contains((game_move, b1)),
        edges.contains((game_move, b2)),
    ensures
        b1 == b2,
{
    let i = choose|i: int| 0 <= i < edges.len() && edges[i] == (game_move, b1);
    let j = choose|j: int| 0 <= j < edges.len() && edges[j] == (game_move, b2);
    if i < j {
        assert(edges[i].0 != edges[j].0);
    } else if j < i {
        assert(edges[j].0 != edges[i].0);
    }
}

/// Growth upon growth is growth.
pub proof fn grown_transitive<M>(g0: Graph<M>, g1: Graph<M>, g2: Graph<M>)
    requires
        grown(g0, g1),
        grown(g1, g2),
    ensures
        grown(g0, g2),
{
    assert forall|k: u64| #[trigger] g0.contains_key(k) implies extends(g0[k], g2[k]) by {
        assert(extends(g0[k], g1[k]));
        assert(g1.contains_key(k));
        assert(extends(g1[k], g2[k]));
    }
}

/// A store has grown from itself.
pub proof fn grown_reflexive<M>(g: Graph<M>)
    ensures
        grown(g, g),
{
    assert forall|k: u64| #[trigger] g.contains_key(k) implies extends(g[k], g[k]) by {
        assert(g[k].children.is_prefix_of(g[k].children));
        assert(g[k].parents.is_prefix_of(g[k].parents));
    }
}

/// Every record names the side that is to move in its position.
pub open spec fn sided<Game: GameState>(g: Graph<Game::Move>) -> bool {
    forall|k: u64| g.contains_key(k) ==> (#[trigger] g[k]).player == Game::turn(k)
}

/// Arriving by a legal move of the side to move keeps the store lawful.
pub proof fn arrived_lawful<Game: GameState>(
    g: Graph<Game::Move>,
    key: u64,
    player: PlayerEnum,
    parent: Option<Edge<Game::Move>>,
)
    requires
        graph_wf(g),
        lawful::<Game>(g),
        may_arrive(g, key, parent),
        parent matches Some(edge) ==> Game::legal(edge.1, edge.0, Game::turn(edge.1)) && key
            == Game::successor(edge.1, edge.0, Game::turn(edge.1)),
    ensures
        lawful::<Game>(arrived(g, key, player, parent)),
{
    arrived_wf(g, key, player, parent);
    let g2 = arrived(g, key, player, parent);
    assert forall|a: u64, game_move: Game::Move, b: u64| #[trigger]
        has_child(g2, a, game_move, b) implies Game::legal(a, game_move, Game::turn(a)) && b
        == Game::successor(a, game_move, Game::turn(a)) by {
        if has_child(g, a, game_move, b) {
        }
    }
}

/// What is left of a lawful store is lawful, and keeps its sides.
pub proof fn survivors_lawful<Game: GameState>(before: Graph<Game::Move>, after: Graph<Game::Move>)
    requires
        survives(before, after),
    ensures
        lawful::<Game>(before) ==> lawful::<Game>(after),
        sided::<Game>(before) ==> sided::<Game>(after),
{
    if lawful::<Game>(before) {
        assert forall|a: u64, game_move: Game::Move, b: u64| #[trigger]
            has_child(after, a, game_move, b) implies Game::legal(a, game_move, Game::turn(a)) && b
            == Game::successor(a, game_move, Game::turn(a)) by {
            assert(has_child(before, a, game_move, b));
        }
    }
    if sided::<Game>(before) {
        assert forall|k: u64|
            after.contains_key(k) implies (#[trigger] after[k]).player == Game::turn(
            k,
        ) by {
            assert(before.contains_key(k));
            assert(before[k].player == Game::turn(k));
        }
    }
}

/// Deleting a record with what hangs on it leaves no new orphan but the
/// spared position: a record that stays and has no parent then had none
/// before, or it is the one that is spared.
pub proof fn removed_sparing_orphans<M>(g: Graph<M>, key: u64, spared: Option<u64>, c: u64)
    requires
        graph_wf(g),
        orphan(removed_sparing(g, key, spared), c),
    ensures
        orphan(g, c) || spared == Some(c),
    decreases g.dom().len(), 0nat,
{
    if g.contains_key(key) && spared != Some(c) {
        let cut = excised(g, key);
        let edges = g[key].children;
        excised_wf(g, key);
        cascaded_orphans(cut, edges, spared, (g.dom().len() - 1) as nat, c);
        cascaded_wf(cut, edges, spared, (g.dom().len() - 1) as nat);
        excised_orphans(g, key, c);
        if g[c].parents.len() > 0 {
            let e = g[c].parents[0];
            assert(g[c].parents.contains(e));
            assert(has_parent(g, c, e.0, key));
            assert(has_child(g, key, e.0, c));
            let i = choose|i: int| 0 <= i < edges.len() && edges[i] == (e.0, c);
            assert(edges[i].1 == c);
        }
    }
}

/// A record that excising `key` leaves without a parent had none but `key`.
pub proof fn excised_orphans<M>(g: Graph<M>, key: u64, c: u64)
    requires
        graph_wf(g),
        orphan(excised(g, key), c),
    ensures
        g.contains_key(c),
        forall|i: int| 0 <= i < g[c].parents.len() ==> (#[trigger] g[c].parents[i]).1 == key,
{
    without_keeps(g[c].parents, key);
    assert forall|i: int|
        0 <= i < g[c].parents.len() implies (#[trigger] g[c].parents[i]).1 == key by {
        let e = g[c].parents[i];
        assert(g[c].parents.contains(e));
        if e.1 != key {
            assert(without(g[c].parents, key).contains(e));
            let j = choose|j: int|
                0 <= j < without(g[c].parents, key).len() && without(g[c].parents, key)[j] == e;
        }
    }
}

/// A cascade leaves no new orphan either but the spared position, and none
/// among the successors it looked at.
pub proof fn cascaded_orphans<M>(
    g: Graph<M>,
    edges: Seq<Edge<M>>,
    spared: Option<u64>,
    bound: nat,
    c: u64,
)
    requires
        graph_wf(g),
        g.dom().len() <= bound,
        orphan(cascaded(g, edges, spared, bound), c),
    ensures
        spared == Some(c) || (orphan(g, c) && forall|i: int|
            0 <= i < edges.len() ==> (#[trigger] edges[i]).1 != c),
    decreases bound, edges.len(),
{
    if edges.len() > 0 && spared != Some(c) {
        let first = edges[0];
        let rest = edges.drop_first();
        let taken = spared != Some(first.1) && orphan(g, first.1);
        let next = if taken {
            removed_sparing(g, first.1, spared)
        } else {
            g
        };
        if taken {
            removed_sparing_wf(g, first.1, spared);
            vstd::set_lib::lemma_len_subset(next.dom(), g.dom());
        }
        cascaded_orphans(next, rest, spared, bound, c);
        cascaded_wf(next, rest, spared, bound);
        if taken {
            removed_sparing_orphans(g, first.1, spared, c);
        }
        assert forall|i: int| 0 <= i < edges.len() implies (#[trigger] edges[i]).1 != c by {
            if i > 0 {
                assert(rest[i - 1] == edges[i]);
            }
        }
    }
}

/// Nothing is deleted without cause: a record other than that of `key` is
/// deleted only when it has parents and all of them are deleted; and the
/// spared position is not deleted.
pub proof fn removed_sparing_cause<M>(g: Graph<M>, key: u64, spared: Option<u64>, c: u64)
    requires
        graph_wf(g),
        g.contains_key(c),
        c != key,
        !removed_sparing(g, key, spared).contains_key(c),
    ensures
        spared != Some(c),
        g[c].parents.len() > 0,
        forall|i: int|
            0 <= i < g[c].parents.len() ==> !removed_sparing(g, key, spared).contains_key(
                (#[trigger] g[c].parents[i]).1,
            ),
    decreases g.dom().len(), 0nat,
{
    if g.contains_key(key) {
        let cut = excised(g, key);
        let edges = g[key].children;
        let bound = (g.dom().len() - 1) as nat;
        let after = removed_sparing(g, key, spared);
        excised_wf(g, key);
        cascaded_wf(cut, edges, spared, bound);
        cascaded_cause(cut, edges, spared, bound, c);
        without_keeps(g[c].parents, key);
        if exists|i: int| 0 <= i < edges.len() && (#[trigger] edges[i]).1 == c {
            let i = choose|i: int| 0 <= i < edges.len() && (#[trigger] edges[i]).1 == c;
            assert(edges.contains(edges[i]));
            assert(has_child(g, key, edges[i].0, c));
            assert(has_parent(g, c, edges[i].0, key));
        } else {
            let e = cut[c].parents[0];
            assert(cut[c].parents.contains(e));
            assert(g[c].parents.contains(e));
        }
        assert forall|i: int|
            0 <= i < g[c].parents.len() implies !after.contains_key((#[trigger] g[c].parents[i]).1) by {
            let e = g[c].parents[i];
            assert(g[c].parents.contains(e));
            if e.1 != key {
                assert(cut[c].parents.contains(e));
                let j = choose|j: int| 0 <= j < cut[c].parents.len() && cut[c].parents[j] == e;
                assert(!after.contains_key(cut[c].parents[j].1));
            }
        }
    }
}

/// The cause of a deletion in a cascade: the record is not the spared one;
/// it is a successor that the cascade looked at, or it has parents; and all
/// its parents are deleted.
pub proof fn cascaded_cause<M>(
    g: Graph<M>,
    edges: Seq<Edge<M>>,
    spared: Option<u64>,
    bound: nat,
    c: u64,
)
    requires
        graph_wf(g),
        g.dom().len() <= bound,
        g.contains_key(c),
        !cascaded(g, edges, spared, bound).contains_key(c),
    ensures
        spared != Some(c),
        forall|i: int|
            0 <= i < g[c].parents.len() ==> !cascaded(g, edges, spared, bound).contains_key(
                (#[trigger] g[c].parents[i]).1,
            ),
        g[c].parents.len() > 0 || exists|i: int| 0 <= i < edges.len() && (#[trigger] edges[i]).1 == c,
    decreases bound, edges.len(),
{
    if edges.len() > 0 {
        let first = edges[0];
        let rest = edges.drop_first();
        let taken = spared != Some(first.1) && orphan(g, first.1);
        let next = if taken {
            removed_sparing(g, first.1, spared)
        } else {
            g
        };
        let after = cascaded(g, edges, spared, bound);
        if taken {
            removed_sparing_wf(g, first.1, spared);
            vstd::set_lib::lemma_len_subset(next.dom(), g.dom());
        } else {
            survives_reflexive(g);
        }
        cascaded_wf(next, rest, spared, bound);
        if next.contains_key(c) {
            cascaded_cause(next, rest, spared, bound, c);
            assert forall|i: int| 0 <= i < g[c].parents.len() implies !after.contains_key(
                (#[trigger] g[c].parents[i]).1,
            ) by {
                let e = g[c].parents[i];
                assert(g[c].parents.contains(e));
                if next.contains_key(e.1) {
                    assert(has_parent(g, c, e.0, e.1));
                    assert(has_parent(next, c, e.0, e.1));
                    let j = choose|j: int|
                        0 <= j < next[c].parents.len() && next[c].parents[j] == e;
                    assert(!after.contains_key(next[c].parents[j].1));
                }
            }
            if next[c].parents.len() > 0 {
                let e = next[c].parents[0];
                assert(next[c].parents.contains(e));
                assert(has_parent(next, c, e.0, e.1));
                assert(has_parent(g, c, e.0, e.1));
            } else {
                let i = choose|i: int| 0 <= i < rest.len() && (#[trigger] rest[i]).1 == c;
                assert(edges[i + 1] == rest[i]);
            }
        } else {
            if c != first.1 {
                removed_sparing_cause(g, first.1, spared, c);
            }
        }
    }
}

/// Where no two edges carry the same move, the position that a move leads to
/// is the end of any edge with that move.
pub proof fn child_by_is<M>(edges: Seq<Edge<M>>, game_move: M, b: u64)
    requires
        distinct_moves(edges),
        edges.contains((game_move, b)),
    ensures
        child_by(edges, game_move) == Some(b),
{
    let found = choose|b: u64| edges.contains((game_move, b));
    one_child_per_move(edges, game_move, b, found);
}

} // verus!
