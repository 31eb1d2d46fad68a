//! What holds of the search as a whole, stated over the model of the store.

use crate::aggregate::{
    at_and_below, descendants, descendants_are_finite, descendants_by_last_edge, descends,
    descends_at, reading, rooted, total_below, walk, Counter,
};
use crate::sums::{sum_over, sum_over_agrees, sum_over_disjoint, sum_over_split};
use crate::decision::{attempts_below, decided, most_visited};
use crate::game::{GameState, PlayerEnum};
use crate::graph::{
    arrived, arrived_wf, cascaded_wf, child_by, excised, excised_wf, graph_wf, has_child,
    has_parent, lawful, may_arrive, no_dangling_edges, orphan, points_to, pruned, removed_tree,
    removed_tree_wf, sided, Edge, Graph,
};
use crate::selection::{
    best_ranked, enumerates, is_first_best, known_of, outranks, rank_for, UpperConfidence,
};
use vstd::prelude::*;

verus! {

/// Edges are mutual: in a well-formed store the position `a` holds `b` as
/// its child by a move exactly if `b` holds `a` as its parent by that move.
pub proof fn edges_are_mutual<M>(g: Graph<M>, a: u64, game_move: M, b: u64)
    requires
        graph_wf(g),
    ensures
        has_child(g, a, game_move, b) <==> has_parent(g, b, game_move, a),
{
}

/// Pruning twice in a row, with nothing in between, changes nothing the
/// second time.
pub proof fn pruning_is_idempotent<M>(g: Graph<M>, key: u64, game_move: M)
    requires
        graph_wf(g),
    ensures
        pruned(pruned(g, key, game_move), key, game_move) == pruned(g, key, game_move),
{
    if g.contains_key(key) {
        excised_wf(g, key);
        cascaded_wf(
            excised(g, key),
            g[key].children,
            child_by(g[key].children, game_move),
            (g.dom().len() - 1) as nat,
        );
        assert(!pruned(g, key, game_move).contains_key(key));
    }
}

/// Deleting a record with what hangs on it, twice in a row, changes nothing
/// the second time.
pub proof fn removing_is_idempotent<M>(g: Graph<M>, key: u64)
    requires
        graph_wf(g),
    ensures
        removed_tree(removed_tree(g, key), key) == removed_tree(g, key),
{
    removed_tree_wf(g, key);
    assert(!removed_tree(g, key).contains_key(key));
    assert(removed_tree(removed_tree(g, key), key) == removed_tree(g, key));
}

/// Transpositions collapse: when the search arrives in the position `key`
/// by two different edges, one after the other, the store holds one record
/// of `key`, and that record holds both edges among its parents.
pub proof fn transpositions_collapse<M>(
    g: Graph<M>,
    key: u64,
    player: PlayerEnum,
    first: Edge<M>,
    again: PlayerEnum,
    second: Edge<M>,
)
    requires
        graph_wf(g),
        may_arrive(g, key, Some(first)),
        may_arrive(arrived(g, key, player, Some(first)), key, Some(second)),
    ensures
        ({
            let met = arrived(arrived(g, key, player, Some(first)), key, again, Some(second));
            &&& graph_wf(met)
            &&& met.dom() == g.dom().insert(key)
            &&& has_parent(met, key, first.0, first.1)
            &&& has_parent(met, key, second.0, second.1)
            &&& has_child(met, first.1, first.0, key)
            &&& has_child(met, second.1, second.0, key)
        }),
{
    let once = arrived(g, key, player, Some(first));
    arrived_wf(g, key, player, Some(first));
    arrived_wf(once, key, again, Some(second));
    let met = arrived(once, key, again, Some(second));
    assert(has_child(once, first.1, first.0, key));
    assert(has_child(met, first.1, first.0, key));
    assert(has_child(met, second.1, second.0, key));
    assert(met.dom() =~= g.dom().insert(key));
}

/// An untried move goes first: where some legal move has no known child, the
/// move chosen by rank has none either, whatever the ranks of the known
/// children, and it is the first such move of the enumeration.
pub proof fn untried_move_goes_first<Game: GameState, Policy: UpperConfidence>(
    policy: Policy,
    g: Graph<Game::Move>,
    children: Seq<Edge<Game::Move>>,
    key: u64,
    player: PlayerEnum,
    chosen: Game::Move,
    untried: Game::Move,
)
    requires
        best_ranked::<Game, Policy>(policy, g, children, key, player, chosen),
        Game::legal(key, untried, player),
        forall|b: u64| !children.contains((untried, b)),
    ensures
        forall|b: u64| !children.contains((chosen, b)),
        Game::place(key, chosen, player) <= Game::place(key, untried, player),
{
    let (moves, ranks) = choose|moves: Seq<Game::Move>, ranks: Seq<Option<u64>>|
        {
            &&& #[trigger] enumerates::<Game>(moves, key, player)
            &&& ranks.len() == moves.len()
            &&& forall|i: int|
                0 <= i < moves.len() ==> #[trigger] ranks[i] == rank_for(
                    policy,
                    total_below(g, Counter::Attempts, children),
                    known_of(g, children, moves[i]),
                )
            &&& #[trigger] is_first_best(ranks, Game::place(key, chosen, player) as int)
            &&& moves[Game::place(key, chosen, player) as int] == chosen
        };
    let p = Game::place(key, chosen, player) as int;
    assert(moves.contains(untried));
    let j = choose|j: int| 0 <= j < moves.len() && moves[j] == untried;
    assert(Game::place(key, moves[j], player) == j);
    let parent = total_below(g, Counter::Attempts, children);
    assert(ranks[j] == rank_for(policy, parent, known_of(g, children, moves[j])));
    assert(ranks[j] is None);
    assert(ranks[p] == rank_for(policy, parent, known_of(g, children, moves[p])));
    if j < p {
        assert(outranks(ranks[p], ranks[j]));
    } else if j > p {
        assert(!outranks(ranks[j], ranks[p]));
    }
    assert(ranks[p] is None);
}

/// The store determines the decision: of children that are visited equally
/// often, it is always the same one that is chosen.
pub proof fn decision_is_determined<M>(g: Graph<M>, key: u64, one: M, other: M)
    requires
        decided(g, key, one),
        decided(g, key, other),
    ensures
        one == other,
{
    let edges = g[key].children;
    let i = choose|i: int| #[trigger] most_visited(g, edges, i) && edges[i].0 == one;
    let j = choose|j: int| #[trigger] most_visited(g, edges, j) && edges[j].0 == other;
    if i < j {
        assert(attempts_below(g, edges[i].1) <= attempts_below(g, edges[j].1));
        assert(attempts_below(g, edges[j].1) < attempts_below(g, edges[i].1));
    } else if j < i {
        assert(attempts_below(g, edges[j].1) <= attempts_below(g, edges[i].1));
        assert(attempts_below(g, edges[i].1) < attempts_below(g, edges[j].1));
    }
}

/// The counter that stands for `counter` one ply further down, where the
/// other side is to move: a win there is a loss here, and a loss a win.
pub open spec fn mirrored(counter: Counter) -> Counter {
    match counter {
        Counter::Attempts => Counter::Attempts,
        Counter::Wins => Counter::Losses,
        Counter::Losses => Counter::Wins,
    }
}

/// The local counter of the record of `key`.
pub open spec fn local<M>(g: Graph<M>, counter: Counter, key: u64) -> nat {
    match counter {
        Counter::Attempts => g[key].local_attempts as nat,
        Counter::Wins => g[key].local_wins as nat,
        Counter::Losses => g[key].local_losses as nat,
    }
}

/// What the position `key` holds of a statistic with all below it: its own
/// counter, and the statistic of the subgraph below it.
pub open spec fn total_at_and_below<M>(g: Graph<M>, counter: Counter, key: u64) -> nat {
    local(g, counter, key) + total_below(g, counter, g[key].children)
}

/// The sum, over the children that `edges` lead to, of what each child holds
/// of a statistic with all below it.
pub open spec fn total_by_child<M>(g: Graph<M>, counter: Counter, edges: Seq<Edge<M>>) -> nat
    decreases edges.len(),
{
    if edges.len() == 0 {
        0
    } else {
        total_by_child(g, counter, edges.drop_last()) + total_at_and_below(g, counter, edges.last().1)
    }
}

/// The subgraphs below `edges` form a tree at the top: no child lies below
/// itself, and no position is a child of, or lies below, two of the edges.
pub open spec fn branches_apart<M>(g: Graph<M>, edges: Seq<Edge<M>>) -> bool {
    &&& forall|i: int| 0 <= i < edges.len() ==> !descends(g, g[edges[i].1].children, (#[trigger] edges[i]).1)
    &&& forall|i: int, j: int|
        0 <= i < j < edges.len() ==> at_and_below(g, (#[trigger] edges[i]).1).disjoint(
            at_and_below(g, (#[trigger] edges[j]).1),
        )
}

/// Every descendant is reached at depths of one parity: none by an odd and
/// by an even number of plies.
pub open spec fn one_parity<M>(g: Graph<M>, edges: Seq<Edge<M>>) -> bool {
    forall|key: u64| !(#[trigger] descends_at(g, edges, key, true) && descends_at(g, edges, key, false))
}

/// What is reached from a child of a record is reached from the record by
/// one ply more.
pub proof fn descends_at_through<M>(g: Graph<M>, edges: Seq<Edge<M>>, child: u64, key: u64, odd: bool)
    requires
        points_to(edges, child),
        g.contains_key(child),
        descends_at(g, g[child].children, key, odd),
    ensures
        descends_at(g, edges, key, !odd),
{
    let q = choose|path: Seq<u64>|
        path.len() >= 1 && points_to(g[child].children, path[0]) && path.last() == key && (path.len() % 2
            == 1) == odd && #[trigger] walk(g, path);
    let p = seq![child] + q;
    assert(p[0] == child);
    assert forall|i: int| 0 <= i < p.len() - 1 implies crate::aggregate::edge(g, #[trigger] p[i], p[i + 1]) by {
        if i == 0 {
            assert(p[1] == q[0]);
        } else {
            assert(p[i] == q[i - 1]);
            assert(p[i + 1] == q[i - 1 + 1]);
            assert(crate::aggregate::edge(g, q[i - 1], q[i - 1 + 1]));
        }
    }
    assert(p.last() == key);
    assert(p.len() == q.len() + 1);
    assert(walk(g, p));
}

/// The perspective alternates, at every depth: where the subgraphs below the
/// children of a record lie apart and every descendant is reached at depths
/// of one parity, the wins below the record are the losses of its children,
/// each child counted with its own losses and those below it; its losses
/// are their wins; and its attempts are their attempts.
pub proof fn perspective_alternates<M>(g: Graph<M>, counter: Counter, edges: Seq<Edge<M>>)
    requires
        graph_wf(g),
        rooted(g, edges),
        branches_apart(g, edges),
        one_parity(g, edges),
    ensures
        total_below(g, counter, edges) == total_by_child(g, mirrored(counter), edges),
{
    alternates_upto(g, counter, edges, edges.len() as int);
    assert(edges.take(edges.len() as int) =~= edges);
}

/// The same of the first `n` children alone, the perspective being that of
/// the whole record.
proof fn alternates_upto<M>(g: Graph<M>, counter: Counter, edges: Seq<Edge<M>>, n: int)
    requires
        graph_wf(g),
        rooted(g, edges),
        branches_apart(g, edges),
        one_parity(g, edges),
        0 <= n <= edges.len(),
    ensures
        sum_over(descendants(g, edges.take(n)), |key: u64| reading(g, edges, counter, key)) == total_by_child(
            g,
            mirrored(counter),
            edges.take(n),
        ),
    decreases n,
{
    let f = |key: u64| reading(g, edges, counter, key);
    let part = edges.take(n);
    assert(rooted(g, part)) by {
        assert forall|i: int| 0 <= i < part.len() implies g.contains_key((#[trigger] part[i]).1) by {
            assert(part[i] == edges[i]);
        }
    }
    if n == 0 {
        assert(descendants(g, part) =~= Set::<u64>::empty()) by {
            assert forall|key: u64| !descends(g, part, key) by {
                if descends(g, part, key) {
                    let p = choose|path: Seq<u64>|
                        path.len() >= 1 && points_to(part, path[0]) && path.last() == key && #[trigger] walk(
                            g,
                            path,
                        );
                }
            }
        }
    } else {
        let init = edges.take(n - 1);
        let c = edges[n - 1].1;
        let own = g[c].children;
        assert(part.drop_last() =~= init);
        assert(part.last() == edges[n - 1]);
        assert(g.contains_key(c));
        assert(points_to(edges, c));
        assert(rooted(g, init)) by {
            assert forall|i: int| 0 <= i < init.len() implies g.contains_key((#[trigger] init[i]).1) by {
                assert(init[i] == edges[i]);
            }
        }
        alternates_upto(g, counter, edges, n - 1);
        descendants_by_last_edge(g, part);
        let below_c = descendants(g, own);
        let whole_c = at_and_below(g, c);
        assert(rooted(g, own)) by {
            assert forall|t: int| 0 <= t < own.len() implies g.contains_key((#[trigger] own[t]).1) by {
                assert(own.contains(own[t]));
                no_dangling_edges(g, c, own[t]);
            }
        }
        descendants_are_finite(g, init);
        descendants_are_finite(g, own);
        // The child and what lies below it have nothing in common with the children before.
        assert(descendants(g, init).disjoint(whole_c)) by {
            assert forall|key: u64| descendants(g, init).contains(key) implies !whole_c.contains(key) by {
                below_some_child(g, init, key);
                let i = choose|i: int|
                    0 <= i < init.len() && at_and_below(g, (#[trigger] init[i]).1).contains(key);
                assert(init[i] == edges[i]);
                assert(at_and_below(g, edges[i].1).disjoint(at_and_below(g, edges[n - 1].1)));
            }
        }
        sum_over_disjoint(descendants(g, init), whole_c, f);
        // The child is not among what lies below it, and is reached by one ply.
        assert(!below_c.contains(c));
        assert(whole_c.remove(c) =~= below_c);
        sum_over_split(whole_c, f, c);
        crate::aggregate::descends_at_first(g, edges, c);
        assert(f(c) == local(g, mirrored(counter), c));
        // What lies below the child is one ply further from the record than from the child.
        let h = |key: u64| reading(g, own, mirrored(counter), key);
        assert forall|key: u64| below_c.contains(key) implies f(key) == h(key) by {
            crate::aggregate::descends_at_some_depth(g, own, key);
            if descends_at(g, own, key, true) {
                descends_at_through(g, edges, c, key, true);
            } else {
                descends_at_through(g, edges, c, key, false);
            }
        }
        sum_over_agrees(below_c, f, h);
    }
}

/// What lies below a record is a child of it, or lies below one.
proof fn below_some_child<M>(g: Graph<M>, edges: Seq<Edge<M>>, key: u64)
    requires
        rooted(g, edges),
        descends(g, edges, key),
    ensures
        exists|i: int|
            0 <= i < edges.len() && at_and_below(g, (#[trigger] edges[i]).1).contains(key),
    decreases edges.len(),
{
    if edges.len() == 0 {
        let p = choose|path: Seq<u64>|
            path.len() >= 1 && points_to(edges, path[0]) && path.last() == key && #[trigger] walk(
                g,
                path,
            );
    } else {
        descendants_by_last_edge(g, edges);
        let init = edges.drop_last();
        assert(descendants(g, edges).contains(key));
        if descendants(g, init).contains(key) {
            assert(rooted(g, init)) by {
                assert forall|i: int|
                    0 <= i < init.len() implies g.contains_key((#[trigger] init[i]).1) by {
                    assert(init[i] == edges[i]);
                }
            }
            below_some_child(g, init, key);
            let i = choose|i: int|
                0 <= i < init.len() && at_and_below(g, (#[trigger] init[i]).1).contains(key);
            assert(init[i] == edges[i]);
        } else {
            assert(at_and_below(g, edges[edges.len() - 1].1).contains(key));
        }
    }
}

/// Deleting a record with what hangs on it leaves no new orphan. A record
/// that is left and has no parent had none before: every child that the
/// deletion took the last parent from is deleted with it.
pub proof fn deleting_leaves_no_new_orphan<M>(g: Graph<M>, key: u64, left: u64)
    requires
        graph_wf(g),
        orphan(removed_tree(g, key), left),
    ensures
        orphan(g, left),
{
    crate::graph::removed_sparing_orphans(g, key, None, left);
}

/// Pruning leaves no new orphan but one: a record that it leaves without a
/// parent had none before, or it is the position that the move played leads
/// to.
pub proof fn pruning_leaves_no_new_orphan<M>(g: Graph<M>, key: u64, game_move: M, left: u64)
    requires
        graph_wf(g),
        orphan(pruned(g, key, game_move), left),
    ensures
        orphan(g, left) || (g.contains_key(key) && has_child(g, key, game_move, left)),
{
    if g.contains_key(key) {
        let cut = excised(g, key);
        let edges = g[key].children;
        let spared = child_by(edges, game_move);
        excised_wf(g, key);
        crate::graph::cascaded_orphans(cut, edges, spared, (g.dom().len() - 1) as nat, left);
        if spared != Some(left) {
            crate::graph::excised_orphans(g, key, left);
            if g[left].parents.len() > 0 {
                let e = g[left].parents[0];
                assert(g[left].parents.contains(e));
                assert(has_parent(g, left, e.0, key));
                assert(has_child(g, key, e.0, left));
                let j = choose|j: int| 0 <= j < edges.len() && edges[j] == (e.0, left);
                assert(edges[j].1 == left);
            }
        }
    }
}

/// Nothing is deleted without cause: a record other than the one to delete
/// goes only if it has parents and every parent of it goes too. A record
/// that has no parent, or a parent that stays, stays.
pub proof fn deleting_needs_cause<M>(g: Graph<M>, key: u64, gone: u64)
    requires
        graph_wf(g),
        g.contains_key(gone),
        gone != key,
        !removed_tree(g, key).contains_key(gone),
    ensures
        g[gone].parents.len() > 0,
        forall|i: int| 0 <= i < g[gone].parents.len() ==> !removed_tree(g, key).contains_key(
            (#[trigger] g[gone].parents[i]).1,
        ),
{
    crate::graph::removed_sparing_cause(g, key, None, gone);
}

/// Pruning deletes the position that the move was played in, and beyond it
/// nothing without cause: a record goes only if it has parents, if every
/// parent of it goes, and if it is not the position that the move played
/// leads to.
pub proof fn pruning_needs_cause<M>(g: Graph<M>, key: u64, game_move: M, gone: u64)
    requires
        graph_wf(g),
        g.contains_key(key),
        g.contains_key(gone),
        gone != key,
        !pruned(g, key, game_move).contains_key(gone),
    ensures
        !pruned(g, key, game_move).contains_key(key),
        !has_child(g, key, game_move, gone),
        g[gone].parents.len() > 0,
        forall|i: int| 0 <= i < g[gone].parents.len() ==> !pruned(g, key, game_move).contains_key(
            (#[trigger] g[gone].parents[i]).1,
        ),
{
    let cut = excised(g, key);
    let edges = g[key].children;
    let spared = child_by(edges, game_move);
    let bound = (g.dom().len() - 1) as nat;
    let after = pruned(g, key, game_move);
    excised_wf(g, key);
    cascaded_wf(cut, edges, spared, bound);
    crate::graph::cascaded_cause(cut, edges, spared, bound, gone);
    crate::graph::without_keeps(g[gone].parents, key);
    if has_child(g, key, game_move, gone) {
        assert(crate::graph::node_wf(g[key]));
        crate::graph::child_by_is(edges, game_move, gone);
    }
    if exists|i: int| 0 <= i < edges.len() && (#[trigger] edges[i]).1 == gone {
        let i = choose|i: int| 0 <= i < edges.len() && (#[trigger] edges[i]).1 == gone;
        assert(edges.contains(edges[i]));
        assert(has_child(g, key, edges[i].0, gone));
        assert(has_parent(g, gone, edges[i].0, key));
    } else {
        let e = cut[gone].parents[0];
        assert(cut[gone].parents.contains(e));
        assert(g[gone].parents.contains(e));
    }
    assert forall|i: int| 0 <= i < g[gone].parents.len() implies !after.contains_key(
        (#[trigger] g[gone].parents[i]).1,
    ) by {
        let e = g[gone].parents[i];
        assert(g[gone].parents.contains(e));
        if e.1 != key {
            assert(cut[gone].parents.contains(e));
            let j = choose|j: int| 0 <= j < cut[gone].parents.len() && cut[gone].parents[j] == e;
            assert(!after.contains_key(cut[gone].parents[j].1));
        }
    }
}

/// The position that the move played leads to stays: whatever else pruning
/// deletes, and whether or not a parent is left to it, the record of the
/// position that the game is in now is kept, with its counters.
pub proof fn the_position_played_stays<M>(g: Graph<M>, key: u64, game_move: M, now: u64)
    requires
        graph_wf(g),
        has_child(g, key, game_move, now),
        now != key,
    ensures
        !pruned(g, key, game_move).contains_key(key),
        pruned(g, key, game_move).contains_key(now),
        pruned(g, key, game_move)[now].local_attempts == g[now].local_attempts,
        pruned(g, key, game_move)[now].local_wins == g[now].local_wins,
        pruned(g, key, game_move)[now].local_losses == g[now].local_losses,
        pruned(g, key, game_move)[now].player == g[now].player,
{
    let cut = excised(g, key);
    let edges = g[key].children;
    let bound = (g.dom().len() - 1) as nat;
    no_dangling_edges(g, key, (game_move, now));
    excised_wf(g, key);
    cascaded_wf(cut, edges, child_by(edges, game_move), bound);
    assert(crate::graph::node_wf(g[key]));
    crate::graph::child_by_is(edges, game_move, now);
    if !pruned(g, key, game_move).contains_key(now) {
        crate::graph::cascaded_cause(cut, edges, Some(now), bound, now);
    }
    assert(crate::graph::survives(cut, pruned(g, key, game_move)));
    assert(crate::graph::survives(g, cut));
}

/// In a store of the search, where every edge is a legal move and every
/// record names the side to move, the other side is to move in every child.
pub proof fn children_move_for_the_other_side<Game: GameState>(
    g: Graph<Game::Move>,
    key: u64,
    i: int,
)
    requires
        lawful::<Game>(g),
        sided::<Game>(g),
        graph_wf(g),
        g.contains_key(key),
        0 <= i < g[key].children.len(),
    ensures
        g.contains_key(g[key].children[i].1),
        g[g[key].children[i].1].player == g[key].player.opponent(),
{
    let edge = g[key].children[i];
    assert(g[key].children.contains(edge));
    no_dangling_edges(g, key, edge);
    assert(has_child(g, key, edge.0, edge.1));
    Game::moves_in_turn(key, edge.0, Game::turn(key));
}

/// In a store of the search every edge brings the end of the game nearer, so
/// that what lies below a position is nearer to the end than the position:
/// no position lies below itself.
pub proof fn below_is_nearer_the_end<Game: GameState>(g: Graph<Game::Move>, key: u64, below: u64)
    requires
        lawful::<Game>(g),
        g.contains_key(key),
        descends(g, g[key].children, below),
    ensures
        Game::plies_left(below) < Game::plies_left(key),
{
    let path = choose|path: Seq<u64>|
        path.len() >= 1 && points_to(g[key].children, path[0]) && path.last() == below && #[trigger] walk(
            g,
            path,
        );
    let t = choose|t: int|
        0 <= t < g[key].children.len() && (#[trigger] g[key].children[t]).1 == path[0];
    let first = g[key].children[t];
    assert(g[key].children.contains(first));
    assert(has_child(g, key, first.0, first.1));
    Game::moves_in_turn(key, first.0, Game::turn(key));
    walk_nears_the_end::<Game>(g, path, path.len() - 1);
}

proof fn walk_nears_the_end<Game: GameState>(g: Graph<Game::Move>, path: Seq<u64>, upto: int)
    requires
        lawful::<Game>(g),
        walk(g, path),
        0 <= upto < path.len(),
    ensures
        Game::plies_left(path[upto]) <= Game::plies_left(path[0]),
    decreases upto,
{
    if upto > 0 {
        walk_nears_the_end::<Game>(g, path, upto - 1);
        let a = path[upto - 1];
        assert(crate::aggregate::edge(g, a, path[upto - 1 + 1]));
        let t = choose|t: int|
            0 <= t < g[a].children.len() && (#[trigger] g[a].children[t]).1 == path[upto];
        let step = g[a].children[t];
        assert(g[a].children.contains(step));
        assert(has_child(g, a, step.0, step.1));
        Game::moves_in_turn(a, step.0, Game::turn(a));
    }
}

/// No position is a child of, or lies below, two of the edges.
pub open spec fn children_apart<M>(g: Graph<M>, edges: Seq<Edge<M>>) -> bool {
    forall|i: int, j: int|
        0 <= i < j < edges.len() ==> at_and_below(g, (#[trigger] edges[i]).1).disjoint(
            at_and_below(g, (#[trigger] edges[j]).1),
        )
}

/// In a store of the search the turn tells the depth: what is reached from a
/// position by an odd number of plies is a position of the other side, and
/// what is reached by an even number is a position of the same side.
pub proof fn depth_tells_the_turn<Game: GameState>(g: Graph<Game::Move>, key: u64, below: u64, odd: bool)
    requires
        lawful::<Game>(g),
        g.contains_key(key),
        descends_at(g, g[key].children, below, odd),
    ensures
        Game::turn(below) == if odd {
            Game::turn(key).opponent()
        } else {
            Game::turn(key)
        },
{
    let path = choose|path: Seq<u64>|
        path.len() >= 1 && points_to(g[key].children, path[0]) && path.last() == below && (path.len() % 2
            == 1) == odd && #[trigger] walk(g, path);
    let t = choose|t: int| 0 <= t < g[key].children.len() && (#[trigger] g[key].children[t]).1 == path[0];
    let first = g[key].children[t];
    assert(g[key].children.contains(first));
    assert(has_child(g, key, first.0, first.1));
    Game::moves_in_turn(key, first.0, Game::turn(key));
    walk_takes_turns::<Game>(g, path, path.len() - 1);
}

proof fn walk_takes_turns<Game: GameState>(g: Graph<Game::Move>, path: Seq<u64>, upto: int)
    requires
        lawful::<Game>(g),
        walk(g, path),
        0 <= upto < path.len(),
    ensures
        Game::turn(path[upto]) == if upto % 2 == 0 {
            Game::turn(path[0])
        } else {
            Game::turn(path[0]).opponent()
        },
    decreases upto,
{
    if upto > 0 {
        walk_takes_turns::<Game>(g, path, upto - 1);
        let a = path[upto - 1];
        assert(crate::aggregate::edge(g, a, path[upto - 1 + 1]));
        let t = choose|t: int| 0 <= t < g[a].children.len() && (#[trigger] g[a].children[t]).1 == path[upto];
        let step = g[a].children[t];
        assert(g[a].children.contains(step));
        assert(has_child(g, a, step.0, step.1));
        Game::moves_in_turn(a, step.0, Game::turn(a));
    }
}

/// The perspective alternates in play: in a store of the search, the wins
/// below a record are the losses of its children, and its losses their wins,
/// wherever no position is reached through two of the children.
pub proof fn perspective_alternates_in_play<Game: GameState>(
    g: Graph<Game::Move>,
    key: u64,
    counter: Counter,
)
    requires
        graph_wf(g),
        lawful::<Game>(g),
        g.contains_key(key),
        children_apart(g, g[key].children),
    ensures
        total_below(g, counter, g[key].children) == total_by_child(g, mirrored(counter), g[key].children),
{
    let edges = g[key].children;
    assert(rooted(g, edges)) by {
        assert forall|t: int| 0 <= t < edges.len() implies g.contains_key((#[trigger] edges[t]).1) by {
            assert(edges.contains(edges[t]));
            no_dangling_edges(g, key, edges[t]);
        }
    }
    assert forall|i: int| 0 <= i < edges.len() implies !descends(
        g,
        g[edges[i].1].children,
        (#[trigger] edges[i]).1,
    ) by {
        if descends(g, g[edges[i].1].children, edges[i].1) {
            below_is_nearer_the_end::<Game>(g, edges[i].1, edges[i].1);
        }
    }
    assert forall|below: u64|
        !(#[trigger] descends_at(g, edges, below, true) && descends_at(g, edges, below, false)) by {
        if descends_at(g, edges, below, true) && descends_at(g, edges, below, false) {
            depth_tells_the_turn::<Game>(g, key, below, true);
            depth_tells_the_turn::<Game>(g, key, below, false);
        }
    }
    perspective_alternates(g, counter, edges);
}

} // verus!
