//! The node store at work: arriving in a position, and cutting a record out.

use crate::game::{GameState, PlayerEnum};
use crate::graph::{
    arrived, excised, excised_wf, graph_wf, has_child, has_parent, may_arrive, points_to, without,
    without_keeps, NodeView,
};
use crate::node::{edges_without, graph_of, holds_edge, Cache, Node};
use vstd::prelude::*;
use vstd::std_specs::iter::IteratorSpec;

verus! {

broadcast use vstd::std_specs::hash::group_hash_axioms;

/// Makes sure that the position `key`, in which the search has arrived with
/// `player` to move, has a record, and that the edge by which it came, if
/// any, is known at both ends.
pub fn arrive<Game: GameState>(
    cache: &mut Cache<Game>,
    key: u64,
    player: PlayerEnum,
    parent: Option<(Game::Move, u64)>,
)
    requires
        graph_wf(graph_of(old(cache)@)),
        may_arrive(graph_of(old(cache)@), key, parent),
    ensures
        graph_of(final(cache)@) == arrived(graph_of(old(cache)@), key, player, parent),
{
    let ghost g = graph_of(cache@);
    // Create the record, if it doesn't already exist; else note the new parent.
    match cache.remove(&key) {
        None => {
            cache.insert(key, Node::new(player, parent));
        },
        Some(node) => {
            let mut node = node;
            match parent {
                Some((game_move, from)) => {
                    if !holds_edge::<Game>(&node.parents, &game_move, from) {
                        node.parents.push((game_move, from));
                    }
                },
                None => (),
            }
            cache.insert(key, node);
        },
    }
    // Make sure that the parent points to this position.
    match parent {
        Some((game_move, from)) => {
            match cache.remove(&from) {
                Some(source) => {
                    let mut source = source;
                    if !holds_edge::<Game>(&source.children, &game_move, key) {
                        source.children.push((game_move, key));
                    }
                    cache.insert(from, source);
                },
                None => (),
            }
        },
        None => (),
    }
    proof {
        assert(graph_of(cache@) =~~= arrived(g, key, player, parent));
    }
}

/// Takes the record of `key` out of the store, and with it every edge that
/// other records hold to or from `key`. Returns the record, or `None` if
/// there was none.
pub fn excise<Game: GameState>(cache: &mut Cache<Game>, key: u64) -> (removed: Option<Node<Game>>)
    requires
        graph_wf(graph_of(old(cache)@)),
    ensures
        graph_of(final(cache)@) == excised(graph_of(old(cache)@), key),
        match removed {
            Some(node) => graph_of(old(cache)@).contains_key(key) && node@ == graph_of(old(cache)@)[key],
            None => !graph_of(old(cache)@).contains_key(key),
        },
{
    let ghost g = graph_of(cache@);
    proof {
        excised_wf(g, key);
    }
    let node = match cache.remove(&key) {
        Some(node) => node,
        None => {
            assert(graph_of(cache@) =~~= g);
            return None;
        },
    };

    // Remove this position as child from all parents.
    let mut i: usize = 0;
    while i < node.parents.len()
        invariant
            i <= node.parents.len(),
            graph_wf(g),
            g.contains_key(key),
            node@ == g[key],
            graph_of(cache@).dom() == g.dom().remove(key),
            forall|k: u64| #[trigger]
                graph_of(cache@).contains_key(k) ==> graph_of(cache@)[k] == (NodeView {
                    children: if points_to(node.parents@.take(i as int), k) {
                        without(g[k].children, key)
                    } else {
                        g[k].children
                    },
                    ..g[k]
                }),
        decreases node.parents.len() - i,
    {
        let ghost before = graph_of(cache@);
        let from = node.parents[i].1;
        assert(node.parents@.take(i + 1)[i as int] == node.parents@[i as int]);
        assert forall|k: u64| points_to(node.parents@.take(i + 1), k) <==> points_to(
            node.parents@.take(i as int),
            k,
        ) || k == from by {
            if points_to(node.parents@.take(i + 1), k) {
                let j = choose|j: int|
                    0 <= j < node.parents@.take(i + 1).len() && (#[trigger] node.parents@.take(i + 1)[j]).1
                        == k;
                if j < i {
                    assert(node.parents@.take(i as int)[j].1 == k);
                }
            }
            if points_to(node.parents@.take(i as int), k) {
                let j = choose|j: int|
                    0 <= j < node.parents@.take(i as int).len() && (#[trigger] node.parents@.take(
                        i as int,
                    )[j]).1 == k;
                assert(node.parents@.take(i + 1)[j].1 == k);
            }
        }
        match cache.remove(&from) {
            Some(source) => {
                let mut source = source;
                let kept = edges_without::<Game>(&source.children, key);
                source.children = kept;
                proof {
                    without_keeps(g[from].children, key);
                    without_keeps(without(g[from].children, key), key);
                }
                cache.insert(from, source);
                assert(graph_of(cache@).dom() =~= g.dom().remove(key));
            },
            None => {
                assert(graph_of(cache@).dom() =~= g.dom().remove(key));
            },
        }
        i += 1;
    }
    proof {
        assert(node.parents@.take(i as int) =~= node.parents@);
    }

    // Remove this position as parent from all children.
    let mut i: usize = 0;
    while i < node.children.len()
        invariant
            i <= node.children.len(),
            graph_wf(g),
            g.contains_key(key),
            node@ == g[key],
            graph_of(cache@).dom() == g.dom().remove(key),
            forall|k: u64| #[trigger]
                graph_of(cache@).contains_key(k) ==> graph_of(cache@)[k] == (NodeView {
                    children: if points_to(node.parents@, k) {
                        without(g[k].children, key)
                    } else {
                        g[k].children
                    },
                    parents: if points_to(node.children@.take(i as int), k) {
                        without(g[k].parents, key)
                    } else {
                        g[k].parents
                    },
                    ..g[k]
                }),
        decreases node.children.len() - i,
    {
        let to = node.children[i].1;
        assert(node.children@.take(i + 1)[i as int] == node.children@[i as int]);
        assert forall|k: u64| points_to(node.children@.take(i + 1), k) <==> points_to(
            node.children@.take(i as int),
            k,
        ) || k == to by {
            if points_to(node.children@.take(i + 1), k) {
                let j = choose|j: int|
                    0 <= j < node.children@.take(i + 1).len() && (#[trigger] node.children@.take(i + 1)[j]).1
                        == k;
                if j < i {
                    assert(node.children@.take(i as int)[j].1 == k);
                }
            }
            if points_to(node.children@.take(i as int), k) {
                let j = choose|j: int|
                    0 <= j < node.children@.take(i as int).len() && (#[trigger] node.children@.take(
                        i as int,
                    )[j]).1 == k;
                assert(node.children@.take(i + 1)[j].1 == k);
            }
        }
        match cache.remove(&to) {
            Some(target) => {
                let mut target = target;
                let kept = edges_without::<Game>(&target.parents, key);
                target.parents = kept;
                proof {
                    without_keeps(g[to].parents, key);
                    without_keeps(without(g[to].parents, key), key);
                }
                cache.insert(to, target);
                assert(graph_of(cache@).dom() =~= g.dom().remove(key));
            },
            None => {
                assert(graph_of(cache@).dom() =~= g.dom().remove(key));
            },
        }
        i += 1;
    }
    proof {
        assert(node.children@.take(i as int) =~= node.children@);
        let after = graph_of(cache@);
        assert forall|k: u64|
            after.contains_key(k) implies #[trigger] after[k] == excised(g, key)[k] by {
            without_keeps(g[k].children, key);
            without_keeps(g[k].parents, key);
            if !points_to(node.parents@, k) {
                if points_to(g[k].children, key) {
                    let j = choose|j: int|
                        0 <= j < g[k].children.len() && (#[trigger] g[k].children[j]).1 == key;
                    let m = g[k].children[j].0;
                    assert(g[k].children.contains((m, key)));
                    assert(has_child(g, k, m, key));
                    assert(has_parent(g, key, m, k));
                    let l = choose|l: int|
                        0 <= l < g[key].parents.len() && g[key].parents[l] == (m, k);
                    assert(node.parents@[l].1 == k);
                    assert(false);
                }
            }
            if !points_to(node.children@, k) {
                if points_to(g[k].parents, key) {
                    let j = choose|j: int|
                        0 <= j < g[k].parents.len() && (#[trigger] g[k].parents[j]).1 == key;
                    let m = g[k].parents[j].0;
                    assert(g[k].parents.contains((m, key)));
                    assert(has_parent(g, k, m, key));
                    assert(has_child(g, key, m, k));
                    let l = choose|l: int|
                        0 <= l < g[key].children.len() && g[key].children[l] == (m, k);
                    assert(node.children@[l].1 == k);
                    assert(false);
                }
            }
        }
        assert(after =~= excised(g, key));
    }
    Some(node)
}

/// The edges that the record of `key` holds are known at their other ends.
pub open spec fn mutual_at<M>(g: crate::graph::Graph<M>, key: u64) -> bool {
    &&& forall|i: int|
        0 <= i < g[key].children.len() ==> has_parent(
            g,
            (#[trigger] g[key].children[i]).1,
            g[key].children[i].0,
            key,
        )
    &&& forall|i: int|
        0 <= i < g[key].parents.len() ==> has_child(g, (#[trigger] g[key].parents[i]).1, g[key].parents[i].0, key)
}

/// Checks the edges that the record `node` of `key` holds.
fn audit_record<Game: GameState>(cache: &Cache<Game>, key: u64, node: &Node<Game>) -> (sound: bool)
    requires
        graph_of(cache@).contains_key(key),
        node@ == graph_of(cache@)[key],
    ensures
        sound == mutual_at(graph_of(cache@), key),
{
    let ghost g = graph_of(cache@);
    let mut i: usize = 0;
    while i < node.children.len()
        invariant
            i <= node.children.len(),
            g == graph_of(cache@),
            g.contains_key(key),
            node@ == g[key],
            forall|t: int|
                0 <= t < i ==> has_parent(g, (#[trigger] g[key].children[t]).1, g[key].children[t].0, key),
        decreases node.children.len() - i,
    {
        let held = match cache.get(&node.children[i].1) {
            Some(child) => holds_edge::<Game>(&child.parents, &node.children[i].0, key),
            None => false,
        };
        if !held {
            assert(!has_parent(g, g[key].children[i as int].1, g[key].children[i as int].0, key));
            return false;
        }
        i += 1;
    }
    let mut j: usize = 0;
    while j < node.parents.len()
        invariant
            j <= node.parents.len(),
            g == graph_of(cache@),
            g.contains_key(key),
            node@ == g[key],
            forall|t: int|
                0 <= t < g[key].children.len() ==> has_parent(
                    g,
                    (#[trigger] g[key].children[t]).1,
                    g[key].children[t].0,
                    key,
                ),
            forall|t: int|
                0 <= t < j ==> has_child(g, (#[trigger] g[key].parents[t]).1, g[key].parents[t].0, key),
        decreases node.parents.len() - j,
    {
        let held = match cache.get(&node.parents[j].1) {
            Some(parent) => holds_edge::<Game>(&parent.children, &node.parents[j].0, key),
            None => false,
        };
        if !held {
            assert(!has_child(g, g[key].parents[j as int].1, g[key].parents[j as int].0, key));
            return false;
        }
        j += 1;
    }
    true
}

/// Checks that the laws of the store are obeyed: a known parent and a known
/// child are mutual, and whatever a record knows as its child or parent has
/// a record itself.
pub fn audit<Game: GameState>(cache: &Cache<Game>) -> (sound: bool)
    ensures
        sound == crate::graph::mutual(graph_of(cache@)),
{
    let ghost g = graph_of(cache@);
    let keys = cache.keys();
    let ghost listed = keys.remaining().unref();
    for key in it: keys
        invariant
            g == graph_of(cache@),
            listed.to_set() == g.dom(),
            it.seq().unref() == listed,
            forall|t: int| 0 <= t < it.index() ==> mutual_at(g, #[trigger] listed[t]),
    {
        assert(listed[it.index() as int] == *key);
        assert(listed.to_set().contains(*key));
        let sound = match cache.get(key) {
            Some(node) => audit_record(cache, *key, node),
            None => false,
        };
        if !sound {
            proof {
                broken_at(g, *key);
            }
            return false;
        }
    }
    proof {
        assert forall|a: u64, m: Game::Move, b: u64|
            #![trigger has_child(g, a, m, b)]
            #![trigger has_parent(g, b, m, a)]
            has_child(g, a, m, b) <==> has_parent(g, b, m, a) by {
            if has_child(g, a, m, b) {
                assert(listed.to_set().contains(a));
                let t = choose|t: int| 0 <= t < listed.len() && listed[t] == a;
                assert(mutual_at(g, listed[t]));
                let i = choose|i: int| 0 <= i < g[a].children.len() && g[a].children[i] == (m, b);
                assert(has_parent(g, g[a].children[i].1, g[a].children[i].0, a));
            }
            if has_parent(g, b, m, a) {
                assert(listed.to_set().contains(b));
                let t = choose|t: int| 0 <= t < listed.len() && listed[t] == b;
                assert(mutual_at(g, listed[t]));
                let i = choose|i: int| 0 <= i < g[b].parents.len() && g[b].parents[i] == (m, a);
                assert(has_child(g, g[b].parents[i].1, g[b].parents[i].0, b));
            }
        }
    }
    true
}

/// A record with an edge that is not known at its other end breaks mutuality.
proof fn broken_at<M>(g: crate::graph::Graph<M>, key: u64)
    requires
        g.contains_key(key),
        !mutual_at(g, key),
    ensures
        !crate::graph::mutual(g),
{
    if exists|i: int|
        0 <= i < g[key].children.len() && !has_parent(
            g,
            (#[trigger] g[key].children[i]).1,
            g[key].children[i].0,
            key,
        ) {
        let i = choose|i: int|
            0 <= i < g[key].children.len() && !has_parent(
                g,
                (#[trigger] g[key].children[i]).1,
                g[key].children[i].0,
                key,
            );
        assert(g[key].children.contains(g[key].children[i]));
        assert(has_child(g, key, g[key].children[i].0, g[key].children[i].1));
    } else {
        let i = choose|i: int|
            0 <= i < g[key].parents.len() && !has_child(
                g,
                (#[trigger] g[key].parents[i]).1,
                g[key].parents[i].0,
                key,
            );
        assert(g[key].parents.contains(g[key].parents[i]));
        assert(has_parent(g, key, g[key].parents[i].0, g[key].parents[i].1));
    }
}

} // verus!
