//! Deleting what the game has left behind: a record, and the records that
//! hang on it alone.

use crate::game::GameState;
use crate::graph::{
    bystanders, cascaded, child_by, child_by_is, excised_wf, graph_wf, node_wf, orphan, pruned,
    pruning_bystanders, removed_sparing, removed_sparing_wf, removed_tree,
};
use crate::node::{find_child, graph_of, Cache};
use crate::store::excise;
use vstd::prelude::*;

verus! {

broadcast use vstd::std_specs::hash::group_hash_axioms;

/// Whether `key` is the position to spare.
fn is_spared(spared: Option<u64>, key: u64) -> (same: bool)
    ensures
        same == (spared == Some(key)),
{
    match spared {
        Some(kept) => kept == key,
        None => false,
    }
}

/// Deletes the record of `key`, detaches it from its parents and children,
/// and does the same to every child that this leaves without a parent; but
/// the record of the position `spared`, if one is named, is deleted nowhere
/// on the way.
pub fn remove_tree_sparing<Game: GameState>(cache: &mut Cache<Game>, key: u64, spared: Option<u64>)
    requires
        graph_wf(graph_of(old(cache)@)),
    ensures
        graph_of(final(cache)@) == removed_sparing(graph_of(old(cache)@), key, spared),
    decreases graph_of(old(cache)@).dom().len(),
{
    let ghost g = graph_of(cache@);
    let ghost bound = (g.dom().len() - 1) as nat;
    proof {
        excised_wf(g, key);
    }
    // Remove this record, and itself from all parents and children.
    let node = match excise(cache, key) {
        Some(node) => node,
        None => return ,
    };
    proof {
        assert(node.children@.skip(0) =~= node.children@);
    }

    // Iterate into orphans.
    let mut i: usize = 0;
    while i < node.children.len()
        invariant
            i <= node.children.len(),
            g == graph_of(old(cache)@),
            g.dom().finite(),
            g.dom().len() == bound + 1,
            graph_wf(graph_of(cache@)),
            graph_of(cache@).dom().len() <= bound,
            cascaded(graph_of(cache@), node.children@.skip(i as int), spared, bound) == removed_sparing(
                g,
                key,
                spared,
            ),
        decreases node.children.len() - i,
    {
        let ghost now = graph_of(cache@);
        let child = node.children[i].1;
        proof {
            assert(node.children@.skip(i as int).drop_first() =~= node.children@.skip(i + 1));
            assert(node.children@.skip(i as int)[0] == node.children@[i as int]);
        }
        let is_orphan = match cache.get(&child) {
            Some(record) => record.parents.len() == 0,
            None => false,
        };
        assert(is_orphan == orphan(now, child));
        if is_orphan && !is_spared(spared, child) {
            proof {
                removed_sparing_wf(now, child, spared);
                vstd::set_lib::lemma_len_subset(removed_sparing(now, child, spared).dom(), now.dom());
            }
            remove_tree_sparing(cache, child, spared);
        }
        i += 1;
    }
}

/// Deletes the record of `key`, detaches it from its parents and children,
/// and does the same to every child that this leaves without a parent.
pub fn remove_tree<Game: GameState>(cache: &mut Cache<Game>, key: u64)
    requires
        graph_wf(graph_of(old(cache)@)),
    ensures
        graph_of(final(cache)@) == removed_tree(graph_of(old(cache)@), key),
{
    remove_tree_sparing(cache, key, None)
}

/// Deletes what the move `game_move`, played in the position `key`, has made
/// impossible: the record of `key`, and each child that is left without a
/// parent, with all that hangs on it alone. The position that the move leads
/// to is kept, whether it has a parent left or not. Returns the other
/// children that were left because they still had a parent.
pub fn prune<Game: GameState>(cache: &mut Cache<Game>, key: u64, game_move: &Game::Move) -> (left: Vec<
    u64,
>)
    requires
        graph_wf(graph_of(old(cache)@)),
    ensures
        graph_of(final(cache)@) == pruned(graph_of(old(cache)@), key, *game_move),
        left@ == pruning_bystanders(graph_of(old(cache)@), key, *game_move),
{
    let ghost g = graph_of(cache@);
    let ghost bound = (g.dom().len() - 1) as nat;
    let mut left: Vec<u64> = Vec::new();
    proof {
        excised_wf(g, key);
    }
    // Remove the record, invalidated by this move, and itself from all parents and children.
    let node = match excise(cache, key) {
        Some(node) => node,
        None => return left,
    };
    // The position that the game is in now.
    let spared = find_child::<Game>(&node.children, game_move);
    proof {
        assert(node_wf(g[key]));
        if let Some(kept) = spared {
            child_by_is(node.children@, *game_move, kept);
        }
        assert(spared == child_by(g[key].children, *game_move));
        assert(node.children@.skip(0) =~= node.children@);
        assert(left@ + bystanders(graph_of(cache@), node.children@, spared, bound) =~= bystanders(
            graph_of(cache@),
            node.children@,
            spared,
            bound,
        ));
    }

    // Remove any unrealized children who are now orphans.
    let mut i: usize = 0;
    while i < node.children.len()
        invariant
            i <= node.children.len(),
            g.dom().finite(),
            g.dom().len() == bound + 1,
            g.contains_key(key),
            spared == child_by(g[key].children, *game_move),
            graph_wf(graph_of(cache@)),
            graph_of(cache@).dom().len() <= bound,
            cascaded(graph_of(cache@), node.children@.skip(i as int), spared, bound) == pruned(
                g,
                key,
                *game_move,
            ),
            left@ + bystanders(graph_of(cache@), node.children@.skip(i as int), spared, bound)
                == pruning_bystanders(g, key, *game_move),
        decreases node.children.len() - i,
    {
        let ghost now = graph_of(cache@);
        let ghost rest = node.children@.skip(i as int);
        let child = node.children[i].1;
        proof {
            assert(rest.drop_first() =~= node.children@.skip(i + 1));
            assert(rest[0] == node.children@[i as int]);
            assert(rest.take(1).drop_first() =~= Seq::<(Game::Move, u64)>::empty());
            assert(rest.take(1)[0] == rest[0]);
        }
        let ghost left_before = left@;
        if !is_spared(spared, child) {
            match cache.get(&child) {
                Some(record) => {
                    if record.parents.len() == 0 {
                        // Orphan
                        proof {
                            removed_sparing_wf(now, child, spared);
                            vstd::set_lib::lemma_len_subset(
                                removed_sparing(now, child, spared).dom(),
                                now.dom(),
                            );
                        }
                        remove_tree_sparing(cache, child, spared);
                    } else {
                        left.push(child);
                    }
                },
                None => (),
            }
        }
        proof {
            let step = cascaded(now, rest.take(1), spared, bound);
            assert(cascaded(graph_of(cache@), rest.take(1).drop_first(), spared, bound) == graph_of(
                cache@,
            ));
            assert(step == graph_of(cache@));
            let tail = bystanders(step, rest.drop_first(), spared, bound);
            assert(left@ + tail =~= left_before + bystanders(now, rest, spared, bound));
        }
        i += 1;
    }
    proof {
        assert(left@ + Seq::<u64>::empty() =~= left@);
    }
    left
}

} // verus!
