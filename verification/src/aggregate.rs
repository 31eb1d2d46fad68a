//! Statistics of a whole subgraph, computed on demand: the positions that can
//! be reached from a record, each counted once, and the sums of their local
//! counters, wins and losses changing places with every ply of depth.

use crate::game::GameState;
use crate::graph::{graph_wf, no_dangling_edges, points_to, Edge, Graph};
use crate::node::{graph_of, Cache, Node};
use crate::sums::{
    sum_along, sum_along_is_sum_over, sum_over, sum_over_agrees, sum_over_le, sum_over_part,
};
use std::collections::HashSet;
use vstd::prelude::*;

verus! {

broadcast use vstd::std_specs::hash::group_hash_axioms;

/// The record of `a` holds an edge to its successor `b`.
pub open spec fn edge<M>(g: Graph<M>, a: u64, b: u64) -> bool {
    g.contains_key(a) && points_to(g[a].children, b)
}

/// Each position of `path` is a known successor of the one before it.
pub open spec fn walk<M>(g: Graph<M>, path: Seq<u64>) -> bool {
    forall|i: int| 0 <= i < path.len() - 1 ==> edge(g, #[trigger] path[i], path[i + 1])
}

/// `key` is reached from the edges `children` of a record: by one of them,
/// or by one of them and then along further edges of the store.
pub open spec fn descends<M>(g: Graph<M>, children: Seq<Edge<M>>, key: u64) -> bool {
    exists|path: Seq<u64>|
        path.len() >= 1 && points_to(children, path[0]) && path.last() == key && #[trigger] walk(g, path)
}

/// The descendants of a record with the edges `children`: every position
/// below it, the record's own position not counted for being the start.
pub open spec fn descendants<M>(g: Graph<M>, children: Seq<Edge<M>>) -> Set<u64> {
    Set::new(|key: u64| descends(g, children, key))
}

/// Every edge of `children` ends in a position that has a record.
pub open spec fn rooted<M>(g: Graph<M>, children: Seq<Edge<M>>) -> bool {
    forall|i: int| 0 <= i < children.len() ==> g.contains_key((#[trigger] children[i]).1)
}

/// A successor named by `children` is a descendant.
pub proof fn descends_first<M>(g: Graph<M>, children: Seq<Edge<M>>, key: u64)
    requires
        points_to(children, key),
    ensures
        descends(g, children, key),
{
    let path = seq![key];
    assert(path[0] == key);
    assert(walk(g, path));
}

/// A successor of a descendant is a descendant.
pub proof fn descends_next<M>(g: Graph<M>, children: Seq<Edge<M>>, via: u64, key: u64)
    requires
        descends(g, children, via),
        edge(g, via, key),
    ensures
        descends(g, children, key),
{
    let path = choose|path: Seq<u64>|
        path.len() >= 1 && points_to(children, path[0]) && path.last() == via && #[trigger] walk(g, path);
    let longer = path.push(key);
    assert forall|i: int|
        0 <= i < longer.len() - 1 implies edge(g, #[trigger] longer[i], longer[i + 1]) by {
        if i < path.len() - 1 {
            assert(edge(g, path[i], path[i + 1]));
        }
    }
    assert(longer[0] == path[0]);
    assert(walk(g, longer));
}

/// A set that holds the successors named by `children`, and with each
/// position its successors, holds every descendant.
pub proof fn closed_set_holds_descendants<M>(
    g: Graph<M>,
    children: Seq<Edge<M>>,
    held: Set<u64>,
    key: u64,
)
    requires
        forall|c: u64| points_to(children, c) ==> held.contains(c),
        forall|a: u64, b: u64| held.contains(a) && #[trigger] edge(g, a, b) ==> held.contains(b),
        descends(g, children, key),
    ensures
        held.contains(key),
{
    let path = choose|path: Seq<u64>|
        path.len() >= 1 && points_to(children, path[0]) && path.last() == key && #[trigger] walk(g, path);
    walk_stays_in(g, held, path, path.len() - 1);
}

proof fn walk_stays_in<M>(g: Graph<M>, held: Set<u64>, path: Seq<u64>, upto: int)
    requires
        0 <= upto < path.len(),
        held.contains(path[0]),
        walk(g, path),
        forall|a: u64, b: u64| held.contains(a) && #[trigger] edge(g, a, b) ==> held.contains(b),
    ensures
        held.contains(path[upto]),
    decreases upto,
{
    if upto > 0 {
        walk_stays_in(g, held, path, upto - 1);
        assert(edge(g, path[upto - 1], path[upto - 1 + 1]));
    }
}

/// One of the three statistics that are summed over a subgraph.
#[derive(Clone, Copy, Debug, PartialEq, Eq, Structural)]
pub enum Counter {
    Attempts,
    Wins,
    Losses,
}

/// `key` is reached from the edges `children` of a record by an odd number of
/// plies, if `odd` is set, or by an even number, if it is not.
pub open spec fn descends_at<M>(g: Graph<M>, children: Seq<Edge<M>>, key: u64, odd: bool) -> bool {
    exists|path: Seq<u64>|
        path.len() >= 1 && points_to(children, path[0]) && path.last() == key && (path.len() % 2 == 1)
            == odd && #[trigger] walk(g, path)
}

/// The descendants that are reached by an odd number of plies: the positions
/// in which the other side is to move, the sides moving in turn.
pub open spec fn reached_odd<M>(g: Graph<M>, children: Seq<Edge<M>>) -> Set<u64> {
    Set::new(|key: u64| descends_at(g, children, key, true))
}

/// What the record of `key` adds to a statistic of a record with the edges
/// `children`. The attempts count as they are. The perspective alternates
/// with the depth: where `key` is reached by an odd number of plies, the
/// other side is to move in it, so that its losses are wins and its wins
/// are losses; else its wins are wins and its losses are losses.
pub open spec fn reading<M>(g: Graph<M>, children: Seq<Edge<M>>, counter: Counter, key: u64) -> nat {
    match counter {
        Counter::Attempts => g[key].local_attempts as nat,
        Counter::Wins => if descends_at(g, children, key, true) {
            g[key].local_losses as nat
        } else {
            g[key].local_wins as nat
        },
        Counter::Losses => if descends_at(g, children, key, true) {
            g[key].local_wins as nat
        } else {
            g[key].local_losses as nat
        },
    }
}

/// A statistic of the subgraph below a record with the edges `children`: the
/// sum of the readings over its descendants, each descendant counted once
/// however many paths lead to it.
pub open spec fn total_below<M>(g: Graph<M>, counter: Counter, children: Seq<Edge<M>>) -> nat {
    sum_over(descendants(g, children), |key: u64| reading(g, children, counter, key))
}

/// The keys of a tally.
pub open spec fn tally_keys(tally: Seq<(u64, u64)>) -> Seq<u64> {
    tally.map_values(|entry: (u64, u64)| entry.0)
}

/// `tally` lists each descendant once, with its reading.
pub open spec fn is_tally<M>(
    tally: Seq<(u64, u64)>,
    g: Graph<M>,
    counter: Counter,
    children: Seq<Edge<M>>,
) -> bool {
    &&& tally_keys(tally).no_duplicates()
    &&& tally_keys(tally).to_set() == descendants(g, children)
    &&& forall|i: int|
        0 <= i < tally.len() ==> (#[trigger] tally[i]).1 == reading(g, children, counter, tally[i].0)
}

/// A successor named by `children` is reached by one ply.
pub proof fn descends_at_first<M>(g: Graph<M>, children: Seq<Edge<M>>, key: u64)
    requires
        points_to(children, key),
    ensures
        descends_at(g, children, key, true),
{
    let path = seq![key];
    assert(path[0] == key);
    assert(walk(g, path));
}

/// A successor of a descendant is reached by one ply more.
pub proof fn descends_at_next<M>(g: Graph<M>, children: Seq<Edge<M>>, via: u64, key: u64, odd: bool)
    requires
        descends_at(g, children, via, odd),
        edge(g, via, key),
    ensures
        descends_at(g, children, key, !odd),
{
    let path = choose|path: Seq<u64>|
        path.len() >= 1 && points_to(children, path[0]) && path.last() == via && (path.len() % 2 == 1)
            == odd && #[trigger] walk(g, path);
    let longer = path.push(key);
    assert forall|i: int| 0 <= i < longer.len() - 1 implies edge(g, #[trigger] longer[i], longer[i + 1]) by {
        if i < path.len() - 1 {
            assert(edge(g, path[i], path[i + 1]));
        }
    }
    assert(longer[0] == path[0]);
    assert(walk(g, longer));
}

/// A descendant is reached by an odd or by an even number of plies, and what
/// is reached by either is a descendant.
pub proof fn descends_at_some_depth<M>(g: Graph<M>, children: Seq<Edge<M>>, key: u64)
    ensures
        descends(g, children, key) <==> descends_at(g, children, key, true) || descends_at(
            g,
            children,
            key,
            false,
        ),
{
    if descends(g, children, key) {
        let path = choose|path: Seq<u64>|
            path.len() >= 1 && points_to(children, path[0]) && path.last() == key && #[trigger] walk(g, path);
        assert(descends_at(g, children, key, path.len() % 2 == 1));
    }
    if descends_at(g, children, key, true) {
        let path = choose|path: Seq<u64>|
            path.len() >= 1 && points_to(children, path[0]) && path.last() == key && (path.len() % 2 == 1)
                == true && #[trigger] walk(g, path);
        assert(descends(g, children, key));
    }
    if descends_at(g, children, key, false) {
        let path = choose|path: Seq<u64>|
            path.len() >= 1 && points_to(children, path[0]) && path.last() == key && (path.len() % 2 == 1)
                == false && #[trigger] walk(g, path);
        assert(descends(g, children, key));
    }
}

/// Two sets of which the first holds the successors named by `children` and
/// each holds the successors of the positions in the other hold what is
/// reached by an odd and by an even number of plies.
pub proof fn closed_sets_hold_by_depth<M>(
    g: Graph<M>,
    children: Seq<Edge<M>>,
    odds: Set<u64>,
    evens: Set<u64>,
    key: u64,
    odd: bool,
)
    requires
        forall|c: u64| points_to(children, c) ==> odds.contains(c),
        forall|a: u64, b: u64| odds.contains(a) && #[trigger] edge(g, a, b) ==> evens.contains(b),
        forall|a: u64, b: u64| evens.contains(a) && #[trigger] edge(g, a, b) ==> odds.contains(b),
        descends_at(g, children, key, odd),
    ensures
        odd ==> odds.contains(key),
        !odd ==> evens.contains(key),
{
    let path = choose|path: Seq<u64>|
        path.len() >= 1 && points_to(children, path[0]) && path.last() == key && (path.len() % 2 == 1)
            == odd && #[trigger] walk(g, path);
    walk_alternates(g, odds, evens, path, path.len() - 1);
}

proof fn walk_alternates<M>(g: Graph<M>, odds: Set<u64>, evens: Set<u64>, path: Seq<u64>, upto: int)
    requires
        0 <= upto < path.len(),
        odds.contains(path[0]),
        walk(g, path),
        forall|a: u64, b: u64| odds.contains(a) && #[trigger] edge(g, a, b) ==> evens.contains(b),
        forall|a: u64, b: u64| evens.contains(a) && #[trigger] edge(g, a, b) ==> odds.contains(b),
    ensures
        upto % 2 == 0 ==> odds.contains(path[upto]),
        upto % 2 == 1 ==> evens.contains(path[upto]),
    decreases upto,
{
    if upto > 0 {
        walk_alternates(g, odds, evens, path, upto - 1);
        assert(edge(g, path[upto - 1], path[upto - 1 + 1]));
    }
}

/// Adds the positions that `edges` end in to those found so far, each once.
fn absorb<Game: GameState>(
    edges: &Vec<(Game::Move, u64)>,
    seen: &mut HashSet<u64>,
    found: &mut Vec<u64>,
)
    requires
        old(found)@.no_duplicates(),
        old(seen)@ == old(found)@.to_set(),
    ensures
        final(found)@.no_duplicates(),
        final(seen)@ == final(found)@.to_set(),
        final(found)@.len() >= old(found)@.len(),
        forall|i: int| 0 <= i < old(found)@.len() ==> final(found)@[i] == old(found)@[i],
        forall|i: int|
            old(found)@.len() <= i < final(found)@.len() ==> points_to(edges@, #[trigger] final(found)@[i]),
        forall|key: u64| points_to(edges@, key) ==> final(seen)@.contains(key),
{
    let mut j: usize = 0;
    while j < edges.len()
        invariant
            j <= edges.len(),
            found@.no_duplicates(),
            seen@ == found@.to_set(),
            found@.len() >= old(found)@.len(),
            forall|i: int| 0 <= i < old(found)@.len() ==> found@[i] == old(found)@[i],
            forall|i: int|
                old(found)@.len() <= i < found@.len() ==> points_to(edges@, #[trigger] found@[i]),
            forall|t: int| 0 <= t < j ==> seen@.contains((#[trigger] edges@[t]).1),
        decreases edges.len() - j,
    {
        let key = edges[j].1;
        if !seen.contains(&key) {
            let ghost before = found@;
            seen.insert(key);
            found.push(key);
            proof {
                assert(found@[found@.len() - 1] == key);
                assert(found@.to_set() =~= before.to_set().insert(key)) by {
                    assert forall|k: u64|
                        found@.to_set().contains(k) <==> before.to_set().insert(key).contains(
                        k,
                    ) by {
                        if found@.to_set().contains(k) {
                            let i = choose|i: int| 0 <= i < found@.len() && found@[i] == k;
                            if i < before.len() {
                                assert(before[i] == k);
                            }
                        }
                        if before.to_set().contains(k) {
                            let i = choose|i: int| 0 <= i < before.len() && before[i] == k;
                            assert(found@[i] == k);
                        }
                    }
                }
                assert forall|a: int, b: int|
                    0 <= a < found@.len() && 0 <= b < found@.len() && a != b implies found@[a]
                    != found@[b] by {
                    if a == before.len() {
                        assert(before[b] == found@[b]);
                        assert(before.to_set().contains(before[b]));
                    } else if b == before.len() {
                        assert(before[a] == found@[a]);
                        assert(before.to_set().contains(before[a]));
                    } else {
                        assert(before[a] != before[b]);
                    }
                }
                assert(points_to(edges@, key)) by {
                    assert(edges@[j as int].1 == key);
                }
            }
        }
        j += 1;
    }
    proof {
        assert forall|key: u64| points_to(edges@, key) implies seen@.contains(key) by {
            let t = choose|t: int| 0 <= t < edges@.len() && (#[trigger] edges@[t]).1 == key;
            assert(seen@.contains(edges@[t].1));
        }
    }
}

impl<Game: GameState> Node<Game> {
    /// The descendants of this record in `cache`, each once, nearest first.
    pub fn descendant_keys(&self, cache: &Cache<Game>) -> (found: Vec<u64>)
        requires
            graph_wf(graph_of(cache@)),
            rooted(graph_of(cache@), self@.children),
        ensures
            found@.no_duplicates(),
            found@.to_set() == descendants(graph_of(cache@), self@.children),
    {
        let ghost g = graph_of(cache@);
        let ghost children = self@.children;
        let mut seen: HashSet<u64> = HashSet::new();
        let mut found: Vec<u64> = Vec::new();
        assert(found@.to_set() =~= Set::<u64>::empty());
        absorb::<Game>(&self.children, &mut seen, &mut found);
        proof {
            assert forall|i: int|
                0 <= i < found@.len() implies descends(g, children, #[trigger] found@[i])
                && g.contains_key(found@[i]) by {
                descends_first(g, children, found@[i]);
                let t = choose|t: int|
                    0 <= t < children.len() && (#[trigger] children[t]).1 == found@[i];
                assert(g.contains_key(children[t].1));
            }
        }
        let mut i: usize = 0;
        while i < found.len()
            invariant
                i <= found.len(),
                g == graph_of(cache@),
                children == self@.children,
                graph_wf(g),
                found@.no_duplicates(),
                seen@ == found@.to_set(),
                forall|t: int| 0 <= t < found@.len() ==> descends(g, children, #[trigger] found@[t])
                    && g.contains_key(found@[t]),
                forall|key: u64| points_to(children, key) ==> seen@.contains(key),
                forall|t: int, key: u64|
                    0 <= t < i && #[trigger] edge(g, found@[t], key) ==> seen@.contains(key),
            decreases g.dom().len() - i,
        {
            proof {
                // No more keys can be found than the store holds.
                found@.unique_seq_to_set();
                assert(found@.to_set().subset_of(g.dom())) by {
                    assert forall|k: u64|
                        found@.to_set().contains(k) implies g.dom().contains(k) by {
                        let t = choose|t: int| 0 <= t < found@.len() && found@[t] == k;
                        assert(g.contains_key(found@[t]));
                    }
                }
                vstd::set_lib::lemma_len_subset(found@.to_set(), g.dom());
            }
            let key = found[i];
            let ghost before = found@;
            let ghost seen_before = seen@;
            match cache.get(&key) {
                Some(record) => {
                    assert(record@ == g[key]);
                    absorb::<Game>(&record.children, &mut seen, &mut found);
                    proof {
                        assert forall|t: int| 0 <= t < found@.len() implies descends(
                            g,
                            children,
                            #[trigger] found@[t],
                        ) && g.contains_key(found@[t]) by {
                            if t < before.len() {
                                assert(found@[t] == before[t]);
                            } else {
                                let c = found@[t];
                                assert(points_to(g[key].children, c));
                                assert(edge(g, key, c));
                                assert(descends(g, children, before[i as int]));
                                descends_next(g, children, key, c);
                                let s = choose|s: int|
                                    0 <= s < g[key].children.len() && (#[trigger] g[key].children[s]).1 == c;
                                assert(g[key].children.contains(g[key].children[s]));
                                no_dangling_edges(g, key, g[key].children[s]);
                            }
                        }
                        assert forall|k: u64| seen_before.contains(k) implies seen@.contains(k) by {
                            let t = choose|t: int| 0 <= t < before.len() && before[t] == k;
                            assert(found@[t] == k);
                        }
                        assert forall|t: int, k: u64|
                            0 <= t < i + 1 && #[trigger] edge(g, found@[t], k) implies seen@.contains(
                            k,
                        ) by {
                            assert(found@[t] == before[t]);
                            if t < i {
                                assert(edge(g, before[t], k));
                                assert(seen_before.contains(k));
                            }
                        }
                    }
                },
                None => {
                    assert(g.contains_key(found@[i as int]));
                    assert(false);
                },
            }
            i += 1;
        }
        proof {
            assert(found@.to_set() =~= descendants(g, children)) by {
                assert forall|k: u64|
                    found@.to_set().contains(k) <==> descendants(g, children).contains(k) by {
                    if found@.to_set().contains(k) {
                        let t = choose|t: int| 0 <= t < found@.len() && found@[t] == k;
                        assert(descends(g, children, found@[t]));
                    }
                    if descends(g, children, k) {
                        assert forall|a: u64, b: u64|
                            seen@.contains(a) && #[trigger] edge(g, a, b) implies seen@.contains(
                            b,
                        ) by {
                            let t = choose|t: int| 0 <= t < found@.len() && found@[t] == a;
                            assert(edge(g, found@[t], b));
                        }
                        closed_set_holds_descendants(g, children, seen@, k);
                    }
                }
            }
        }
        found
    }
}

/// Every descendant has a record.
pub proof fn descendants_have_records<M>(g: Graph<M>, children: Seq<Edge<M>>, key: u64)
    requires
        graph_wf(g),
        rooted(g, children),
        descends(g, children, key),
    ensures
        g.contains_key(key),
{
    let path = choose|path: Seq<u64>|
        path.len() >= 1 && points_to(children, path[0]) && path.last() == key && #[trigger] walk(g, path);
    if path.len() == 1 {
        let t = choose|t: int| 0 <= t < children.len() && (#[trigger] children[t]).1 == path[0];
        assert(g.contains_key(children[t].1));
    } else {
        let via = path[path.len() - 2];
        assert(edge(g, via, path[path.len() - 2 + 1]));
        let s = choose|s: int|
            0 <= s < g[via].children.len() && (#[trigger] g[via].children[s]).1 == key;
        assert(g[via].children.contains(g[via].children[s]));
        no_dangling_edges(g, via, g[via].children[s]);
    }
}

/// The sum of the readings that a tally lists.
pub open spec fn tally_sum(tally: Seq<(u64, u64)>) -> nat
    decreases tally.len(),
{
    if tally.len() == 0 {
        0
    } else {
        tally_sum(tally.drop_last()) + tally.last().1 as nat
    }
}

/// A tally sums to the statistic of the subgraph.
pub proof fn tally_sums_to_total<M>(
    tally: Seq<(u64, u64)>,
    g: Graph<M>,
    counter: Counter,
    children: Seq<Edge<M>>,
)
    requires
        is_tally(tally, g, counter, children),
    ensures
        tally_sum(tally) == total_below(g, counter, children),
        tally_sum(tally) <= tally.len() * u64::MAX,
{
    let f = |key: u64| reading(g, children, counter, key);
    tally_sum_along(tally, f);
    sum_along_is_sum_over(tally_keys(tally), f);
}

proof fn tally_sum_along(tally: Seq<(u64, u64)>, f: spec_fn(u64) -> nat)
    requires
        forall|i: int| 0 <= i < tally.len() ==> (#[trigger] tally[i]).1 == f(tally[i].0),
    ensures
        tally_sum(tally) == sum_along(tally_keys(tally), f),
        tally_sum(tally) <= tally.len() * u64::MAX,
    decreases tally.len(),
{
    if tally.len() > 0 {
        tally_sum_along(tally.drop_last(), f);
        assert(tally_keys(tally).drop_last() =~= tally_keys(tally.drop_last()));
        assert(tally_keys(tally).last() == tally.last().0);
        assert(tally_sum(tally) <= tally.len() * u64::MAX) by (nonlinear_arith)
            requires
                tally_sum(tally) == tally_sum(tally.drop_last()) + tally.last().1 as nat,
                tally_sum(tally.drop_last()) <= (tally.len() - 1) * u64::MAX,
                tally.last().1 <= u64::MAX,
                tally.len() >= 1,
        ;
    } else {
        assert(tally_keys(tally) =~= Seq::<u64>::empty());
    }
}

/// Sums the readings of a tally.
pub fn sum_of_tally(tally: &Vec<(u64, u64)>) -> (sum: u128)
    ensures
        sum == tally_sum(tally@),
{
    let mut sum: u128 = 0;
    let mut i: usize = 0;
    while i < tally.len()
        invariant
            i <= tally.len(),
            sum == tally_sum(tally@.take(i as int)),
            sum <= i * u64::MAX,
        decreases tally.len() - i,
    {
        proof {
            assert(tally@.take(i + 1).drop_last() =~= tally@.take(i as int));
            assert(tally@.take(i + 1).last() == tally@[i as int]);
            assert((i + 1) * u64::MAX <= usize::MAX * u64::MAX) by (nonlinear_arith)
                requires
                    i + 1 <= usize::MAX,
            ;
            assert(usize::MAX * u64::MAX <= u64::MAX * u64::MAX) by (nonlinear_arith)
                requires
                    usize::MAX <= u64::MAX,
            ;
            assert(u64::MAX * u64::MAX < u128::MAX) by (nonlinear_arith);
            assert(sum + tally@[i as int].1 <= (i + 1) * u64::MAX) by (nonlinear_arith)
                requires
                    sum <= i * u64::MAX,
                    tally@[i as int].1 <= u64::MAX,
            ;
        }
        sum = sum + tally[i].1 as u128;
        i += 1;
    }
    proof {
        assert(tally@.take(i as int) =~= tally@);
    }
    sum
}

/// The marked position `entry` is in the set of its mark, has a record, and
/// is reached by a number of plies of the parity that the mark says.
pub open spec fn held_at<M>(
    g: Graph<M>,
    children: Seq<Edge<M>>,
    odds: Set<u64>,
    evens: Set<u64>,
    entry: (u64, bool),
) -> bool {
    &&& g.contains_key(entry.0)
    &&& descends_at(g, children, entry.0, entry.1)
    &&& if entry.1 {
        odds.contains(entry.0)
    } else {
        evens.contains(entry.0)
    }
}

/// Adds the positions that `edges` end in to the set `into`, and each that is
/// new to the positions that are still to be looked at, with the mark `odd`.
fn absorb_at<Game: GameState>(
    edges: &Vec<(Game::Move, u64)>,
    into: &mut HashSet<u64>,
    work: &mut Vec<(u64, bool)>,
    odd: bool,
)
    requires
        old(into)@.finite(),
    ensures
        final(into)@.finite(),
        forall|key: u64|
            final(into)@.contains(key) <==> old(into)@.contains(key) || points_to(edges@, key),
        final(work)@.len() - old(work)@.len() == final(into)@.len() - old(into)@.len(),
        final(work)@.len() >= old(work)@.len(),
        forall|i: int| 0 <= i < old(work)@.len() ==> final(work)@[i] == old(work)@[i],
        forall|i: int|
            old(work)@.len() <= i < final(work)@.len() ==> (#[trigger] final(work)@[i]).1 == odd && points_to(
                edges@,
                final(work)@[i].0,
            ),
        forall|key: u64|
            final(into)@.contains(key) && !old(into)@.contains(key) ==> final(work)@.contains((key, odd)),
{
    let mut j: usize = 0;
    while j < edges.len()
        invariant
            j <= edges.len(),
            into@.finite(),
            forall|key: u64|
                into@.contains(key) <==> old(into)@.contains(key) || points_to(edges@.take(j as int), key),
            work@.len() - old(work)@.len() == into@.len() - old(into)@.len(),
            work@.len() >= old(work)@.len(),
            forall|i: int| 0 <= i < old(work)@.len() ==> work@[i] == old(work)@[i],
            forall|i: int|
                old(work)@.len() <= i < work@.len() ==> (#[trigger] work@[i]).1 == odd && points_to(
                    edges@,
                    work@[i].0,
                ),
            forall|key: u64| into@.contains(key) && !old(into)@.contains(key) ==> work@.contains((key, odd)),
        decreases edges.len() - j,
    {
        let key = edges[j].1;
        let ghost before = work@;
        let ghost held = into@;
        proof {
            assert(edges@.take(j + 1)[j as int] == edges@[j as int]);
            assert forall|k: u64| points_to(edges@.take(j + 1), k) <==> points_to(edges@.take(j as int), k)
                || k == key by {
                if points_to(edges@.take(j + 1), k) {
                    let t = choose|t: int|
                        0 <= t < edges@.take(j + 1).len() && (#[trigger] edges@.take(j + 1)[t]).1 == k;
                    if t < j {
                        assert(edges@.take(j as int)[t].1 == k);
                    }
                }
                if points_to(edges@.take(j as int), k) {
                    let t = choose|t: int|
                        0 <= t < edges@.take(j as int).len() && (#[trigger] edges@.take(j as int)[t]).1 == k;
                    assert(edges@.take(j + 1)[t].1 == k);
                }
            }
            assert(points_to(edges@, key)) by {
                assert(edges@[j as int].1 == key);
            }
        }
        if !into.contains(&key) {
            into.insert(key);
            work.push((key, odd));
            proof {
                assert(work@[before.len() as int] == (key, odd));
                assert forall|k: u64| into@.contains(k) && !old(into)@.contains(k) implies work@.contains(
                    (k, odd),
                ) by {
                    if k != key {
                        assert(before.contains((k, odd)));
                        let t = choose|t: int| 0 <= t < before.len() && before[t] == (k, odd);
                        assert(work@[t] == (k, odd));
                    }
                }
            }
        }
        j += 1;
    }
    proof {
        assert(edges@.take(j as int) =~= edges@);
    }
}

impl<Game: GameState> Node<Game> {
    /// The descendants of this record in `cache` that are reached by an odd
    /// number of plies.
    pub fn odd_keys(&self, cache: &Cache<Game>) -> (odd: HashSet<u64>)
        requires
            graph_wf(graph_of(cache@)),
            rooted(graph_of(cache@), self@.children),
        ensures
            odd@ == reached_odd(graph_of(cache@), self@.children),
    {
        let ghost g = graph_of(cache@);
        let ghost children = self@.children;
        let mut seen_odd: HashSet<u64> = HashSet::new();
        let mut seen_even: HashSet<u64> = HashSet::new();
        let mut work: Vec<(u64, bool)> = Vec::new();
        absorb_at::<Game>(&self.children, &mut seen_odd, &mut work, true);
        proof {
            assert forall|t: int| 0 <= t < work@.len() implies held_at(
                g,
                children,
                seen_odd@,
                seen_even@,
                #[trigger] work@[t],
            ) by {
                descends_at_first(g, children, work@[t].0);
                let s = choose|s: int| 0 <= s < children.len() && (#[trigger] children[s]).1 == work@[t].0;
                assert(g.contains_key(children[s].1));
            }
        }
        let mut i: usize = 0;
        while i < work.len()
            invariant
                i <= work.len(),
                g == graph_of(cache@),
                children == self@.children,
                graph_wf(g),
                seen_odd@.finite(),
                seen_even@.finite(),
                work@.len() == seen_odd@.len() + seen_even@.len(),
                forall|t: int|
                    0 <= t < work@.len() ==> held_at(g, children, seen_odd@, seen_even@, #[trigger] work@[t]),
                forall|key: u64| seen_odd@.contains(key) ==> work@.contains((key, true)),
                forall|key: u64| seen_even@.contains(key) ==> work@.contains((key, false)),
                forall|key: u64| points_to(children, key) ==> seen_odd@.contains(key),
                forall|t: int, key: u64|
                    0 <= t < i && #[trigger] edge(g, work@[t].0, key) ==> if work@[t].1 {
                        seen_even@.contains(key)
                    } else {
                        seen_odd@.contains(key)
                    },
            decreases 2 * g.dom().len() - i,
        {
            proof {
                // No more positions can be marked than the store holds twice.
                assert(seen_odd@.subset_of(g.dom())) by {
                    assert forall|k: u64| seen_odd@.contains(k) implies g.dom().contains(k) by {
                        let t = choose|t: int| 0 <= t < work@.len() && work@[t] == (k, true);
                        assert(held_at(g, children, seen_odd@, seen_even@, work@[t]));
                    }
                }
                assert(seen_even@.subset_of(g.dom())) by {
                    assert forall|k: u64| seen_even@.contains(k) implies g.dom().contains(k) by {
                        let t = choose|t: int| 0 <= t < work@.len() && work@[t] == (k, false);
                        assert(held_at(g, children, seen_odd@, seen_even@, work@[t]));
                    }
                }
                vstd::set_lib::lemma_len_subset(seen_odd@, g.dom());
                vstd::set_lib::lemma_len_subset(seen_even@, g.dom());
            }
            let key = work[i].0;
            let at_odd = work[i].1;
            let ghost before = work@;
            let ghost odd_before = seen_odd@;
            let ghost even_before = seen_even@;
            assert(held_at(g, children, odd_before, even_before, before[i as int]));
            match cache.get(&key) {
                Some(record) => {
                    assert(record@ == g[key]);
                    if at_odd {
                        absorb_at::<Game>(&record.children, &mut seen_even, &mut work, false);
                    } else {
                        absorb_at::<Game>(&record.children, &mut seen_odd, &mut work, true);
                    }
                    proof {
                        assert forall|t: int| 0 <= t < work@.len() implies held_at(
                            g,
                            children,
                            seen_odd@,
                            seen_even@,
                            #[trigger] work@[t],
                        ) by {
                            if t < before.len() {
                                assert(work@[t] == before[t]);
                                assert(held_at(g, children, odd_before, even_before, before[t]));
                            } else {
                                let c = work@[t].0;
                                assert(points_to(g[key].children, c));
                                assert(edge(g, key, c));
                                descends_at_next(g, children, key, c, at_odd);
                                let s = choose|s: int|
                                    0 <= s < g[key].children.len() && (#[trigger] g[key].children[s]).1 == c;
                                assert(g[key].children.contains(g[key].children[s]));
                                no_dangling_edges(g, key, g[key].children[s]);
                            }
                        }
                        assert forall|k: u64| seen_odd@.contains(k) implies work@.contains((k, true)) by {
                            if odd_before.contains(k) {
                                let t = choose|t: int| 0 <= t < before.len() && before[t] == (k, true);
                                assert(work@[t] == (k, true));
                            }
                        }
                        assert forall|k: u64| seen_even@.contains(k) implies work@.contains((k, false)) by {
                            if even_before.contains(k) {
                                let t = choose|t: int| 0 <= t < before.len() && before[t] == (k, false);
                                assert(work@[t] == (k, false));
                            }
                        }
                        assert forall|t: int, k: u64|
                            0 <= t < i + 1 && #[trigger] edge(g, work@[t].0, k) implies if work@[t].1 {
                            seen_even@.contains(k)
                        } else {
                            seen_odd@.contains(k)
                        } by {
                            assert(work@[t] == before[t]);
                            if t < i {
                                assert(edge(g, before[t].0, k));
                            }
                        }
                    }
                },
                None => {
                    assert(false);
                },
            }
            i += 1;
        }
        proof {
            assert forall|a: u64, b: u64|
                seen_odd@.contains(a) && #[trigger] edge(g, a, b) implies seen_even@.contains(b) by {
                let t = choose|t: int| 0 <= t < work@.len() && work@[t] == (a, true);
                assert(edge(g, work@[t].0, b));
            }
            assert forall|a: u64, b: u64|
                seen_even@.contains(a) && #[trigger] edge(g, a, b) implies seen_odd@.contains(b) by {
                let t = choose|t: int| 0 <= t < work@.len() && work@[t] == (a, false);
                assert(edge(g, work@[t].0, b));
            }
            assert forall|k: u64| seen_odd@.contains(k) <==> reached_odd(g, children).contains(k) by {
                if seen_odd@.contains(k) {
                    let t = choose|t: int| 0 <= t < work@.len() && work@[t] == (k, true);
                    assert(held_at(g, children, seen_odd@, seen_even@, work@[t]));
                }
                if descends_at(g, children, k, true) {
                    closed_sets_hold_by_depth(g, children, seen_odd@, seen_even@, k, true);
                }
            }
            assert(seen_odd@ =~= reached_odd(g, children));
        }
        seen_odd
    }

    /// Lists each descendant of this record once, with its reading of `counter`.
    pub fn tally(&self, cache: &Cache<Game>, counter: Counter) -> (tally: Vec<(u64, u64)>)
        requires
            graph_wf(graph_of(cache@)),
            rooted(graph_of(cache@), self@.children),
        ensures
            is_tally(tally@, graph_of(cache@), counter, self@.children),
    {
        let ghost g = graph_of(cache@);
        let keys = self.descendant_keys(cache);
        let odd = match counter {
            Counter::Attempts => HashSet::new(),
            _ => self.odd_keys(cache),
        };
        let mut tally: Vec<(u64, u64)> = Vec::new();
        let mut i: usize = 0;
        while i < keys.len()
            invariant
                i <= keys.len(),
                g == graph_of(cache@),
                graph_wf(g),
                rooted(g, self@.children),
                keys@.to_set() == descendants(g, self@.children),
                counter != Counter::Attempts ==> odd@ == reached_odd(g, self@.children),
                tally@.len() == i,
                forall|t: int|
                    0 <= t < i ==> (#[trigger] tally@[t]).0 == keys@[t] && tally@[t].1 == reading(
                        g,
                        self@.children,
                        counter,
                        keys@[t],
                    ),
            decreases keys.len() - i,
        {
            let key = keys[i];
            proof {
                assert(keys@.to_set().contains(keys@[i as int]));
                descendants_have_records(g, self@.children, key);
            }
            match cache.get(&key) {
                Some(record) => {
                    assert(record@ == g[key]);
                    let value = match counter {
                        Counter::Attempts => record.local_attempts,
                        Counter::Wins => if odd.contains(&key) {
                            record.local_losses
                        } else {
                            record.local_wins
                        },
                        Counter::Losses => if odd.contains(&key) {
                            record.local_wins
                        } else {
                            record.local_losses
                        },
                    };
                    tally.push((key, value));
                },
                None => {
                    assert(false);
                },
            }
            i += 1;
        }
        proof {
            assert(tally_keys(tally@) =~= keys@);
        }
        tally
    }

    /// Each descendant with the number of simulations that started in it.
    pub fn tree_attempts(&self, cache: &Cache<Game>) -> (tally: Vec<(u64, u64)>)
        requires
            graph_wf(graph_of(cache@)),
            rooted(graph_of(cache@), self@.children),
        ensures
            is_tally(tally@, graph_of(cache@), Counter::Attempts, self@.children),
    {
        self.tally(cache, Counter::Attempts)
    }

    /// The number of simulations that started anywhere below this record.
    pub fn attempts(&self, cache: &Cache<Game>) -> (sum: u128)
        requires
            graph_wf(graph_of(cache@)),
            rooted(graph_of(cache@), self@.children),
        ensures
            sum == total_below(graph_of(cache@), Counter::Attempts, self@.children),
    {
        let tally = self.tree_attempts(cache);
        proof {
            tally_sums_to_total(tally@, graph_of(cache@), Counter::Attempts, self@.children);
        }
        sum_of_tally(&tally)
    }

    /// Each descendant with the simulations from it that count as wins here:
    /// its losses where it is reached by an odd number of plies, else its
    /// wins.
    pub fn tree_wins(&self, cache: &Cache<Game>) -> (tally: Vec<(u64, u64)>)
        requires
            graph_wf(graph_of(cache@)),
            rooted(graph_of(cache@), self@.children),
        ensures
            is_tally(tally@, graph_of(cache@), Counter::Wins, self@.children),
    {
        self.tally(cache, Counter::Wins)
    }

    /// The number of simulations below this record that count as wins here,
    /// the perspective alternating with the depth.
    pub fn wins(&self, cache: &Cache<Game>) -> (sum: u128)
        requires
            graph_wf(graph_of(cache@)),
            rooted(graph_of(cache@), self@.children),
        ensures
            sum == total_below(graph_of(cache@), Counter::Wins, self@.children),
    {
        let tally = self.tree_wins(cache);
        proof {
            tally_sums_to_total(tally@, graph_of(cache@), Counter::Wins, self@.children);
        }
        sum_of_tally(&tally)
    }

    /// Each descendant with the simulations from it that count as losses
    /// here: its wins where it is reached by an odd number of plies, else
    /// its losses.
    pub fn tree_losses(&self, cache: &Cache<Game>) -> (tally: Vec<(u64, u64)>)
        requires
            graph_wf(graph_of(cache@)),
            rooted(graph_of(cache@), self@.children),
        ensures
            is_tally(tally@, graph_of(cache@), Counter::Losses, self@.children),
    {
        self.tally(cache, Counter::Losses)
    }

    /// The number of simulations below this record that count as losses here,
    /// the perspective alternating with the depth.
    pub fn losses(&self, cache: &Cache<Game>) -> (sum: u128)
        requires
            graph_wf(graph_of(cache@)),
            rooted(graph_of(cache@), self@.children),
        ensures
            sum == total_below(graph_of(cache@), Counter::Losses, self@.children),
    {
        let tally = self.tree_losses(cache);
        proof {
            tally_sums_to_total(tally@, graph_of(cache@), Counter::Losses, self@.children);
        }
        sum_of_tally(&tally)
    }
}

/// The descendants are among the records of the store, so there are finitely
/// many.
pub proof fn descendants_are_finite<M>(g: Graph<M>, children: Seq<Edge<M>>)
    requires
        graph_wf(g),
        rooted(g, children),
    ensures
        descendants(g, children).subset_of(g.dom()),
        descendants(g, children).finite(),
{
    assert forall|key: u64|
        descendants(g, children).contains(key) implies g.dom().contains(key) by {
        descendants_have_records(g, children, key);
    }
    vstd::set_lib::lemma_len_subset(descendants(g, children), g.dom());
}

/// A position and all that lies below it.
pub open spec fn at_and_below<M>(g: Graph<M>, key: u64) -> Set<u64> {
    descendants(g, g[key].children).insert(key)
}

/// What lies below a record is what lies below all its edges but the last,
/// and the end of the last edge with what lies below that.
pub proof fn descendants_by_last_edge<M>(g: Graph<M>, children: Seq<Edge<M>>)
    requires
        children.len() > 0,
        rooted(g, children),
    ensures
        descendants(g, children) == descendants(g, children.drop_last()).union(
            at_and_below(g, children.last().1),
        ),
{
    let init = children.drop_last();
    let c = children.last().1;
    assert(g.contains_key(children[children.len() - 1].1));
    assert forall|key: u64|
        descendants(g, children).contains(key) <==> descendants(g, init).union(at_and_below(g, c)).contains(
            key,
        ) by {
        if descends(g, children, key) {
            let p = choose|path: Seq<u64>|
                path.len() >= 1 && points_to(children, path[0]) && path.last() == key && #[trigger] walk(
                    g,
                    path,
                );
            let t = choose|t: int| 0 <= t < children.len() && (#[trigger] children[t]).1 == p[0];
            if t < init.len() {
                assert(init[t].1 == p[0]);
                assert(points_to(init, p[0]));
                assert(descends(g, init, key));
            } else if p.len() > 1 {
                let q = p.skip(1);
                assert(edge(g, p[0int], p[0int + 1]));
                assert(q[0] == p[1]);
                assert forall|i: int|
                    0 <= i < q.len() - 1 implies edge(g, #[trigger] q[i], q[i + 1]) by {
                    assert(edge(g, p[i + 1], p[i + 1 + 1]));
                }
                assert(walk(g, q));
                assert(descends(g, g[c].children, key));
            }
        }
        if descends(g, init, key) {
            let p = choose|path: Seq<u64>|
                path.len() >= 1 && points_to(init, path[0]) && path.last() == key && #[trigger] walk(g, path);
            let t = choose|t: int| 0 <= t < init.len() && (#[trigger] init[t]).1 == p[0];
            assert(children[t].1 == p[0]);
            assert(points_to(children, p[0]));
            assert(descends(g, children, key));
        }
        if key == c {
            assert(points_to(children, c));
            descends_first(g, children, c);
        }
        if descends(g, g[c].children, key) {
            let q = choose|path: Seq<u64>|
                path.len() >= 1 && points_to(g[c].children, path[0]) && path.last() == key && #[trigger] walk(
                    g,
                    path,
                );
            let p = seq![c] + q;
            assert(p[0] == c);
            assert(points_to(children, p[0]));
            assert forall|i: int|
                0 <= i < p.len() - 1 implies edge(g, #[trigger] p[i], p[i + 1]) by {
                if i == 0 {
                    assert(p[1] == q[0]);
                } else {
                    assert(p[i] == q[i - 1]);
                    assert(p[i + 1] == q[i - 1 + 1]);
                    assert(edge(g, q[i - 1], q[i - 1 + 1]));
                }
            }
            assert(p.last() == key);
            assert(walk(g, p));
            assert(descends(g, children, key));
        }
    }
    assert(descendants(g, children) =~= descendants(g, init).union(at_and_below(g, c)));
}

/// What lies below a record still does when the store has grown and the
/// record has gained edges.
pub proof fn descends_in_grown<M>(
    before: Graph<M>,
    after: Graph<M>,
    children: Seq<Edge<M>>,
    more: Seq<Edge<M>>,
    key: u64,
)
    requires
        crate::graph::grown(before, after),
        children.is_prefix_of(more),
        descends(before, children, key),
    ensures
        descends(after, more, key),
{
    let path = choose|path: Seq<u64>|
        path.len() >= 1 && points_to(children, path[0]) && path.last() == key && #[trigger] walk(before, path);
    let t = choose|t: int| 0 <= t < children.len() && (#[trigger] children[t]).1 == path[0];
    assert(more[t] == children[t]);
    assert(points_to(more, path[0]));
    assert forall|i: int|
        0 <= i < path.len() - 1 implies edge(after, #[trigger] path[i], path[i + 1]) by {
        assert(edge(before, path[i], path[i + 1]));
        let a = path[i];
        assert(crate::graph::extends(before[a], after[a]));
        let s = choose|s: int|
            0 <= s < before[a].children.len() && (#[trigger] before[a].children[s]).1 == path[i + 1];
        assert(after[a].children[s] == before[a].children[s]);
    }
    assert(walk(after, path));
}

/// What lies below a child of a record lies below the record.
pub proof fn descends_through<M>(g: Graph<M>, children: Seq<Edge<M>>, child: u64, key: u64)
    requires
        points_to(children, child),
        g.contains_key(child),
        descends(g, g[child].children, key),
    ensures
        descends(g, children, key),
{
    let q = choose|path: Seq<u64>|
        path.len() >= 1 && points_to(g[child].children, path[0]) && path.last() == key && #[trigger] walk(
            g,
            path,
        );
    let p = seq![child] + q;
    assert(p[0] == child);
    assert forall|i: int| 0 <= i < p.len() - 1 implies edge(g, #[trigger] p[i], p[i + 1]) by {
        if i == 0 {
            assert(p[1] == q[0]);
        } else {
            assert(p[i] == q[i - 1]);
            assert(p[i + 1] == q[i - 1 + 1]);
            assert(edge(g, q[i - 1], q[i - 1 + 1]));
        }
    }
    assert(p.last() == key);
    assert(walk(g, p));
}

/// The statistics of a child against those of its parent: no more wins or
/// losses are counted below a record than attempts, and the attempts below
/// a child are among the attempts below its parent, with those of the child
/// itself where the child does not lie below itself.
pub proof fn child_within_parent<M>(g: Graph<M>, children: Seq<Edge<M>>, child: u64)
    requires
        graph_wf(g),
        rooted(g, children),
        points_to(children, child),
    ensures
        total_below(g, Counter::Wins, g[child].children) <= total_below(
            g,
            Counter::Attempts,
            g[child].children,
        ),
        total_below(g, Counter::Losses, g[child].children) <= total_below(
            g,
            Counter::Attempts,
            g[child].children,
        ),
        total_below(g, Counter::Attempts, g[child].children) <= total_below(
            g,
            Counter::Attempts,
            children,
        ),
        !descends(g, g[child].children, child) ==> g[child].local_attempts + total_below(
            g,
            Counter::Attempts,
            g[child].children,
        ) <= total_below(g, Counter::Attempts, children),
{
    let t = choose|t: int| 0 <= t < children.len() && (#[trigger] children[t]).1 == child;
    assert(g.contains_key(children[t].1));
    assert(rooted(g, g[child].children)) by {
        assert forall|i: int| 0 <= i < g[child].children.len() implies g.contains_key(
            (#[trigger] g[child].children[i]).1,
        ) by {
            assert(g[child].children.contains(g[child].children[i]));
            no_dangling_edges(g, child, g[child].children[i]);
        }
    }
    let own = g[child].children;
    let below = descendants(g, own);
    let whole = descendants(g, children);
    descendants_are_finite(g, own);
    descendants_are_finite(g, children);
    assert forall|key: u64|
        below.contains(key) implies reading(g, own, Counter::Wins, key) <= reading(
        g,
        own,
        Counter::Attempts,
        key,
    ) && reading(g, own, Counter::Losses, key) <= reading(g, own, Counter::Attempts, key) by {
        descendants_have_records(g, own, key);
        assert(crate::graph::node_wf(g[key]));
    }
    sum_over_le(
        below,
        |key: u64| reading(g, own, Counter::Wins, key),
        |key: u64| reading(g, own, Counter::Attempts, key),
    );
    sum_over_le(
        below,
        |key: u64| reading(g, own, Counter::Losses, key),
        |key: u64| reading(g, own, Counter::Attempts, key),
    );
    assert(below.subset_of(whole)) by {
        assert forall|key: u64| below.contains(key) implies whole.contains(key) by {
            descends_through(g, children, child, key);
        }
    }
    descends_first(g, children, child);
    let f = |key: u64| reading(g, children, Counter::Attempts, key);
    sum_over_agrees(below, |key: u64| reading(g, own, Counter::Attempts, key), f);
    sum_over_part(below, whole, f);
    assert(f(child) == g[child].local_attempts);
}

} // verus!
