//! The node store: edges, statistics of subgraphs, deletion and decision, on
//! stores that are built by hand.

use player_of_games::aggregate::{sum_of_tally, Counter};
use player_of_games::decision::{decide, BudgetExhausted};
use player_of_games::game::{Conclusion, PlayerEnum};
use player_of_games::node::{edges_without, find_child, holds_edge, Cache, Node};
use player_of_games::pruning::{prune, remove_tree, remove_tree_sparing};
use player_of_games::rollout::credit_outcome;
use player_of_games::selection::first_best;
use player_of_games::store::{arrive, audit, excise};
use player_of_games::tic_tac_toe::{Move, Piece, TicTacToe};
use std::collections::{HashMap, HashSet};

type Store = Cache<TicTacToe>;

const ONE: PlayerEnum = PlayerEnum::One;
const TWO: PlayerEnum = PlayerEnum::Two;

/// A label for an edge.
fn label(i: usize) -> Move {
    Move::new(i / 3, i % 3, Piece::Cross)
}

fn record(player: PlayerEnum, attempts: u64, wins: u64, losses: u64) -> Node<TicTacToe> {
    Node {
        player,
        local_attempts: attempts,
        local_wins: wins,
        local_losses: losses,
        children: Vec::new(),
        parents: Vec::new(),
    }
}

fn link(store: &mut Store, from: u64, by: usize, to: u64) {
    store.get_mut(&from).unwrap().children.push((label(by), to));
    store.get_mut(&to).unwrap().parents.push((label(by), from));
}

/// A root with two children, one of which has two children of its own.
fn small_tree() -> Store {
    let mut store: Store = HashMap::new();
    store.insert(1, record(ONE, 0, 0, 0));
    store.insert(2, record(TWO, 5, 2, 3));
    store.insert(3, record(TWO, 4, 1, 1));
    store.insert(4, record(ONE, 3, 3, 0));
    store.insert(5, record(ONE, 2, 0, 2));
    link(&mut store, 1, 0, 2);
    link(&mut store, 1, 1, 3);
    link(&mut store, 2, 0, 4);
    link(&mut store, 2, 1, 5);
    store
}

/// A root with two children that share a child.
fn diamond() -> Store {
    let mut store: Store = HashMap::new();
    store.insert(1, record(ONE, 0, 0, 0));
    store.insert(2, record(TWO, 1, 0, 0));
    store.insert(3, record(TWO, 2, 0, 0));
    store.insert(4, record(ONE, 10, 4, 5));
    link(&mut store, 1, 0, 2);
    link(&mut store, 1, 1, 3);
    link(&mut store, 2, 1, 4);
    link(&mut store, 3, 0, 4);
    store
}

/// The descendants of `key` by a plain recursive walk.
fn walk_below(store: &Store, key: u64, seen: &mut HashSet<u64>) {
    for (_, child) in &store[&key].children {
        if seen.insert(*child) {
            walk_below(store, *child, seen);
        }
    }
}

fn copy_of(store: &Store) -> Store {
    store
        .iter()
        .map(|(key, node)| {
            let copy = Node {
                player: node.player,
                local_attempts: node.local_attempts,
                local_wins: node.local_wins,
                local_losses: node.local_losses,
                children: node.children.clone(),
                parents: node.parents.clone(),
            };
            (*key, copy)
        })
        .collect()
}

fn keys_of(store: &Store) -> Vec<u64> {
    let mut keys: Vec<u64> = store.keys().copied().collect();
    keys.sort();
    keys
}

#[test]
fn attempts_are_summed_over_the_descendants() {
    let store = small_tree();
    assert_eq!(store[&1].attempts(&store), 5 + 4 + 3 + 2);
    assert_eq!(store[&2].attempts(&store), 3 + 2);
    assert_eq!(store[&3].attempts(&store), 0);
    assert_eq!(store[&4].attempts(&store), 0);
}

#[test]
fn wins_and_losses_change_sides_with_each_ply() {
    let store = small_tree();
    // Below the root, a loss of a child is a win, a win of a grandchild is a win.
    assert_eq!(store[&1].wins(&store), 3 + 1 + 3 + 0);
    assert_eq!(store[&1].losses(&store), 2 + 1 + 0 + 2);
    assert_eq!(store[&2].wins(&store), 0 + 2);
    assert_eq!(store[&2].losses(&store), 3 + 0);
    assert_eq!(store[&3].wins(&store), 0);
    assert_eq!(store[&3].losses(&store), 0);
}

#[test]
fn the_wins_of_a_record_are_the_losses_of_its_children() {
    let store = small_tree();
    for key in [1u64, 2] {
        let mut losses_of_children = 0;
        let mut wins_of_children = 0;
        for (_, child) in &store[&key].children {
            let child_record = &store[child];
            losses_of_children += child_record.local_losses as u128 + child_record.losses(&store);
            wins_of_children += child_record.local_wins as u128 + child_record.wins(&store);
        }
        assert_eq!(store[&key].wins(&store), losses_of_children);
        assert_eq!(store[&key].losses(&store), wins_of_children);
    }
}

#[test]
fn a_shared_descendant_counts_once() {
    let store = diamond();
    assert_eq!(store[&1].attempts(&store), 1 + 2 + 10);
    assert_eq!(store[&1].wins(&store), 4);
    assert_eq!(store[&1].losses(&store), 5);
    // Added up child by child, the shared record would count twice.
    let by_child: u128 = store[&1]
        .children
        .iter()
        .map(|(_, child)| store[child].local_attempts as u128 + store[child].attempts(&store))
        .sum();
    assert_eq!(by_child, (1 + 10) + (2 + 10));
}

#[test]
fn the_descendants_are_those_of_a_plain_walk() {
    for store in [small_tree(), diamond()] {
        for key in keys_of(&store) {
            let found = store[&key].descendant_keys(&store);
            let mut expected = HashSet::new();
            walk_below(&store, key, &mut expected);
            assert_eq!(found.len(), expected.len());
            assert_eq!(found.iter().copied().collect::<HashSet<u64>>(), expected);
            let sum: u128 = expected.iter().map(|k| store[k].local_attempts as u128).sum();
            assert_eq!(store[&key].attempts(&store), sum);
        }
    }
}

#[test]
fn a_tally_lists_each_descendant_with_its_reading() {
    let store = small_tree();
    let mut attempts = store[&1].tree_attempts(&store);
    attempts.sort();
    assert_eq!(attempts, vec![(2, 5), (3, 4), (4, 3), (5, 2)]);
    let mut wins = store[&1].tree_wins(&store);
    wins.sort();
    assert_eq!(wins, vec![(2, 3), (3, 1), (4, 3), (5, 0)]);
    let mut losses = store[&1].tree_losses(&store);
    losses.sort();
    assert_eq!(losses, vec![(2, 2), (3, 1), (4, 0), (5, 2)]);
    let mut tally = store[&2].tally(&store, Counter::Wins);
    tally.sort();
    assert_eq!(tally, vec![(4, 0), (5, 2)]);
    assert_eq!(sum_of_tally(&tally), 2);
    assert_eq!(sum_of_tally(&Vec::new()), 0);
    assert_eq!(sum_of_tally(&vec![(1, u64::MAX), (2, u64::MAX)]), 2 * (u64::MAX as u128));
}

#[test]
fn a_new_record_is_a_leaf_without_statistics() {
    let node: Node<TicTacToe> = Node::new(TWO, None);
    assert!(node.is_leaf());
    assert_eq!((node.local_attempts, node.local_wins, node.local_losses), (0, 0, 0));
    assert_eq!(node.player, TWO);
    assert!(node.parents.is_empty());
    let node: Node<TicTacToe> = Node::new(ONE, Some((label(4), 17)));
    assert!(node.is_leaf());
    assert_eq!(node.parents, vec![(label(4), 17)]);
    assert!(!small_tree()[&1].is_leaf());
}

#[test]
fn edges_are_found_by_their_move() {
    let edges = vec![(label(0), 10u64), (label(3), 11), (label(5), 10)];
    assert_eq!(find_child::<TicTacToe>(&edges, &label(3)), Some(11));
    assert_eq!(find_child::<TicTacToe>(&edges, &label(5)), Some(10));
    assert_eq!(find_child::<TicTacToe>(&edges, &label(4)), None);
    assert!(holds_edge::<TicTacToe>(&edges, &label(0), 10));
    assert!(!holds_edge::<TicTacToe>(&edges, &label(0), 11));
    assert!(!holds_edge::<TicTacToe>(&edges, &label(1), 10));
    assert_eq!(edges_without::<TicTacToe>(&edges, 10), vec![(label(3), 11)]);
    assert_eq!(edges_without::<TicTacToe>(&edges, 11), vec![(label(0), 10), (label(5), 10)]);
    assert_eq!(edges_without::<TicTacToe>(&edges, 12), edges);
}

#[test]
fn arriving_makes_the_record_and_the_edge_at_both_ends() {
    let mut store: Store = HashMap::new();
    arrive(&mut store, 1, ONE, None);
    assert_eq!(keys_of(&store), vec![1]);
    assert!(store[&1].is_leaf() && store[&1].parents.is_empty());
    arrive(&mut store, 2, TWO, Some((label(0), 1)));
    assert_eq!(keys_of(&store), vec![1, 2]);
    assert_eq!(store[&1].children, vec![(label(0), 2)]);
    assert_eq!(store[&2].parents, vec![(label(0), 1)]);
    assert_eq!(store[&2].player, TWO);
    // Arriving again changes nothing.
    arrive(&mut store, 2, ONE, Some((label(0), 1)));
    arrive(&mut store, 1, TWO, None);
    assert_eq!(store[&1].children, vec![(label(0), 2)]);
    assert_eq!(store[&2].parents, vec![(label(0), 1)]);
    assert_eq!(store[&2].player, TWO);
    assert_eq!(store[&1].player, ONE);
    assert!(audit(&store));
}

#[test]
fn two_ways_to_a_position_meet_in_one_record() {
    let mut store: Store = HashMap::new();
    arrive(&mut store, 1, ONE, None);
    arrive(&mut store, 2, TWO, Some((label(0), 1)));
    arrive(&mut store, 3, TWO, Some((label(1), 1)));
    arrive(&mut store, 4, ONE, Some((label(1), 2)));
    arrive(&mut store, 4, ONE, Some((label(0), 3)));
    assert_eq!(keys_of(&store), vec![1, 2, 3, 4]);
    assert_eq!(store[&4].parents, vec![(label(1), 2), (label(0), 3)]);
    assert_eq!(store[&2].children, vec![(label(1), 4)]);
    assert_eq!(store[&3].children, vec![(label(0), 4)]);
    assert!(audit(&store));
}

#[test]
fn the_audit_finds_an_edge_that_one_end_does_not_know() {
    assert!(audit(&small_tree()));
    assert!(audit(&diamond()));
    let empty: Store = HashMap::new();
    assert!(audit(&empty));
    let mut store = small_tree();
    store.get_mut(&4).unwrap().parents.clear();
    assert!(!audit(&store));
    let mut store = small_tree();
    store.get_mut(&1).unwrap().children.pop();
    assert!(!audit(&store));
    let mut store = small_tree();
    store.remove(&5);
    assert!(!audit(&store));
}

#[test]
fn excising_takes_the_record_with_its_edges() {
    let mut store = small_tree();
    let removed = excise(&mut store, 2).unwrap();
    assert_eq!(removed.local_attempts, 5);
    assert_eq!(removed.children.len(), 2);
    assert_eq!(keys_of(&store), vec![1, 3, 4, 5]);
    assert_eq!(store[&1].children, vec![(label(1), 3)]);
    assert!(store[&4].parents.is_empty());
    assert!(store[&5].parents.is_empty());
    assert!(audit(&store));
    assert!(excise(&mut store, 2).is_none());
    assert_eq!(keys_of(&store), vec![1, 3, 4, 5]);
}

#[test]
fn removing_a_tree_takes_what_hangs_on_it_alone() {
    let mut store = small_tree();
    remove_tree(&mut store, 2);
    assert_eq!(keys_of(&store), vec![1, 3]);
    assert_eq!(store[&1].children, vec![(label(1), 3)]);
    assert!(audit(&store));

    let mut store = diamond();
    remove_tree(&mut store, 2);
    // The shared child is still reached from the other side.
    assert_eq!(keys_of(&store), vec![1, 3, 4]);
    assert_eq!(store[&4].parents, vec![(label(0), 3)]);
    assert!(audit(&store));
    remove_tree(&mut store, 3);
    assert_eq!(keys_of(&store), vec![1]);
    assert!(store[&1].is_leaf());

    let mut store = diamond();
    remove_tree(&mut store, 1);
    assert!(store.is_empty());
}

#[test]
fn removing_what_is_not_there_changes_nothing() {
    let mut store = small_tree();
    remove_tree(&mut store, 77);
    assert_eq!(keys_of(&store), vec![1, 2, 3, 4, 5]);
    assert_eq!(store[&1].children.len(), 2);
    remove_tree(&mut store, 2);
    let after: Vec<u64> = keys_of(&store);
    remove_tree(&mut store, 2);
    assert_eq!(keys_of(&store), after);
    assert!(audit(&store));
}

#[test]
fn pruning_keeps_the_child_that_the_move_leads_to() {
    let mut store = small_tree();
    let left = prune(&mut store, 1, &label(0));
    assert!(left.is_empty());
    // The root and the other child are gone; the child played and its children stay.
    assert_eq!(keys_of(&store), vec![2, 4, 5]);
    assert!(store[&2].parents.is_empty());
    assert_eq!(store[&2].children.len(), 2);
    assert_eq!(store[&2].local_attempts, 5);
    assert!(audit(&store));
}

#[test]
fn pruning_leaves_a_child_that_has_another_parent() {
    let mut store = small_tree();
    store.insert(9, record(ONE, 0, 0, 0));
    link(&mut store, 9, 2, 3);
    let left = prune(&mut store, 1, &label(0));
    assert_eq!(left, vec![3]);
    assert_eq!(keys_of(&store), vec![2, 3, 4, 5, 9]);
    assert_eq!(store[&3].parents, vec![(label(2), 9)]);
    assert!(audit(&store));
}

#[test]
fn pruning_twice_is_pruning_once() {
    for by in [0usize, 1, 2] {
        let mut store = diamond();
        prune(&mut store, 1, &label(by));
        let keys = keys_of(&store);
        let edges: Vec<(usize, usize)> =
            keys.iter().map(|k| (store[k].children.len(), store[k].parents.len())).collect();
        let left = prune(&mut store, 1, &label(by));
        assert!(left.is_empty());
        assert_eq!(keys_of(&store), keys);
        let again: Vec<(usize, usize)> =
            keys.iter().map(|k| (store[k].children.len(), store[k].parents.len())).collect();
        assert_eq!(again, edges);
        assert!(audit(&store));
    }
}

#[test]
fn pruning_with_a_move_that_was_not_explored_deletes_all_orphans() {
    let mut store = small_tree();
    let left = prune(&mut store, 1, &label(7));
    assert!(left.is_empty());
    assert!(store.is_empty());
}

#[test]
fn the_most_visited_child_is_chosen() {
    let store = small_tree();
    // Below child 2 there are five attempts, below child 3 none.
    assert_eq!(decide(&store, 1), Ok(label(0)));
    let mut store = small_tree();
    store.insert(6, record(ONE, 9, 0, 0));
    link(&mut store, 3, 0, 6);
    assert_eq!(decide(&store, 1), Ok(label(1)));
}

#[test]
fn of_equally_visited_children_the_last_is_chosen_every_time() {
    let mut store = small_tree();
    store.insert(6, record(ONE, 5, 0, 0));
    link(&mut store, 3, 0, 6);
    assert_eq!(store[&2].attempts(&store), store[&3].attempts(&store));
    for _ in 0..20 {
        assert_eq!(decide(&store, 1), Ok(label(1)));
    }
    // In the other order of the children, the other one is the last.
    let mut store: Store = HashMap::new();
    store.insert(1, record(ONE, 0, 0, 0));
    store.insert(2, record(TWO, 0, 0, 0));
    store.insert(3, record(TWO, 0, 0, 0));
    store.insert(4, record(ONE, 5, 0, 0));
    store.insert(6, record(ONE, 5, 0, 0));
    link(&mut store, 1, 1, 3);
    link(&mut store, 1, 0, 2);
    link(&mut store, 2, 0, 4);
    link(&mut store, 3, 0, 6);
    for _ in 0..20 {
        assert_eq!(decide(&store, 1), Ok(label(0)));
    }
}

#[test]
fn there_is_no_decision_without_a_known_child() {
    let store = small_tree();
    assert_eq!(decide(&store, 4), Err(BudgetExhausted));
    assert_eq!(decide(&store, 77), Err(BudgetExhausted));
    let empty: Store = HashMap::new();
    assert_eq!(decide(&empty, 1), Err(BudgetExhausted));
}

#[test]
fn the_first_of_the_best_ranks_is_chosen() {
    assert_eq!(first_best(&Vec::new()), None);
    assert_eq!(first_best(&vec![Some(3)]), Some(0));
    assert_eq!(first_best(&vec![Some(3), Some(7), Some(7), Some(1)]), Some(1));
    assert_eq!(first_best(&vec![Some(9), None, Some(u64::MAX), None]), Some(1));
    assert_eq!(first_best(&vec![Some(u64::MAX), Some(u64::MAX)]), Some(0));
    assert_eq!(first_best(&vec![None, None]), Some(0));
    assert_eq!(first_best(&vec![Some(0), Some(0), None]), Some(2));
}

#[test]
fn a_result_is_credited_to_the_side_to_move() {
    let mut node = record(ONE, 4, 1, 2);
    node.credit(Conclusion::Win(ONE));
    assert_eq!((node.local_attempts, node.local_wins, node.local_losses), (5, 2, 2));
    node.credit(Conclusion::Win(TWO));
    assert_eq!((node.local_attempts, node.local_wins, node.local_losses), (6, 2, 3));
    node.credit(Conclusion::Draw);
    assert_eq!((node.local_attempts, node.local_wins, node.local_losses), (7, 2, 3));
    let mut node = record(TWO, 0, 0, 0);
    node.credit(Conclusion::Win(ONE));
    assert_eq!((node.local_attempts, node.local_wins, node.local_losses), (1, 0, 1));
}

#[test]
fn a_full_counter_stays_as_it_is() {
    let mut node = record(ONE, u64::MAX, 5, 6);
    node.credit(Conclusion::Win(ONE));
    node.credit(Conclusion::Draw);
    assert_eq!((node.local_attempts, node.local_wins, node.local_losses), (u64::MAX, 5, 6));
}

#[test]
fn credit_goes_to_one_record_of_the_store() {
    let mut store = small_tree();
    credit_outcome(&mut store, 4, Conclusion::Win(TWO));
    assert_eq!(store[&4].local_attempts, 4);
    assert_eq!(store[&4].local_losses, 1);
    assert_eq!(store[&4].local_wins, 3);
    assert_eq!(store[&5].local_attempts, 2);
    assert_eq!(store[&2].attempts(&store), 4 + 2);
    credit_outcome(&mut store, 77, Conclusion::Draw);
    assert_eq!(keys_of(&store), vec![1, 2, 3, 4, 5]);
}

#[test]
fn pruning_keeps_the_position_played_when_two_moves_lead_to_it() {
    // The root leads to its one child by two moves, and has another child.
    let mut store: Store = HashMap::new();
    store.insert(1, record(ONE, 1, 0, 0));
    store.insert(2, record(TWO, 7, 3, 4));
    store.insert(3, record(TWO, 1, 0, 0));
    store.insert(4, record(ONE, 2, 0, 0));
    link(&mut store, 1, 0, 2);
    link(&mut store, 1, 1, 2);
    link(&mut store, 1, 2, 3);
    link(&mut store, 2, 0, 4);
    assert!(audit(&store));
    for by in [0usize, 1] {
        let mut pruned = copy_of(&store);
        let left = prune(&mut pruned, 1, &label(by));
        assert!(left.is_empty());
        // The child that the move leads to stays with what lies below it, the other child is gone.
        assert_eq!(keys_of(&pruned), vec![2, 4]);
        assert!(pruned[&2].parents.is_empty());
        assert_eq!((pruned[&2].local_attempts, pruned[&2].local_wins, pruned[&2].local_losses), (7, 3, 4));
        assert_eq!(pruned[&2].children, vec![(label(0), 4)]);
        assert!(audit(&pruned));
    }
    // The move to the other child was played: now the first child is gone, by both edges.
    let mut pruned = copy_of(&store);
    assert!(prune(&mut pruned, 1, &label(2)).is_empty());
    assert_eq!(keys_of(&pruned), vec![3]);
}

#[test]
fn pruning_keeps_the_position_played_below_a_child_that_is_deleted() {
    // The position played is a child of the root and lies below another child.
    let mut store: Store = HashMap::new();
    store.insert(1, record(ONE, 1, 0, 0));
    store.insert(2, record(TWO, 5, 1, 1));
    store.insert(3, record(TWO, 1, 0, 0));
    store.insert(4, record(ONE, 1, 0, 0));
    store.insert(5, record(ONE, 9, 0, 0));
    link(&mut store, 1, 0, 2);
    link(&mut store, 1, 1, 3);
    link(&mut store, 3, 0, 4);
    link(&mut store, 4, 0, 2);
    link(&mut store, 2, 0, 5);
    assert!(audit(&store));
    let left = prune(&mut store, 1, &label(0));
    assert!(left.is_empty());
    // The other child and what hangs on it alone are gone; the position played stays.
    assert_eq!(keys_of(&store), vec![2, 5]);
    assert!(store[&2].parents.is_empty());
    assert_eq!(store[&2].local_attempts, 5);
    assert_eq!(store[&5].parents, vec![(label(0), 2)]);
    assert!(audit(&store));
}

#[test]
fn a_tree_is_removed_but_for_the_position_spared() {
    let mut store = diamond();
    remove_tree_sparing(&mut store, 1, Some(4));
    // Both children of the root are orphans and go; the record they share is spared.
    assert_eq!(keys_of(&store), vec![4]);
    assert!(store[&4].parents.is_empty());
    assert_eq!(store[&4].local_attempts, 10);
    let mut store = diamond();
    remove_tree_sparing(&mut store, 1, Some(2));
    assert_eq!(keys_of(&store), vec![2, 4]);
    assert_eq!(store[&4].parents, vec![(label(1), 2)]);
    let mut store = diamond();
    remove_tree_sparing(&mut store, 1, None);
    assert!(store.is_empty());
    let mut store = small_tree();
    remove_tree_sparing(&mut store, 2, Some(77));
    assert_eq!(keys_of(&store), vec![1, 3]);
    assert!(audit(&store));
}

#[test]
fn the_perspective_goes_by_the_depth_whatever_side_a_record_names() {
    // The tree of before, every record naming the same side.
    let mut store = small_tree();
    for key in [1u64, 2, 3, 4, 5] {
        store.get_mut(&key).unwrap().player = ONE;
    }
    assert_eq!(store[&1].wins(&store), 3 + 1 + 3 + 0);
    assert_eq!(store[&1].losses(&store), 2 + 1 + 0 + 2);
    assert_eq!(store[&2].wins(&store), 0 + 2);
    assert_eq!(store[&2].losses(&store), 3 + 0);
    for key in [1u64, 2] {
        let mut losses_of_children = 0;
        let mut wins_of_children = 0;
        for (_, child) in &store[&key].children {
            losses_of_children += store[child].local_losses as u128 + store[child].losses(&store);
            wins_of_children += store[child].local_wins as u128 + store[child].wins(&store);
        }
        assert_eq!(store[&key].wins(&store), losses_of_children);
        assert_eq!(store[&key].losses(&store), wins_of_children);
    }
}

#[test]
fn the_descendants_at_odd_depth_are_found() {
    let store = small_tree();
    let mut odd: Vec<u64> = store[&1].odd_keys(&store).into_iter().collect();
    odd.sort();
    assert_eq!(odd, vec![2, 3]);
    let mut odd: Vec<u64> = store[&2].odd_keys(&store).into_iter().collect();
    odd.sort();
    assert_eq!(odd, vec![4, 5]);
    assert!(store[&4].odd_keys(&store).is_empty());
    let store = diamond();
    let mut odd: Vec<u64> = store[&1].odd_keys(&store).into_iter().collect();
    odd.sort();
    assert_eq!(odd, vec![2, 3]);
}

#[test]
fn a_record_that_is_reached_by_one_ply_and_by_two_counts_as_at_one() {
    // The root leads to the second child directly and through the first.
    let mut store: Store = HashMap::new();
    store.insert(1, record(ONE, 0, 0, 0));
    store.insert(2, record(TWO, 1, 1, 0));
    store.insert(3, record(ONE, 9, 6, 2));
    link(&mut store, 1, 0, 2);
    link(&mut store, 1, 1, 3);
    link(&mut store, 2, 0, 3);
    let mut odd: Vec<u64> = store[&1].odd_keys(&store).into_iter().collect();
    odd.sort();
    assert_eq!(odd, vec![2, 3]);
    assert_eq!(store[&1].attempts(&store), 10);
    assert_eq!(store[&1].wins(&store), 0 + 2);
    assert_eq!(store[&1].losses(&store), 1 + 6);
    assert_eq!(store[&2].wins(&store), 2);
    assert_eq!(store[&2].losses(&store), 6);
}
