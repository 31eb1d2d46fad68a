//! The search on a small counting game: a heap of counters, each side takes
//! one, two or three in turn, and the side that takes the last one wins.

use player_of_games::decision::BudgetExhausted;
use player_of_games::game::{Conclusion, GameState, Player, PlayerEnum};
use player_of_games::node::{Cache, Node};
use player_of_games::rollout::rollout;
use player_of_games::search::{MonteCarloTreeSearchPlayer, DEFAULT_BUDGET};
use player_of_games::selection::{rank_moves, select_and_expand, Exploitation, UpperConfidence};
use player_of_games::store::audit;
use std::collections::HashMap;

#[derive(Clone, Debug, PartialEq)]
struct Countdown {
    heap: u64,
    mover: PlayerEnum,
}

fn side_bit(player: PlayerEnum) -> u64 {
    match player {
        PlayerEnum::One => 0,
        PlayerEnum::Two => 1,
    }
}

impl GameState for Countdown {
    type Move = u64;

    fn key(&self) -> u64 {
        self.position_key()
    }

    fn turn(key: u64) -> PlayerEnum {
        if key % 2 == 0 {
            PlayerEnum::One
        } else {
            PlayerEnum::Two
        }
    }

    fn legal(key: u64, game_move: u64, player: PlayerEnum) -> bool {
        Self::turn(key) == player && 1 <= game_move && game_move <= 3 && game_move <= key / 2
    }

    fn place(_key: u64, game_move: u64, _player: PlayerEnum) -> u64 {
        game_move - 1
    }

    fn successor(key: u64, game_move: u64, player: PlayerEnum) -> u64 {
        (key / 2 - game_move) * 2 + side_bit(player.other())
    }

    fn outcome(key: u64, next_player: PlayerEnum) -> Option<Conclusion> {
        if key / 2 == 0 {
            Some(Conclusion::Win(next_player.other()))
        } else if Self::turn(key) != next_player {
            Some(Conclusion::Draw)
        } else {
            None
        }
    }

    fn plies_left(key: u64) -> u64 {
        key / 2
    }

    fn moves_in_turn(_key: u64, _game_move: u64, _player: PlayerEnum) {
    }

    fn open_game_has_move(_key: u64, _next_player: PlayerEnum) {
    }

    fn position_key(&self) -> u64 {
        self.heap * 2 + side_bit(self.mover)
    }

    fn duplicate(&self) -> Self {
        self.clone()
    }

    fn same_move(a: &u64, b: &u64) -> bool {
        a == b
    }

    fn update(&mut self, game_move: u64, player: PlayerEnum) {
        assert!(Self::legal(self.position_key(), game_move, player));
        self.heap -= game_move;
        self.mover = player.other();
    }

    fn all_legal_moves(&self, player: PlayerEnum) -> Vec<u64> {
        let mut moves = Vec::new();
        for take in 1..=3 {
            if Self::legal(self.position_key(), take, player) {
                moves.push(take);
            }
        }
        moves
    }

    fn try_conclude(&self, next_player: PlayerEnum) -> Option<Conclusion> {
        Self::outcome(self.position_key(), next_player)
    }
}

/// The upper confidence bound, as a rank that grows with the value.
struct Uct(f64);

impl UpperConfidence for Uct {
    fn value(&self, wins: u128, attempts: u128, parent_attempts: u128) -> u64 {
        let exploitation = wins as f64 / attempts as f64;
        let exploration = self.0 * ((parent_attempts as f64).ln() / attempts as f64).sqrt();
        let value = exploitation + exploration;
        assert!(!value.is_nan());
        value.to_bits()
    }

    fn uct_value(&self, wins: u128, attempts: u128, parent_attempts: u128) -> u64 {
        self.value(wins, attempts, parent_attempts)
    }
}

/// A rule that notes what it is asked.
struct Noting(std::cell::RefCell<Vec<(u128, u128, u128)>>);

impl UpperConfidence for Noting {
    fn value(&self, _wins: u128, attempts: u128, _parent_attempts: u128) -> u64 {
        attempts as u64
    }

    fn uct_value(&self, wins: u128, attempts: u128, parent_attempts: u128) -> u64 {
        self.0.borrow_mut().push((wins, attempts, parent_attempts));
        self.value(wins, attempts, parent_attempts)
    }
}

type Store = Cache<Countdown>;

fn heap(heap: u64, mover: PlayerEnum) -> Countdown {
    Countdown { heap, mover }
}

fn key(heap_size: u64, mover: PlayerEnum) -> u64 {
    heap(heap_size, mover).position_key()
}

fn record(player: PlayerEnum, attempts: u64) -> Node<Countdown> {
    Node {
        player,
        local_attempts: attempts,
        local_wins: 0,
        local_losses: 0,
        children: Vec::new(),
        parents: Vec::new(),
    }
}

fn link(store: &mut Store, from: u64, by: u64, to: u64) {
    store.get_mut(&from).unwrap().children.push((by, to));
    store.get_mut(&to).unwrap().parents.push((by, from));
}

fn total_local_attempts(store: &Store) -> u64 {
    store.values().map(|node| node.local_attempts).sum()
}

const ONE: PlayerEnum = PlayerEnum::One;
const TWO: PlayerEnum = PlayerEnum::Two;

#[test]
fn search_returns_a_legal_move() {
    let game = heap(10, ONE);
    let mut player = MonteCarloTreeSearchPlayer::new(ONE, Uct(1.4));
    let chosen = player.choose_move(game.clone());
    assert!(Countdown::legal(game.position_key(), chosen, ONE));
    assert!(player.audit());
}

#[test]
fn an_untried_move_goes_before_a_child_explored_ten_times() {
    // Two counters are left: the move that takes one is explored, the move that takes two is not.
    let mut store: Store = HashMap::new();
    store.insert(key(2, ONE), record(ONE, 1));
    store.insert(key(1, TWO), record(TWO, 1));
    store.insert(key(0, ONE), record(ONE, 10));
    link(&mut store, key(2, ONE), 1, key(1, TWO));
    link(&mut store, key(1, TWO), 1, key(0, ONE));
    for (wins, losses) in [(0u64, 10u64), (10, 0), (5, 5), (3, 0)] {
        store.get_mut(&key(0, ONE)).unwrap().local_wins = wins;
        store.get_mut(&key(0, ONE)).unwrap().local_losses = losses;
        assert_eq!(store[&key(1, TWO)].attempts(&store), 10);
        for c in [0.0, 0.5, 2f64.sqrt(), 1000.0] {
            let node = &store[&key(2, ONE)];
            assert_eq!(node.choose_move_by_uct_value(&Uct(c), &heap(2, ONE), &store), Some(2));
        }
    }
}

#[test]
fn the_first_untried_move_is_chosen() {
    let mut store: Store = HashMap::new();
    store.insert(key(5, ONE), record(ONE, 1));
    let node = &store[&key(5, ONE)];
    assert_eq!(node.choose_move_by_uct_value(&Uct(1.0), &heap(5, ONE), &store), Some(1));
    // With the second move explored, the first is still the first untried one.
    store.insert(key(3, TWO), record(TWO, 1));
    store.insert(key(2, ONE), record(ONE, 10));
    link(&mut store, key(5, ONE), 2, key(3, TWO));
    link(&mut store, key(3, TWO), 1, key(2, ONE));
    let node = &store[&key(5, ONE)];
    assert_eq!(node.choose_move_by_uct_value(&Uct(1.0), &heap(5, ONE), &store), Some(1));
    // With the first explored too, the third is the only untried one.
    store.insert(key(4, TWO), record(TWO, 1));
    store.insert(key(1, ONE), record(ONE, 10));
    link(&mut store, key(5, ONE), 1, key(4, TWO));
    link(&mut store, key(4, TWO), 3, key(1, ONE));
    let node = &store[&key(5, ONE)];
    assert_eq!(node.choose_move_by_uct_value(&Uct(1.0), &heap(5, ONE), &store), Some(3));
}

#[test]
fn a_known_child_with_nothing_tried_below_it_goes_before_a_ranked_one() {
    let mut store: Store = HashMap::new();
    store.insert(key(2, ONE), record(ONE, 1));
    store.insert(key(1, TWO), record(TWO, 1));
    store.insert(key(0, ONE), record(ONE, 10));
    store.insert(key(0, TWO), record(TWO, 1));
    link(&mut store, key(2, ONE), 1, key(1, TWO));
    link(&mut store, key(1, TWO), 1, key(0, ONE));
    link(&mut store, key(2, ONE), 2, key(0, TWO));
    let node = &store[&key(2, ONE)];
    assert_eq!(node.choose_move_by_uct_value(&Uct(0.0), &heap(2, ONE), &store), Some(2));
}

#[test]
fn among_ranked_children_the_best_value_wins_and_the_first_of_equals() {
    let mut store: Store = HashMap::new();
    store.insert(key(3, ONE), record(ONE, 1));
    for (take, attempts) in [(1u64, 4u64), (2, 9), (3, 9)] {
        let child = key(3 - take, TWO);
        store.insert(child, record(TWO, 1));
        let below = 1000 + take;
        store.insert(below, record(ONE, attempts));
        link(&mut store, key(3, ONE), take, child);
        link(&mut store, child, 1, below);
    }
    let noting = Noting(std::cell::RefCell::new(Vec::new()));
    let node = &store[&key(3, ONE)];
    // The rule ranks by the attempts: the second and the third child are equal, the second is first.
    assert_eq!(node.choose_move_by_uct_value(&noting, &heap(3, ONE), &store), Some(2));
    // Each child was ranked from its wins and attempts and the attempts below the parent.
    let parent_attempts = 3 + 4 + 9 + 9;
    assert_eq!(
        *noting.0.borrow(),
        vec![(0, 4, parent_attempts), (0, 9, parent_attempts), (0, 9, parent_attempts)]
    );
}

#[test]
fn no_move_is_chosen_where_none_is_legal() {
    let mut store: Store = HashMap::new();
    store.insert(key(0, ONE), record(ONE, 1));
    let node = &store[&key(0, ONE)];
    assert_eq!(node.choose_move_by_uct_value(&Uct(1.0), &heap(0, ONE), &store), None);
    // It is not the turn of side two.
    store.insert(key(4, ONE), record(TWO, 1));
    let node = &store[&key(4, ONE)];
    assert_eq!(node.choose_move_by_uct_value(&Uct(1.0), &heap(4, ONE), &store), None);
}

#[test]
fn selection_returns_a_new_position_at_once() {
    let mut store: Store = HashMap::new();
    let target = select_and_expand(&mut store, &Uct(1.0), heap(4, ONE), ONE);
    assert_eq!(target, heap(4, ONE));
    assert_eq!(store.len(), 1);
    let root = &store[&key(4, ONE)];
    assert!(root.is_leaf() && root.parents.is_empty());
    assert_eq!((root.player, root.local_attempts), (ONE, 0));
}

#[test]
fn selection_expands_the_first_untried_move_of_an_explored_position() {
    let mut store: Store = HashMap::new();
    store.insert(key(4, ONE), record(ONE, 1));
    let target = select_and_expand(&mut store, &Uct(1.0), heap(4, ONE), ONE);
    assert_eq!(target, heap(3, TWO));
    assert_eq!(store.len(), 2);
    assert_eq!(store[&key(4, ONE)].children, vec![(1, key(3, TWO))]);
    assert_eq!(store[&key(3, TWO)].parents, vec![(1, key(4, ONE))]);
    assert_eq!(store[&key(3, TWO)].player, TWO);
    assert_eq!(store[&key(4, ONE)].local_attempts, 1);
    assert!(audit(&store));
}

#[test]
fn selection_stops_where_no_move_is_legal() {
    let mut store: Store = HashMap::new();
    store.insert(key(1, ONE), record(ONE, 1));
    store.insert(key(0, TWO), record(TWO, 3));
    link(&mut store, key(1, ONE), 1, key(0, TWO));
    let target = select_and_expand(&mut store, &Uct(1.0), heap(1, ONE), ONE);
    assert_eq!(target, heap(0, TWO));
    assert_eq!(store.len(), 2);
    assert_eq!(store[&key(0, TWO)].local_attempts, 3);
}

#[test]
fn each_iteration_credits_one_simulation() {
    let game = heap(6, ONE);
    let mut player = MonteCarloTreeSearchPlayer::new(ONE, Uct(1.4));
    for done in 1..=40u64 {
        let before = player.explored_states().len();
        player.explore(&game);
        assert_eq!(total_local_attempts(player.explored_states()), done);
        assert!(player.explored_states().len() <= before + 1);
        assert!(player.audit());
    }
    for node in player.explored_states().values() {
        assert!(node.local_wins + node.local_losses <= node.local_attempts);
    }
    assert_eq!(player.record(&game).unwrap().attempts(player.explored_states()), 39);
}

#[test]
fn the_winner_of_a_simulation_is_credited_from_the_side_to_move() {
    // One counter is left: the side to move takes it and wins.
    let game = heap(1, ONE);
    let mut player = MonteCarloTreeSearchPlayer::new(ONE, Uct(1.4));
    player.explore(&game);
    let root = player.record(&game).unwrap();
    assert_eq!((root.local_attempts, root.local_wins, root.local_losses), (1, 1, 0));
    player.explore(&game);
    // The position after the move is lost for the side that is to move there.
    let child = player.record(&heap(0, TWO)).unwrap();
    assert_eq!((child.local_attempts, child.local_wins, child.local_losses), (1, 0, 1));
    assert_eq!(player.record(&game).unwrap().wins(player.explored_states()), 1);
    assert_eq!(player.record(&game).unwrap().losses(player.explored_states()), 0);
    assert_eq!(player.decide(&game), Ok(1));
}

#[test]
fn the_rollout_ends_the_game() {
    assert_eq!(rollout(heap(0, TWO), TWO), Conclusion::Win(ONE));
    assert_eq!(rollout(heap(1, TWO), TWO), Conclusion::Win(TWO));
    for _ in 0..30 {
        match rollout(heap(9, ONE), ONE) {
            Conclusion::Win(_) => (),
            Conclusion::Draw => panic!("the game has no draw"),
        }
    }
}

#[test]
fn transpositions_share_a_record_with_both_parents() {
    let game = heap(5, ONE);
    let mut player = MonteCarloTreeSearchPlayer::new(ONE, Uct(1.4));
    player.set_budget(400);
    assert!(player.search(&game).is_ok());
    // Two counters with side one to move: after one and two were taken, or two and one.
    let met = player.record(&heap(2, ONE)).unwrap();
    assert!(met.parents.contains(&(2, key(4, TWO))));
    assert!(met.parents.contains(&(1, key(3, TWO))));
    let records = player.explored_states().keys().filter(|k| **k == key(2, ONE)).count();
    assert_eq!(records, 1);
    assert!(player.record(&heap(4, TWO)).unwrap().children.contains(&(2, key(2, ONE))));
    assert!(player.record(&heap(3, TWO)).unwrap().children.contains(&(1, key(2, ONE))));
    assert!(player.audit());
}

#[test]
fn the_budget_is_ninety_nine_unless_set() {
    let mut player: MonteCarloTreeSearchPlayer<Countdown, Uct> = MonteCarloTreeSearchPlayer::new(TWO, Uct(1.0));
    assert_eq!(player.budget(), DEFAULT_BUDGET);
    assert_eq!(DEFAULT_BUDGET, 99);
    assert_eq!(player.player(), TWO);
    assert!(player.last_turn().is_none());
    assert!(player.explored_states().is_empty());
    player.set_budget(7);
    assert_eq!(player.budget(), 7);
    player.search(&heap(9, TWO)).unwrap();
    assert_eq!(total_local_attempts(player.explored_states()), 7);
}

#[test]
fn a_budget_too_small_to_find_a_child_is_exhausted() {
    let game = heap(5, ONE);
    let mut player = MonteCarloTreeSearchPlayer::new(ONE, Uct(1.4));
    assert_eq!(player.decide(&game), Err(BudgetExhausted));
    player.set_budget(0);
    assert_eq!(player.search(&game), Err(BudgetExhausted));
    player.set_budget(1);
    assert_eq!(player.search(&game), Err(BudgetExhausted));
    // The player still moves, by a legal move picked at random.
    player.set_budget(0);
    let chosen = player.choose_move(game.clone());
    assert!(Countdown::legal(game.position_key(), chosen, ONE));
    player.set_budget(1);
    assert_eq!(player.search(&game), Ok(1));
}

#[test]
fn pruning_after_a_move_deletes_the_position_and_its_other_children() {
    let root = heap(5, ONE);
    let mut player = MonteCarloTreeSearchPlayer::new(ONE, Uct(1.4));
    player.set_budget(300);
    player.search(&root).unwrap();
    let played = heap(4, TWO);
    assert!(player.record(&played).is_some());
    assert!(player.record(&heap(3, TWO)).is_some());
    assert!(player.record(&heap(2, TWO)).is_some());
    let kept = player.record(&played).unwrap().local_attempts;
    let left = player.pruning(Some(root.clone()), &1);
    assert!(player.record(&root).is_none());
    // The child that the move leads to stays, without a parent, with its statistics.
    let stays = player.record(&played).unwrap();
    assert!(stays.parents.is_empty());
    assert_eq!(stays.local_attempts, kept);
    // Three counters with side two to move are reached from the root alone: the record is gone.
    assert!(player.record(&heap(3, TWO)).is_none());
    // Two counters with side two to move are also reached below the child played, where the
    // search has gone that way: then the record stays and is named, else it is gone.
    match player.record(&heap(2, TWO)) {
        Some(shared) => {
            assert_eq!(shared.parents, vec![(1, key(3, ONE))]);
            assert_eq!(left, vec![key(2, TWO)]);
        }
        None => assert!(left.is_empty()),
    }
    // What lies below the child played stays.
    assert!(player.record(&heap(3, ONE)).is_some());
    assert!(player.audit());
    // The second time there is nothing to prune.
    let records = player.explored_states().len();
    assert!(player.pruning(Some(root.clone()), &1).is_empty());
    assert_eq!(player.explored_states().len(), records);
}

#[test]
fn pruning_leaves_a_child_that_another_position_leads_to() {
    let mut player = MonteCarloTreeSearchPlayer::new(ONE, Uct(1.4));
    player.set_budget(300);
    // Six counters lead to three by a move of side one, and so do five.
    player.search(&heap(6, ONE)).unwrap();
    player.search(&heap(5, ONE)).unwrap();
    let shared = player.record(&heap(3, TWO)).unwrap();
    assert!(shared.parents.contains(&(3, key(6, ONE))));
    assert!(shared.parents.contains(&(2, key(5, ONE))));
    let left = player.pruning(Some(heap(5, ONE)), &1);
    // Three counters are still reached from six: the record stays and is named.
    assert!(left.contains(&key(3, TWO)));
    assert!(!left.contains(&key(4, TWO)));
    assert!(player.record(&heap(5, ONE)).is_none());
    assert!(player.record(&heap(4, TWO)).is_some());
    let shared = player.record(&heap(3, TWO)).unwrap();
    assert!(shared.parents.contains(&(3, key(6, ONE))));
    assert!(!shared.parents.iter().any(|(_, from)| *from == key(5, ONE)));
    // Every child that is named has a parent left, and every child that is left is named.
    for named in &left {
        assert!(!player.explored_states()[named].parents.is_empty());
    }
    assert_eq!(player.record(&heap(2, TWO)).is_some(), left.contains(&key(2, TWO)));
    assert!(player.audit());
}

#[test]
fn being_informed_of_a_move_prunes_the_position_before() {
    let mut player = MonteCarloTreeSearchPlayer::new(ONE, Uct(1.4));
    let start = heap(7, ONE);
    // The first notice tells where the game stands: there is nothing to prune yet.
    player.inform_of_move_played(start.clone(), &1);
    assert_eq!(player.last_turn(), Some(&start));
    let chosen = player.choose_move(start.clone());
    let mut next = start.clone();
    next.update(chosen, ONE);
    assert!(player.record(&start).is_some());
    player.inform_of_move_played(next.clone(), &chosen);
    assert_eq!(player.last_turn(), Some(&next));
    assert!(player.record(&start).is_none());
    assert!(player.record(&next).is_some());
    for take in 1..=3u64 {
        if take != chosen {
            // Another child is gone, unless the search knows another way to it.
            if let Some(other) = player.record(&heap(7 - take, TWO)) {
                assert!(!other.parents.is_empty());
                assert!(!other.parents.iter().any(|(_, from)| *from == key(7, ONE)));
            }
        }
    }
    // Six counters with side two to move are reached from the start alone.
    if chosen != 1 {
        assert!(player.record(&heap(6, TWO)).is_none());
    }
    assert!(player.audit());
}

#[test]
fn removing_a_tree_from_the_player_deletes_the_subgraph() {
    let mut player = MonteCarloTreeSearchPlayer::new(ONE, Uct(1.4));
    player.set_budget(300);
    player.search(&heap(4, ONE)).unwrap();
    player.remove_tree(heap(4, ONE));
    assert!(player.explored_states().is_empty());
    player.remove_tree(heap(4, ONE));
    assert!(player.explored_states().is_empty());
}

#[test]
fn the_statistics_are_those_of_a_plain_walk() {
    let mut player = MonteCarloTreeSearchPlayer::new(ONE, Uct(1.4));
    player.set_budget(500);
    player.search(&heap(8, ONE)).unwrap();
    let store = player.explored_states();
    for (at, node) in store.iter() {
        let mut below = std::collections::HashSet::new();
        let mut open = vec![*at];
        while let Some(next) = open.pop() {
            for (_, child) in &store[&next].children {
                if below.insert(*child) {
                    open.push(*child);
                }
            }
        }
        // The descendants that are reached by an odd number of plies, by a walk over marked keys.
        let mut marked = std::collections::HashSet::new();
        let mut open: Vec<(u64, bool)> = vec![(*at, false)];
        while let Some((next, odd)) = open.pop() {
            for (_, child) in &store[&next].children {
                if marked.insert((*child, !odd)) {
                    open.push((*child, !odd));
                }
            }
        }
        let attempts: u128 = below.iter().map(|k| store[k].local_attempts as u128).sum();
        let wins: u128 = below
            .iter()
            .map(|k| if marked.contains(&(*k, true)) { store[k].local_losses } else { store[k].local_wins })
            .map(|count| count as u128)
            .sum();
        let losses: u128 = below
            .iter()
            .map(|k| if marked.contains(&(*k, true)) { store[k].local_wins } else { store[k].local_losses })
            .map(|count| count as u128)
            .sum();
        // In play the depth and the side say the same.
        for k in &below {
            assert_eq!(marked.contains(&(*k, true)), store[k].player != node.player);
            assert!(!(marked.contains(&(*k, true)) && marked.contains(&(*k, false))));
        }
        assert_eq!(node.attempts(store), attempts);
        assert_eq!(node.wins(store), wins);
        assert_eq!(node.losses(store), losses);
    }
}

#[test]
fn noting_a_move_names_the_children_that_stay() {
    let mut player = MonteCarloTreeSearchPlayer::new(ONE, Uct(1.4));
    player.set_budget(300);
    assert!(player.note_move_played(heap(6, ONE), &1).is_empty());
    player.search(&heap(6, ONE)).unwrap();
    player.search(&heap(5, ONE)).unwrap();
    // The game leaves six counters by taking one; three counters are still reached from five.
    let left = player.note_move_played(heap(5, TWO), &1);
    assert!(player.record(&heap(6, ONE)).is_none());
    assert!(player.record(&heap(5, TWO)).is_some());
    assert!(left.contains(&key(3, TWO)));
    assert!(left.contains(&key(4, TWO)));
    assert_eq!(player.last_turn(), Some(&heap(5, TWO)));
    assert!(player.audit());
}

#[test]
fn what_is_known_of_a_move_are_the_statistics_below_its_child() {
    let mut store: Store = HashMap::new();
    store.insert(key(3, ONE), record(ONE, 1));
    store.insert(key(2, TWO), record(TWO, 1));
    store.insert(key(1, TWO), record(TWO, 1));
    store.insert(key(1, ONE), record(ONE, 6));
    store.get_mut(&key(1, ONE)).unwrap().local_wins = 4;
    store.get_mut(&key(1, ONE)).unwrap().local_losses = 2;
    link(&mut store, key(3, ONE), 1, key(2, TWO));
    link(&mut store, key(3, ONE), 2, key(1, TWO));
    link(&mut store, key(2, TWO), 1, key(1, ONE));
    let node = &store[&key(3, ONE)];
    // Below the first child, side two has lost four of six; below the second nothing is tried;
    // the third move has no child.
    assert_eq!(node.known_of_moves(&vec![1, 2, 3], &store), vec![Some((2, 6)), Some((0, 0)), None]);
    assert_eq!(node.known_of_moves(&vec![3, 1], &store), vec![None, Some((2, 6))]);
    assert_eq!(node.known_of_moves(&Vec::new(), &store), Vec::new());
}

#[test]
fn moves_are_ranked_by_what_is_known_of_them() {
    let noting = Noting(std::cell::RefCell::new(Vec::new()));
    let ranks = rank_moves(&noting, &vec![Some((2, 6)), Some((0, 0)), None, Some((5, 5))], 11);
    assert_eq!(ranks, vec![Some(6), Some(u64::MAX), None, Some(5)]);
    // The rule was asked of the moves with attempts below their child, and of no other.
    assert_eq!(*noting.0.borrow(), vec![(2, 6, 11), (5, 5, 11)]);
    assert_eq!(rank_moves(&noting, &Vec::new(), 0), Vec::new());
}

#[test]
fn the_share_of_wins_is_given_in_fixed_point() {
    let one = 1u64 << 32;
    assert_eq!(Exploitation.uct_value(0, 5, 9), 0);
    assert_eq!(Exploitation.uct_value(5, 5, 9), one);
    assert_eq!(Exploitation.uct_value(1, 2, 2), one / 2);
    assert_eq!(Exploitation.uct_value(1, 3, 7), one / 3);
    assert_eq!(Exploitation.uct_value(3, 4, 4), 3 * (one / 4));
    // Numbers of 96 bits and more lose their lowest 32 bits first.
    let big = 1u128 << 100;
    assert_eq!(Exploitation.uct_value(big, big, big), one);
    assert_eq!(Exploitation.uct_value(big / 2, big, big), one / 2);
    assert_eq!(Exploitation.uct_value(0, u128::MAX, u128::MAX), 0);
    assert_eq!(Exploitation.uct_value(u128::MAX, u128::MAX, u128::MAX), one);
    assert_eq!(rank_moves(&Exploitation, &vec![Some((1, 4)), None, Some((0, 0))], 9), vec![
        Some(one / 4),
        None,
        Some(u64::MAX)
    ]);
}

#[test]
fn the_player_keeps_the_rule_it_was_given() {
    let mut player: MonteCarloTreeSearchPlayer<Countdown, Uct> = MonteCarloTreeSearchPlayer::new(ONE, Uct(0.75));
    assert_eq!(player.confidence_rule().0, 0.75);
    player.search(&heap(6, ONE)).unwrap();
    player.note_move_played(heap(5, TWO), &1);
    player.remove_tree(heap(5, TWO));
    player.set_budget(3);
    let _ = player.choose_move(heap(4, ONE));
    assert_eq!(player.confidence_rule().0, 0.75);
    assert_eq!(player.player(), ONE);
}

#[test]
fn two_iterations_are_enough_to_decide() {
    for size in 1..=9u64 {
        let game = heap(size, ONE);
        let mut player = MonteCarloTreeSearchPlayer::new(ONE, Exploitation);
        player.set_budget(2);
        let chosen = player.choose_move(game.clone());
        // The first iteration starts a simulation in the position, the second tries its first move.
        assert_eq!(chosen, 1);
        assert_eq!(player.decide(&game), Ok(chosen));
        assert_eq!(player.record(&game).unwrap().children, vec![(1, key(size - 1, TWO))]);
    }
}

#[test]
fn a_search_without_exploration_is_the_same_every_time() {
    // The last counter wins; no chance is involved in the selection, and from one counter one
    // line of play is left to the simulation.
    let game = heap(1, ONE);
    for _ in 0..5 {
        let mut player = MonteCarloTreeSearchPlayer::new(ONE, Exploitation);
        player.set_budget(10);
        assert_eq!(player.search(&game), Ok(1));
        let root = player.record(&game).unwrap();
        assert_eq!((root.local_attempts, root.local_wins), (1, 1));
        let child = player.record(&heap(0, TWO)).unwrap();
        assert_eq!((child.local_attempts, child.local_losses), (9, 9));
    }
}
