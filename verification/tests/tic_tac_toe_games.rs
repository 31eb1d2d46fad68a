//! Whole games of noughts and crosses between the players of the library.

use player_of_games::adjudicator::Adjudicator;
use player_of_games::game::{Conclusion, GameState, PlayerEnum};
use player_of_games::random::RandomPlayer;
use player_of_games::search::MonteCarloTreeSearchPlayer;
use player_of_games::selection::{Exploitation, UpperConfidence};
use player_of_games::tic_tac_toe::TicTacToe;

struct Uct(f64);

impl UpperConfidence for Uct {
    fn value(&self, wins: u128, attempts: u128, parent_attempts: u128) -> u64 {
        let exploitation = wins as f64 / attempts as f64;
        let exploration = self.0 * ((parent_attempts as f64).ln() / attempts as f64).sqrt();
        let value = exploitation + exploration;
        assert!(!value.is_nan());
        (value * 1_000_000.0) as u64
    }

    fn uct_value(&self, wins: u128, attempts: u128, parent_attempts: u128) -> u64 {
        self.value(wins, attempts, parent_attempts)
    }
}

#[test]
fn random_players_finish_a_game() {
    let mut adjudicator = Adjudicator::new(
        TicTacToe::new(),
        RandomPlayer(PlayerEnum::One),
        RandomPlayer(PlayerEnum::Two),
    );
    let mut plies = 0;
    while adjudicator.conclusion().is_none() {
        adjudicator.progress_one_turn();
        plies += 1;
        assert!(plies <= 9);
    }
    assert!(plies >= 5);
}

#[test]
fn search_players_finish_a_game() {
    let mut adjudicator = Adjudicator::new(
        TicTacToe::new(),
        MonteCarloTreeSearchPlayer::new(PlayerEnum::One, Uct(2f64.sqrt())),
        MonteCarloTreeSearchPlayer::new(PlayerEnum::Two, Uct(2f64.sqrt())),
    );
    let mut plies = 0;
    while adjudicator.conclusion().is_none() {
        adjudicator.progress_one_turn();
        plies += 1;
        assert!(plies <= 9);
    }
    match adjudicator.conclusion() {
        Some(Conclusion::Win(_)) | Some(Conclusion::Draw) => (),
        None => panic!("the game has ended"),
    }
    assert!(adjudicator.game_state().try_conclude(adjudicator.current_turn().other()).is_some());
}

use player_of_games::decision::BudgetExhausted;
use player_of_games::game::Player;
use player_of_games::tic_tac_toe::{Move, Piece};
use std::collections::HashSet;

fn uct() -> Uct {
    Uct(2f64.sqrt())
}

/// Plays the cells in turn, crosses first.
fn played(cells: &[(usize, usize)]) -> TicTacToe {
    let mut game = TicTacToe::new();
    let mut player = PlayerEnum::One;
    for &(x, y) in cells {
        game.update(Move::new(x, y, Piece::from(player)), player);
        player = player.other();
    }
    game
}

#[test]
fn a_single_move_that_wins_is_found() {
    // X O X / O X O / O X _ : the crosses are to move, and the last cell completes a diagonal.
    let game = played(&[(0, 0), (0, 1), (0, 2), (1, 0), (1, 1), (1, 2), (2, 1), (2, 0)]);
    assert_eq!(game.try_conclude(PlayerEnum::One), None);
    let moves = game.all_legal_moves(PlayerEnum::One);
    assert_eq!(moves, vec![Move::new(2, 2, Piece::Cross)]);

    let mut player = MonteCarloTreeSearchPlayer::new(PlayerEnum::One, uct());
    // One simulation: it starts in the position itself and can only end in the win.
    player.explore(&game);
    let node = player.record(&game).unwrap();
    assert_eq!((node.local_attempts, node.local_wins, node.local_losses), (1, 1, 0));
    assert_eq!(node.player, PlayerEnum::One);
    assert_eq!(player.decide(&game), Err(BudgetExhausted));
    // The decision is the only move.
    assert_eq!(player.search(&game), Ok(Move::new(2, 2, Piece::Cross)));
    assert_eq!(player.choose_move(game.duplicate()), Move::new(2, 2, Piece::Cross));
    // The position after the move is lost for the noughts, every time.
    let mut won = game.duplicate();
    won.update(Move::new(2, 2, Piece::Cross), PlayerEnum::One);
    let node = player.record(&won).unwrap();
    assert_eq!(node.player, PlayerEnum::Two);
    assert_eq!(node.local_wins, 0);
    assert_eq!(node.local_losses, node.local_attempts);
    assert!(node.local_attempts >= 99);
    assert!(player.audit());
}

#[test]
fn pruning_after_the_real_move_keeps_the_position_played() {
    let root = TicTacToe::new();
    let mut player = MonteCarloTreeSearchPlayer::new(PlayerEnum::One, uct());
    player.inform_of_move_played(root.duplicate(), &Move::new(0, 0, Piece::Cross));
    assert!(player.explored_states().is_empty());
    let chosen = player.choose_move(root.duplicate());
    assert_eq!(root.is_legal(chosen, PlayerEnum::One), Ok(()));
    // Every first move was tried, so every child of the empty board is known.
    let children: Vec<TicTacToe> = root
        .all_legal_moves(PlayerEnum::One)
        .iter()
        .map(|game_move| {
            let mut child = root.duplicate();
            child.update(*game_move, PlayerEnum::One);
            child
        })
        .collect();
    assert_eq!(children.len(), 9);
    for child in &children {
        assert!(player.record(child).is_some());
    }
    let mut after = root.duplicate();
    after.update(chosen, PlayerEnum::One);
    let kept = player.record(&after).unwrap().local_attempts;
    let below = player.record(&after).unwrap().attempts(player.explored_states());

    player.inform_of_move_played(after.duplicate(), &chosen);

    // The empty board is gone. The position played stays with all below it. The other
    // children, which only the empty board leads to, are gone.
    assert!(player.record(&root).is_none());
    let stays = player.record(&after).unwrap();
    assert!(stays.parents.is_empty());
    assert_eq!(stays.local_attempts, kept);
    assert_eq!(stays.attempts(player.explored_states()), below);
    for child in &children {
        if child.position_key() != after.position_key() {
            assert!(player.record(child).is_none());
        }
    }
    assert!(player.audit());
}

#[test]
fn the_search_keeps_its_laws_through_a_game() {
    let mut game = TicTacToe::new();
    let mut one = MonteCarloTreeSearchPlayer::new(PlayerEnum::One, uct());
    let mut two = MonteCarloTreeSearchPlayer::new(PlayerEnum::Two, uct());
    let mut turn = PlayerEnum::One;
    while game.try_conclude(turn).is_none() {
        let chosen = match turn {
            PlayerEnum::One => one.choose_move(game.duplicate()),
            PlayerEnum::Two => two.choose_move(game.duplicate()),
        };
        assert_eq!(game.is_legal(chosen, turn), Ok(()));
        game.update(chosen, turn);
        one.inform_of_move_played(game.duplicate(), &chosen);
        two.inform_of_move_played(game.duplicate(), &chosen);
        for store in [one.explored_states(), two.explored_states()] {
            for (at, node) in store.iter() {
                assert!(node.local_wins + node.local_losses <= node.local_attempts);
                for (by, child) in &node.children {
                    assert!(store[child].parents.contains(&(*by, *at)));
                }
                for (by, parent) in &node.parents {
                    assert!(store[parent].children.contains(&(*by, *at)));
                }
            }
        }
        assert!(one.audit() && two.audit());
        turn = turn.other();
    }
}

#[test]
fn the_attempts_below_a_position_are_those_of_a_plain_walk() {
    let mut player = MonteCarloTreeSearchPlayer::new(PlayerEnum::One, uct());
    player.set_budget(600);
    player.search(&TicTacToe::new()).unwrap();
    let store = player.explored_states();
    assert!(store.len() > 50);
    let mut shared = 0;
    for (at, node) in store.iter() {
        if node.parents.len() > 1 {
            shared += 1;
        }
        let mut below = HashSet::new();
        let mut open = vec![*at];
        while let Some(next) = open.pop() {
            for (_, child) in &store[&next].children {
                if below.insert(*child) {
                    open.push(*child);
                }
            }
        }
        let attempts: u128 = below.iter().map(|k| store[k].local_attempts as u128).sum();
        assert_eq!(node.attempts(store), attempts);
        let mut listed = node.descendant_keys(store);
        listed.sort();
        let mut expected: Vec<u64> = below.into_iter().collect();
        expected.sort();
        assert_eq!(listed, expected);
    }
    assert_eq!(player.record(&TicTacToe::new()).unwrap().attempts(store), 599);
    // Some positions were reached by more than one way.
    assert!(shared > 0);
}

#[test]
fn a_game_is_played_to_its_end() {
    for _ in 0..20 {
        let mut adjudicator = Adjudicator::new(
            TicTacToe::new(),
            RandomPlayer(PlayerEnum::One),
            RandomPlayer(PlayerEnum::Two),
        );
        assert!(adjudicator.can_progress());
        assert_eq!(adjudicator.current_turn(), PlayerEnum::One);
        assert_eq!(adjudicator.conclusion(), None);
        let conclusion = adjudicator.play();
        assert_eq!(adjudicator.conclusion(), Some(conclusion));
        let game = adjudicator.game_state();
        // The game is concluded in the position it has reached, for the side that would move.
        assert_eq!(game.try_conclude(adjudicator.current_turn().other()), Some(conclusion));
        match conclusion {
            Conclusion::Win(PlayerEnum::One) => assert!(game.does_piece_win(Piece::Cross)),
            Conclusion::Win(PlayerEnum::Two) => assert!(game.does_piece_win(Piece::Nought)),
            Conclusion::Draw => {
                assert!(!game.does_piece_win(Piece::Cross) && !game.does_piece_win(Piece::Nought));
                assert!(!adjudicator.can_progress() || game.all_legal_moves(adjudicator.current_turn().other()).is_empty());
            }
        }
        // Playing on changes nothing once the game has ended.
        let key = game.position_key();
        assert_eq!(adjudicator.play(), conclusion);
        assert_eq!(adjudicator.game_state().position_key(), key);
    }
}

#[test]
fn one_ply_passes_the_turn() {
    let mut adjudicator = Adjudicator::new(
        TicTacToe::new(),
        RandomPlayer(PlayerEnum::One),
        RandomPlayer(PlayerEnum::Two),
    );
    adjudicator.progress_one_turn();
    assert_eq!(adjudicator.current_turn(), PlayerEnum::Two);
    assert_eq!(adjudicator.conclusion(), None);
    assert_eq!(adjudicator.game_state().all_legal_moves(PlayerEnum::Two).len(), 8);
    adjudicator.progress_one_turn();
    assert_eq!(adjudicator.current_turn(), PlayerEnum::One);
    assert_eq!(adjudicator.game_state().all_legal_moves(PlayerEnum::One).len(), 7);
}

#[test]
fn a_single_move_that_wins_is_found_without_exploration() {
    // X O X / O X O / O X _ : the crosses are to move, and the last cell completes a diagonal.
    let game = played(&[(0, 0), (0, 1), (0, 2), (1, 0), (1, 1), (1, 2), (2, 1), (2, 0)]);
    let mut player = MonteCarloTreeSearchPlayer::new(PlayerEnum::One, Exploitation);
    player.explore(&game);
    let node = player.record(&game).unwrap();
    assert_eq!((node.local_attempts, node.local_wins, node.local_losses), (1, 1, 0));
    assert_eq!(player.choose_move(game.duplicate()), Move::new(2, 2, Piece::Cross));
    assert!(player.audit());
}
