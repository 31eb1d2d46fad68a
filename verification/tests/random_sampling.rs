//! Sampling in one pass, and the player that moves at random.

use player_of_games::game::{GameState, Player, PlayerEnum};
use player_of_games::random::{random_sample, sample_by_hits, RandomPlayer};
use player_of_games::tic_tac_toe::{Move, Piece, TicTacToe};

#[test]
fn nothing_is_sampled_from_nothing() {
    let nothing: Vec<u32> = Vec::new();
    assert_eq!(random_sample(&nothing), None);
}

#[test]
fn the_only_item_is_always_sampled() {
    for _ in 0..50 {
        assert_eq!(random_sample(&vec![7u32]), Some(7));
    }
}

#[test]
fn a_sample_is_one_of_the_items() {
    let items = vec![3u32, 5, 8, 13];
    for _ in 0..200 {
        let sample = random_sample(&items).unwrap();
        assert!(items.contains(&sample));
    }
}

#[test]
fn every_item_is_sampled_about_as_often() {
    let items = vec![0usize, 1, 2];
    let mut seen = [0u32; 3];
    for _ in 0..3000 {
        seen[random_sample(&items).unwrap()] += 1;
    }
    for count in seen {
        assert!(count > 700 && count < 1300);
    }
}

#[test]
fn the_last_hit_is_kept() {
    let items = vec!['a', 'b', 'c', 'd'];
    assert_eq!(sample_by_hits(&items, &vec![true, false, true, false]), Some('c'));
    assert_eq!(sample_by_hits(&items, &vec![true, false, false, false]), Some('a'));
    assert_eq!(sample_by_hits(&items, &vec![true, true, true, true]), Some('d'));
    assert_eq!(sample_by_hits(&items, &vec![false, true, false, false]), Some('b'));
}

#[test]
fn nothing_is_kept_without_a_hit() {
    let items = vec!['a', 'b'];
    assert_eq!(sample_by_hits(&items, &vec![false, false]), None);
    let nothing: Vec<char> = Vec::new();
    assert_eq!(sample_by_hits(&nothing, &Vec::new()), None);
}

#[test]
fn the_random_player_moves_legally() {
    let mut game = TicTacToe::new();
    game.update(Move::new(1, 1, Piece::Cross), PlayerEnum::One);
    let mut player = RandomPlayer(PlayerEnum::Two);
    for _ in 0..50 {
        let chosen = player.choose_move(game.duplicate());
        assert_eq!(game.is_legal(chosen, PlayerEnum::Two), Ok(()));
    }
}

#[test]
fn the_random_player_keeps_its_side() {
    let mut player = RandomPlayer(PlayerEnum::One);
    let chosen = player.choose_move(TicTacToe::new());
    player.inform_of_move_played(TicTacToe::new(), &chosen);
    assert_eq!(player.0, PlayerEnum::One);
    assert_eq!(chosen.piece(), Piece::Cross);
}
