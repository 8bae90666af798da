//! Win detection: majority, exhaustion, tie-break, and ongoing games.

use mancala::{Board, Player};

#[test]
fn fresh_board_has_no_winner() {
    let board = Board::new();
    assert_eq!(board.test_if_won(), None);
}

#[test]
fn majority_in_store_a_wins_immediately() {
    // Store A exceeds the 24-marble majority threshold; A wins regardless of
    // the play-hole contents, even though A's own side is empty.
    let counts: [u8; 14] = [0, 0, 0, 0, 0, 0, 25, 23, 0, 0, 0, 0, 0, 0];
    let board = Board::from_counts(counts);
    assert_eq!(board.test_if_won(), Some(Player::A));
}

#[test]
fn majority_in_store_b_wins_before_exhaustion_is_weighed() {
    // B's empty side would lose by the exhaustion comparison, but B's store
    // already holds a majority, which is checked first.
    let counts: [u8; 14] = [3, 3, 3, 3, 3, 3, 0, 0, 0, 0, 0, 0, 0, 30];
    let board = Board::from_counts(counts);
    assert_eq!(board.test_if_won(), Some(Player::B));
}

#[test]
fn exhaustion_awards_the_fuller_side() {
    // A's play-holes are all empty and neither store has a majority: the
    // game ends by exhaustion and B's fuller side wins, not A's 18-marble
    // store.
    let counts: [u8; 14] = [0, 0, 0, 0, 0, 0, 18, 5, 5, 5, 5, 5, 5, 0];
    let board = Board::from_counts(counts);
    assert_eq!(board.test_if_won(), Some(Player::B));
}

#[test]
fn exhaustion_with_fuller_a_side_awards_a() {
    let counts: [u8; 14] = [5, 0, 0, 0, 0, 0, 20, 0, 0, 0, 0, 0, 0, 23];
    let board = Board::from_counts(counts);
    assert_eq!(board.test_if_won(), Some(Player::A));
}

#[test]
fn exhaustion_tie_defaults_to_b() {
    // Both sides empty and equal: the tie-break awards B.
    let counts: [u8; 14] = [0, 0, 0, 0, 0, 0, 24, 0, 0, 0, 0, 0, 0, 24];
    let board = Board::from_counts(counts);
    assert_eq!(board.test_if_won(), Some(Player::B));
}

#[test]
fn game_continues_while_both_sides_hold_marbles() {
    let counts: [u8; 14] = [1, 0, 0, 0, 0, 0, 23, 1, 0, 0, 0, 0, 0, 23];
    let board = Board::from_counts(counts);
    assert_eq!(board.test_if_won(), None);
}
