//! Board construction and bookkeeping.

use mancala::{Board, Hole, Player};

#[test]
fn fresh_board_has_four_marbles_per_play_hole() {
    let board = Board::new();
    for i in 0..14 {
        if i == 6 || i == 13 {
            assert_eq!(board.count_at(i), 0);
        } else {
            assert_eq!(board.count_at(i), 4);
        }
    }
    assert!(board.is_well_formed());
}

#[test]
fn default_board_matches_new() {
    let board: Board = Default::default();
    let fresh = Board::new();
    for i in 0..14 {
        assert_eq!(board.count_at(i), fresh.count_at(i));
    }
}

#[test]
fn from_counts_round_trip() {
    let counts: [u8; 14] = [0, 0, 0, 0, 0, 0, 18, 5, 5, 5, 5, 5, 5, 0];
    let board = Board::from_counts(counts);
    for i in 0..14 {
        assert_eq!(board.count_at(i), counts[i]);
    }
    assert!(board.is_well_formed());
}

#[test]
fn hole_operations() {
    let mut hole = Hole { marbles: 3 };
    assert_eq!(hole.count(), 3);
    hole.add_x(2);
    assert_eq!(hole.count(), 5);
    let taken = hole.take_all();
    assert_eq!(taken, 5);
    assert_eq!(hole.count(), 0);
}

#[test]
fn player_helpers() {
    assert_eq!(Player::A.opponent(), Player::B);
    assert_eq!(Player::B.opponent(), Player::A);
    assert_eq!(Player::A.store_idx(), 6);
    assert_eq!(Player::B.store_idx(), 13);
    assert!(Player::A.owns_hole(0));
    assert!(Player::A.owns_hole(5));
    assert!(!Player::A.owns_hole(6));
    assert!(!Player::A.owns_hole(7));
    assert!(Player::B.owns_hole(7));
    assert!(Player::B.owns_hole(12));
    assert!(!Player::B.owns_hole(13));
    assert!(!Player::B.owns_hole(5));
}
