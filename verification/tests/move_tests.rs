//! Moves: validation, sowing, extra turns, chains, and turn passing.

use mancala::{Board, MoveOutcome, Player};

fn assert_counts(board: &Board, expected: &[u8; 14]) {
    for i in 0..14 {
        assert_eq!(board.count_at(i), expected[i], "hole {i}");
    }
}

#[test]
fn store_landing_grants_extra_turn() {
    // Hole 2 holds 4 marbles; they land in 3, 4, 5 and A's store.
    let mut board = Board::new();
    let outcome = board.attempt_move(Player::A, 2);
    assert_eq!(outcome, MoveOutcome::Applied { next: Player::A });
    assert_counts(&board, &[4, 4, 0, 5, 5, 5, 1, 4, 4, 4, 4, 4, 4, 0]);
}

#[test]
fn store_landing_for_player_b() {
    // Hole 9 holds 4 marbles; they land in 10, 11, 12 and B's store.
    let mut board = Board::new();
    let outcome = board.attempt_move(Player::B, 9);
    assert_eq!(outcome, MoveOutcome::Applied { next: Player::B });
    assert_counts(&board, &[4, 4, 4, 4, 4, 4, 0, 4, 4, 0, 5, 5, 5, 1]);
}

#[test]
fn long_chain_from_fresh_board() {
    // From a fresh board, sowing hole 0 relays through fourteen sowings and
    // finally lands in an empty hole, so the turn passes to B.
    let mut board = Board::new();
    let outcome = board.attempt_move(Player::A, 0);
    assert_eq!(outcome, MoveOutcome::Applied { next: Player::B });
    assert_counts(&board, &[1, 4, 1, 10, 1, 1, 5, 3, 0, 2, 9, 2, 9, 0]);

    // Sowing hole 5 afterwards drops its single marble straight into A's
    // store: an extra turn for A.
    let outcome = board.attempt_move(Player::A, 5);
    assert_eq!(outcome, MoveOutcome::Applied { next: Player::A });
    assert_counts(&board, &[1, 4, 1, 10, 1, 0, 6, 3, 0, 2, 9, 2, 9, 0]);

    // Marbles were only moved around: all 48 are still on the board.
    assert!(board.is_well_formed());
}

#[test]
fn ownership_rejections_leave_board_unchanged() {
    let fresh: [u8; 14] = [4, 4, 4, 4, 4, 4, 0, 4, 4, 4, 4, 4, 4, 0];
    let mut board = Board::new();
    // A store can never be chosen.
    assert_eq!(board.attempt_move(Player::A, 6), MoveOutcome::RejectedNotOwnHole);
    assert_eq!(board.attempt_move(Player::A, 13), MoveOutcome::RejectedNotOwnHole);
    // A cannot choose any hole in B's play range.
    for i in 7..13 {
        assert_eq!(board.attempt_move(Player::A, i), MoveOutcome::RejectedNotOwnHole);
    }
    // B cannot choose any hole in A's play range.
    for i in 0..6 {
        assert_eq!(board.attempt_move(Player::B, i), MoveOutcome::RejectedNotOwnHole);
    }
    // Out-of-range indices are rejected.
    assert_eq!(board.attempt_move(Player::A, 14), MoveOutcome::RejectedNotOwnHole);
    assert_eq!(board.attempt_move(Player::A, 99), MoveOutcome::RejectedNotOwnHole);
    assert_counts(&board, &fresh);
}

#[test]
fn empty_hole_is_rejected_without_mutation() {
    let counts: [u8; 14] = [0, 4, 4, 4, 4, 4, 1, 4, 4, 4, 4, 4, 4, 3];
    let mut board = Board::from_counts(counts);
    assert_eq!(board.attempt_move(Player::A, 0), MoveOutcome::RejectedEmptyHole);
    assert_counts(&board, &counts);
}

#[test]
fn landing_in_empty_own_hole_passes_turn() {
    let counts: [u8; 14] = [1, 0, 4, 4, 4, 4, 0, 4, 4, 4, 4, 4, 4, 7];
    let mut board = Board::from_counts(counts);
    let outcome = board.attempt_move(Player::A, 0);
    assert_eq!(outcome, MoveOutcome::Applied { next: Player::B });
    assert_counts(&board, &[0, 1, 4, 4, 4, 4, 0, 4, 4, 4, 4, 4, 4, 7]);
}

#[test]
fn landing_in_occupied_hole_chains_a_second_sowing() {
    // Hole 0 sows into 1 and 2; hole 2 held a marble, so its two marbles are
    // re-sown into 3 and 4, where the chain stops on an empty hole.
    let counts: [u8; 14] = [2, 0, 1, 0, 0, 0, 0, 4, 4, 4, 4, 4, 4, 21];
    let mut board = Board::from_counts(counts);
    let outcome = board.attempt_move(Player::A, 0);
    assert_eq!(outcome, MoveOutcome::Applied { next: Player::B });
    assert_counts(&board, &[0, 1, 0, 1, 1, 0, 0, 4, 4, 4, 4, 4, 4, 21]);
}

#[test]
fn sowing_skips_the_opponents_store() {
    // B sows nine marbles from hole 12: they wrap through B's store and all
    // of A's play range, but A's store (holding 10) must be left out.
    let counts: [u8; 14] = [0, 0, 0, 0, 0, 0, 10, 0, 0, 0, 0, 0, 9, 29];
    let mut board = Board::from_counts(counts);
    let outcome = board.attempt_move(Player::B, 12);
    assert_eq!(outcome, MoveOutcome::Applied { next: Player::A });
    assert_counts(&board, &[1, 1, 1, 1, 1, 1, 10, 1, 1, 0, 0, 0, 0, 30]);
    assert!(board.is_well_formed());
}

#[test]
fn player_choses_hole_returns_next_player() {
    let mut board = Board::new();
    // A rejected selection keeps the turn.
    assert_eq!(board.player_choses_hole(Player::A, 8), Player::A);
    assert_eq!(board.player_choses_hole(Player::B, 13), Player::B);
    // A store landing keeps the turn.
    assert_eq!(board.player_choses_hole(Player::A, 2), Player::A);
    // An ordinary landing passes it on.
    assert_eq!(board.player_choses_hole(Player::A, 1), Player::B);
}
