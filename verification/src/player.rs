//! The two players and their fixed places on the board ring.

use vstd::prelude::*;

verus! {

/// Index of player A's store within the ring of 14 holes.
pub const STORE_IDX_A: usize = 6;

/// Index of player B's store within the ring of 14 holes.
pub const STORE_IDX_B: usize = 13;

/// There are exactly two players.
#[derive(Debug, Copy, Clone, PartialEq, Eq, Structural)]
pub enum Player {
    A,
    B,
}

impl Player {
    /// The other player.
    pub open spec fn spec_opponent(self) -> Player {
        match self {
            Player::A => Player::B,
            Player::B => Player::A,
        }
    }

    /// The other player.
    pub fn opponent(self) -> (opp: Player)
        ensures
            opp == self.spec_opponent(),
    {
        match self {
            Player::A => Player::B,
            Player::B => Player::A,
        }
    }

    /// Index of this player's own store.
    pub open spec fn spec_store_idx(self) -> int {
        match self {
            Player::A => STORE_IDX_A as int,
            Player::B => STORE_IDX_B as int,
        }
    }

    /// Index of this player's own store.
    pub fn store_idx(self) -> (idx: usize)
        ensures
            idx as int == self.spec_store_idx(),
    {
        match self {
            Player::A => STORE_IDX_A,
            Player::B => STORE_IDX_B,
        }
    }

    /// Whether hole `i` is one of this player's six play-holes.
    /// Stores belong to no play range.
    pub open spec fn spec_owns_hole(self, i: int) -> bool {
        match self {
            Player::A => 0 <= i < 6,
            Player::B => 7 <= i < 13,
        }
    }

    /// Whether hole `no` is one of this player's six play-holes.
    pub fn owns_hole(self, no: usize) -> (owned: bool)
        ensures
            owned == self.spec_owns_hole(no as int),
    {
        match self {
            Player::A => no < 6,
            Player::B => 7 <= no && no < 13,
        }
    }
}

} // verus!
