//! Rules engine for two-player Mancala (Kalah variant: six play-holes per
//! side, four starting marbles per hole).
//!
//! The board is a ring of 14 holes: indices 0-5 are player A's play-holes,
//! index 6 is A's store, indices 7-12 are player B's play-holes and index 13
//! is B's store. A move takes all marbles from a chosen hole and sows them
//! one by one counter-clockwise, skipping the opponent's store; landing the
//! last marble in the mover's own store grants an extra turn, landing in a
//! hole that already held marbles chains another sowing from that hole, and
//! landing in a previously empty hole passes the turn.

pub mod board;
pub mod hole;
pub mod laws;
pub mod model;
pub mod player;

pub use board::Board;
pub use board::MoveOutcome;
pub use hole::Hole;
pub use player::Player;
