//! A single dip of the board holding a count of marbles.

use vstd::prelude::*;

verus! {

/// A dip in a mancala board that can contain a number of marbles.
#[derive(Debug, Copy, Clone, PartialEq, Eq, Structural)]
pub struct Hole {
    pub marbles: u8,
}

impl Hole {
    /// Adds `x` marbles to the hole.
    pub fn add_x(&mut self, x: u8)
        requires
            old(self).marbles + x <= u8::MAX,
        ensures
            final(self).marbles == old(self).marbles + x,
    {
        self.marbles = self.marbles + x;
    }

    /// Takes all marbles from the hole and returns their number.
    pub fn take_all(&mut self) -> (taken: u8)
        ensures
            final(self).marbles == 0,
            taken == old(self).marbles,
    {
        let marbles = self.marbles;
        self.marbles = 0;
        marbles
    }

    /// Returns the number of marbles in the hole.
    pub fn count(self) -> (n: u8)
        ensures
            n == self.marbles,
    {
        self.marbles
    }
}

} // verus!
