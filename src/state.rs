use vstd::prelude::*;

verus! {

/// The number of simulation steps taken, modulo 2^64.
pub struct Step(pub u64);

/// Marks the entity that the player controls.
pub struct Player;

impl Step {
    /// Counts one more step, wrapping around at `u64::MAX`.
    pub fn advance(&mut self)
        ensures
            final(self).0 == (old(self).0 + 1) % 0x1_0000_0000_0000_0000,
    {
        if self.0 == u64::MAX {
            self.0 = 0;
        } else {
            self.0 = self.0 + 1;
        }
    }
}

} // verus!
