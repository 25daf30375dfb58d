//! The two stone colours.

use vstd::prelude::*;

verus! {

/// The colour of a stone, which is also the side that played it.
#[derive(Debug, Clone, Copy, PartialEq, Eq, Structural)]
pub enum StoneColor {
    Black,
    White,
}

impl StoneColor {
    /// The other colour.
    pub open spec fn spec_opponent(&self) -> StoneColor {
        match self {
            StoneColor::Black => StoneColor::White,
            StoneColor::White => StoneColor::Black,
        }
    }

    /// Returns the other colour.
    #[verifier::when_used_as_spec(spec_opponent)]
    pub fn opponent(&self) -> (other: StoneColor)
        ensures
            other == self.spec_opponent(),
    {
        match self {
            StoneColor::Black => StoneColor::White,
            StoneColor::White => StoneColor::Black,
        }
    }

    /// Swapping sides twice gives the side one started from, and a side is
    /// never its own opponent.
    pub proof fn lemma_opponent_involutive(c: StoneColor)
        ensures
            c.spec_opponent().spec_opponent() == c,
            c.spec_opponent() != c,
    {
    }
}

} // verus!
