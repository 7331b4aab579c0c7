use vstd::prelude::*;

verus! {

/// A cell color. `Red`, `Green` and `Blue` are the playable colors a move
/// may target; `White` is the seed marker that the anchor cell holds before
/// the first move.
#[derive(Clone, Copy, PartialEq, Eq, Structural, Debug)]
pub enum Color {
    Red,
    Green,
    Blue,
    White,
}

impl Color {
    /// A playable color is one the player may choose as a move target.
    pub open spec fn spec_is_playable(self) -> bool {
        self == Color::Red || self == Color::Green || self == Color::Blue
    }

    /// Returns whether this color is a playable move target.
    pub fn is_playable(self) -> (r: bool)
        ensures
            r == self.spec_is_playable(),
    {
        match self {
            Color::Red => true,
            Color::Green => true,
            Color::Blue => true,
            Color::White => false,
        }
    }
}

} // verus!
