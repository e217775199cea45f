//! The Codel Chooser (CC), one of the two traversal direction registers.
//!
//! The CC starts out pointing left and selects among codels that tie on the
//! block edge chosen by the Direction Pointer.

use vstd::prelude::*;

verus! {

/// Codel Chooser: `Left` or `Right`, with a flip involution.
#[derive(Clone, Copy, Debug, PartialEq, Eq, Hash, Structural)]
pub enum CC {
    Left,
    Right,
}

impl CC {
    /// The flipped direction, as a specification-level value.
    pub open spec fn flip_spec(self) -> CC {
        match self {
            CC::Left => CC::Right,
            CC::Right => CC::Left,
        }
    }

    /// Returns the flipped direction.
    pub fn flip(&self) -> (r: CC)
        ensures
            r == self.flip_spec(),
    {
        match self {
            CC::Left => CC::Right,
            CC::Right => CC::Left,
        }
    }
}

} // verus!
