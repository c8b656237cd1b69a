//! The colony's shared stockpile of deposited wood.

use vstd::prelude::*;

verus! {

/// Shared counter of wood units deposited at the stockpile tile.
#[derive(Clone, Copy, Debug, PartialEq, Eq, Structural)]
pub struct Colony {
    pub wood: u32,
}

impl Default for Colony {
    /// A fresh colony starts with nothing deposited.
    fn default() -> (c: Colony)
        ensures
            c.wood == 0,
    {
        Colony { wood: 0 }
    }
}

} // verus!
