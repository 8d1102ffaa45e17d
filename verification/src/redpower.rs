//! Power levels as values.

use vstd::prelude::*;

verus! {

/// A power level.  Anything above zero counts as powered.
#[derive(Clone, Copy, Debug, PartialEq, Eq, Structural)]
pub struct Redpower {
    pub strength: u32,
}

impl Redpower {
    pub fn new(strength: u32) -> (p: Redpower)
        ensures
            p.strength == strength,
    {
        Redpower { strength }
    }

    pub fn off() -> (p: Redpower)
        ensures
            p.strength == 0,
    {
        Redpower::new(0)
    }

    pub fn strength(strength: u32) -> (p: Redpower)
        ensures
            p.strength == strength,
    {
        Redpower::new(strength)
    }

    pub fn has_power(&self) -> (b: bool)
        ensures
            b == (self.strength > 0),
    {
        self.strength > 0
    }
}

} // verus!
