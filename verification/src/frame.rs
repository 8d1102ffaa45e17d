//! Logical simulation time.

use vstd::prelude::*;

verus! {

/// A tag for logical simulation time.  Frames are ordered by their tick.
#[derive(Clone, Copy, Debug, PartialEq, Eq, Structural, PartialOrd, Ord, Hash)]
pub struct Frame {
    pub tick: u64,
}

impl Frame {
    /// The initial frame.
    pub fn zero() -> (f: Frame)
        ensures
            f.tick == 0,
    {
        Frame { tick: 0 }
    }

    /// The first frame after the initial one.
    pub fn new() -> (f: Frame)
        ensures
            f.tick == 1,
    {
        Frame { tick: 1 }
    }

    /// The frame that directly follows this one.
    pub fn tick(&self) -> (f: Frame)
        requires
            self.tick < u64::MAX,
        ensures
            f.tick == self.tick + 1,
    {
        Frame { tick: self.tick + 1 }
    }

    /// The frame `rhs` ticks after this one, or `None` when that is
    /// beyond the last frame.
    pub fn checked_add(self, rhs: Frame) -> (sum: Option<Frame>)
        ensures
            sum is Some <==> self.tick + rhs.tick <= u64::MAX,
            sum matches Some(f) ==> f.tick == self.tick + rhs.tick,
    {
        match self.tick.checked_add(rhs.tick) {
            Some(tick) => Some(Frame { tick }),
            None => None,
        }
    }
}

impl std::ops::Add for Frame {
    type Output = Frame;

    /// The frame `rhs` ticks after this one.
    fn add(self, rhs: Frame) -> (sum: Frame) {
        Frame { tick: self.tick + rhs.tick }
    }
}

impl vstd::std_specs::ops::AddSpecImpl for Frame {
    open spec fn obeys_add_spec() -> bool {
        true
    }

    open spec fn add_req(self, rhs: Frame) -> bool {
        self.tick + rhs.tick <= u64::MAX
    }

    open spec fn add_spec(self, rhs: Frame) -> Frame {
        Frame { tick: (self.tick + rhs.tick) as u64 }
    }
}

} // verus!
