//! The state that every node of a circuit carries.

use vstd::prelude::*;
use crate::frame::Frame;

verus! {

/// What a node's state is for the purposes of the simulation: its power level
/// and whether it is hard-powered.  The frame of the last write is bookkeeping
/// and is left out.
pub struct Signal {
    pub power: u8,
    pub forced: bool,
}

impl Signal {
    /// A node conducts when it carries power or is hard-powered.
    pub open spec fn is_on(self) -> bool {
        self.power > 0 || self.forced
    }
}

/// The mutable state of one node.
#[derive(Clone, Copy, Debug)]
pub struct Redstate {
    power: u8,
    forced: bool,
    updated_frame: Option<Frame>,
}

impl View for Redstate {
    type V = Signal;

    closed spec fn view(&self) -> Signal {
        Signal { power: self.power, forced: self.forced }
    }
}

impl Redstate {
    /// The frame of the most recent write, if there was one.
    pub closed spec fn stamp(self) -> Option<Frame> {
        self.updated_frame
    }

    /// The state of a node that was just made: no power, never written.
    pub closed spec fn no_signal() -> Redstate {
        Redstate { power: 0, forced: false, updated_frame: None }
    }

    /// The state with this signal, last written in that frame.
    pub closed spec fn written(signal: Signal, frame: Frame) -> Redstate {
        Redstate { power: signal.power, forced: signal.forced, updated_frame: Some(frame) }
    }

    /// A state is fixed by its signal and the frame of its last write.
    pub proof fn lemma_same(a: Redstate, b: Redstate)
        requires
            a@ == b@,
            a.stamp() == b.stamp(),
        ensures
            a == b,
    {
    }

    pub proof fn lemma_no_signal()
        ensures
            Redstate::no_signal()@ == (Signal { power: 0, forced: false }),
            Redstate::no_signal().stamp().is_none(),
    {
    }

    pub proof fn lemma_written(signal: Signal, frame: Frame)
        ensures
            Redstate::written(signal, frame)@ == signal,
            Redstate::written(signal, frame).stamp() == Some(frame),
    {
    }

    /// A state without power that was never written.
    pub fn zero() -> (s: Redstate)
        ensures
            s == Redstate::no_signal(),
    {
        Redstate::new(0)
    }

    /// A state with the given power, not hard-powered, never written.
    pub fn new(power: u8) -> (s: Redstate)
        ensures
            s@ == (Signal { power, forced: false }),
            s.stamp().is_none(),
            power == 0 ==> s == Redstate::no_signal(),
    {
        Redstate { power, forced: false, updated_frame: None }
    }

    pub fn get_power(&self) -> (p: u8)
        ensures
            p == self@.power,
    {
        self.power
    }

    pub fn is_forced(&self) -> (b: bool)
        ensures
            b == self@.forced,
    {
        self.forced
    }

    pub fn updated_frame(&self) -> (f: Option<Frame>)
        ensures
            f == self.stamp(),
    {
        self.updated_frame
    }

    /// Writes the power level and records the frame of the write.
    pub fn set_power(&mut self, val: u8, frame: Frame)
        ensures
            final(self)@ == (Signal { power: val, forced: old(self)@.forced }),
            final(self).stamp() == Some(frame),
    {
        self.power = val;
        self.updated_frame = Some(frame);
    }

    /// Writes the hard-powered bit and records the frame of the write.
    pub fn set_forced(&mut self, val: bool, frame: Frame)
        ensures
            final(self)@ == (Signal { power: old(self)@.power, forced: val }),
            final(self).stamp() == Some(frame),
    {
        self.forced = val;
        self.updated_frame = Some(frame);
    }

    pub fn is_on(&self) -> (b: bool)
        ensures
            b == self@.is_on(),
    {
        self.power > 0 || self.forced
    }

    pub fn is_off(&self) -> (b: bool)
        ensures
            b == !self@.is_on(),
    {
        !self.is_on()
    }

    /// Whether this state was last written in `frame`.
    pub fn updated_in(&self, frame: Frame) -> (b: bool)
        ensures
            b == (self.stamp() == Some(frame)),
    {
        match self.updated_frame {
            Some(f) => f.tick == frame.tick,
            None => false,
        }
    }
}

/// No state carries more than full power.
pub open spec fn bounded(st: Seq<Redstate>) -> bool {
    forall|i: int| 0 <= i < st.len() ==> (#[trigger] st[i])@.power <= 16
}

impl PartialEq for Redstate {
    /// Two states are equal when power and the hard-powered bit agree.
    fn eq(&self, other: &Redstate) -> (b: bool) {
        self.power == other.power && self.forced == other.forced
    }
}

impl Eq for Redstate {

}

impl vstd::std_specs::cmp::PartialEqSpecImpl for Redstate {
    open spec fn obeys_eq_spec() -> bool {
        true
    }

    open spec fn eq_spec(&self, other: &Redstate) -> bool {
        self@ == other@
    }
}

} // verus!
