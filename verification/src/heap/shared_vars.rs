//! A flag that threads share.

use vstd::prelude::*;

verus! {

/// A flag that is set or not. The byte behind it is one or zero.
#[derive(Clone, Copy, PartialEq, Eq, Debug, Structural)]
pub struct SharedFlag(u8);

impl SharedFlag {
    /// The byte of a flag that is not set.
    pub const UNSET: u8 = 0;

    /// The byte of a flag that is set.
    pub const SET: u8 = 1;

    /// The byte of the flag.
    pub closed spec fn byte(&self) -> u8 {
        self.0
    }

    /// Whether the flag is set.
    pub open spec fn on(&self) -> bool {
        self.byte() == 1
    }

    /// The byte is one of the two values.
    pub open spec fn wf(&self) -> bool {
        self.byte() == 0 || self.byte() == 1
    }

    pub fn new() -> (r: Self)
        ensures
            r.wf(),
            !r.on(),
    {
        SharedFlag(Self::UNSET)
    }

    pub fn set(&mut self)
        ensures
            final(self).wf(),
            final(self).on(),
    {
        self.0 = Self::SET;
    }

    pub fn unset(&mut self)
        ensures
            final(self).wf(),
            !final(self).on(),
    {
        self.0 = Self::UNSET;
    }

    pub fn is_set(&self) -> (r: bool)
        ensures
            r == self.on(),
    {
        self.0 == Self::SET
    }

    pub fn is_unset(&self) -> (r: bool)
        requires
            self.wf(),
        ensures
            r == !self.on(),
    {
        self.0 == Self::UNSET
    }

    /// Sets the flag if `c` holds, else unsets it.
    pub fn set_cond(&mut self, c: bool)
        ensures
            final(self).wf(),
            final(self).on() == c,
    {
        if c {
            self.set();
        } else {
            self.unset();
        }
    }

    /// Sets the flag and tells whether this call was the one that set it.
    pub fn try_set(&mut self) -> (r: bool)
        requires
            old(self).wf(),
        ensures
            final(self).wf(),
            final(self).on(),
            r == !old(self).on(),
    {
        if self.is_set() {
            return false;
        }
        self.0 = Self::SET;
        true
    }

    /// Unsets the flag and tells whether this call was the one that unset it.
    pub fn try_unset(&mut self) -> (r: bool)
        requires
            old(self).wf(),
        ensures
            final(self).wf(),
            !final(self).on(),
            r == old(self).on(),
    {
        if self.is_unset() {
            return false;
        }
        self.0 = Self::UNSET;
        true
    }
}

} // verus!
