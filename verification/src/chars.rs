use vstd::prelude::*;

verus! {

/// The four reserved byte values of the framing scheme.
///
/// The transforms accept a set only if its four values are pairwise
/// distinct, see [`SpecialChars::distinct`].
#[derive(Debug, Copy, Clone)]
pub struct SpecialChars {
    /// Frame END: marks the beginning and the end of a frame.
    pub fend: u8,
    /// Frame ESCape: introduces a two-byte substitution.
    pub fesc: u8,
    /// Trade Frame END: follows `fesc` in place of a payload `fend`.
    pub tfend: u8,
    /// Trade Frame ESCape: follows `fesc` in place of a payload `fesc`.
    pub tfesc: u8,
}

impl SpecialChars {
    /// The four values are pairwise distinct.
    pub open spec fn distinct(self) -> bool {
        &&& self.fend != self.fesc
        &&& self.fend != self.tfend
        &&& self.fend != self.tfesc
        &&& self.fesc != self.tfend
        &&& self.fesc != self.tfesc
        &&& self.tfend != self.tfesc
    }

    /// The conventional set: `0x7E`, `0x7D`, `0x5E`, `0x5D`.
    pub open spec fn standard() -> SpecialChars {
        SpecialChars { fend: 0x7E, fesc: 0x7D, tfend: 0x5E, tfesc: 0x5D }
    }

    /// Builds a set from its four values, without judging them.
    pub fn new(fend: u8, fesc: u8, tfend: u8, tfesc: u8) -> (chars: SpecialChars)
        ensures
            chars == (SpecialChars { fend, fesc, tfend, tfesc }),
    {
        SpecialChars { fend, fesc, tfend, tfesc }
    }

    /// Tells whether the four values are pairwise distinct.
    pub fn is_distinct(&self) -> (ok: bool)
        ensures
            ok == self.distinct(),
    {
        self.fend != self.fesc && self.fend != self.tfend && self.fend != self.tfesc
            && self.fesc != self.tfend && self.fesc != self.tfesc && self.tfend != self.tfesc
    }
}

impl Default for SpecialChars {
    /// The conventional set: `0x7E`, `0x7D`, `0x5E`, `0x5D`.
    fn default() -> (chars: SpecialChars)
        ensures
            chars == SpecialChars::standard(),
    {
        SpecialChars { fend: 0x7E, fesc: 0x7D, tfend: 0x5E, tfesc: 0x5D }
    }
}

} // verus!
