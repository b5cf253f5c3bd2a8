//! Colour values.

use vstd::prelude::*;

verus! {

/// A colour as three channel intensities.
#[derive(Clone, Copy, Debug, PartialEq, Eq, Structural)]
pub struct RGB {
    pub red: u16,
    pub green: u16,
    pub blue: u16,
}

impl RGB {
    /// The colour with the given channels.
    pub fn new(red: u16, green: u16, blue: u16) -> (c: RGB)
        ensures
            c == (RGB { red, green, blue }),
    {
        RGB { red, green, blue }
    }

    /// The gray with all three channels at `level`.
    pub fn gray(level: u16) -> (c: RGB)
        ensures
            c == (RGB { red: level, green: level, blue: level }),
    {
        RGB { red: level, green: level, blue: level }
    }
}

} // verus!
