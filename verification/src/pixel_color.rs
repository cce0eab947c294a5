//! Colours.

use vstd::prelude::*;

verus! {

/// A colour of four 8-bit channels.  The library never interprets the
/// channels; it only hands them to the canvas.
#[derive(Clone, Copy, Debug, PartialEq, Eq, Structural)]
pub struct PixelColor {
    pub red: u8,
    pub green: u8,
    pub blue: u8,
    pub alpha: u8,
}

impl PixelColor {
    /// Full red, every other channel zero.
    pub fn red() -> (color: PixelColor)
        ensures
            color == (PixelColor { red: 255, green: 0, blue: 0, alpha: 0 }),
    {
        PixelColor { red: 255, green: 0, blue: 0, alpha: 0 }
    }

    /// Every channel zero.
    pub fn black() -> (color: PixelColor)
        ensures
            color == (PixelColor { red: 0, green: 0, blue: 0, alpha: 0 }),
    {
        PixelColor { red: 0, green: 0, blue: 0, alpha: 0 }
    }
}

} // verus!
