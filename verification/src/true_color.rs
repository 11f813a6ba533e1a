//! Eight-bit RGB colours, the form in which pixels are written to an image file.

use vstd::prelude::*;

verus! {

/// A colour with one byte per channel.
#[derive(Clone, Copy, Debug, PartialEq, Eq, Structural)]
pub struct TrueColor {
    pub r: u8,
    pub g: u8,
    pub b: u8,
}

/// The value of a channel once it is forced into the range of a byte: values
/// below 0 become 0, values above 255 become 255, all others stay.
pub open spec fn clamped(value: int) -> int {
    if value < 0 {
        0
    } else if value > 255 {
        255
    } else {
        value
    }
}

/// Clamps a channel value to the range `0..=255`.
///
/// The value is a channel already scaled to the 255-based range; nothing
/// outside the range is an error, it is cut off at the nearer end.
pub fn clamp_channel(value: i64) -> (byte: u8)
    ensures
        byte as int == clamped(value as int),
{
    if value < 0 {
        0
    } else if value > 255 {
        255
    } else {
        value as u8
    }
}

impl TrueColor {
    /// The colour all of whose channels are 0.
    pub open spec fn spec_black() -> TrueColor {
        TrueColor { r: 0, g: 0, b: 0 }
    }

    /// The channel of this colour at `index`: red, green and blue are
    /// 0, 1 and 2.
    pub open spec fn channel(self, index: int) -> u8 {
        if index == 0 {
            self.r
        } else if index == 1 {
            self.g
        } else {
            self.b
        }
    }

    pub fn new(r: u8, g: u8, b: u8) -> (color: TrueColor)
        ensures
            color == (TrueColor { r, g, b }),
    {
        TrueColor { r, g, b }
    }

    #[verifier::when_used_as_spec(spec_black)]
    pub fn black() -> (color: TrueColor)
        ensures
            color == Self::spec_black(),
    {
        TrueColor { r: 0, g: 0, b: 0 }
    }

    /// Builds a colour from three channel values in the 255-based range,
    /// clamping each one.
    pub fn from_scaled(r: i64, g: i64, b: i64) -> (color: TrueColor)
        ensures
            color.r as int == clamped(r as int),
            color.g as int == clamped(g as int),
            color.b as int == clamped(b as int),
    {
        TrueColor { r: clamp_channel(r), g: clamp_channel(g), b: clamp_channel(b) }
    }

    pub fn is_black(&self) -> (black: bool)
        ensures
            black == (*self == Self::spec_black()),
    {
        self.r == 0 && self.g == 0 && self.b == 0
    }
}

} // verus!
