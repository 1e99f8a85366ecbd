//! Four-channel colours and their packed 32-bit form.

use vstd::prelude::*;

verus! {

/// An RGBA colour with eight bits per channel.
#[derive(Clone, Copy, Debug, PartialEq, Eq, Structural)]
pub struct RDColor {
    pub r: u8,
    pub g: u8,
    pub b: u8,
    pub a: u8,
}

/// The packed form of a colour: red in the lowest byte, alpha in the highest.
pub open spec fn packed(r: u8, g: u8, b: u8, a: u8) -> int {
    r as int + 256 * (g as int) + 65536 * (b as int) + 16777216 * (a as int)
}

impl RDColor {
    /// Opaque red.
    pub fn red() -> (color: RDColor)
        ensures
            color == (RDColor { r: 255, g: 0, b: 0, a: 255 }),
    {
        RDColor { r: 255, g: 0, b: 0, a: 255 }
    }

    /// Opaque green.
    pub fn green() -> (color: RDColor)
        ensures
            color == (RDColor { r: 0, g: 255, b: 0, a: 255 }),
    {
        RDColor { r: 0, g: 255, b: 0, a: 255 }
    }

    /// Opaque blue.
    pub fn blue() -> (color: RDColor)
        ensures
            color == (RDColor { r: 0, g: 0, b: 255, a: 255 }),
    {
        RDColor { r: 0, g: 0, b: 255, a: 255 }
    }

    /// Opaque yellow.
    pub fn yellow() -> (color: RDColor)
        ensures
            color == (RDColor { r: 255, g: 255, b: 0, a: 255 }),
    {
        RDColor { r: 255, g: 255, b: 0, a: 255 }
    }

    /// Opaque magenta.
    pub fn magenta() -> (color: RDColor)
        ensures
            color == (RDColor { r: 255, g: 0, b: 255, a: 255 }),
    {
        RDColor { r: 255, g: 0, b: 255, a: 255 }
    }

    /// Opaque cyan.
    pub fn cyan() -> (color: RDColor)
        ensures
            color == (RDColor { r: 0, g: 255, b: 255, a: 255 }),
    {
        RDColor { r: 0, g: 255, b: 255, a: 255 }
    }

    /// Opaque black.
    pub fn black() -> (color: RDColor)
        ensures
            color == (RDColor { r: 0, g: 0, b: 0, a: 255 }),
    {
        RDColor { r: 0, g: 0, b: 0, a: 255 }
    }

    /// Opaque white.
    pub fn white() -> (color: RDColor)
        ensures
            color == (RDColor { r: 255, g: 255, b: 255, a: 255 }),
    {
        RDColor { r: 255, g: 255, b: 255, a: 255 }
    }

    /// Black with zero alpha.
    pub fn transparent() -> (color: RDColor)
        ensures
            color == (RDColor { r: 0, g: 0, b: 0, a: 0 }),
    {
        RDColor { r: 0, g: 0, b: 0, a: 0 }
    }

    /// The colour's packed value, as a mathematical integer.
    pub open spec fn packed_spec(&self) -> int {
        packed(self.r, self.g, self.b, self.a)
    }

    /// Packs the four channels into one word, little end first: `r` occupies
    /// bits 0..8, `g` bits 8..16, `b` bits 16..24 and `a` bits 24..32.
    pub fn to_u32(&self) -> (word: u32)
        ensures
            word as int == self.packed_spec(),
            word & 0xff == self.r,
            (word >> 8) & 0xff == self.g,
            (word >> 16) & 0xff == self.b,
            (word >> 24) & 0xff == self.a,
    {
        let r: u32 = self.r as u32;
        let g: u32 = self.g as u32;
        let b: u32 = self.b as u32;
        let a: u32 = self.a as u32;
        let word: u32 = r | (g << 8) | (b << 16) | (a << 24);
        assert(word == r + 256 * g + 65536 * b + 16777216 * a && word & 0xff == r && (word >> 8)
            & 0xff == g && (word >> 16) & 0xff == b && (word >> 24) & 0xff == a) by (bit_vector)
            requires
                word == r | (g << 8) | (b << 16) | (a << 24),
                r < 256,
                g < 256,
                b < 256,
                a < 256,
        ;
        word
    }

    /// Builds a colour from its four channels.
    pub fn new(r: u8, g: u8, b: u8, a: u8) -> (color: RDColor)
        ensures
            color == (RDColor { r, g, b, a }),
    {
        RDColor { r, g, b, a }
    }
}

} // verus!
