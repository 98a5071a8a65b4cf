//! One RGBA pixel.

use vstd::prelude::*;

verus! {

/// A pixel of four 8-bit channels.
#[derive(Clone, Copy, Debug, PartialEq, Eq, Structural)]
pub struct Pixel {
    pub r: u8,
    pub g: u8,
    pub b: u8,
    pub a: u8,
}

impl Pixel {
    /// A pixel whose alpha channel is zero shows nothing and is never sent.
    pub open spec fn transparent(self) -> bool {
        self.a == 0
    }

    /// Builds a pixel from its four channels.
    pub fn new(r: u8, g: u8, b: u8, a: u8) -> (p: Pixel)
        ensures
            p == (Pixel { r, g, b, a }),
    {
        Pixel { r, g, b, a }
    }

    /// Whether the pixel is fully transparent.
    pub fn is_transparent(&self) -> (t: bool)
        ensures
            t == self.transparent(),
    {
        self.a == 0
    }
}

} // verus!
