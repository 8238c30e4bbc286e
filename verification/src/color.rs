//! Display colours: three 8-bit channels and an opacity.
use vstd::prelude::*;

verus! {

/// A colour as a display shows it.
#[derive(Copy, Clone, Debug, PartialEq, Eq, Structural)]
pub struct Color {
    pub r: u8,
    pub g: u8,
    pub b: u8,
    pub a: u8,
}

impl Color {
    /// The colour with the given channels and opacity.
    pub fn new(r: u8, g: u8, b: u8, a: u8) -> (c: Color)
        ensures
            c == (Color { r, g, b, a }),
    {
        Color { r, g, b, a }
    }

    /// Opaque white.
    pub open spec fn spec_white() -> Color {
        Color { r: 255, g: 255, b: 255, a: 255 }
    }

    /// Opaque white.
    #[verifier::when_used_as_spec(spec_white)]
    pub fn white() -> (c: Color)
        ensures
            c == Color::spec_white(),
    {
        Color { r: 255, g: 255, b: 255, a: 255 }
    }

    /// Opaque black.
    pub open spec fn spec_black() -> Color {
        Color { r: 0, g: 0, b: 0, a: 255 }
    }

    /// Opaque black.
    #[verifier::when_used_as_spec(spec_black)]
    pub fn black() -> (c: Color)
        ensures
            c == Color::spec_black(),
    {
        Color { r: 0, g: 0, b: 0, a: 255 }
    }

    /// Fully transparent black.
    pub open spec fn spec_blank() -> Color {
        Color { r: 0, g: 0, b: 0, a: 0 }
    }

    /// Fully transparent black.
    #[verifier::when_used_as_spec(spec_blank)]
    pub fn blank() -> (c: Color)
        ensures
            c == Color::spec_blank(),
    {
        Color { r: 0, g: 0, b: 0, a: 0 }
    }
}

} // verus!
