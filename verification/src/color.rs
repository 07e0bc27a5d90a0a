use vstd::prelude::*;

verus! {

/// An RGBA colour with eight bits per channel.
///
/// The rasterizer never blends: the alpha channel is stored and handed back
/// unchanged.
#[derive(Clone, Copy, Debug, PartialEq, Eq, Structural)]
pub struct Color {
    pub r: u8,
    pub g: u8,
    pub b: u8,
    pub a: u8,
}

impl Color {
    /// Builds a colour from its four channels.
    pub fn new(r: u8, g: u8, b: u8, a: u8) -> (c: Color)
        ensures
            c == (Color { r, g, b, a }),
    {
        Color { r, g, b, a }
    }

    /// Opaque white, the draw colour of a fresh frame buffer.
    pub open spec fn spec_white() -> Color {
        Color { r: 255, g: 255, b: 255, a: 255 }
    }

    /// Opaque white, the draw colour of a fresh frame buffer.
    #[verifier::when_used_as_spec(spec_white)]
    pub fn white() -> (c: Color)
        ensures
            c == Color::spec_white(),
    {
        Color { r: 255, g: 255, b: 255, a: 255 }
    }

    /// The deep blue that a fresh frame buffer is filled with.
    pub open spec fn spec_night_sky() -> Color {
        Color { r: 5, g: 5, b: 15, a: 255 }
    }

    /// The deep blue that a fresh frame buffer is filled with.
    #[verifier::when_used_as_spec(spec_night_sky)]
    pub fn night_sky() -> (c: Color)
        ensures
            c == Color::spec_night_sky(),
    {
        Color { r: 5, g: 5, b: 15, a: 255 }
    }
}

} // verus!
