use vstd::prelude::*;

verus! {

/// A colour with 8-bit red, green, blue and alpha channels.
#[derive(Debug, Clone, Copy, PartialEq, Eq, Structural)]
pub struct Color {
    pub r: u8,
    pub g: u8,
    pub b: u8,
    pub a: u8,
}

/// The opaque colour with the given channels.
pub open spec fn opaque(r: u8, g: u8, b: u8) -> Color {
    Color { r, g, b, a: 255 }
}

impl Color {
    /// An opaque colour (alpha 255).
    pub fn rgb(r: u8, g: u8, b: u8) -> (c: Self)
        ensures
            c == opaque(r, g, b),
    {
        Self { r, g, b, a: 255 }
    }

    /// A colour with an explicit alpha channel.
    pub fn rgba(r: u8, g: u8, b: u8, a: u8) -> (c: Self)
        ensures
            c == (Color { r, g, b, a }),
    {
        Self { r, g, b, a }
    }

    pub fn black() -> (c: Self)
        ensures
            c == opaque(0, 0, 0),
    {
        Self::rgb(0, 0, 0)
    }

    pub fn white() -> (c: Self)
        ensures
            c == opaque(255, 255, 255),
    {
        Self::rgb(255, 255, 255)
    }

    pub fn red() -> (c: Self)
        ensures
            c == opaque(255, 0, 0),
    {
        Self::rgb(255, 0, 0)
    }

    pub fn green() -> (c: Self)
        ensures
            c == opaque(0, 255, 0),
    {
        Self::rgb(0, 255, 0)
    }

    pub fn blue() -> (c: Self)
        ensures
            c == opaque(0, 0, 255),
    {
        Self::rgb(0, 0, 255)
    }

    pub fn yellow() -> (c: Self)
        ensures
            c == opaque(255, 255, 0),
    {
        Self::rgb(255, 255, 0)
    }

    pub fn cyan() -> (c: Self)
        ensures
            c == opaque(0, 255, 255),
    {
        Self::rgb(0, 255, 255)
    }

    pub fn magenta() -> (c: Self)
        ensures
            c == opaque(255, 0, 255),
    {
        Self::rgb(255, 0, 255)
    }

    pub fn bright_black() -> (c: Self)
        ensures
            c == opaque(128, 128, 128),
    {
        Self::rgb(128, 128, 128)
    }

    pub fn bright_red() -> (c: Self)
        ensures
            c == opaque(255, 85, 85),
    {
        Self::rgb(255, 85, 85)
    }

    pub fn bright_green() -> (c: Self)
        ensures
            c == opaque(85, 255, 85),
    {
        Self::rgb(85, 255, 85)
    }

    pub fn bright_yellow() -> (c: Self)
        ensures
            c == opaque(255, 255, 85),
    {
        Self::rgb(255, 255, 85)
    }

    pub fn bright_blue() -> (c: Self)
        ensures
            c == opaque(85, 85, 255),
    {
        Self::rgb(85, 85, 255)
    }

    pub fn bright_magenta() -> (c: Self)
        ensures
            c == opaque(255, 85, 255),
    {
        Self::rgb(255, 85, 255)
    }

    pub fn bright_cyan() -> (c: Self)
        ensures
            c == opaque(85, 255, 255),
    {
        Self::rgb(85, 255, 255)
    }

    pub fn bright_white() -> (c: Self)
        ensures
            c == opaque(255, 255, 255),
    {
        Self::rgb(255, 255, 255)
    }

    pub fn dark_gray() -> (c: Self)
        ensures
            c == opaque(64, 64, 64),
    {
        Self::rgb(64, 64, 64)
    }

    pub fn gray() -> (c: Self)
        ensures
            c == opaque(128, 128, 128),
    {
        Self::rgb(128, 128, 128)
    }

    pub fn light_gray() -> (c: Self)
        ensures
            c == opaque(192, 192, 192),
    {
        Self::rgb(192, 192, 192)
    }

    pub fn orange() -> (c: Self)
        ensures
            c == opaque(255, 165, 0),
    {
        Self::rgb(255, 165, 0)
    }

    pub fn purple() -> (c: Self)
        ensures
            c == opaque(128, 0, 128),
    {
        Self::rgb(128, 0, 128)
    }

    pub fn pink() -> (c: Self)
        ensures
            c == opaque(255, 105, 180),
    {
        Self::rgb(255, 105, 180)
    }

    pub fn brown() -> (c: Self)
        ensures
            c == opaque(139, 69, 19),
    {
        Self::rgb(139, 69, 19)
    }
}

} // verus!
