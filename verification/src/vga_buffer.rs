//! Text-mode display data: the colour palette and the packed colour code a
//! screen character carries. Writing to the memory-mapped text buffer itself
//! is left to the unverified kernel runtime.
use vstd::prelude::*;

verus! {

/// The sixteen colours of the text-mode palette.
#[derive(Debug, Clone, Copy, PartialEq, Eq, Structural)]
pub enum Color {
    Black,
    Blue,
    Green,
    Cyan,
    Red,
    Magenta,
    Brown,
    LightGray,
    DarkGray,
    LightBlue,
    LightGreen,
    LightCyan,
    LightRed,
    Pink,
    Yellow,
    White,
}

impl Color {
    /// The palette index of the colour.
    pub fn as_u8(self) -> (r: u8)
        ensures
            r == self.spec_index(),
    {
        match self {
            Color::Black => 0,
            Color::Blue => 1,
            Color::Green => 2,
            Color::Cyan => 3,
            Color::Red => 4,
            Color::Magenta => 5,
            Color::Brown => 6,
            Color::LightGray => 7,
            Color::DarkGray => 8,
            Color::LightBlue => 9,
            Color::LightGreen => 10,
            Color::LightCyan => 11,
            Color::LightRed => 12,
            Color::Pink => 13,
            Color::Yellow => 14,
            Color::White => 15,
        }
    }

    /// The palette index of the colour, as a mathematical value.
    pub open spec fn spec_index(self) -> int {
        match self {
            Color::Black => 0,
            Color::Blue => 1,
            Color::Green => 2,
            Color::Cyan => 3,
            Color::Red => 4,
            Color::Magenta => 5,
            Color::Brown => 6,
            Color::LightGray => 7,
            Color::DarkGray => 8,
            Color::LightBlue => 9,
            Color::LightGreen => 10,
            Color::LightCyan => 11,
            Color::LightRed => 12,
            Color::Pink => 13,
            Color::Yellow => 14,
            Color::White => 15,
        }
    }
}

/// A packed colour byte: background palette index in the high four bits,
/// foreground in the low four.
#[derive(Debug, Clone, Copy, PartialEq, Eq, Structural)]
pub struct ColorCode(pub u8);

impl ColorCode {
    /// Pack a foreground and background colour into one byte.
    pub fn new(foreground: Color, background: Color) -> (r: ColorCode)
        ensures
            r.0 == background.spec_index() * 16 + foreground.spec_index(),
    {
        let bg = background.as_u8();
        let fg = foreground.as_u8();
        proof {
            assert((bg << 4u8) | fg == bg * 16 + fg) by (bit_vector)
                requires
                    bg < 16u8,
                    fg < 16u8,
            ;
        }
        ColorCode((bg << 4) | fg)
    }
}

} // verus!
