//! Plain data for the text-mode display: colors, attribute bytes and screen
//! cells.  The display driver that copies these cells into the memory-mapped
//! video buffer lives with the rest of the kernel's hardware glue.

use vstd::prelude::*;

verus! {

/// The sixteen text-mode colors.
#[derive(Debug, Clone, Copy, PartialEq, Eq, Structural)]
pub enum Color {
    Black,
    Blue,
    Green,
    Cyan,
    Red,
    Magenta,
    Brown,
    LightGray,
    DarkGray,
    LightBlue,
    LightGreen,
    LightCyan,
    LightRed,
    Pink,
    Yellow,
    White,
}

/// The hardware number of each color.
pub open spec fn spec_color_number(c: Color) -> u8 {
    match c {
        Color::Black => 0,
        Color::Blue => 1,
        Color::Green => 2,
        Color::Cyan => 3,
        Color::Red => 4,
        Color::Magenta => 5,
        Color::Brown => 6,
        Color::LightGray => 7,
        Color::DarkGray => 8,
        Color::LightBlue => 9,
        Color::LightGreen => 10,
        Color::LightCyan => 11,
        Color::LightRed => 12,
        Color::Pink => 13,
        Color::Yellow => 14,
        Color::White => 15,
    }
}

impl Color {
    /// The hardware number of this color; always fits in a nibble.
    pub fn as_u8(self) -> (r: u8)
        ensures
            r == spec_color_number(self),
            r < 16,
    {
        match self {
            Color::Black => 0,
            Color::Blue => 1,
            Color::Green => 2,
            Color::Cyan => 3,
            Color::Red => 4,
            Color::Magenta => 5,
            Color::Brown => 6,
            Color::LightGray => 7,
            Color::DarkGray => 8,
            Color::LightBlue => 9,
            Color::LightGreen => 10,
            Color::LightCyan => 11,
            Color::LightRed => 12,
            Color::Pink => 13,
            Color::Yellow => 14,
            Color::White => 15,
        }
    }
}

/// A display attribute byte: background color in the high nibble,
/// foreground color in the low nibble.
#[derive(Debug, Clone, Copy, PartialEq, Eq, Structural)]
pub struct ColorCode(pub u8);

impl ColorCode {
    /// Pack a foreground and background color into one attribute byte.
    pub fn new(foreground: Color, background: Color) -> (r: ColorCode)
        ensures
            r.0 == spec_color_number(background) * 16 + spec_color_number(foreground),
    {
        let fg = foreground.as_u8();
        let bg = background.as_u8();
        let code = (bg << 4) | fg;
        proof {
            assert(code == bg * 16 + fg) by (bit_vector)
                requires
                    code == (bg << 4) | fg,
                    bg < 16,
                    fg < 16,
            ;
        }
        ColorCode(code)
    }
}

impl Default for ColorCode {
    /// White text on a black background.
    fn default() -> (r: Self)
        ensures
            r.0 == 15,
    {
        ColorCode::new(Color::White, Color::Black)
    }
}

/// One cell of the text-mode screen: a character byte and its colors.
#[derive(Debug, Clone, Copy, PartialEq, Eq, Structural)]
pub struct ScreenChar {
    pub ascii_character: u8,
    pub color_code: ColorCode,
}

impl ScreenChar {
    /// A space with default coloring.
    pub fn blank() -> (r: Self)
        ensures
            r.ascii_character == 32,
            r.color_code.0 == 15,
    {
        ScreenChar { ascii_character: 32, color_code: ColorCode::default() }
    }

    /// A null character with default coloring, used to denote the end of a
    /// line.  If you are not trying to denote the end of a line, consider
    /// using `blank`.
    pub fn null() -> (r: Self)
        ensures
            r.ascii_character == 0,
            r.color_code.0 == 15,
    {
        ScreenChar { ascii_character: 0, color_code: ColorCode::default() }
    }
}

} // verus!
