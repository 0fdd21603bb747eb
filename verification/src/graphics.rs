//! Pictures of at most 255 by 255 points in 16 colours.

use vstd::prelude::*;
use vstd::slice::slice_subrange;

verus! {

/// Points across the screen.
pub const WIDTH: usize = 640;

/// Points down the screen.
pub const HEIGHT: usize = 480;

/// The width of a character of the screen font, in points.
pub fn font_width() -> (w: usize)
    ensures
        w == 8,
{
    8
}

/// The 16 colours of the screen.
#[derive(Debug, Clone, Copy, PartialEq, Eq, Structural)]
pub enum Color {
    Black,
    Blue,
    Green,
    Cyan,
    Red,
    Magenta,
    Brown,
    LightGrey,
    DarkGrey,
    LightBlue,
    LightGreen,
    LightCyan,
    LightRed,
    Pink,
    Yellow,
    White,
}

/// The number of a colour, from 0 for black to 15 for white.
pub open spec fn code_of(c: Color) -> u8 {
    match c {
        Color::Black => 0,
        Color::Blue => 1,
        Color::Green => 2,
        Color::Cyan => 3,
        Color::Red => 4,
        Color::Magenta => 5,
        Color::Brown => 6,
        Color::LightGrey => 7,
        Color::DarkGrey => 8,
        Color::LightBlue => 9,
        Color::LightGreen => 10,
        Color::LightCyan => 11,
        Color::LightRed => 12,
        Color::Pink => 13,
        Color::Yellow => 14,
        Color::White => 15,
    }
}

impl Color {
    /// The number of the colour, from 0 for black to 15 for white.
    pub fn code(self) -> (n: u8)
        ensures
            n == code_of(self),
            n < 16,
    {
        match self {
            Color::Black => 0,
            Color::Blue => 1,
            Color::Green => 2,
            Color::Cyan => 3,
            Color::Red => 4,
            Color::Magenta => 5,
            Color::Brown => 6,
            Color::LightGrey => 7,
            Color::DarkGrey => 8,
            Color::LightBlue => 9,
            Color::LightGreen => 10,
            Color::LightCyan => 11,
            Color::LightRed => 12,
            Color::Pink => 13,
            Color::Yellow => 14,
            Color::White => 15,
        }
    }

    /// The colour with the number `n`, counted round in 16.
    pub fn from_code(n: u8) -> (c: Color)
        ensures
            code_of(c) == n % 16,
    {
        let k = n % 16;
        if k == 0 {
            Color::Black
        } else if k == 1 {
            Color::Blue
        } else if k == 2 {
            Color::Green
        } else if k == 3 {
            Color::Cyan
        } else if k == 4 {
            Color::Red
        } else if k == 5 {
            Color::Magenta
        } else if k == 6 {
            Color::Brown
        } else if k == 7 {
            Color::LightGrey
        } else if k == 8 {
            Color::DarkGrey
        } else if k == 9 {
            Color::LightBlue
        } else if k == 10 {
            Color::LightGreen
        } else if k == 11 {
            Color::LightCyan
        } else if k == 12 {
            Color::LightRed
        } else if k == 13 {
            Color::Pink
        } else if k == 14 {
            Color::Yellow
        } else {
            Color::White
        }
    }
}

/// A picture: its width and height, and one byte for every point, row after row. A point's
/// colour is its byte, counted round in 16.
#[derive(Debug, Copy, Clone)]
pub struct Image16<'a> {
    height: u8,
    width: u8,
    data: &'a [u8],
}

impl<'a> Image16<'a> {
    /// The width in points.
    pub closed spec fn columns(&self) -> u8 {
        self.width
    }

    /// The height in points.
    pub closed spec fn rows(&self) -> u8 {
        self.height
    }

    /// The bytes of the points, row after row.
    pub closed spec fn points(&self) -> Seq<u8> {
        self.data@
    }

    /// Reads a picture from its bytes: the width, the height, then the points.
    pub fn from(raw: &'a [u8]) -> (image: Image16<'a>)
        requires
            raw@.len() >= 2,
        ensures
            image.columns() == raw@[0],
            image.rows() == raw@[1],
            image.points() == raw@.subrange(2, raw@.len() as int),
    {
        Image16 { width: raw[0], height: raw[1], data: slice_subrange(raw, 2, raw.len()) }
    }

    /// The width in points.
    pub fn width(&self) -> (w: u8)
        ensures
            w == self.columns(),
    {
        self.width
    }

    /// The height in points.
    pub fn height(&self) -> (h: u8)
        ensures
            h == self.rows(),
    {
        self.height
    }

    /// The colour of the point in column `x` of row `y`. `None` when the picture has no such
    /// point or no byte for it.
    pub fn color_at(&self, x: u8, y: u8) -> (c: Option<Color>)
        ensures
            c is Some <==> x < self.columns() && y < self.rows() && y * self.columns() + x < self.points().len(),
            c matches Some(color) ==> code_of(color) == self.points()[y * self.columns() + x] % 16,
    {
        if x >= self.width || y >= self.height {
            return None;
        }
        assert(y * self.width <= 255 * 255) by (nonlinear_arith)
            requires
                y <= 255,
                self.width <= 255,
        ;
        let index = (y as u16 * self.width as u16 + x as u16) as usize;
        if index >= self.data.len() {
            return None;
        }
        Some(Color::from_code(self.data[index]))
    }
}

} // verus!
