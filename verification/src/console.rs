//! The text console: 25 rows of 80 cells, a cursor that says where the next character goes,
//! and the rules by which bytes move it. What is shown is kept here, cell by cell; putting it
//! on a screen is left to whoever owns one.

use vstd::prelude::*;
use vstd::string::StringSliceAdditionalSpecFns;
use crate::graphics::{code_of, Color};
use crate::io::IoWriter;

verus! {

/// What is shown for a byte that has no picture.
pub const UNPRINTABLE_BLOCK: u8 = 0x3F;

pub const BACKSPACE: u8 = 0x08;

pub const DELETE: u8 = 0x7F;

pub const NEW_LINE: u8 = 0x0A;

pub const CARRIAGE_RETURN: u8 = 0x0D;

pub const TAB: u8 = 0x09;

pub const ESCAPE: u8 = 0x1B;

pub const SPACE: u8 = 0x20;

/// Spaces that a tab comes to, less one.
pub const TAB_STOP: usize = 4;

/// Cells in a row.
pub const WIDTH: usize = 80;

/// Rows.
pub const HEIGHT: usize = 25;

/// White on blue.
pub const DEFAULT_TEXT_COLOR: u8 = 0x1F;

/// Black on red.
pub const ERROR_TEXT_COLOR: u8 = 0x40;

/// One cell of the screen: a character and the colours it is shown in, the foreground in the
/// low four bits and the background in the high four.
#[derive(Debug, Clone, Copy, PartialEq, Eq, Structural)]
pub struct ScreenCharacter {
    pub character: u8,
    pub color: u8,
}

/// The mathematical value of a [`Console`].
pub struct ConsoleView {
    /// The cells, row after row.
    pub cells: Seq<ScreenCharacter>,
    /// The column of the cursor. It stands at 80 when a row has just been filled.
    pub x: usize,
    /// The row of the cursor.
    pub y: usize,
    /// The colours in which characters are written.
    pub color: u8,
    /// Whether the cursor is shown, and where.
    pub cursor: Option<(usize, usize)>,
}

/// A blank in the colours `color`.
pub open spec fn blank(color: u8) -> ScreenCharacter {
    ScreenCharacter { character: SPACE, color }
}

/// The byte has a picture of its own.
pub open spec fn printable(byte: u8) -> bool {
    0x20 <= byte <= 0x7E
}

/// The byte moves the cursor and shows nothing of its own.
pub open spec fn control(byte: u8) -> bool {
    byte == NEW_LINE || byte == CARRIAGE_RETURN || byte == DELETE || byte == BACKSPACE
}

/// The console after `character` has been put at the cursor, which moves one cell on.
pub open spec fn put(v: ConsoleView, character: u8) -> ConsoleView {
    ConsoleView {
        cells: v.cells.update(80 * v.y + v.x, ScreenCharacter { character, color: v.color }),
        x: (v.x + 1) as usize,
        ..v
    }
}

/// The cells after every row has moved up by one and the last row has been blanked.
pub open spec fn scrolled(cells: Seq<ScreenCharacter>, color: u8) -> Seq<ScreenCharacter> {
    Seq::new(
        2000,
        |i: int|
            if i < 1920 {
                cells[i + 80]
            } else {
                blank(color)
            },
    )
}

/// The console after the cursor has gone to the start of the next row. From the last row
/// there is no next: the rows move up instead.
pub open spec fn line_fed(v: ConsoleView) -> ConsoleView {
    if v.y + 1 >= 25 {
        ConsoleView { cells: scrolled(v.cells, v.color), x: 0, y: 24, ..v }
    } else {
        ConsoleView { x: 0, y: (v.y + 1) as usize, ..v }
    }
}

/// The console after the cursor has stepped back, unless it stood at the start of its row,
/// and the cell it then stands on has been blanked.
pub open spec fn erased(v: ConsoleView) -> ConsoleView {
    let x = if v.x > 0 {
        (v.x - 1) as usize
    } else {
        v.x
    };
    ConsoleView { cells: v.cells.update(80 * v.y + x, blank(v.color)), x, ..v }
}

/// The console after one byte has been written.
pub open spec fn typed(v: ConsoleView, byte: u8) -> ConsoleView {
    if printable(byte) {
        put(v, byte)
    } else if byte == NEW_LINE {
        line_fed(v)
    } else if byte == CARRIAGE_RETURN {
        ConsoleView { x: 0, ..v }
    } else if byte == DELETE || byte == BACKSPACE {
        erased(v)
    } else {
        put(v, UNPRINTABLE_BLOCK)
    }
}

/// The console after the row `row` has been blanked. The cursor is left behind its last cell.
pub open spec fn row_cleared(v: ConsoleView, row: int) -> ConsoleView {
    ConsoleView {
        cells: Seq::new(
            2000,
            |i: int|
                if 80 * row <= i < 80 * row + 80 {
                    blank(v.color)
                } else {
                    v.cells[i]
                },
        ),
        x: 80,
        y: row as usize,
        ..v
    }
}

/// The console after the bytes of `bytes` have been written one after another. A byte that
/// finds the cursor behind the last cell of a row goes to the start of the next row.
pub open spec fn printed(v: ConsoleView, bytes: Seq<u8>) -> ConsoleView
    decreases bytes.len(),
{
    if bytes.len() == 0 {
        v
    } else {
        let before = printed(v, bytes.drop_last());
        if before.x >= 80 {
            typed(line_fed(before), bytes.last())
        } else {
            typed(before, bytes.last())
        }
    }
}

/// Where the text that starts at `from` ends: at the first zero byte, or at the end of
/// `bytes`.
pub open spec fn zero_at(bytes: Seq<u8>, from: int) -> int
    decreases bytes.len() - from,
{
    if from < 0 || from >= bytes.len() || bytes[from] == 0 {
        from
    } else {
        zero_at(bytes, from + 1)
    }
}

/// The console.
pub struct Console {
    cells: Vec<ScreenCharacter>,
    x: usize,
    y: usize,
    foreground: u8,
    cursor: Option<(usize, usize)>,
}

impl View for Console {
    type V = ConsoleView;

    closed spec fn view(&self) -> ConsoleView {
        ConsoleView { cells: self.cells@, x: self.x, y: self.y, color: self.foreground, cursor: self.cursor }
    }
}

impl Console {
    #[verifier::type_invariant]
    spec fn shape(self) -> bool {
        &&& self.cells@.len() == 2000
        &&& self.x <= 80
        &&& self.y < 25
    }

    /// A console has 2000 cells, and its cursor stands in one of the 25 rows, at most one
    /// cell behind the last.
    pub open spec fn wf(v: ConsoleView) -> bool {
        &&& v.cells.len() == 2000
        &&& v.x <= 80
        &&& v.y < 25
    }

    /// A console with the cursor in the top left corner that writes in the colours `color`.
    /// Every cell holds a blank in these colours.
    pub fn new(color: u8) -> (c: Console)
        ensures
            Self::wf(c@),
            c@ == (ConsoleView { cells: Seq::new(2000, |i: int| blank(color)), x: 0, y: 0, color, cursor: None }),
    {
        let mut cells: Vec<ScreenCharacter> = Vec::new();
        let mut i: usize = 0;
        while i < 2000
            invariant
                i <= 2000,
                cells@.len() == i,
                forall|j: int| 0 <= j < i ==> cells@[j] == blank(color),
            decreases 2000 - i,
        {
            cells.push(ScreenCharacter { character: SPACE, color });
            i += 1;
        }
        let c = Console { cells, x: 0, y: 0, foreground: color, cursor: None };
        assert(c@.cells =~= Seq::new(2000, |i: int| blank(color)));
        c
    }

    /// The cell in column `x` of row `y`.
    pub fn cell(&self, x: usize, y: usize) -> (c: ScreenCharacter)
        requires
            x < WIDTH,
            y < HEIGHT,
        ensures
            Self::wf(self@),
            c == self@.cells[80 * y + x],
    {
        proof {
            use_type_invariant(self);
        }
        self.cells[80 * y + x]
    }

    /// Where the cursor stands: column, then row.
    pub fn position(&self) -> (p: (usize, usize))
        ensures
            Self::wf(self@),
            p == (self@.x, self@.y),
    {
        proof {
            use_type_invariant(self);
        }
        (self.x, self.y)
    }

    /// Whether the cursor is shown, and where.
    pub fn cursor(&self) -> (c: Option<(usize, usize)>)
        ensures
            c == self@.cursor,
    {
        self.cursor
    }

    /// The colours in which characters are written.
    pub fn color(&self) -> (c: u8)
        ensures
            c == self@.color,
    {
        self.foreground
    }

    /// Moves the cursor to column `x` of row `y` and writes `byte` there.
    pub fn write_byte_at_pos(&mut self, byte: u8, x: usize, y: usize)
        requires
            y < HEIGHT,
            x < WIDTH || (x == WIDTH && control(byte)),
        ensures
            final(self)@ == typed(ConsoleView { x, y, ..old(self)@ }, byte),
    {
        proof {
            use_type_invariant(&*self);
        }
        self.x = x;
        self.y = y;
        self.write_byte(byte);
    }

    /// Writes one byte. A byte from blank to `~` is shown at the cursor, which moves on. New
    /// line and carriage return move the cursor. Backspace and delete step back, unless the
    /// cursor stands at the start of its row, and blank the cell. Any other byte is shown as
    /// a question mark. A byte that is shown needs a cell: the cursor must not stand behind
    /// the last cell of its row.
    pub fn write_byte(&mut self, byte: u8)
        requires
            old(self)@.x < WIDTH || control(byte),
        ensures
            final(self)@ == typed(old(self)@, byte),
    {
        proof {
            use_type_invariant(&*self);
        }
        if 0x20 <= byte && byte <= 0x7E {
            self.show(byte);
        } else if byte == NEW_LINE {
            self.new_line();
        } else if byte == CARRIAGE_RETURN {
            self.carriage_return();
        } else if byte == DELETE || byte == BACKSPACE {
            if self.x > 0 {
                self.x -= 1;
            }
            self.erase_current();
        } else {
            self.show(UNPRINTABLE_BLOCK);
        }
    }

    fn show(&mut self, character: u8)
        requires
            old(self)@.x < WIDTH,
        ensures
            final(self)@ == put(old(self)@, character),
    {
        proof {
            use_type_invariant(&*self);
        }
        let at = 80 * self.y + self.x;
        self.cells[at] = ScreenCharacter { character, color: self.foreground };
        self.x += 1;
    }

    fn erase_current(&mut self)
        requires
            old(self)@.x < WIDTH,
        ensures
            final(self)@ == (ConsoleView {
                cells: old(self)@.cells.update(80 * old(self)@.y + old(self)@.x, blank(old(self)@.color)),
                ..old(self)@
            }),
    {
        proof {
            use_type_invariant(&*self);
        }
        let at = 80 * self.y + self.x;
        self.cells[at] = ScreenCharacter { character: SPACE, color: self.foreground };
    }

    fn new_line(&mut self)
        ensures
            final(self)@ == line_fed(old(self)@),
    {
        proof {
            use_type_invariant(&*self);
        }
        if self.y + 1 >= HEIGHT {
            self.shift_contents_up();
            self.y = HEIGHT - 1;
        } else {
            self.y += 1;
        }
        self.carriage_return()
    }

    /// Blanks every cell. The cursor stays where it is.
    pub fn clear(&mut self)
        ensures
            final(self)@ == (ConsoleView {
                cells: Seq::new(2000, |i: int| blank(old(self)@.color)),
                ..old(self)@
            }),
    {
        proof {
            use_type_invariant(&*self);
        }
        let mut i: usize = 0;
        while i < 2000
            invariant
                i <= 2000,
                self.cells@.len() == 2000,
                self.x == old(self).x,
                self.y == old(self).y,
                self.x <= 80,
                self.y < 25,
                self.foreground == old(self).foreground,
                self.cursor == old(self).cursor,
                forall|j: int| 0 <= j < i ==> self.cells@[j] == blank(self.foreground),
            decreases 2000 - i,
        {
            self.cells[i] = ScreenCharacter { character: SPACE, color: self.foreground };
            i += 1;
        }
        assert(self@.cells =~= Seq::new(2000, |i: int| blank(old(self)@.color)));
    }

    /// Moves every row up by one and blanks the last row.
    fn shift_contents_up(&mut self)
        ensures
            final(self)@ == (ConsoleView {
                cells: scrolled(old(self)@.cells, old(self)@.color),
                x: 80,
                y: 24,
                ..old(self)@
            }),
    {
        proof {
            use_type_invariant(&*self);
        }
        let mut i: usize = 0;
        while i < 1920
            invariant
                i <= 1920,
                self.cells@.len() == 2000,
                self.x <= 80,
                self.y < 25,
                self.foreground == old(self).foreground,
                self.cursor == old(self).cursor,
                forall|j: int| 0 <= j < i ==> self.cells@[j] == old(self).cells@[j + 80],
                forall|j: int| i <= j < 2000 ==> self.cells@[j] == old(self).cells@[j],
            decreases 1920 - i,
        {
            self.cells[i] = self.cells[i + 80];
            i += 1;
        }
        let ghost moved = self@.cells;
        self.clear_last_row();
        assert(self@.cells =~= scrolled(old(self)@.cells, old(self)@.color));
    }

    fn carriage_return(&mut self)
        ensures
            final(self)@ == (ConsoleView { x: 0, ..old(self)@ }),
    {
        proof {
            use_type_invariant(&*self);
        }
        self.x = 0;
    }

    /// Moves the cursor to the top left corner.
    pub fn home(&mut self)
        ensures
            final(self)@ == (ConsoleView { x: 0, y: 0, ..old(self)@ }),
    {
        proof {
            use_type_invariant(&*self);
        }
        self.x = 0;
        self.y = 0;
    }

    /// Shows the cursor where it was shown last, or in the top left corner.
    pub fn enable_cursor(&mut self)
        ensures
            final(self)@ == (ConsoleView {
                cursor: match old(self)@.cursor {
                    Some(p) => Some(p),
                    None => Some((0usize, 0usize)),
                },
                ..old(self)@
            }),
    {
        proof {
            use_type_invariant(&*self);
        }
        if self.cursor.is_none() {
            self.cursor = Some((0, 0));
        }
    }

    /// Hides the cursor.
    pub fn disable_cursor(&mut self)
        ensures
            final(self)@ == (ConsoleView { cursor: None, ..old(self)@ }),
    {
        proof {
            use_type_invariant(&*self);
        }
        self.cursor = None;
    }

    /// Shows the cursor in column `x` of row `y`.
    pub fn position_cursor(&mut self, x: usize, y: usize)
        ensures
            final(self)@ == (ConsoleView { cursor: Some((x, y)), ..old(self)@ }),
    {
        proof {
            use_type_invariant(&*self);
        }
        self.cursor = Some((x, y));
    }

    /// Blanks the row of the cursor and leaves the cursor behind its last cell.
    pub fn clear_current_row(&mut self)
        ensures
            final(self)@ == row_cleared(old(self)@, old(self)@.y as int),
    {
        proof {
            use_type_invariant(&*self);
        }
        let y = self.y;
        self.blank_row(y);
    }

    /// Blanks the last row and leaves the cursor behind its last cell.
    pub fn clear_last_row(&mut self)
        ensures
            final(self)@ == row_cleared(old(self)@, 24),
    {
        self.blank_row(24);
    }

    fn blank_row(&mut self, row: usize)
        requires
            row < HEIGHT,
        ensures
            final(self)@ == row_cleared(old(self)@, row as int),
    {
        proof {
            use_type_invariant(&*self);
        }
        self.carriage_return();
        let mut x: usize = 0;
        while x < WIDTH
            invariant
                x <= WIDTH,
                row < HEIGHT,
                self.cells@.len() == 2000,
                self.x <= 80,
                self.y < 25,
                self.foreground == old(self).foreground,
                self.cursor == old(self).cursor,
                forall|j: int| 80 * row <= j < 80 * row + x ==> self.cells@[j] == blank(self.foreground),
                forall|j: int|
                    0 <= j < 2000 && !(80 * row <= j < 80 * row + x) ==> self.cells@[j] == old(self).cells@[j],
            decreases WIDTH - x,
        {
            self.x = x;
            self.y = row;
            self.show(SPACE);
            x += 1;
        }
        self.x = WIDTH;
        self.y = row;
        assert(self@.cells =~= row_cleared(old(self)@, row as int).cells);
    }

    /// Writes in another foreground colour from now on.
    pub fn set_foreground_color(&mut self, color: Color)
        ensures
            final(self)@ == (ConsoleView {
                color: (old(self)@.color / 16 * 16 + code_of(color)) as u8,
                ..old(self)@
            }),
    {
        proof {
            use_type_invariant(&*self);
        }
        self.foreground = self.foreground / 16 * 16 + color.code();
    }

    /// Writes on another background colour from now on.
    pub fn set_background_color(&mut self, color: Color)
        ensures
            final(self)@ == (ConsoleView {
                color: (code_of(color) * 16 + old(self)@.color % 16) as u8,
                ..old(self)@
            }),
    {
        proof {
            use_type_invariant(&*self);
        }
        self.foreground = color.code() * 16 + self.foreground % 16;
    }
}

impl<'a> IoWriter<&'a str> for Console {
    /// Writes the bytes of a text one after another, up to the first zero byte. A byte that
    /// finds the cursor behind the last cell of a row goes to the start of the next row.
    fn write(&mut self, item: &'a str)
        ensures
            final(self)@ == printed(old(self)@, item.spec_bytes().take(zero_at(item.spec_bytes(), 0))),
    {
        let bytes = item.as_bytes();
        let mut i: usize = 0;
        assert(bytes@.take(0) =~= Seq::<u8>::empty());
        while i < bytes.len()
            invariant
                i <= bytes@.len(),
                bytes@ == item.spec_bytes(),
                zero_at(bytes@, 0) == zero_at(bytes@, i as int),
                self@ == printed(old(self)@, bytes@.take(i as int)),
            decreases bytes@.len() - i,
        {
            let byte = bytes[i];
            if byte == 0 {
                return;
            }
            proof {
                use_type_invariant(&*self);
                assert(bytes@.take(i as int + 1).drop_last() =~= bytes@.take(i as int));
            }
            if self.x >= WIDTH {
                self.write_byte(NEW_LINE);
                self.write_byte(CARRIAGE_RETURN);
            }
            proof {
                use_type_invariant(&*self);
            }
            self.write_byte(byte);
            i += 1;
        }
        assert(bytes@.take(i as int) =~= bytes@);
    }
}

} // verus!
