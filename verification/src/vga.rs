//! VGA text-mode (80x25) screen driver.
//!
//! Each character cell is a byte of ASCII and a byte of color (low four bits
//! foreground, high four bits background). Text is written to the last row; when
//! the row is full the whole screen moves up by one row. The driver keeps the
//! cells; the machine copies them to video memory.
use vstd::prelude::*;
use vstd::utf8::encode_utf8;

verus! {

/// Rows of the text screen.
pub const BUFFER_HEIGHT: usize = 25;

/// Columns of the text screen.
pub const BUFFER_WIDTH: usize = 80;

/// Cells of the text screen.
pub const BUFFER_CELLS: usize = 2000;

/// The 16 standard VGA colors, in the order of their codes.
#[derive(Clone, Copy, PartialEq, Eq, Structural, Debug)]
pub enum Color {
    Black,
    Blue,
    Green,
    Cyan,
    Red,
    Magenta,
    Brown,
    LightGray,
    DarkGray,
    LightBlue,
    LightGreen,
    LightCyan,
    LightRed,
    Pink,
    Yellow,
    White,
}

impl Color {
    /// The code of the color.
    pub open spec fn number(self) -> u8 {
        match self {
            Color::Black => 0,
            Color::Blue => 1,
            Color::Green => 2,
            Color::Cyan => 3,
            Color::Red => 4,
            Color::Magenta => 5,
            Color::Brown => 6,
            Color::LightGray => 7,
            Color::DarkGray => 8,
            Color::LightBlue => 9,
            Color::LightGreen => 10,
            Color::LightCyan => 11,
            Color::LightRed => 12,
            Color::Pink => 13,
            Color::Yellow => 14,
            Color::White => 15,
        }
    }

    /// The code of the color.
    pub fn code(self) -> (r: u8)
        ensures
            r == self.number(),
            r < 16,
    {
        match self {
            Color::Black => 0,
            Color::Blue => 1,
            Color::Green => 2,
            Color::Cyan => 3,
            Color::Red => 4,
            Color::Magenta => 5,
            Color::Brown => 6,
            Color::LightGray => 7,
            Color::DarkGray => 8,
            Color::LightBlue => 9,
            Color::LightGreen => 10,
            Color::LightCyan => 11,
            Color::LightRed => 12,
            Color::Pink => 13,
            Color::Yellow => 14,
            Color::White => 15,
        }
    }
}

/// One character cell.
#[derive(Clone, Copy, PartialEq, Eq, Structural, Debug)]
pub struct ScreenChar {
    pub ascii_character: u8,
    pub color_code: u8,
}

/// The screen, and where the next character goes. Text only ever goes to the
/// last row, so the column is all that is kept.
pub struct Writer {
    pub column_position: usize,
    pub color_code: u8,
    pub cells: Vec<ScreenChar>,
}

/// The state of a [`Writer`].
#[verifier::ext_equal]
pub struct Screen {
    pub column: int,
    pub color: u8,
    pub cells: Seq<ScreenChar>,
}

impl View for Writer {
    type V = Screen;

    open spec fn view(&self) -> Screen {
        Screen {
            column: self.column_position as int,
            color: self.color_code,
            cells: self.cells@,
        }
    }
}

impl Screen {
    pub open spec fn wf(self) -> bool {
        0 <= self.column <= BUFFER_WIDTH && self.cells.len() == BUFFER_CELLS
    }

    /// The cell at a row and column.
    pub open spec fn cell(self, row: int, col: int) -> ScreenChar {
        self.cells[row * 80 + col]
    }

    /// A space in the current color.
    pub open spec fn blank(self) -> ScreenChar {
        ScreenChar { ascii_character: 0x20, color_code: self.color }
    }

    /// The screen moved up by one row, its last row blank, the column at the left.
    pub open spec fn scrolled(self) -> Screen {
        Screen {
            column: 0,
            cells: Seq::new(
                2000,
                |i: int|
                    if i < 1920 {
                        self.cells[i + 80]
                    } else {
                        self.blank()
                    },
            ),
            ..self
        }
    }

    /// The screen with `b` at the column in the last row, and the column moved on.
    pub open spec fn placed(self, b: u8) -> Screen {
        Screen {
            column: self.column + 1,
            cells: self.cells.update(
                1920 + self.column,
                ScreenChar { ascii_character: b, color_code: self.color },
            ),
            ..self
        }
    }

    /// The screen once a byte was written.
    pub open spec fn typed(self, b: u8) -> Screen {
        if b == 0x0a {
            self.scrolled()
        } else if self.column >= BUFFER_WIDTH {
            self.scrolled().placed(b)
        } else {
            self.placed(b)
        }
    }

    /// The screen once bytes were written, one after the other.
    pub open spec fn written(self, bytes: Seq<u8>) -> Screen
        decreases bytes.len(),
    {
        if bytes.len() == 0 {
            self
        } else {
            self.written(bytes.drop_last()).typed(bytes.last())
        }
    }
}

impl Writer {
    /// A blank screen, light green on black.
    pub fn new() -> (r: Writer)
        ensures
            r@.wf(),
            r@ == (Screen {
                column: 0,
                color: 10,
                cells: Seq::new(
                    2000,
                    |i: int| ScreenChar { ascii_character: 0x20, color_code: 10 },
                ),
            }),
    {
        let color_code: u8 = Color::Black.code() * 16 + Color::LightGreen.code();
        let blank = ScreenChar { ascii_character: 0x20, color_code };
        let mut cells: Vec<ScreenChar> = Vec::new();
        let mut i: usize = 0;
        while i < BUFFER_CELLS
            invariant
                i <= BUFFER_CELLS,
                cells@.len() == i,
                forall|j: int| 0 <= j < i ==> cells@[j] == blank,
            decreases BUFFER_CELLS - i,
        {
            cells.push(blank);
            i = i + 1;
        }
        assert(cells@ =~= Seq::new(
            2000,
            |i: int| ScreenChar { ascii_character: 0x20, color_code: 10 },
        ));
        Writer { column_position: 0, color_code, cells }
    }

    /// Put a character into a cell.
    pub fn write_char(&mut self, row: usize, col: usize, ch: ScreenChar)
        requires
            old(self)@.wf(),
            row < BUFFER_HEIGHT,
            col < BUFFER_WIDTH,
        ensures
            final(self)@.wf(),
            final(self)@ == (Screen {
                cells: old(self)@.cells.update(row * 80 + col, ch),
                ..old(self)@
            }),
    {
        self.cells[row * BUFFER_WIDTH + col] = ch;
    }

    /// The character in a cell.
    pub fn read_char(&self, row: usize, col: usize) -> (r: ScreenChar)
        requires
            self@.wf(),
            row < BUFFER_HEIGHT,
            col < BUFFER_WIDTH,
        ensures
            r == self@.cell(row as int, col as int),
    {
        self.cells[row * BUFFER_WIDTH + col]
    }

    /// Write one byte: a newline scrolls; anything else goes to the current
    /// column, after a scroll if the row is full.
    pub fn write_byte(&mut self, byte: u8)
        requires
            old(self)@.wf(),
        ensures
            final(self)@.wf(),
            final(self)@ == old(self)@.typed(byte),
    {
        if byte == 0x0a {
            self.new_line();
        } else {
            if self.column_position >= BUFFER_WIDTH {
                self.new_line();
            }
            let col: usize = self.column_position;
            self.write_char(
                BUFFER_HEIGHT - 1,
                col,
                ScreenChar { ascii_character: byte, color_code: self.color_code },
            );
            self.column_position = self.column_position + 1;
        }
    }

    /// Move every row up by one, and start a blank last row.
    pub fn new_line(&mut self)
        requires
            old(self)@.wf(),
        ensures
            final(self)@.wf(),
            final(self)@ == old(self)@.scrolled(),
    {
        let mut row: usize = 1;
        while row < BUFFER_HEIGHT
            invariant
                1 <= row <= BUFFER_HEIGHT,
                self@.wf(),
                self@.column == old(self)@.column,
                self@.color == old(self)@.color,
                old(self)@.wf(),
                forall|i: int| 0 <= i < (row - 1) * 80 ==> self@.cells[i] == old(self)@.cells[i + 80],
                forall|i: int| (row - 1) * 80 <= i < 2000 ==> self@.cells[i] == old(self)@.cells[i],
            decreases BUFFER_HEIGHT - row,
        {
            let mut col: usize = 0;
            while col < BUFFER_WIDTH
                invariant
                    1 <= row < BUFFER_HEIGHT,
                    col <= BUFFER_WIDTH,
                    self@.wf(),
                    self@.column == old(self)@.column,
                    self@.color == old(self)@.color,
                    old(self)@.wf(),
                    forall|i: int|
                        0 <= i < (row - 1) * 80 + col ==> self@.cells[i] == old(self)@.cells[i + 80],
                    forall|i: int|
                        (row - 1) * 80 + col <= i < 2000 ==> self@.cells[i] == old(self)@.cells[i],
                decreases BUFFER_WIDTH - col,
            {
                let character = self.read_char(row, col);
                self.write_char(row - 1, col, character);
                col = col + 1;
            }
            row = row + 1;
        }
        self.clear_row(BUFFER_HEIGHT - 1);
        self.column_position = 0;
        assert(self@.cells =~= old(self)@.scrolled().cells);
    }

    /// Blank a row in the current color.
    pub fn clear_row(&mut self, row: usize)
        requires
            old(self)@.wf(),
            row < BUFFER_HEIGHT,
        ensures
            final(self)@.wf(),
            final(self)@ == (Screen {
                cells: Seq::new(
                    2000,
                    |i: int|
                        if row * 80 <= i < row * 80 + 80 {
                            old(self)@.blank()
                        } else {
                            old(self)@.cells[i]
                        },
                ),
                ..old(self)@
            }),
    {
        let blank = ScreenChar { ascii_character: 0x20, color_code: self.color_code };
        let mut col: usize = 0;
        while col < BUFFER_WIDTH
            invariant
                col <= BUFFER_WIDTH,
                row < BUFFER_HEIGHT,
                self@.wf(),
                self@.column == old(self)@.column,
                self@.color == old(self)@.color,
                blank == old(self)@.blank(),
                forall|i: int|
                    0 <= i < 2000 ==> self@.cells[i] == if row * 80 <= i < row * 80 + col {
                        blank
                    } else {
                        old(self)@.cells[i]
                    },
            decreases BUFFER_WIDTH - col,
        {
            self.write_char(row, col, blank);
            col = col + 1;
        }
        assert(self@.cells =~= Seq::new(
            2000,
            |i: int|
                if row * 80 <= i < row * 80 + 80 {
                    old(self)@.blank()
                } else {
                    old(self)@.cells[i]
                },
        ));
    }

    /// Set the colors of what is written from now on (background in the high four
    /// bits).
    pub fn set_color(&mut self, foreground: Color, background: Color)
        requires
            old(self)@.wf(),
        ensures
            final(self)@.wf(),
            final(self)@ == (Screen {
                color: (background.number() * 16 + foreground.number()) as u8,
                ..old(self)@
            }),
    {
        self.color_code = background.code() * 16 + foreground.code();
    }

    /// Write the bytes of a text.
    pub fn write_str(&mut self, s: &str)
        requires
            old(self)@.wf(),
        ensures
            final(self)@.wf(),
            final(self)@ == old(self)@.written(encode_utf8(s@)),
    {
        let bytes = s.as_bytes();
        let mut i: usize = 0;
        while i < bytes.len()
            invariant
                i <= bytes@.len(),
                bytes@ == encode_utf8(s@),
                self@.wf(),
                self@ == old(self)@.written(bytes@.take(i as int)),
            decreases bytes@.len() - i,
        {
            assert(bytes@.take(i + 1).drop_last() =~= bytes@.take(i as int));
            self.write_byte(bytes[i]);
            i = i + 1;
        }
        assert(bytes@.take(i as int) =~= bytes@);
    }
}

/// Blank every row in the current color, and put the column at the left.
pub fn init(w: &mut Writer)
    requires
        old(w)@.wf(),
    ensures
        final(w)@.wf(),
        final(w)@ == (Screen {
            column: 0,
            cells: Seq::new(2000, |i: int| old(w)@.blank()),
            ..old(w)@
        }),
{
    let mut row: usize = 0;
    while row < BUFFER_HEIGHT
        invariant
            row <= BUFFER_HEIGHT,
            w@.wf(),
            w@.color == old(w)@.color,
            forall|i: int| 0 <= i < row * 80 ==> w@.cells[i] == old(w)@.blank(),
        decreases BUFFER_HEIGHT - row,
    {
        w.clear_row(row);
        row = row + 1;
    }
    w.column_position = 0;
    assert(w@.cells =~= Seq::new(2000, |i: int| old(w)@.blank()));
}

/// A newline moves every row up by one, so that what was in the last row stands
/// in the one above it, and leaves the last row blank.
pub proof fn law_newline_moves_rows_up(s: Screen, row: int, col: int)
    requires
        s.wf(),
        0 <= row < 25,
        0 <= col < 80,
    ensures
        s.typed(0x0a).wf(),
        s.typed(0x0a).cell(row, col) == if row < 24 {
            s.cell(row + 1, col)
        } else {
            s.blank()
        },
{
}

/// Bytes other than newlines that fit in the rest of the last row appear there in
/// order, and nothing else changes.
pub proof fn law_text_appears_in_order(s: Screen, bytes: Seq<u8>)
    requires
        s.wf(),
        s.column + bytes.len() <= 80,
        forall|i: int| 0 <= i < bytes.len() ==> bytes[i] != 0x0a,
    ensures
        s.written(bytes).wf(),
        s.written(bytes).column == s.column + bytes.len(),
        s.written(bytes).color == s.color,
        forall|i: int|
            0 <= i < bytes.len() ==> s.written(bytes).cell(24, s.column + i) == (ScreenChar {
                ascii_character: #[trigger] bytes[i],
                color_code: s.color,
            }),
        forall|j: int|
            0 <= j < 2000 && !(1920 + s.column <= j < 1920 + s.column + bytes.len())
                ==> #[trigger] s.written(bytes).cells[j] == s.cells[j],
    decreases bytes.len(),
{
    if bytes.len() > 0 {
        let front = bytes.drop_last();
        law_text_appears_in_order(s, front);
        assert forall|i: int| 0 <= i < bytes.len() implies s.written(bytes).cell(24, s.column + i)
            == (ScreenChar { ascii_character: #[trigger] bytes[i], color_code: s.color }) by {
            if i < front.len() {
                assert(front[i] == bytes[i]);
            }
        }
    }
}

/// How colors mix: blue is 1, green 2 and red 4, their sums are the other dark colors,
/// and each bright color is its dark one plus 8.
pub proof fn law_colors_mix()
    ensures
        Color::Black.number() == 0,
        Color::Blue.number() == 1,
        Color::Green.number() == 2,
        Color::Red.number() == 4,
        Color::Cyan.number() == Color::Blue.number() + Color::Green.number(),
        Color::Magenta.number() == Color::Blue.number() + Color::Red.number(),
        Color::Brown.number() == Color::Green.number() + Color::Red.number(),
        Color::LightGray.number() == Color::Blue.number() + Color::Green.number()
            + Color::Red.number(),
        Color::DarkGray.number() == Color::Black.number() + 8,
        Color::LightBlue.number() == Color::Blue.number() + 8,
        Color::LightGreen.number() == Color::Green.number() + 8,
        Color::LightCyan.number() == Color::Cyan.number() + 8,
        Color::LightRed.number() == Color::Red.number() + 8,
        Color::Pink.number() == Color::Magenta.number() + 8,
        Color::Yellow.number() == Color::Brown.number() + 8,
        Color::White.number() == Color::LightGray.number() + 8,
{
}

/// A byte behind a full row goes where it would go after a newline, at the left of the
/// last row; text in two portions appears as it does in one.
pub proof fn law_full_row_starts_a_new_one(s: Screen, b: u8, text: Seq<u8>, more: Seq<u8>)
    requires
        s.wf(),
    ensures
        b != 10 && s.column == 80 ==> s.typed(b) == s.typed(10).typed(b),
        b != 10 && s.column == 80 ==> s.typed(b).cell(24, 0).ascii_character == b,
        b != 10 && s.column == 80 ==> s.typed(b).column == 1,
        s.typed(10).column == 0,
        s.typed(10).color == s.color,
        s.written(text + more) == s.written(text).written(more),
    decreases more.len(),
{
    if more.len() == 0 {
        assert(text + more =~= text);
    } else {
        assert((text + more).drop_last() =~= text + more.drop_last());
        law_full_row_starts_a_new_one(s, b, text, more.drop_last());
    }
}

/// A blank is a space, number 32, in the current color.
pub proof fn law_blank_is_a_space(s: Screen)
    ensures
        s.blank().ascii_character == 32,
        s.blank().color_code == s.color,
{
}

} // verus!
