//! The VGA text screen: colours, and a writer that lays text out on a
//! 25 by 80 grid of characters, scrolling up at each new line.
use vstd::prelude::*;
use vstd::string::StringSliceAdditionalSpecFns;

verus! {

/// The sixteen colours of the VGA text palette.
#[derive(Clone, Copy, Debug, PartialEq, Eq)]
pub enum Colour {
    Black,
    Blue,
    Green,
    Cyan,
    Red,
    Magenta,
    Brown,
    LightGray,
    DarkGray,
    LightBlue,
    LightGreen,
    LightCyan,
    LightRed,
    Pink,
    Yellow,
    White,
}

impl Colour {
    /// The colour's number in the palette, in the order of the variants.
    pub open spec fn spec_value(self) -> u8 {
        match self {
            Colour::Black => 0,
            Colour::Blue => 1,
            Colour::Green => 2,
            Colour::Cyan => 3,
            Colour::Red => 4,
            Colour::Magenta => 5,
            Colour::Brown => 6,
            Colour::LightGray => 7,
            Colour::DarkGray => 8,
            Colour::LightBlue => 9,
            Colour::LightGreen => 10,
            Colour::LightCyan => 11,
            Colour::LightRed => 12,
            Colour::Pink => 13,
            Colour::Yellow => 14,
            Colour::White => 15,
        }
    }

    /// The colour's number in the palette.
    pub fn value(self) -> (r: u8)
        ensures
            r == self.spec_value(),
            r < 16,
    {
        match self {
            Colour::Black => 0,
            Colour::Blue => 1,
            Colour::Green => 2,
            Colour::Cyan => 3,
            Colour::Red => 4,
            Colour::Magenta => 5,
            Colour::Brown => 6,
            Colour::LightGray => 7,
            Colour::DarkGray => 8,
            Colour::LightBlue => 9,
            Colour::LightGreen => 10,
            Colour::LightCyan => 11,
            Colour::LightRed => 12,
            Colour::Pink => 13,
            Colour::Yellow => 14,
            Colour::White => 15,
        }
    }
}

/// A foreground and a background colour packed in one attribute byte: the
/// background in the high four bits, the foreground in the low four.
#[derive(Clone, Copy, Debug, PartialEq, Eq)]
pub struct ColourCode(pub u8);

impl ColourCode {
    pub fn new(foreground: Colour, background: Colour) -> (r: ColourCode)
        ensures
            r.0 == background.spec_value() * 16 + foreground.spec_value(),
    {
        let f = foreground.value();
        let b = background.value();
        assert((b << 4u8) | f == b * 16 + f) by (bit_vector)
            requires
                f < 16,
                b < 16,
        ;
        ColourCode((b << 4u8) | f)
    }
}

/// Rows of the text screen.
pub const BUFFER_HEIGHT: usize = 25;

/// Columns of the text screen.
pub const BUFFER_WIDTH: usize = 80;

/// One cell of the screen: a code page 437 character and its colours.
#[derive(Clone, Copy, Debug, PartialEq, Eq)]
pub struct ScreenChar {
    pub ascii_character: u8,
    pub colour_code: ColourCode,
}

/// A space in the colours `c`.
pub open spec fn blank(c: ColourCode) -> ScreenChar {
    ScreenChar { ascii_character: 0x20, colour_code: c }
}

/// A row of spaces in the colours `c`.
pub open spec fn blank_row(c: ColourCode) -> Seq<ScreenChar> {
    Seq::new(BUFFER_WIDTH as nat, |i: int| blank(c))
}

/// The screen moved up one row, with a blank row at the bottom.
pub open spec fn scrolled(screen: Seq<Seq<ScreenChar>>, c: ColourCode) -> Seq<Seq<ScreenChar>> {
    screen.drop_first().push(blank_row(c))
}

/// The byte shown for `b`: printable ASCII and the newline as they are,
/// anything else as the block character 0xfe.
pub open spec fn shown(b: u8) -> u8 {
    if (0x20 <= b && b <= 0x7e) || b == 0x0a {
        b
    } else {
        0xfe
    }
}

/// Column and screen after writing byte `b` in the colours `c`: a newline
/// scrolls and returns to the first column; any other byte goes in the
/// bottom row at the column, after a new line where the row is full.
pub open spec fn after_byte(column: int, screen: Seq<Seq<ScreenChar>>, c: ColourCode, b: u8) -> (int, Seq<Seq<ScreenChar>>) {
    if b == 0x0a {
        (0, scrolled(screen, c))
    } else {
        let (col, rows) = if column >= BUFFER_WIDTH {
            (0, scrolled(screen, c))
        } else {
            (column, screen)
        };
        let last = BUFFER_HEIGHT - 1;
        (col + 1, rows.update(last, rows[last].update(col, ScreenChar { ascii_character: b, colour_code: c })))
    }
}

/// Column and screen after writing the bytes of `bytes` in turn, each as
/// `shown` gives it.
pub open spec fn after_bytes(column: int, screen: Seq<Seq<ScreenChar>>, c: ColourCode, bytes: Seq<u8>) -> (int, Seq<Seq<ScreenChar>>)
    decreases bytes.len(),
{
    if bytes.len() == 0 {
        (column, screen)
    } else {
        let (col, rows) = after_bytes(column, screen, c, bytes.drop_last());
        after_byte(col, rows, c, shown(bytes.last()))
    }
}

/// Writes text to a screen buffer at the bottom row, in one colour.
pub struct Writer {
    column_position: usize,
    colour_code: ColourCode,
    buffer: Vec<Vec<ScreenChar>>,
}

impl Writer {
    /// The column of the bottom row where the next character goes.
    pub closed spec fn column(&self) -> int {
        self.column_position as int
    }

    /// The colours in which text is written.
    pub closed spec fn colour(&self) -> ColourCode {
        self.colour_code
    }

    /// The screen's rows, from the top.
    pub closed spec fn screen(&self) -> Seq<Seq<ScreenChar>> {
        self.buffer@.map_values(|row: Vec<ScreenChar>| row@)
    }

    pub open spec fn wf(&self) -> bool {
        &&& self.screen().len() == BUFFER_HEIGHT
        &&& forall|r: int| 0 <= r < BUFFER_HEIGHT ==> (#[trigger] self.screen()[r]).len() == BUFFER_WIDTH
        &&& self.column() <= BUFFER_WIDTH
    }

    fn blank_row(colour_code: ColourCode) -> (r: Vec<ScreenChar>)
        ensures
            r@ == blank_row(colour_code),
    {
        let mut row: Vec<ScreenChar> = Vec::new();
        let mut i: usize = 0;
        while i < BUFFER_WIDTH
            invariant
                i <= BUFFER_WIDTH,
                row@ == Seq::new(i as nat, |j: int| blank(colour_code)),
            decreases BUFFER_WIDTH - i,
        {
            row.push(ScreenChar { ascii_character: 0x20, colour_code });
            i = i + 1;
            proof {
                assert(row@ =~= Seq::new(i as nat, |j: int| blank(colour_code)));
            }
        }
        row
    }

    /// A writer at the first column of a blank screen.
    pub fn new(colour_code: ColourCode) -> (r: Self)
        ensures
            r.wf(),
            r.column() == 0,
            r.colour() == colour_code,
            r.screen() == Seq::new(BUFFER_HEIGHT as nat, |i: int| blank_row(colour_code)),
    {
        let mut buffer: Vec<Vec<ScreenChar>> = Vec::new();
        let mut i: usize = 0;
        while i < BUFFER_HEIGHT
            invariant
                i <= BUFFER_HEIGHT,
                buffer@.len() == i,
                forall|j: int| 0 <= j < i ==> (#[trigger] buffer@[j])@ == blank_row(colour_code),
            decreases BUFFER_HEIGHT - i,
        {
            buffer.push(Self::blank_row(colour_code));
            i = i + 1;
        }
        let r = Writer { column_position: 0, colour_code, buffer };
        proof {
            assert(r.screen() =~= Seq::new(BUFFER_HEIGHT as nat, |i: int| blank_row(colour_code)));
        }
        r
    }

    /// The column of the bottom row where the next character goes.
    pub fn column_position(&self) -> (r: usize)
        ensures
            r == self.column(),
    {
        self.column_position
    }

    /// The character at `row`, `col` of the screen.
    pub fn screen_char(&self, row: usize, col: usize) -> (r: ScreenChar)
        requires
            self.wf(),
            row < BUFFER_HEIGHT,
            col < BUFFER_WIDTH,
        ensures
            r == self.screen()[row as int][col as int],
    {
        proof {
            assert(self.screen()[row as int] == self.buffer@[row as int]@);
        }
        self.buffer[row][col]
    }

    fn clear_row(&mut self, row: usize)
        requires
            old(self).wf(),
            row < BUFFER_HEIGHT,
        ensures
            final(self).wf(),
            final(self).column() == old(self).column(),
            final(self).colour() == old(self).colour(),
            final(self).screen() == old(self).screen().update(row as int, blank_row(old(self).colour())),
    {
        let blank = Self::blank_row(self.colour_code);
        self.buffer.set(row, blank);
        proof {
            assert(self.screen() =~= old(self).screen().update(row as int, blank_row(old(self).colour())));
        }
    }

    fn new_line(&mut self)
        requires
            old(self).wf(),
        ensures
            final(self).wf(),
            final(self).column() == 0,
            final(self).colour() == old(self).colour(),
            final(self).screen() == scrolled(old(self).screen(), old(self).colour()),
    {
        let top = self.buffer.remove(0);
        self.buffer.push(top);
        self.column_position = 0;
        proof {
            let old_screen = old(self).screen();
            assert(self.screen() =~= old_screen.drop_first().push(old_screen[0]));
            assert forall|r: int| 0 <= r < BUFFER_HEIGHT implies (#[trigger] self.screen()[r]).len() == BUFFER_WIDTH by {
                if r < BUFFER_HEIGHT - 1 {
                    assert(self.screen()[r] == old_screen[r + 1]);
                } else {
                    assert(self.screen()[r] == old_screen[0]);
                }
            }
        }
        self.clear_row(BUFFER_HEIGHT - 1);
        proof {
            assert(self.screen() =~= scrolled(old(self).screen(), old(self).colour()));
        }
    }

    /// Writes one byte: a newline scrolls; any other byte goes to the
    /// bottom row, after a new line where the row is full.
    pub fn write_byte(&mut self, byte: u8)
        requires
            old(self).wf(),
        ensures
            final(self).wf(),
            final(self).colour() == old(self).colour(),
            (final(self).column(), final(self).screen()) == after_byte(
                old(self).column(),
                old(self).screen(),
                old(self).colour(),
                byte,
            ),
    {
        if byte == 0x0a {
            self.new_line();
        } else {
            if self.column_position >= BUFFER_WIDTH {
                self.new_line();
            }
            let ghost mid = self.screen();
            let row = BUFFER_HEIGHT - 1;
            let col = self.column_position;
            let colour_code = self.colour_code;
            proof {
                assert(self.screen()[row as int] == self.buffer@[row as int]@);
                assert(col < BUFFER_WIDTH);
            }
            let mut line = self.buffer.remove(row);
            line.set(col, ScreenChar { ascii_character: byte, colour_code });
            self.buffer.insert(row, line);
            self.column_position = self.column_position + 1;
            proof {
                assert(self.screen() =~= mid.update(
                    row as int,
                    mid[row as int].update(col as int, ScreenChar { ascii_character: byte, colour_code }),
                ));
            }
        }
    }

    /// Writes the bytes of `s` in turn, showing bytes outside printable
    /// ASCII (other than the newline) as the block character 0xfe.
    pub fn write_string(&mut self, s: &str)
        requires
            old(self).wf(),
        ensures
            final(self).wf(),
            final(self).colour() == old(self).colour(),
            (final(self).column(), final(self).screen()) == after_bytes(
                old(self).column(),
                old(self).screen(),
                old(self).colour(),
                s.spec_bytes(),
            ),
    {
        let bytes = s.as_bytes();
        let mut i: usize = 0;
        while i < bytes.len()
            invariant
                self.wf(),
                self.colour() == old(self).colour(),
                bytes@ == s.spec_bytes(),
                i <= bytes@.len(),
                (self.column(), self.screen()) == after_bytes(
                    old(self).column(),
                    old(self).screen(),
                    old(self).colour(),
                    bytes@.subrange(0, i as int),
                ),
            decreases bytes@.len() - i,
        {
            let byte = bytes[i];
            let shown_byte = if (0x20 <= byte && byte <= 0x7e) || byte == 0x0a {
                byte
            } else {
                0xfe
            };
            self.write_byte(shown_byte);
            proof {
                let next = bytes@.subrange(0, i + 1);
                assert(next.drop_last() =~= bytes@.subrange(0, i as int));
            }
            i = i + 1;
        }
        proof {
            assert(bytes@.subrange(0, i as int) =~= bytes@);
        }
    }
}

} // verus!
