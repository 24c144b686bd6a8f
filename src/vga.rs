//! Text-mode screen writer: 25 rows of 80 cells, written at the bottom row
//! and scrolled up a line at a time. The cells are held here as values; the
//! caller copies them to the hardware buffer.
use vstd::prelude::*;
use vstd::string::StringSliceAdditionalSpecFns;

verus! {

/// The sixteen text-mode colours.
#[derive(Clone, Copy, Debug, PartialEq, Eq, Structural)]
pub enum Color {
    Black,
    Blue,
    Green,
    Cyan,
    Red,
    Magenta,
    Brown,
    LightGray,
    DarkGray,
    LightBlue,
    LightGreen,
    LightCyan,
    LightRed,
    Pink,
    Yellow,
    White,
}

/// The hardware number of a colour.
pub open spec fn color_value(c: Color) -> u8 {
    match c {
        Color::Black => 0,
        Color::Blue => 1,
        Color::Green => 2,
        Color::Cyan => 3,
        Color::Red => 4,
        Color::Magenta => 5,
        Color::Brown => 6,
        Color::LightGray => 7,
        Color::DarkGray => 8,
        Color::LightBlue => 9,
        Color::LightGreen => 10,
        Color::LightCyan => 11,
        Color::LightRed => 12,
        Color::Pink => 13,
        Color::Yellow => 14,
        Color::White => 15,
    }
}

impl Color {
    /// The hardware number of the colour.
    pub fn value(self) -> (r: u8)
        ensures
            r == color_value(self),
            r < 16,
    {
        match self {
            Color::Black => 0,
            Color::Blue => 1,
            Color::Green => 2,
            Color::Cyan => 3,
            Color::Red => 4,
            Color::Magenta => 5,
            Color::Brown => 6,
            Color::LightGray => 7,
            Color::DarkGray => 8,
            Color::LightBlue => 9,
            Color::LightGreen => 10,
            Color::LightCyan => 11,
            Color::LightRed => 12,
            Color::Pink => 13,
            Color::Yellow => 14,
            Color::White => 15,
        }
    }
}

/// A foreground and a background colour packed in one byte: background in
/// the high four bits.
#[derive(Clone, Copy, Debug, PartialEq, Eq, Structural)]
pub struct ColorCode(u8);

impl View for ColorCode {
    type V = u8;

    closed spec fn view(&self) -> u8 {
        self.0
    }
}

impl ColorCode {
    /// `foreground` on `background`.
    pub fn new(foreground: Color, background: Color) -> (r: ColorCode)
        ensures
            r@ == color_value(background) * 16 + color_value(foreground),
    {
        ColorCode(background.value() * 16 + foreground.value())
    }
}

/// One cell of the screen: a character and its colours.
#[derive(Clone, Copy, Debug, PartialEq, Eq, Structural)]
pub struct ScreenChar {
    pub ascii_char: u8,
    pub color_code: ColorCode,
}

/// Rows on the screen.
pub const BUFFER_HEIGHT: usize = 25;

/// Cells in a row.
pub const BUFFER_WIDTH: usize = 80;

/// A row of blanks in the colour `color`.
pub open spec fn blank_row(color: ColorCode) -> Seq<ScreenChar> {
    Seq::new(BUFFER_WIDTH as nat, |c: int| ScreenChar { ascii_char: 32u8, color_code: color })
}

/// The screen moved up one line, with a blank bottom row.
pub open spec fn scrolled(rows: Seq<Seq<ScreenChar>>, color: ColorCode) -> Seq<Seq<ScreenChar>> {
    rows.drop_first().push(blank_row(color))
}

/// The screen and column after writing the byte `b`: a newline scrolls; any
/// other byte goes in the bottom row at the column, scrolling first when
/// the row is full.
pub open spec fn put_byte(
    rows: Seq<Seq<ScreenChar>>,
    col: int,
    color: ColorCode,
    b: u8,
) -> (Seq<Seq<ScreenChar>>, int) {
    if b == 10 {
        (scrolled(rows, color), 0)
    } else {
        let (rows1, col1) = if col >= BUFFER_WIDTH {
            (scrolled(rows, color), 0)
        } else {
            (rows, col)
        };
        let last = BUFFER_HEIGHT - 1;
        (
            rows1.update(last, rows1[last].update(col1, ScreenChar { ascii_char: b, color_code: color })),
            col1 + 1,
        )
    }
}

/// The byte shown for `b`: printable ASCII and newline as they are, a
/// block for anything else.
pub open spec fn shown_byte(b: u8) -> u8 {
    if (0x20 <= b && b <= 0x7e) || b == 10 {
        b
    } else {
        0xfe
    }
}

/// The screen and column after writing `bytes` one after the other.
pub open spec fn put_bytes(
    rows: Seq<Seq<ScreenChar>>,
    col: int,
    color: ColorCode,
    bytes: Seq<u8>,
) -> (Seq<Seq<ScreenChar>>, int)
    decreases bytes.len(),
{
    if bytes.len() == 0 {
        (rows, col)
    } else {
        let (r, c) = put_bytes(rows, col, color, bytes.drop_last());
        put_byte(r, c, color, shown_byte(bytes.last()))
    }
}

/// A screen of the right shape.
pub open spec fn screen_ok(rows: Seq<Seq<ScreenChar>>) -> bool {
    &&& rows.len() == BUFFER_HEIGHT
    &&& forall|r: int| 0 <= r < BUFFER_HEIGHT ==> (#[trigger] rows[r]).len() == BUFFER_WIDTH
}

/// Writes text at the bottom of the screen.
pub struct Writer {
    col_pos: usize,
    color_code: ColorCode,
    buffer: Vec<Vec<ScreenChar>>,
}

impl Writer {
    /// The cells, top row first.
    pub closed spec fn rows(&self) -> Seq<Seq<ScreenChar>> {
        Seq::new(self.buffer@.len(), |r: int| self.buffer@[r]@)
    }

    /// The column the next character goes to.
    pub closed spec fn column(&self) -> int {
        self.col_pos as int
    }

    /// The colours text is written in.
    pub closed spec fn color(&self) -> ColorCode {
        self.color_code
    }

    /// The buffer has 25 rows of 80 cells and the column is in a row.
    pub closed spec fn wf(&self) -> bool {
        &&& screen_ok(self.rows())
        &&& self.col_pos <= BUFFER_WIDTH
    }

    /// A blank screen, written yellow on black from the first column.
    pub fn new() -> (r: Writer)
        ensures
            r.wf(),
            r.column() == 0,
            r.color()@ == color_value(Color::Black) * 16 + color_value(Color::Yellow),
            r.rows() == Seq::new(BUFFER_HEIGHT as nat, |i: int| blank_row(r.color())),
    {
        let color_code = ColorCode::new(Color::Yellow, Color::Black);
        let mut buffer: Vec<Vec<ScreenChar>> = Vec::new();
        let mut i: usize = 0;
        while i < BUFFER_HEIGHT
            invariant
                i <= BUFFER_HEIGHT,
                buffer@.len() == i,
                forall|r: int| 0 <= r < i ==> (#[trigger] buffer@[r])@ == blank_row(color_code),
            decreases BUFFER_HEIGHT - i,
        {
            buffer.push(Self::blank(color_code));
            i = i + 1;
        }
        let w = Writer { col_pos: 0, color_code, buffer };
        proof {
            assert(w.rows() =~= Seq::new(BUFFER_HEIGHT as nat, |i: int| blank_row(color_code)));
        }
        w
    }

    /// A row of blanks.
    fn blank(color_code: ColorCode) -> (r: Vec<ScreenChar>)
        ensures
            r@ == blank_row(color_code),
    {
        let mut row: Vec<ScreenChar> = Vec::new();
        let mut c: usize = 0;
        while c < BUFFER_WIDTH
            invariant
                c <= BUFFER_WIDTH,
                row@.len() == c,
                forall|k: int| 0 <= k < c ==> row@[k] == (ScreenChar { ascii_char: 32u8, color_code }),
            decreases BUFFER_WIDTH - c,
        {
            row.push(ScreenChar { ascii_char: 0x20, color_code });
            c = c + 1;
        }
        proof {
            assert(row@ =~= blank_row(color_code));
        }
        row
    }

    /// The cell at `row`, `col`.
    pub fn char_at(&self, row: usize, col: usize) -> (r: ScreenChar)
        requires
            self.wf(),
            row < BUFFER_HEIGHT,
            col < BUFFER_WIDTH,
        ensures
            r == self.rows()[row as int][col as int],
    {
        proof {
            assert(self.rows()[row as int] == self.buffer@[row as int]@);
        }
        self.buffer[row][col]
    }

    /// The column the next character goes to.
    pub fn column_position(&self) -> (r: usize)
        ensures
            r == self.column(),
    {
        self.col_pos
    }

    /// Blanks row `row`.
    fn clear_row(&mut self, row: usize)
        requires
            old(self).wf(),
            row < BUFFER_HEIGHT,
        ensures
            final(self).wf(),
            final(self).rows() == old(self).rows().update(row as int, blank_row(old(self).color())),
            final(self).column() == old(self).column(),
            final(self).color() == old(self).color(),
    {
        let blank = Self::blank(self.color_code);
        self.buffer.set(row, blank);
        proof {
            assert(self.rows() =~= old(self).rows().update(row as int, blank_row(old(self).color())));
        }
    }

    /// Moves every row up one line, losing the top one, and starts a blank
    /// bottom row at its first column.
    fn new_line(&mut self)
        requires
            old(self).wf(),
        ensures
            final(self).wf(),
            final(self).rows() == scrolled(old(self).rows(), old(self).color()),
            final(self).column() == 0,
            final(self).color() == old(self).color(),
    {
        let top = self.buffer.remove(0);
        self.buffer.push(top);
        proof {
            assert forall|r: int| 0 <= r < BUFFER_HEIGHT implies (#[trigger] self.rows()[r]).len() == BUFFER_WIDTH by {
                if r < BUFFER_HEIGHT - 1 {
                    assert(self.rows()[r] == old(self).rows()[r + 1]);
                } else {
                    assert(self.rows()[r] == old(self).rows()[0]);
                }
            }
        }
        self.clear_row(BUFFER_HEIGHT - 1);
        self.col_pos = 0;
        proof {
            assert(self.rows() =~= scrolled(old(self).rows(), old(self).color())) by {
                assert forall|r: int| 0 <= r < BUFFER_HEIGHT - 1 implies self.rows()[r] == old(self).rows()[r + 1] by {
                }
            }
        }
    }

    /// Writes one byte: a newline moves to a fresh line; anything else goes
    /// in the bottom row, on a fresh line when the row is full.
    pub fn write_byte(&mut self, byte: u8)
        requires
            old(self).wf(),
        ensures
            final(self).wf(),
            final(self).color() == old(self).color(),
            (final(self).rows(), final(self).column()) == put_byte(
                old(self).rows(),
                old(self).column(),
                old(self).color(),
                byte,
            ),
    {
        if byte == 10 {
            self.new_line();
        } else {
            if self.col_pos >= BUFFER_WIDTH {
                self.new_line();
            }
            let ghost mid = self.rows();
            let row = BUFFER_HEIGHT - 1;
            let col = self.col_pos;
            let color_code = self.color_code;
            proof {
                assert(self.rows()[row as int] == self.buffer@[row as int]@);
            }
            self.buffer[row].set(col, ScreenChar { ascii_char: byte, color_code });
            self.col_pos = self.col_pos + 1;
            proof {
                assert(self.rows() =~= mid.update(
                    row as int,
                    mid[row as int].update(col as int, ScreenChar { ascii_char: byte, color_code }),
                ));
                assert forall|r: int| 0 <= r < BUFFER_HEIGHT implies (#[trigger] self.rows()[r]).len() == BUFFER_WIDTH by {
                    assert(mid[r].len() == BUFFER_WIDTH);
                }
            }
        }
    }

    /// Writes a string, byte by byte; bytes other than printable ASCII and
    /// newline show as a block.
    pub fn write_string(&mut self, string: &str)
        requires
            old(self).wf(),
        ensures
            final(self).wf(),
            final(self).color() == old(self).color(),
            (final(self).rows(), final(self).column()) == put_bytes(
                old(self).rows(),
                old(self).column(),
                old(self).color(),
                string.spec_bytes(),
            ),
    {
        let bytes = string.as_bytes();
        let mut i: usize = 0;
        while i < bytes.len()
            invariant
                self.wf(),
                self.color() == old(self).color(),
                bytes@ == string.spec_bytes(),
                i <= bytes@.len(),
                (self.rows(), self.column()) == put_bytes(
                    old(self).rows(),
                    old(self).column(),
                    old(self).color(),
                    bytes@.take(i as int),
                ),
            decreases bytes@.len() - i,
        {
            let byte = bytes[i];
            let shown = if (0x20 <= byte && byte <= 0x7e) || byte == 10 {
                byte
            } else {
                0xfe
            };
            self.write_byte(shown);
            proof {
                assert(bytes@.take(i + 1).drop_last() =~= bytes@.take(i as int));
            }
            i = i + 1;
        }
        proof {
            assert(bytes@.take(i as int) =~= bytes@);
        }
    }
}

/// Writing `a` then `b` is writing `a + b`.
pub proof fn lemma_put_bytes_concat(
    rows: Seq<Seq<ScreenChar>>,
    col: int,
    color: ColorCode,
    a: Seq<u8>,
    b: Seq<u8>,
)
    ensures
        ({
            let (r, c) = put_bytes(rows, col, color, a);
            put_bytes(r, c, color, b)
        }) == put_bytes(rows, col, color, a + b),
    decreases b.len(),
{
    if b.len() == 0 {
        assert(a + b =~= a);
    } else {
        lemma_put_bytes_concat(rows, col, color, a, b.drop_last());
        assert((a + b).drop_last() =~= a + b.drop_last());
    }
}

/// The greeting that `print_string` writes.
pub open spec fn greeting() -> Seq<u8> {
    seq![72u8, 101, 108, 108, 111, 44, 32, 32, 87, 111, 114, 108, 68, 33, 33, 33, 33, 33, 33]
}

/// Writes the greeting on a fresh screen and returns the writer.
pub fn print_string() -> (r: Writer)
    ensures
        r.wf(),
        r.color()@ == 0x0e,
        (r.rows(), r.column()) == put_bytes(
            Seq::new(BUFFER_HEIGHT as nat, |i: int| blank_row(r.color())),
            0,
            r.color(),
            greeting(),
        ),
{
    let mut writer = Writer::new();
    let ghost start = writer.rows();
    writer.write_byte(72);
    writer.write_string("ello, ");
    writer.write_string(" WorlD!!!!!!");
    proof {
        reveal_strlit("ello, ");
        reveal_strlit(" WorlD!!!!!!");
        let color = writer.color();
        let h = seq![72u8];
        let e = "ello, ".spec_bytes();
        let w = " WorlD!!!!!!".spec_bytes();
        assert(vstd::string::is_ascii("ello, "));
        assert(vstd::string::is_ascii(" WorlD!!!!!!"));
        vstd::string::is_ascii_spec_bytes("ello, ");
        vstd::string::is_ascii_spec_bytes(" WorlD!!!!!!");
        assert(put_bytes(start, 0, color, h) == put_byte(start, 0, color, 72)) by {
            assert(h.drop_last() =~= Seq::<u8>::empty());
            assert(put_bytes(start, 0, color, h.drop_last()) == (start, 0int));
            assert(h.last() == 72);
            assert(shown_byte(72) == 72);
        }
        lemma_put_bytes_concat(start, 0, color, h, e);
        lemma_put_bytes_concat(start, 0, color, h + e, w);
        assert(h + e + w =~= greeting());
    }
    writer
}

} // verus!
