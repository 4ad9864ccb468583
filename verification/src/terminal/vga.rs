//! VGA text-mode terminal.
//!
//! The screen is held as `width * height` 16-bit cells (character in the low
//! byte, attribute in the high byte); the hardware cursor position is kept
//! as the value the driver writes to the CRT controller port.

use vstd::prelude::*;

use super::{color_index, Color, FmtResult, Terminal};

verus! {

/// Configuration for a VGA text-mode terminal.
#[derive(Debug, Clone, Copy)]
pub struct VgaConfig {
    pub width: usize,
    pub height: usize,
    pub buffer: usize,
    pub port: u16,
}

/// Controls a VGA text-mode terminal.
#[derive(Debug)]
pub struct Vga {
    config: VgaConfig,
    row: usize,
    col: usize,
    fg: Color,
    bg: Color,
    attr: u8,
    cells: Vec<u16>,
    cursor: u16,
}

/// The attribute byte of a color pair.
pub open spec fn spec_attr(fg: Color, bg: Color) -> u8 {
    (color_index(fg) + 16 * color_index(bg)) as u8
}

/// A cell holding `byte` with attribute `attr`.
pub open spec fn spec_cell(byte: u8, attr: u8) -> u16 {
    (byte + 256 * attr) as u16
}

/// The cells after scrolling up one row and blanking the last row.
pub open spec fn spec_scroll(cells: Seq<u16>, width: int, height: int, blank: u16) -> Seq<u16> {
    Seq::new(
        cells.len(),
        |i: int|
            if i < (height - 1) * width {
                cells[i + width]
            } else {
                blank
            },
    )
}

/// The cells after blanking row `row` from column `col` on.
pub open spec fn spec_clear_to_end(cells: Seq<u16>, width: int, row: int, col: int, blank: u16) -> Seq<u16> {
    Seq::new(
        cells.len(),
        |i: int|
            if row * width + col <= i < row * width + width {
                blank
            } else {
                cells[i]
            },
    )
}

/// The row after a line feed on `row`: the next one, or the same one at the
/// bottom of the screen.
pub open spec fn spec_next_row(row: int, height: int) -> int {
    if row + 1 < height {
        row + 1
    } else {
        row
    }
}

/// The cells after a line feed at `(row, col)`: the rest of the line is
/// blanked, and the screen scrolls up when `row` is the last row.
pub open spec fn spec_line_feed(cells: Seq<u16>, width: int, height: int, row: int, col: int, blank: u16) -> Seq<u16> {
    let cleared = spec_clear_to_end(cells, width, row, col, blank);
    if row + 1 < height {
        cleared
    } else {
        spec_scroll(cleared, width, height, blank)
    }
}

proof fn lemma_cell_bits(byte: u8, attr: u8)
    ensures
        ((byte as u16) | ((attr as u16) << 8u16)) == spec_cell(byte, attr),
{
    assert(((byte as u16) | ((attr as u16) << 8u16)) == byte + 256 * attr) by (bit_vector);
}

proof fn lemma_row_bounds(row: int, col: int, width: int, height: int)
    requires
        0 <= row < height,
        0 <= col < width,
    ensures
        0 <= row * width + col < width * height,
        row * width + width <= width * height,
{
    assert(row * width + col < width * height) by (nonlinear_arith)
        requires
            0 <= row < height,
            0 <= col < width,
    ;
    assert(row * width + width <= width * height) by (nonlinear_arith)
        requires
            0 <= row < height,
            0 <= col < width,
    ;
    assert(0 <= row * width) by (nonlinear_arith)
        requires
            0 <= row,
            0 <= col < width,
    ;
}

impl Vga {
    pub closed spec fn cfg(&self) -> VgaConfig {
        self.config
    }

    pub closed spec fn row(&self) -> usize {
        self.row
    }

    pub closed spec fn col(&self) -> usize {
        self.col
    }

    pub closed spec fn fg(&self) -> Color {
        self.fg
    }

    pub closed spec fn bg(&self) -> Color {
        self.bg
    }

    /// The screen cells, row by row.
    pub closed spec fn cells(&self) -> Seq<u16> {
        self.cells@
    }

    /// The cursor position last sent to the hardware.
    pub closed spec fn cursor(&self) -> u16 {
        self.cursor
    }

    pub closed spec fn wf(&self) -> bool {
        &&& self.wf_at_line_end()
        &&& self.col < self.config.width
    }

    /// Well-formed, with the cursor possibly just past the end of its line.
    closed spec fn wf_at_line_end(&self) -> bool {
        &&& self.config.width > 0
        &&& self.config.height > 0
        &&& self.config.width * self.config.height <= usize::MAX
        &&& self.cells@.len() == self.config.width * self.config.height
        &&& self.row < self.config.height
        &&& self.col <= self.config.width
        &&& self.attr == spec_attr(self.fg, self.bg)
    }

    /// The row, column and cells after writing `byte` at the cursor.
    pub open spec fn after_write(&self, byte: u8) -> (int, int, Seq<u16>) {
        let w = self.cfg().width as int;
        let h = self.cfg().height as int;
        let row = self.row() as int;
        let col = self.col() as int;
        let blank = self.blank();
        if byte == 0x0a {
            (spec_next_row(row, h), 0, spec_line_feed(self.cells(), w, h, row, col, blank))
        } else if byte == 0x08 {
            let c = if col > 0 { col - 1 } else { 0 };
            (row, c, self.cells().update(row * w + c, blank))
        } else {
            let cells = self.cells().update(row * w + col, spec_cell(byte, spec_attr(self.fg(), self.bg())));
            if col + 1 < w {
                (row, col + 1, cells)
            } else {
                (spec_next_row(row, h), 0, spec_line_feed(cells, w, h, row, w, blank))
            }
        }
    }

    /// The blank cell in the current colors.
    pub open spec fn blank(&self) -> u16 {
        spec_cell(0x20, spec_attr(self.fg(), self.bg()))
    }

    /// Create a new VGA text-mode terminal controller with the given
    /// dimensions, cleared in light grey on black.
    pub fn new(config: VgaConfig) -> (vga: Vga)
        requires
            config.width > 0,
            config.height > 0,
            config.width * config.height <= usize::MAX,
        ensures
            vga.wf(),
            vga.cfg() == config,
            vga.row() == 0 && vga.col() == 0,
            vga.fg() == Color::LightGrey && vga.bg() == Color::Black,
            vga.cells() == Seq::new((config.width * config.height) as nat, |i: int| vga.blank()),
    {
        let n = config.width * config.height;
        let mut cells: Vec<u16> = Vec::new();
        let mut i: usize = 0;
        while i < n
            invariant
                i <= n,
                cells@.len() == i,
            decreases n - i,
        {
            cells.push(0);
            i = i + 1;
        }
        let mut vga = Vga {
            config,
            row: 0,
            col: 0,
            fg: Color::LightGrey,
            bg: Color::Black,
            attr: Vga::attr(Color::LightGrey, Color::Black),
            cells,
            cursor: 0,
        };
        let _ = vga.reset();
        vga
    }

    /// The screen cells, row by row, as the hardware buffer holds them.
    pub fn screen(&self) -> (r: &[u16])
        ensures
            r@ == self.cells(),
    {
        self.cells.as_slice()
    }

    pub fn config(&self) -> (r: VgaConfig)
        ensures
            r == self.cfg(),
    {
        self.config
    }

    /// The VGA palette index of a color.
    pub fn color(c: Color) -> (r: u8)
        ensures
            r == color_index(c),
    {
        c.index()
    }

    /// The attribute byte: foreground in the low nibble, background in the
    /// high nibble.
    pub fn attr(fg: Color, bg: Color) -> (r: u8)
        ensures
            r == spec_attr(fg, bg),
    {
        let f = Vga::color(fg);
        let b = Vga::color(bg);
        assert((f | (b << 4u8)) == f + 16 * b) by (bit_vector)
            requires
                f < 16,
                b < 16,
        ;
        f | (b << 4)
    }

    fn update_attr(&mut self)
        ensures
            *final(self) == (Vga { attr: spec_attr(old(self).fg, old(self).bg), ..*old(self) }),
    {
        self.attr = Vga::attr(self.fg, self.bg);
    }

    /// Record the cursor position that the driver writes to the CRT
    /// controller.
    fn update_cursor(&mut self)
        requires
            old(self).row * old(self).config.width + old(self).col <= usize::MAX,
        ensures
            *final(self) == (Vga {
                cursor: (old(self).row * old(self).config.width + old(self).col) as u16,
                ..*old(self)
            }),
    {
        let pos: u16 = ((self.row * self.config.width) + self.col) as u16;
        self.cursor = pos;
    }

    /// Everything but the cells is as in `other`.
    pub closed spec fn same_but_cells(&self, other: Vga) -> bool {
        self.config == other.config && self.row == other.row && self.col == other.col
            && self.fg == other.fg && self.bg == other.bg && self.attr == other.attr
            && self.cursor == other.cursor && self.cells@.len() == other.cells@.len()
    }

    /// Put a character with the given attribute at `(row, col)`.
    pub fn put(&mut self, byte: u8, attr: u8, row: usize, col: usize)
        requires
            row * old(self).cfg().width + col < old(self).cells().len(),
        ensures
            final(self).same_but_cells(*old(self)),
            old(self).wf() ==> final(self).wf(),
            final(self).cells() == old(self).cells().update(
                row * old(self).cfg().width + col,
                spec_cell(byte, attr),
            ),
    {
        proof {
            lemma_cell_bits(byte, attr);
        }
        let len = self.cells.len();
        assert(row * self.config.width <= row * self.config.width + col < len);
        let index = row * self.config.width + col;
        self.cells.set(index, (byte as u16) | ((attr as u16) << 8));
    }

    /// Put a character at the cursor in the current colors.
    pub fn put_here(&mut self, byte: u8)
        requires
            old(self).wf(),
        ensures
            final(self).wf(),
            final(self).same_but_cells(*old(self)),
            final(self).cells() == old(self).cells().update(
                old(self).row() * old(self).cfg().width + old(self).col(),
                spec_cell(byte, spec_attr(old(self).fg(), old(self).bg())),
            ),
    {
        proof {
            lemma_row_bounds(self.row as int, self.col as int, self.config.width as int, self.config.height as int);
        }
        let (attr, row, col) = (self.attr, self.row, self.col);
        self.put(byte, attr, row, col)
    }

    fn scroll(&mut self)
        requires
            old(self).wf(),
        ensures
            final(self).wf(),
            final(self).same_but_cells(*old(self)),
            final(self).cells@ == spec_scroll(
                old(self).cells@,
                old(self).config.width as int,
                old(self).config.height as int,
                spec_cell(0x20, old(self).attr),
            ),
    {
        let width = self.config.width;
        let height = self.config.height;
        let n = width * height;
        let ghost old_cells = self.cells@;
        proof {
            assert(width <= n) by (nonlinear_arith)
                requires
                    n == width * height,
                    height > 0,
            ;
        }
        // Shift everything one line back.
        let mut index = width;
        while index < n
            invariant
                self.wf(),
                width == self.config.width,
                height == self.config.height,
                n == width * height,
                self.cells@.len() == n,
                width <= index <= n,
                self.same_but_cells(*old(self)),
                old_cells == old(self).cells@,
                forall|k: int| 0 <= k < index - width ==> self.cells@[k] == old_cells[k + width],
                forall|k: int| index - width <= k < n ==> self.cells@[k] == old_cells[k],
            decreases n - index,
        {
            let value = self.cells[index];
            self.cells.set(index - width, value);
            index = index + 1;
        }
        // Clear last line.
        let attr = self.attr;
        proof {
            assert((height - 1) * width == n - width) by (nonlinear_arith)
                requires
                    n == width * height,
            ;
        }
        let mut col: usize = 0;
        while col < width
            invariant
                self.wf(),
                width == self.config.width,
                height == self.config.height,
                n == width * height,
                (height - 1) * width == n - width,
                self.cells@.len() == n,
                col <= width,
                attr == self.attr,
                self.same_but_cells(*old(self)),
                forall|k: int| 0 <= k < n - width ==> self.cells@[k] == old_cells[k + width],
                forall|k: int| n - width <= k < n - width + col ==> self.cells@[k] == spec_cell(0x20, attr),
            decreases width - col,
        {
            self.put(0x20, attr, height - 1, col);
            col = col + 1;
        }
        proof {
            assert(self.cells@ =~= spec_scroll(old_cells, width as int, height as int, spec_cell(0x20, attr)));
        }
    }

    fn new_line(&mut self)
        requires
            old(self).wf_at_line_end(),
        ensures
            final(self).wf(),
            final(self).col == 0,
            final(self).config == old(self).config,
            final(self).fg == old(self).fg,
            final(self).bg == old(self).bg,
            final(self).attr == old(self).attr,
            final(self).cursor == (final(self).row * final(self).config.width) as u16,
            final(self).row == spec_next_row(old(self).row as int, old(self).config.height as int),
            final(self).cells@ == spec_line_feed(
                old(self).cells@,
                old(self).config.width as int,
                old(self).config.height as int,
                old(self).row as int,
                old(self).col as int,
                spec_cell(0x20, old(self).attr),
            ),
    {
        let ghost old_cells = self.cells@;
        let ghost start_col = self.col;
        proof {
            let w = self.config.width as int;
            let p = self.row * w + start_col;
            lemma_row_bounds(self.row as int, 0, w, self.config.height as int);
            let cleared = spec_clear_to_end(old_cells, w, self.row as int, start_col as int, spec_cell(0x20, self.attr));
            assert(old_cells =~= cleared.take(p) + old_cells.skip(p));
        }
        // Clear to the end of the line.
        while self.col < self.config.width
            invariant
                self.config == old(self).config,
                self.row == old(self).row,
                self.fg == old(self).fg,
                self.bg == old(self).bg,
                self.attr == old(self).attr,
                self.cursor == old(self).cursor,
                self.config.width > 0,
                self.config.height > 0,
                self.config.width * self.config.height <= usize::MAX,
                self.cells@.len() == self.config.width * self.config.height,
                self.row < self.config.height,
                start_col <= self.col <= self.config.width,
                old_cells.len() == self.cells@.len(),
                self.attr == spec_attr(self.fg, self.bg),
                self.cells@ == spec_clear_to_end(
                    old_cells,
                    self.config.width as int,
                    self.row as int,
                    start_col as int,
                    spec_cell(0x20, self.attr),
                ).take(self.row * self.config.width + self.col) + old_cells.skip(
                    self.row * self.config.width + self.col,
                ),
            decreases self.config.width - self.col,
        {
            proof {
                lemma_row_bounds(self.row as int, self.col as int, self.config.width as int, self.config.height as int);
            }
            let (attr, row, col) = (self.attr, self.row, self.col);
            let ghost before = self.cells@;
            self.put(0x20, attr, row, col);
            self.col = self.col + 1;
            proof {
                let w = self.config.width as int;
                let p = row * w + col;
                let cleared = spec_clear_to_end(old_cells, w, row as int, start_col as int, spec_cell(0x20, attr));
                assert(before =~= cleared.take(p) + old_cells.skip(p));
                assert(cleared[p] == spec_cell(0x20, attr));
                assert forall|k: int| 0 <= k < self.cells@.len() implies self.cells@[k] == (cleared.take(p + 1) + old_cells.skip(p + 1))[k] by {
                    if k < p {
                        assert(self.cells@[k] == before[k]);
                    } else if k > p {
                        assert(self.cells@[k] == before[k]);
                    }
                }
                assert(self.cells@ =~= cleared.take(p + 1) + old_cells.skip(p + 1));
            }
        }
        proof {
            let w = self.config.width as int;
            lemma_row_bounds(self.row as int, 0, w, self.config.height as int);
            let cleared = spec_clear_to_end(old_cells, w, self.row as int, start_col as int, spec_cell(0x20, self.attr));
            assert(self.cells@ =~= cleared);
        }
        // Go to the next line, scrolling if necessary.
        self.col = 0;
        self.row = self.row + 1;
        if self.row >= self.config.height {
            self.row = self.row - 1;
            self.scroll();
        }
        proof {
            lemma_row_bounds(self.row as int, 0, self.config.width as int, self.config.height as int);
        }
        self.update_cursor();
    }
}

/// A line feed blanks the rest of the cursor's line and moves the cursor to
/// the start of the next line. On the last line the screen scrolls: each
/// line takes the contents of the line below it (the cursor's line as
/// blanked), and the last line is all blank cells in the current colors.
pub proof fn law_line_feed(v: Vga)
    requires
        v.wf(),
    ensures
        ({
            let w = v.cfg().width as int;
            let h = v.cfg().height as int;
            let row = v.row() as int;
            let col = v.col() as int;
            let (r, c, cells) = v.after_write(0x0a);
            &&& c == 0
            &&& cells.len() == w * h
            &&& row + 1 < h ==> {
                &&& r == row + 1
                &&& forall|k: int|
                    0 <= k < w * h ==> #[trigger] cells[k] == if row * w + col <= k < row * w + w {
                        v.blank()
                    } else {
                        v.cells()[k]
                    }
            }
            &&& row + 1 == h ==> {
                &&& r == row
                &&& forall|k: int| (h - 1) * w <= k < w * h ==> #[trigger] cells[k] == v.blank()
                &&& forall|k: int|
                    0 <= k < (h - 1) * w ==> #[trigger] cells[k] == if (h - 1) * w + col <= k + w {
                        v.blank()
                    } else {
                        v.cells()[k + w]
                    }
            }
        }),
{
    let w = v.cfg().width as int;
    let h = v.cfg().height as int;
    let row = v.row() as int;
    let col = v.col() as int;
    let blank = v.blank();
    let old = v.cells();
    assert(old.len() == w * h);
    assert(w * h == (h - 1) * w + w) by (nonlinear_arith);
    assert((h - 1) * w >= 0) by (nonlinear_arith)
        requires
            h >= 1,
            w >= 0,
    ;
    let cl = spec_clear_to_end(old, w, row, col, blank);
    let cells = v.after_write(0x0a).2;
    assert(cells == spec_line_feed(old, w, h, row, col, blank));
    if row + 1 < h {
        assert(cells == cl);
        assert forall|k: int| 0 <= k < w * h implies #[trigger] cells[k] == if row * w + col <= k < row * w + w {
            blank
        } else {
            old[k]
        } by {
            assert(cells[k] == cl[k]);
        }
    } else {
        assert(row * w == (h - 1) * w);
        let sc = spec_scroll(cl, w, h, blank);
        assert(cl.len() == w * h);
        assert(sc.len() == w * h);
        assert(cells == sc);
        assert forall|k: int| (h - 1) * w <= k < w * h implies #[trigger] cells[k] == blank by {
            assert(0 <= k < sc.len());
            assert(!(k < (h - 1) * w));
            assert(sc[k] == blank);
        }
        assert forall|k: int| 0 <= k < (h - 1) * w implies #[trigger] cells[k] == if (h - 1) * w + col <= k + w {
            blank
        } else {
            old[k + w]
        } by {
            assert(sc[k] == cl[k + w]);
            assert(k + w < row * w + w);
        }
    }
}

/// Writing a printable byte puts it at the cursor, with the foreground's
/// palette index in the low four bits of its attribute and the
/// background's in the high four, and moves the cursor one column on; at
/// the end of a line it goes on at the start of the next one as after a
/// line feed. A backspace moves the cursor back a column, to no earlier
/// than the line start, and blanks the cell there.
pub proof fn law_write_byte(v: Vga, byte: u8)
    requires
        v.wf(),
    ensures
        ({
            let w = v.cfg().width as int;
            let row = v.row() as int;
            let col = v.col() as int;
            let (r, c, cells) = v.after_write(byte);
            let at = row * w + col;
            &&& byte != 0x0a && byte != 0x08 && col + 1 < w ==> {
                &&& r == row && c == col + 1
                &&& cells[at] == byte + 256 * (color_index(v.fg()) + 16 * color_index(v.bg()))
                &&& forall|k: int| 0 <= k < cells.len() && k != at ==> #[trigger] cells[k] == v.cells()[k]
            }
            &&& byte == 0x08 ==> {
                &&& r == row && c == (if col > 0 { col - 1 } else { 0 })
                &&& cells[row * w + c] == 0x20 + 256 * (color_index(v.fg()) + 16 * color_index(v.bg()))
            }
        }),
{
    let w = v.cfg().width as int;
    let h = v.cfg().height as int;
    let row = v.row() as int;
    let col = v.col() as int;
    assert(0 <= row * w + col < w * h) by (nonlinear_arith)
        requires
            0 <= row < h,
            0 <= col < w,
    ;
    assert(v.cells().len() == w * h);
    assert(color_index(v.fg()) + 16 * color_index(v.bg()) < 256);
}

impl Terminal for Vga {
    open spec fn inv(&self) -> bool {
        self.wf()
    }

    open spec fn position_ok(&self, row: usize, col: usize) -> bool {
        row < self.cfg().height && col < self.cfg().width
    }

    open spec fn colors(&self) -> (Color, Color) {
        (self.fg(), self.bg())
    }

    open spec fn cursor_pos(&self) -> (usize, usize) {
        (self.row(), self.col())
    }

    open spec fn reset_post(&self, after: Self, r: FmtResult) -> bool {
        &&& r is Ok
        &&& after.fg() == Color::LightGrey && after.bg() == Color::Black
        &&& after.row() == 0 && after.col() == 0
        &&& after.cfg() == self.cfg()
        &&& after.cells() == Seq::new(after.cells().len(), |i: int| after.blank())
    }

    open spec fn clear_post(&self, after: Self, r: FmtResult) -> bool {
        &&& r is Ok
        &&& after.row() == 0 && after.col() == 0
        &&& after.cfg() == self.cfg()
        &&& after.fg() == self.fg() && after.bg() == self.bg()
        &&& after.cells() == Seq::new(self.cells().len(), |i: int| self.blank())
    }

    open spec fn set_cursor_post(&self, row: usize, col: usize, after: Self, r: FmtResult) -> bool {
        &&& r is Ok
        &&& after.row() == row && after.col() == col
        &&& after.cells() == self.cells()
    }

    open spec fn set_color_post(&self, fg: Color, bg: Color, after: Self, r: FmtResult) -> bool {
        &&& r is Ok
        &&& after.colors() == (fg, bg)
        &&& after.cells() == self.cells()
        &&& after.row() == self.row() && after.col() == self.col()
    }

    open spec fn put_post(&self, byte: u8, fg: Color, bg: Color, row: usize, col: usize, after: Self, r: FmtResult) -> bool {
        &&& r is Ok
        &&& after.cells() == self.cells().update(row * self.cfg().width + col, spec_cell(byte, spec_attr(fg, bg)))
        &&& after.row() == self.row() && after.col() == self.col()
    }

    open spec fn write_post(&self, byte: u8, after: Self, r: FmtResult) -> bool {
        &&& r is Ok
        &&& after.colors() == self.colors()
        &&& after.cfg() == self.cfg()
        &&& (after.row() as int, after.col() as int, after.cells()) == self.after_write(byte)
    }

    open spec fn flush_post(&self, after: Self, r: FmtResult) -> bool {
        &&& r is Ok
        &&& after.cells() == self.cells()
        &&& after.row() == self.row() && after.col() == self.col()
        &&& after.cursor() == (self.row() * self.cfg().width + self.col()) as u16
    }

    /// Light grey on black, cleared.
    fn reset(&mut self) -> (r: FmtResult)
        ensures
            r.is_ok(),
            final(self).fg() == Color::LightGrey && final(self).bg() == Color::Black,
            final(self).row() == 0 && final(self).col() == 0,
            final(self).cfg() == old(self).cfg(),
            final(self).cells() == Seq::new(final(self).cells().len(), |i: int| final(self).blank()),
    {
        self.fg = Color::LightGrey;
        self.bg = Color::Black;
        self.update_attr();
        self.clear()
    }

    /// Fill the screen with blanks and move the cursor home.
    fn clear(&mut self) -> (r: FmtResult)
        ensures
            r.is_ok(),
            final(self).row() == 0 && final(self).col() == 0,
            final(self).cfg() == old(self).cfg(),
            final(self).fg() == old(self).fg() && final(self).bg() == old(self).bg(),
            final(self).cells() == Seq::new(old(self).cells().len(), |i: int| old(self).blank()),
    {
        self.row = 0;
        self.col = 0;
        let attr = self.attr;
        let n = self.config.width * self.config.height;
        let mut i: usize = 0;
        while i < n
            invariant
                self.wf(),
                n == self.cells@.len(),
                i <= n,
                attr == self.attr,
                self.row == 0 && self.col == 0,
                self.config == old(self).config,
                self.fg == old(self).fg && self.bg == old(self).bg,
                forall|k: int| 0 <= k < i ==> self.cells@[k] == spec_cell(0x20, attr),
            decreases n - i,
        {
            proof {
                lemma_cell_bits(0x20, attr);
            }
            self.cells.set(i, (0x20u8 as u16) | ((attr as u16) << 8));
            i = i + 1;
        }
        proof {
            assert(self.cells@ =~= Seq::new(old(self).cells().len(), |i: int| old(self).blank()));
        }
        Ok(())
    }

    fn get_cursor(&self) -> (r: (usize, usize)) {
        (self.row, self.col)
    }

    fn set_cursor(&mut self, row: usize, col: usize) -> (r: FmtResult)
        ensures
            r.is_ok(),
            final(self).row() == row && final(self).col() == col,
            final(self).cells() == old(self).cells(),
    {
        self.row = row;
        self.col = col;
        proof {
            lemma_row_bounds(row as int, col as int, self.config.width as int, self.config.height as int);
        }
        self.update_cursor();
        Ok(())
    }

    fn get_color(&self) -> (r: (Color, Color)) {
        (self.fg, self.bg)
    }

    fn set_color(&mut self, fg: Color, bg: Color) -> (r: FmtResult)
        ensures
            r.is_ok(),
            final(self).colors() == (fg, bg),
            final(self).cells() == old(self).cells(),
            final(self).row() == old(self).row() && final(self).col() == old(self).col(),
    {
        self.fg = fg;
        self.bg = bg;
        self.update_attr();
        Ok(())
    }

    fn put_raw_byte(&mut self, byte: u8, fg: Color, bg: Color, row: usize, col: usize) -> (r:
        FmtResult)
        ensures
            r.is_ok(),
            final(self).cells() == old(self).cells().update(
                row * old(self).cfg().width + col,
                spec_cell(byte, spec_attr(fg, bg)),
            ),
            final(self).row() == old(self).row() && final(self).col() == old(self).col(),
    {
        proof {
            lemma_row_bounds(row as int, col as int, self.config.width as int, self.config.height as int);
        }
        self.put(byte, Vga::attr(fg, bg), row, col);
        Ok(())
    }

    /// Newline moves to the next line (scrolling at the bottom), backspace
    /// moves back and blanks, other bytes are written and advance the
    /// cursor, wrapping at the end of the line.
    fn write_raw_byte(&mut self, byte: u8) -> (r: FmtResult)
        ensures
            r.is_ok(),
            final(self).colors() == old(self).colors(),
            final(self).cfg() == old(self).cfg(),
            (final(self).row() as int, final(self).col() as int, final(self).cells()) == old(self).after_write(byte),
    {
        if byte == 0x0a {
            self.new_line();
        } else if byte == 0x08 {
            if self.col > 0 {
                self.col = self.col - 1;
            }
            self.put_here(0x20);
        } else {
            self.put_here(byte);
            self.col = self.col + 1;
            if self.col >= self.config.width {
                // The rest of the line is empty: the line feed only moves
                // down.
                self.new_line();
            }
        }
        Ok(())
    }

    fn flush(&mut self) -> (r: FmtResult)
        ensures
            r.is_ok(),
            final(self).cells() == old(self).cells(),
            final(self).row() == old(self).row() && final(self).col() == old(self).col(),
            final(self).cursor() == (old(self).row() * old(self).cfg().width + old(self).col()) as u16,
    {
        proof {
            lemma_row_bounds(self.row as int, self.col as int, self.config.width as int, self.config.height as int);
        }
        self.update_cursor();
        Ok(())
    }
}

} // verus!
