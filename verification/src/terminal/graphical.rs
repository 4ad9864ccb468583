//! Bitmap fonts for drawing a terminal on a graphical framebuffer.

use vstd::prelude::*;

use crate::collections::TreeMap;
use crate::elf::{read_u16, spec_u16_le};
use crate::framebuffer::{format_valid, mapped, same_shape, spec_format, Framebuffer};
use crate::terminal::char_stream::{drain, lemma_pending_push, pending, seq_value, utf8_check, CharStream};
use crate::terminal::{color_rgb, Color, FmtResult, Terminal};
use crate::util::{align_up, align_up_fits, spec_align_up};

verus! {

/// A bitmap font of fixed-size glyphs.
pub trait Font {
    spec fn spec_char_width(&self) -> usize;

    spec fn spec_char_height(&self) -> usize;

    fn char_width(&self) -> (r: usize)
        ensures
            r == self.spec_char_width(),
    ;

    fn char_height(&self) -> (r: usize)
        ensures
            r == self.spec_char_height(),
    ;

    /// The bytes of one glyph, its pixels one bit each, rounded up.
    fn char_bytes(&self) -> (r: usize)
        requires
            self.spec_char_width() * self.spec_char_height() + 7 <= usize::MAX,
        ensures
            r == spec_align_up(self.spec_char_width() * self.spec_char_height(), 8) / 8,
    {
        let w = self.char_width();
        let h = self.char_height();
        proof {
            assert(8usize & ((8 - 1) as usize) == 0) by (bit_vector);
            assert(align_up_fits((w * h) as usize, 8));
        }
        align_up(w * h, 8) / 8
    }

    /// The glyph of `ch`, if the font has one: its pixels one bit each, row
    /// after row, the most significant bit of each byte first.
    spec fn glyph(&self, ch: char) -> Option<Seq<u8>>;

    /// The glyph of `ch`, if the font has one.
    fn get(&self, ch: char) -> (r: Option<&[u8]>)
        ensures
            match r {
                Some(g) => self.glyph(ch) == Some(g@) && g@.len() == spec_align_up(
                    self.spec_char_width() * self.spec_char_height(),
                    8,
                ) / 8,
                None => self.glyph(ch) is None,
            },
    ;
}

/// Why a PC Screen Font file was refused.
#[derive(Debug, Clone, Copy, PartialEq, Eq, Structural)]
pub enum PsfError {
    /// This is not a recognized PC Screen Font file.
    WrongMagic,
    /// The mode field has unrecognized bits.
    BadMode(u8),
    /// The file is smaller than it should be.
    FileTooSmall,
}

pub const PSF1_MAGIC: u16 = 0x0436;

pub const PSF1_MODE_512: u8 = 0x01;

pub const PSF1_MODE_HASTAB: u8 = 0x02;

pub const PSF1_MODE_HASSEQ: u8 = 0x04;

pub const PSF1_SEPARATOR: u32 = 0xffff;

pub const PSF1_STARTSEQ: u32 = 0xfffe;

/// A code point that is a `char`: not a surrogate.
pub open spec fn is_scalar(cp: int) -> bool {
    0 <= cp < 0xD800 || 0xE000 <= cp <= 0x10FFFF
}

/// The glyph table read from a PSF1 unicode table `t` from byte `pos` and
/// glyph `index` on, added to `table`: each code point maps to the glyph
/// whose entry lists it, entries end at a separator, sequences are skipped
/// when the file has them; reading stops after `length` entries or once
/// `pos` reaches `file_len`. Nothing if a code point would be read past the
/// end of `t`.
pub open spec fn read_table(
    t: Seq<u8>,
    file_len: int,
    pos: int,
    index: int,
    length: int,
    hasseq: bool,
    table: Map<u64, usize>,
) -> Option<Map<u64, usize>>
    decreases file_len + 8 - pos,
{
    if index >= length || pos >= file_len || pos < 0 {
        Some(table)
    } else if pos + 2 > t.len() {
        None
    } else {
        let cp = spec_u16_le(t, pos);
        if cp == PSF1_SEPARATOR {
            read_table(t, file_len, pos + 2, index + 1, length, hasseq, table)
        } else if cp == PSF1_STARTSEQ && hasseq {
            read_table(t, file_len, pos + 6, index, length, hasseq, table)
        } else if is_scalar(cp) {
            read_table(t, file_len, pos + 2, index, length, hasseq, table.insert(cp as u64, index as usize))
        } else {
            read_table(t, file_len, pos + 2, index, length, hasseq, table)
        }
    }
}

/// Every code point below `length` maps to the glyph of the same number.
pub open spec fn identity_table(length: int) -> Map<u64, usize> {
    Map::new(|cp: u64| cp < length, |cp: u64| cp as usize)
}

/// The glyph count a mode gives.
pub open spec fn psf_length(mode: u8) -> int {
    if mode & PSF1_MODE_512 != 0 {
        512
    } else {
        256
    }
}

/// What parsing `file` gives: an error, or the glyph height, the glyph count
/// and the glyph table.
pub open spec fn psf_parse(file: Seq<u8>) -> Result<(int, int, Option<Map<u64, usize>>), PsfError> {
    if spec_u16_le(file, 0) != PSF1_MAGIC {
        Err(PsfError::WrongMagic)
    } else if file[2] & 0x07 != file[2] {
        Err(PsfError::BadMode(file[2]))
    } else {
        let mode = file[2];
        let height = file[3] as int;
        let length = psf_length(mode);
        let end = 4 + height * length;
        if end > file.len() {
            Err(PsfError::FileTooSmall)
        } else if mode & PSF1_MODE_HASTAB != 0 {
            Ok(
                (
                    height,
                    length,
                    read_table(
                        file.subrange(end, file.len() as int),
                        file.len() as int,
                        0,
                        0,
                        length,
                        mode & PSF1_MODE_HASSEQ != 0,
                        Map::empty(),
                    ),
                ),
            )
        } else {
            Ok((height, length, Some(identity_table(length))))
        }
    }
}

/// A PSF1 file that parses holds 512 glyphs when bit 0x01 of its mode is
/// set and 256 otherwise, each `file[3]` bytes high; without a unicode table
/// (mode bit 0x02 clear) every code point below the glyph count shows the
/// glyph of the same number, and no other code point has one.
pub proof fn law_psf_layout(file: Seq<u8>)
    ensures
        psf_parse(file) matches Ok((h, len, table)) ==> {
            &&& len == if file[2] & 0x01 != 0 { 512int } else { 256int }
            &&& h == file[3]
            &&& file[2] & 0x02 == 0 ==> (table matches Some(t) && forall|cp: u64|
                (#[trigger] t.contains_key(cp) <==> cp < len) && (cp < len ==> t[cp] == cp))
        },
{
}

/// The file can be read as far as parsing goes: its magic number, then its
/// mode and glyph size if the magic is right, then its whole unicode table.
pub open spec fn psf_readable(file: Seq<u8>) -> bool {
    &&& file.len() >= 2
    &&& spec_u16_le(file, 0) == PSF1_MAGIC ==> file.len() >= 3
    &&& spec_u16_le(file, 0) == PSF1_MAGIC && file[2] & 0x07 == file[2] ==> file.len() >= 4
    &&& psf_parse(file) matches Ok((_, _, table)) ==> table is Some
}

/// A PC Screen Font (version 1).
pub struct PsfFont<'a> {
    buf: &'a [u8],
    chars_start: usize,
    chars_end: usize,
    unicode_table: TreeMap<usize>,
    char_width: usize,
    char_height: usize,
    length: Ghost<int>,
}

fn subslice<'a>(s: &'a [u8], from: usize, to: usize) -> (r: &'a [u8])
    requires
        from <= to <= s@.len(),
    ensures
        r@ == s@.subrange(from as int, to as int),
{
    let (_, tail) = s.split_at(from);
    let (mid, _) = tail.split_at(to - from);
    assert(mid@ =~= s@.subrange(from as int, to as int));
    mid
}

impl<'a> PsfFont<'a> {
    #[verifier::type_invariant]
    spec fn inv(self) -> bool {
        &&& self.chars_start == 4
        &&& self.char_height < 256
        &&& self.length@ == 256 || self.length@ == 512
        &&& self.chars_end == 4 + self.char_height * self.length@
        &&& self.chars_end <= self.buf@.len()
        &&& self.char_width == 8
        &&& forall|cp: u64| #[trigger] self.unicode_table.view().dom().contains(cp) ==> self.unicode_table.view()[cp]
            < self.length@
    }

    /// Which glyph each code point has.
    pub closed spec fn glyph_table(&self) -> Map<u64, usize> {
        self.unicode_table.view()
    }

    /// The font file.
    pub closed spec fn file(&self) -> Seq<u8> {
        self.buf@
    }

    /// The number of glyphs.
    pub closed spec fn glyph_count(&self) -> int {
        self.length@
    }

    /// Parse a PSF1 font file.
    pub fn new(buf: &'a [u8]) -> (r: Result<PsfFont<'a>, PsfError>)
        requires
            psf_readable(buf@),
            buf@.len() + 8 <= usize::MAX,
        ensures
            match psf_parse(buf@) {
                Err(e) => r matches Err(e2) && e2 == e,
                Ok((height, length, table)) => r matches Ok(f) && f.spec_char_height() == height
                    && f.spec_char_width() == 8 && f.glyph_count() == length && Some(f.glyph_table()) == table
                    && f.file() == buf@,
            },
            r matches Ok(f) ==> {
                &&& f.glyph_count() == if buf@[2] & 0x01 != 0 { 512int } else { 256int }
                &&& f.spec_char_height() == buf@[3]
                &&& buf@[2] & 0x02 == 0 ==> forall|cp: u64|
                    (#[trigger] f.glyph_table().contains_key(cp) <==> cp < f.glyph_count()) && (cp < f.glyph_count()
                        ==> f.glyph_table()[cp] == cp)
            },
    {
        proof {
            law_psf_layout(buf@);
        }
        if read_u16(buf, 0) != PSF1_MAGIC {
            return Err(PsfError::WrongMagic);
        }
        let mode: u8 = buf[2];
        if mode & 0x07 != mode {
            return Err(PsfError::BadMode(mode));
        }
        let mode_512 = mode & PSF1_MODE_512 != 0;
        let mode_hastab = mode & PSF1_MODE_HASTAB != 0;
        let mode_hasseq = mode & PSF1_MODE_HASSEQ != 0;
        let charsize: usize = buf[3] as usize;
        let char_width: usize = 8;
        let char_height = charsize;
        let length: usize = if mode_512 {
            512
        } else {
            256
        };
        assert(charsize * length <= 255 * 512) by (nonlinear_arith)
            requires
                charsize <= 255,
                length <= 512,
        ;
        let chars_end = 4 + charsize * length;
        if chars_end > buf.len() {
            return Err(PsfError::FileTooSmall);
        }
        let mut unicode_table: TreeMap<usize> = TreeMap::new();
        if mode_hastab {
            let table_buf = subslice(buf, chars_end, buf.len());
            let ghost whole = read_table(table_buf@, buf@.len() as int, 0, 0, length as int, mode_hasseq, Map::empty());
            let mut pos: usize = 0;
            let mut index: usize = 0;
            while index < length && pos < buf.len()
                invariant
                    pos <= buf@.len() + 6,
                    index <= length,
                    buf@.len() + 8 <= usize::MAX,
                    table_buf@ == buf@.subrange(chars_end as int, buf@.len() as int),
                    whole is Some,
                    whole == read_table(table_buf@, buf@.len() as int, pos as int, index as int, length as int, mode_hasseq, unicode_table.view()),
                    unicode_table.spec_len() <= pos,
                    forall|cp: u64| #[trigger] unicode_table.view().dom().contains(cp) ==> unicode_table.view()[cp] < length,
                decreases buf@.len() + 8 - pos,
            {
                let cp = read_u16(table_buf, pos) as u32;
                pos = pos + 2;
                if cp == PSF1_SEPARATOR {
                    index = index + 1;
                } else if cp == PSF1_STARTSEQ && mode_hasseq {
                    pos = pos + 4;
                } else if cp < 0xD800 || (0xE000 <= cp && cp <= 0x10FFFF) {
                    unicode_table.insert(cp as u64, index);
                }
            }
        } else {
            let mut index: usize = 0;
            while index < length
                invariant
                    index <= length <= 512,
                    unicode_table.spec_len() <= index,
                    unicode_table.view() == Map::new(|cp: u64| cp < index, |cp: u64| cp as usize),
                decreases length - index,
            {
                unicode_table.insert(index as u64, index);
                index = index + 1;
                assert(unicode_table.view() =~= Map::new(|cp: u64| cp < index, |cp: u64| cp as usize));
            }
        }
        Ok(PsfFont {
            buf,
            chars_start: 4,
            chars_end,
            unicode_table,
            char_width,
            char_height,
            length: Ghost(length as int),
        })
    }
}

impl<'a> Font for PsfFont<'a> {
    closed spec fn spec_char_width(&self) -> usize {
        self.char_width
    }

    closed spec fn spec_char_height(&self) -> usize {
        self.char_height
    }

    closed spec fn glyph(&self, ch: char) -> Option<Seq<u8>> {
        if self.glyph_table().dom().contains(ch as u64) {
            Some(
                self.file().subrange(
                    4 + self.spec_char_height() * self.glyph_table()[ch as u64],
                    4 + self.spec_char_height() * (self.glyph_table()[ch as u64] + 1),
                ),
            )
        } else {
            None
        }
    }

    fn char_width(&self) -> (r: usize) {
        self.char_width
    }

    fn char_height(&self) -> (r: usize) {
        self.char_height
    }

    fn get(&self, ch: char) -> (r: Option<&[u8]>)
        ensures
            match r {
                None => !self.glyph_table().dom().contains(ch as u64),
                Some(glyph) => self.glyph_table().dom().contains(ch as u64) && glyph@ == self.file().subrange(
                    4 + self.spec_char_height() * self.glyph_table()[ch as u64],
                    4 + self.spec_char_height() * (self.glyph_table()[ch as u64] + 1),
                ),
            },
    {
        proof {
            use_type_invariant(self);
        }
        match self.unicode_table.lookup(&(ch as u64)) {
            Some(index) => {
                let index = *index;
                assert(self.unicode_table.view().dom().contains(ch as u64));
                proof {
                    vstd::arithmetic::mul::lemma_mul_inequality((index + 1) as int, self.length@, self.char_height as int);
                    vstd::arithmetic::mul::lemma_mul_is_distributive_add(self.char_height as int, index as int, 1);
                    vstd::arithmetic::mul::lemma_mul_is_commutative(self.char_height as int, self.length@);
                    vstd::arithmetic::mul::lemma_mul_is_commutative(self.char_height as int, (index + 1) as int);
                }
                let start = self.chars_start + self.char_height * index;
                proof {
                    assert(self.char_width * self.char_height == 8 * self.char_height);
                    assert((8 * self.char_height) % 8 == 0);
                }
                Some(subslice(self.buf, start, start + self.char_height))
            },
            None => None,
        }
    }
}

/// Pixel `(px, py)` of a glyph `w` pixels wide is set: bit `py * w + px`,
/// the most significant bit of each byte first. A glyph has no pixel set
/// past its width, and a missing glyph none at all.
pub open spec fn glyph_on(g: Option<Seq<u8>>, w: int, px: int, py: int) -> bool {
    match g {
        Some(bits) => px < w && bits[(py * w + px) / 8] & (1u8 << ((7 - (py * w + px) % 8) as u8)) != 0,
        None => false,
    }
}

proof fn lemma_end_bits(b: u8)
    by (bit_vector)
    ensures
        (b & (1u8 << 7u8) != 0) == (b >= 0x80),
        (b & (1u8 << 0u8) != 0) == (b % 2 == 1),
{
}

/// In a glyph eight pixels wide each row is one byte, read from its most
/// significant bit: the leftmost pixel of row `py` is set exactly when the
/// byte is 0x80 or more, the rightmost exactly when it is odd; no pixel lies
/// past the width, and a missing glyph has none.
pub proof fn law_glyph_bit_order(bits: Seq<u8>, py: int)
    requires
        0 <= py < bits.len(),
    ensures
        glyph_on(Some(bits), 8, 0, py) == (bits[py] >= 0x80),
        glyph_on(Some(bits), 8, 7, py) == (bits[py] % 2 == 1),
        forall|px: int| px >= 8 ==> !glyph_on(Some(bits), 8, px, py),
        forall|px: int, y: int| !glyph_on(None, 8, px, y),
{
    assert((py * 8 + 0) / 8 == py && (py * 8 + 0) % 8 == 0);
    assert((py * 8 + 7) / 8 == py && (py * 8 + 7) % 8 == 7);
    lemma_end_bits(bits[py]);
}

/// Emulates a terminal on a graphical framebuffer.
pub struct Graphical<T, U> {
    fb: T,
    font: U,
    row: usize,
    col: usize,
    rows: usize,
    cols: usize,
    font_w: usize,
    font_h: usize,
    fg: Color,
    bg: Color,
    native_fg: u32,
    native_bg: u32,
    char_buf: CharStream,
}

impl<T: Framebuffer, U: Font> Graphical<T, U> {
    pub closed spec fn fb(&self) -> T {
        self.fb
    }

    pub closed spec fn font(&self) -> U {
        self.font
    }

    pub closed spec fn row(&self) -> usize {
        self.row
    }

    pub closed spec fn col(&self) -> usize {
        self.col
    }

    /// Rows of characters on the screen.
    pub closed spec fn rows(&self) -> usize {
        self.rows
    }

    /// Columns of characters on the screen.
    pub closed spec fn cols(&self) -> usize {
        self.cols
    }

    /// Width of a character cell: the glyph and a blank column.
    pub closed spec fn font_w(&self) -> usize {
        self.font_w
    }

    pub closed spec fn font_h(&self) -> usize {
        self.font_h
    }

    pub closed spec fn fg(&self) -> Color {
        self.fg
    }

    pub closed spec fn bg(&self) -> Color {
        self.bg
    }

    pub closed spec fn native_fg(&self) -> u32 {
        self.native_fg
    }

    pub closed spec fn native_bg(&self) -> u32 {
        self.native_bg
    }

    /// Bytes of a character still to come.
    pub closed spec fn stream(&self) -> CharStream {
        self.char_buf
    }

    /// The native color of `c` on this framebuffer.
    pub open spec fn native(&self, c: Color) -> u32 {
        spec_format(self.fb().spec_color_format(), color_rgb(c))
    }

    pub open spec fn wf(&self) -> bool {
        self.wf_at_line_end() && self.col() < self.cols()
    }

    /// As `wf`, but the cursor may stand just past the last column.
    pub open spec fn wf_at_line_end(&self) -> bool {
        &&& self.fb().inv()
        &&& self.fb().pixels_ok()
        &&& self.fb().copy_ok()
        &&& format_valid(self.fb().spec_color_format())
        &&& self.font_w() == self.font().spec_char_width() + 1
        &&& self.font_h() == self.font().spec_char_height()
        &&& self.font_h() > 0
        &&& self.font().spec_char_width() * self.font().spec_char_height() + 7 <= usize::MAX
        &&& self.rows() as int == (self.fb().spec_height() as int) / (self.font_h() as int)
        &&& self.cols() as int == (self.fb().spec_width() as int) / (self.font_w() as int)
        &&& self.rows() >= 1 && self.cols() >= 1
        &&& self.row() < self.rows() && self.col() <= self.cols()
        &&& self.native_fg() == self.native(self.fg())
        &&& self.native_bg() == self.native(self.bg())
    }

    /// Consistent, with the bytes of at most the start of one character
    /// waiting.
    pub open spec fn ready(&self) -> bool {
        self.wf() && self.stream().wf() && pending(self.stream().bytes())
    }

    /// Everything but the framebuffer is as in `other`.
    pub open spec fn same_but_fb(&self, other: &Self) -> bool {
        &&& self.font() == other.font()
        &&& self.row() == other.row() && self.col() == other.col()
        &&& self.rows() == other.rows() && self.cols() == other.cols()
        &&& self.font_w() == other.font_w() && self.font_h() == other.font_h()
        &&& self.fg() == other.fg() && self.bg() == other.bg()
        &&& self.native_fg() == other.native_fg() && self.native_bg() == other.native_bg()
        &&& self.stream() == other.stream()
    }

    /// A terminal on `fb` drawn with `font`, white on black, the cursor at
    /// the top left.
    pub fn new(fb: T, font: U) -> (g: Graphical<T, U>)
        requires
            fb.inv(),
            fb.pixels_ok(),
            fb.copy_ok(),
            format_valid(fb.spec_color_format()),
            0 < font.spec_char_height() <= fb.spec_height(),
            font.spec_char_width() < fb.spec_width(),
            font.spec_char_width() * font.spec_char_height() + 7 <= usize::MAX,
        ensures
            g.ready(),
            g.fb() == fb,
            g.font() == font,
            g.row() == 0 && g.col() == 0,
            g.rows() as int == (fb.spec_height() as int) / (font.spec_char_height() as int),
            g.cols() as int == (fb.spec_width() as int) / (font.spec_char_width() + 1),
            g.fg() == Color::White && g.bg() == Color::Black,
            g.stream().len() == 0,
    {
        let font_w = font.char_width() + 1;
        let font_h = font.char_height();
        let mut g = Graphical {
            row: 0,
            col: 0,
            rows: 0,
            cols: 0,
            font_w,
            font_h,
            fg: Color::White,
            bg: Color::Black,
            native_fg: 0,
            native_bg: 0,
            char_buf: CharStream::new(),
            fb,
            font,
        };
        g.rows = g.fb.height() / g.font_h;
        g.cols = g.fb.width() / g.font_w;
        proof {
            vstd::arithmetic::div_mod::lemma_div_is_ordered(g.font_h as int, g.fb.spec_height() as int, g.font_h as int);
            vstd::arithmetic::div_mod::lemma_div_is_ordered(g.font_w as int, g.fb.spec_width() as int, g.font_w as int);
            vstd::arithmetic::div_mod::lemma_div_basics(g.font_h as int);
            vstd::arithmetic::div_mod::lemma_div_basics(g.font_w as int);
        }
        g.update_colors();
        g
    }

    fn update_colors(&mut self)
        requires
            old(self).fb().inv(),
            format_valid(old(self).fb().spec_color_format()),
        ensures
            final(self).native_fg() == old(self).native(old(self).fg()),
            final(self).native_bg() == old(self).native(old(self).bg()),
            final(self).fb() == old(self).fb(),
            final(self).font() == old(self).font(),
            final(self).row() == old(self).row() && final(self).col() == old(self).col(),
            final(self).rows() == old(self).rows() && final(self).cols() == old(self).cols(),
            final(self).font_w() == old(self).font_w() && final(self).font_h() == old(self).font_h(),
            final(self).fg() == old(self).fg() && final(self).bg() == old(self).bg(),
            final(self).stream() == old(self).stream(),
    {
        self.native_fg = self.fb.color_format().format(self.fg.to_rgb());
        self.native_bg = self.fb.color_format().format(self.bg.to_rgb());
    }

    /// The top left pixel of the cell at `(row, col)`.
    fn position_xy(&self, row: usize, col: usize) -> (r: (usize, usize))
        requires
            self.wf_at_line_end(),
            row <= self.rows(),
            col <= self.cols(),
        ensures
            r.0 == self.font_w() * col,
            r.1 == self.font_h() * row,
            r.0 <= self.font_w() * self.cols() <= self.fb().spec_width(),
            col < self.cols() ==> r.0 + self.font_w() <= self.font_w() * self.cols(),
            r.1 <= self.font_h() * self.rows() <= self.fb().spec_height(),
            row < self.rows() ==> r.1 + self.font_h() <= self.font_h() * self.rows(),
    {
        proof {
            lemma_cells_fit(self.font_w() as int, self.cols() as int, col as int, self.fb().spec_width() as int);
            if col < self.cols() {
                lemma_cells_fit(self.font_w() as int, self.cols() as int, (col + 1) as int, self.fb().spec_width() as int);
            }
            lemma_cells_fit(self.font_h() as int, self.rows() as int, row as int, self.fb().spec_height() as int);
            if row < self.rows() {
                lemma_cells_fit(self.font_h() as int, self.rows() as int, (row + 1) as int, self.fb().spec_height() as int);
            }
        }
        (self.font_w * col, self.font_h * row)
    }
}

/// `n` cells of `size` pixels, `n` up to the number that fit in `total`,
/// fit in `total`.
proof fn lemma_cells_fit(size: int, count: int, n: int, total: int)
    requires
        size > 0,
        0 <= total,
        count == total / size,
        0 <= n <= count,
    ensures
        size * n <= size * count <= total,
        size * (n - 1) + size == size * n,
{
    vstd::arithmetic::div_mod::lemma_fundamental_div_mod(total, size);
    assert(size * n <= size * count) by (nonlinear_arith)
        requires
            size > 0,
            n <= count,
    ;
    assert(size * (n - 1) + size == size * n) by (nonlinear_arith);
}

/// The bytes an optional slice holds.
pub open spec fn slice_view(o: Option<&[u8]>) -> Option<Seq<u8>> {
    match o {
        Some(b) => Some(b@),
        None => None,
    }
}

/// Bit `index` of a glyph of `n` pixels lies in its bytes.
proof fn lemma_glyph_byte(index: int, n: int)
    requires
        0 <= index < n,
    ensures
        index / 8 < spec_align_up(n, 8) / 8,
{
    vstd::arithmetic::div_mod::lemma_fundamental_div_mod(index, 8);
    vstd::arithmetic::div_mod::lemma_fundamental_div_mod(n, 8);
    if n % 8 != 0 {
        vstd::arithmetic::div_mod::lemma_fundamental_div_mod_converse(n + 8 - n % 8, 8, n / 8 + 1, 0);
    }
}

impl<T: Framebuffer, U: Font> Graphical<T, U> {
    /// The cell at `(row, col)` holds pixel `(px, py)`.
    pub open spec fn in_cell(&self, row: int, col: int, px: int, py: int) -> bool {
        &&& self.font_w() * col <= px < self.font_w() * col + self.font_w()
        &&& self.font_h() * row <= py < self.font_h() * row + self.font_h()
    }

    /// The native color `ch` drawn at `(row, col)` gives pixel `(px, py)` of
    /// its cell.
    pub open spec fn glyph_color(&self, ch: char, row: int, col: int, px: int, py: int, colors: (u32, u32)) -> u32 {
        if glyph_on(
            self.font().glyph(ch),
            self.font().spec_char_width() as int,
            px - self.font_w() * col,
            py - self.font_h() * row,
        ) {
            colors.0
        } else {
            colors.1
        }
    }

    /// Draw `ch` in the cell at `(row, col)` with the given native
    /// `(foreground, background)` colors.
    fn render(&mut self, ch: char, row: usize, col: usize, colors: (u32, u32))
        requires
            old(self).wf(),
            row < old(self).rows(),
            col < old(self).cols(),
        ensures
            final(self).wf(),
            final(self).same_but_fb(old(self)),
            same_shape(final(self).fb(), old(self).fb()),
            forall|px: int, py: int|
                0 <= px < old(self).fb().spec_width() && 0 <= py < old(self).fb().spec_height() ==> #[trigger] final(self).fb().pixel(px, py) == if old(self).in_cell(row as int, col as int, px, py) {
                    old(self).fb().stored(old(self).glyph_color(ch, row as int, col as int, px, py, colors))
                } else {
                    old(self).fb().pixel(px, py)
                },
            forall|px: int, py: int|
                0 <= px < old(self).fb().spec_width() && 0 <= py < old(self).fb().spec_height() ==> #[trigger] final(self).fb().shown_pixel(px, py) == if old(self).in_cell(row as int, col as int, px, py) {
                    final(self).fb().pixel(px, py)
                } else {
                    old(self).fb().shown_pixel(px, py)
                },
    {
        let (x, y) = self.position_xy(row, col);
        let fontdata = self.font.get(ch);
        let c_width = self.font.char_width();
        let font_w = self.font_w;
        let font_h = self.font_h;
        let get_bit = |px: usize, py: usize, _old: u32| -> (r: u32)
            requires
                px < font_w,
                py < font_h,
                font_w == c_width + 1,
                c_width * font_h + 7 <= usize::MAX,
                fontdata matches Some(b) ==> b@.len() == spec_align_up(c_width * font_h, 8) / 8,
            ensures
                r == if glyph_on(slice_view(fontdata), c_width as int, px as int, py as int) {
                    colors.0
                } else {
                    colors.1
                },
            {
                let fg = match fontdata {
                    Some(bits) => {
                        if px >= c_width {
                            false
                        } else {
                            proof {
                                assert(py * c_width + px < c_width * font_h) by (nonlinear_arith)
                                    requires
                                        py < font_h,
                                        px < c_width,
                                ;
                                lemma_glyph_byte(py * c_width + px, c_width * font_h);
                            }
                            let index = py * c_width + px;
                            let byte = index / 8;
                            let bit = index % 8;
                            let mask = 1u8 << ((7 - bit) as u8);
                            bits[byte] & mask != 0u8
                        }
                    },
                    None => false,
                };
                if fg {
                    colors.0
                } else {
                    colors.1
                }
            };
        assert forall|cx: usize, cy: usize, v: u32| cx < font_w && cy < font_h implies #[trigger] call_requires(
            get_bit,
            (cx, cy, v),
        ) by {}
        let ghost fb0 = self.fb;
        self.fb.edit(x, y, font_w, font_h, get_bit);
        proof {
            assert forall|px: int, py: int|
                0 <= px < fb0.spec_width() && 0 <= py < fb0.spec_height() implies #[trigger] self.fb.pixel(px, py) == if old(self).in_cell(row as int, col as int, px, py) {
                    fb0.stored(old(self).glyph_color(ch, row as int, col as int, px, py, colors))
                } else {
                    fb0.pixel(px, py)
                } by {
                if old(self).in_cell(row as int, col as int, px, py) {
                    assert(mapped(get_bit, px - x, py - y, fb0.pixel(px, py), self.fb.pixel(px, py), |v: u32| fb0.stored(v)));
                    let r = choose|r: u32|
                        #[trigger] call_ensures(get_bit, ((px - x) as usize, (py - y) as usize, fb0.pixel(px, py) as u32), r)
                            && self.fb.pixel(px, py) == (|v: u32| fb0.stored(v))(r);
                }
            }
        }
    }

    /// Draw `ch` at the cursor in the current colors.
    fn put_here(&mut self, ch: char)
        requires
            old(self).wf(),
        ensures
            final(self).wf(),
            final(self).same_but_fb(old(self)),
            same_shape(final(self).fb(), old(self).fb()),
            forall|px: int, py: int|
                0 <= px < old(self).fb().spec_width() && 0 <= py < old(self).fb().spec_height() ==> #[trigger] final(self).fb().pixel(px, py) == if old(self).in_cell(old(self).row() as int, old(self).col() as int, px, py) {
                    old(self).fb().stored(
                        old(self).glyph_color(
                            ch,
                            old(self).row() as int,
                            old(self).col() as int,
                            px,
                            py,
                            (old(self).native_fg(), old(self).native_bg()),
                        ),
                    )
                } else {
                    old(self).fb().pixel(px, py)
                },
            forall|px: int, py: int|
                0 <= px < old(self).fb().spec_width() && 0 <= py < old(self).fb().spec_height() ==> #[trigger] final(self).fb().shown_pixel(px, py) == if old(self).in_cell(old(self).row() as int, old(self).col() as int, px, py) {
                    final(self).fb().pixel(px, py)
                } else {
                    old(self).fb().shown_pixel(px, py)
                },
    {
        let (row, col, colors) = (self.row, self.col, (self.native_fg, self.native_bg));
        self.render(ch, row, col, colors);
    }
}

impl<T: Framebuffer, U: Font> Graphical<T, U> {
    /// Width of the text area in pixels.
    pub open spec fn text_w(&self) -> int {
        self.font_w() * self.cols()
    }

    /// Height of the text area in pixels.
    pub open spec fn text_h(&self) -> int {
        self.font_h() * self.rows()
    }

    /// The pixels `p` with the text area moved up one row and its last row
    /// painted in the background color.
    pub open spec fn scrolled(&self, p: spec_fn(int, int) -> nat) -> spec_fn(int, int) -> nat {
        |px: int, py: int|
            if px < self.text_w() && py < self.text_h() - self.font_h() {
                p(px, py + self.font_h())
            } else if px < self.text_w() && self.text_h() - self.font_h() <= py < self.text_h() {
                self.fb().stored(self.native_bg())
            } else {
                p(px, py)
            }
    }

    /// The framebuffer's pixels.
    pub open spec fn pixels(&self) -> spec_fn(int, int) -> nat {
        |px: int, py: int| self.fb().pixel(px, py)
    }

    /// The pixels with the cursor's line painted in the background color
    /// from the cursor to the end of the text area.
    pub open spec fn line_cleared(&self) -> spec_fn(int, int) -> nat {
        |px: int, py: int|
            if self.font_w() * self.col() <= px < self.text_w() && self.font_h() * self.row() <= py < self.font_h()
                * self.row() + self.font_h() {
                self.fb().stored(self.native_bg())
            } else {
                self.fb().pixel(px, py)
            }
    }

    /// The row below the cursor's, or the last row when the text scrolls.
    pub open spec fn next_row(&self) -> usize {
        if self.row() + 1 >= self.rows() {
            (self.rows() - 1) as usize
        } else {
            (self.row() + 1) as usize
        }
    }

    /// Move the text up one row and clear the last row.
    fn scroll(&mut self)
        requires
            old(self).wf_at_line_end(),
        ensures
            final(self).wf_at_line_end(),
            final(self).same_but_fb(old(self)),
            same_shape(final(self).fb(), old(self).fb()),
            forall|px: int, py: int|
                0 <= px < old(self).fb().spec_width() && 0 <= py < old(self).fb().spec_height() ==> #[trigger] final(self).fb().pixel(px, py)
                    == old(self).scrolled(old(self).pixels())(px, py),
            forall|px: int, py: int|
                0 <= px < old(self).fb().spec_width() && 0 <= py < old(self).fb().spec_height() ==> #[trigger] final(self).fb().shown_pixel(px, py)
                    == if px < old(self).text_w() && py < old(self).text_h() {
                    final(self).fb().pixel(px, py)
                } else {
                    old(self).fb().shown_pixel(px, py)
                },
    {
        let (x0, y0) = self.position_xy(1, 0);
        let (x1, y1) = self.position_xy(0, 0);
        proof {
            lemma_cells_fit(self.font_h as int, self.rows as int, (self.rows - 1) as int, self.fb.spec_height() as int);
        }
        let width = self.font_w * self.cols;
        let height = self.font_h * (self.rows - 1);
        proof {
            assert(self.font_h * 1 + self.font_h * (self.rows - 1) == self.font_h * self.rows) by (nonlinear_arith);
            assert(self.font_h * (self.rows - 1) == self.font_h * self.rows - self.font_h) by (nonlinear_arith);
        }
        let ghost fb0 = self.fb;
        // Move the contents of everything but the first row up one row.
        self.fb.copy_within(x0, y0, x1, y1, width, height);
        let ghost fb1 = self.fb;
        // Clear the last row.
        let (x2, y2) = self.position_xy(self.rows - 1, 0);
        let bg = self.native_bg;
        self.fb.fill(x2, y2, width, self.font_h, bg);
        proof {
            assert forall|px: int, py: int|
                0 <= px < fb0.spec_width() && 0 <= py < fb0.spec_height() implies #[trigger] self.fb.pixel(px, py)
                    == old(self).scrolled(old(self).pixels())(px, py) by {
                assert(fb1.pixel(px, py) == if px < width && py < height {
                    fb0.pixel(px, py + self.font_h)
                } else {
                    fb0.pixel(px, py)
                });
            }
        }
    }

    /// Clear the rest of the line and move the cursor to the start of the
    /// next one, scrolling at the bottom of the screen.
    fn new_line(&mut self)
        requires
            old(self).wf_at_line_end(),
        ensures
            final(self).wf(),
            final(self).col() == 0,
            final(self).row() == old(self).next_row(),
            final(self).font() == old(self).font(),
            final(self).rows() == old(self).rows() && final(self).cols() == old(self).cols(),
            final(self).font_w() == old(self).font_w() && final(self).font_h() == old(self).font_h(),
            final(self).fg() == old(self).fg() && final(self).bg() == old(self).bg(),
            final(self).native_fg() == old(self).native_fg() && final(self).native_bg() == old(self).native_bg(),
            final(self).stream() == old(self).stream(),
            same_shape(final(self).fb(), old(self).fb()),
            forall|px: int, py: int|
                0 <= px < old(self).fb().spec_width() && 0 <= py < old(self).fb().spec_height() ==> #[trigger] final(self).fb().pixel(px, py)
                    == if old(self).row() + 1 >= old(self).rows() {
                    old(self).scrolled(old(self).line_cleared())(px, py)
                } else {
                    old(self).line_cleared()(px, py)
                },
    {
        let (x, y) = self.position_xy(self.row, self.col);
        // Fill the end of the line.
        let remaining = self.cols - self.col;
        proof {
            assert(self.font_w * self.col + self.font_w * remaining == self.font_w * self.cols) by (nonlinear_arith)
                requires
                    remaining == self.cols - self.col,
            ;
        }
        let bg = self.native_bg;
        let ghost fb0 = self.fb;
        self.fb.fill(x, y, self.font_w * remaining, self.font_h, bg);
        let ghost mid = *self;
        self.row = self.row + 1;
        self.col = 0;
        if self.row >= self.rows {
            self.row = self.rows - 1;
            let ghost before_scroll = *self;
            self.scroll();
            proof {
                assert forall|px: int, py: int|
                    0 <= px < fb0.spec_width() && 0 <= py < fb0.spec_height() implies #[trigger] self.fb.pixel(px, py)
                        == old(self).scrolled(old(self).line_cleared())(px, py) by {
                    let fh = self.font_h as int;
                    if px < before_scroll.text_w() && py < before_scroll.text_h() - fh {
                        assert(py + fh < before_scroll.text_h());
                        assert(before_scroll.fb().pixel(px, py + fh) == old(self).line_cleared()(px, py + fh));
                    } else {
                        assert(before_scroll.fb().pixel(px, py) == old(self).line_cleared()(px, py));
                    }
                }
            }
        }
    }
}

impl<T: Framebuffer, U: Font> Graphical<T, U> {
    /// The pixels with `ch` drawn in the cell at `(row, col)`.
    pub open spec fn drawn(&self, ch: char, row: int, col: int, colors: (u32, u32)) -> spec_fn(int, int) -> nat {
        |px: int, py: int|
            if self.in_cell(row, col, px, py) {
                self.fb().stored(self.glyph_color(ch, row, col, px, py, colors))
            } else {
                self.fb().pixel(px, py)
            }
    }

    /// Where the cursor goes after writing `ch`.
    pub open spec fn cursor_after(&self, ch: char) -> (usize, usize) {
        if ch == '\n' {
            (self.next_row(), 0)
        } else if ch == '\x08' {
            (
                self.row(),
                if self.col() > 0 {
                    (self.col() - 1) as usize
                } else {
                    0
                },
            )
        } else if self.col() + 1 >= self.cols() {
            (self.next_row(), 0)
        } else {
            (self.row(), (self.col() + 1) as usize)
        }
    }

    /// The pixels after writing `ch`: a line feed clears the rest of the
    /// line, a backspace blanks the cell it moves back to, and any other
    /// character is drawn at the cursor; at the bottom of the screen a new
    /// line scrolls the text up.
    pub open spec fn written(&self, ch: char) -> spec_fn(int, int) -> nat {
        let colors = (self.native_fg(), self.native_bg());
        if ch == '\n' {
            if self.row() + 1 >= self.rows() {
                self.scrolled(self.line_cleared())
            } else {
                self.line_cleared()
            }
        } else if ch == '\x08' {
            self.drawn(
                ' ',
                self.row() as int,
                if self.col() > 0 {
                    self.col() - 1
                } else {
                    0
                },
                colors,
            )
        } else if self.col() + 1 >= self.cols() && self.row() + 1 >= self.rows() {
            self.scrolled(self.drawn(ch, self.row() as int, self.col() as int, colors))
        } else {
            self.drawn(ch, self.row() as int, self.col() as int, colors)
        }
    }

    /// Everything but the framebuffer and the cursor is as in `other`.
    pub open spec fn same_settings(&self, other: &Self) -> bool {
        &&& self.font() == other.font()
        &&& self.rows() == other.rows() && self.cols() == other.cols()
        &&& self.font_w() == other.font_w() && self.font_h() == other.font_h()
        &&& self.fg() == other.fg() && self.bg() == other.bg()
        &&& self.native_fg() == other.native_fg() && self.native_bg() == other.native_bg()
        &&& self.stream() == other.stream()
    }

    /// Write one character at the cursor.
    fn write_char(&mut self, ch: char)
        requires
            old(self).wf(),
        ensures
            final(self).wf(),
            final(self).same_settings(old(self)),
            same_shape(final(self).fb(), old(self).fb()),
            (final(self).row(), final(self).col()) == old(self).cursor_after(ch),
            forall|px: int, py: int|
                0 <= px < old(self).fb().spec_width() && 0 <= py < old(self).fb().spec_height() ==> #[trigger] final(self).fb().pixel(px, py)
                    == old(self).written(ch)(px, py),
    {
        if ch == '\n' {
            self.new_line();
        } else if ch == '\x08' {
            if self.col > 0 {
                self.col = self.col - 1;
            }
            self.put_here(' ');
        } else {
            self.put_here(ch);
            self.col = self.col + 1;
            if self.col >= self.cols {
                let ghost mid = *self;
                // The rest of the line is empty: the line feed only moves
                // down.
                self.new_line();
                proof {
                    let colors = (old(self).native_fg(), old(self).native_bg());
                    let d = old(self).drawn(ch, old(self).row() as int, old(self).col() as int, colors);
                    assert forall|px: int, py: int|
                        #![trigger mid.fb().pixel(px, py)]
                        0 <= px < mid.fb().spec_width() && 0 <= py < mid.fb().spec_height() implies mid.line_cleared()(px, py)
                            == d(px, py) by {
                        assert(mid.fb().pixel(px, py) == d(px, py));
                    }
                    assert forall|px: int, py: int|
                        0 <= px < mid.fb().spec_width() && 0 <= py < mid.fb().spec_height() implies #[trigger] self.fb().pixel(px, py)
                            == old(self).written(ch)(px, py) by {
                        if old(self).row() + 1 >= old(self).rows() {
                            let fh = mid.font_h() as int;
                            if px < mid.text_w() && py < mid.text_h() - fh {
                                lemma_cells_fit(fh, mid.rows() as int, mid.rows() as int, mid.fb().spec_height() as int);
                                assert(mid.fb().pixel(px, py + fh) == d(px, py + fh));
                                assert(mid.line_cleared()(px, py + fh) == d(px, py + fh));
                            } else {
                                assert(mid.line_cleared()(px, py) == d(px, py));
                            }
                        }
                    }
                }
            }
        }
    }
}

impl<T: Framebuffer, U: Font> Graphical<T, U> {
    /// Everything but the bytes waiting in the character stream is as in
    /// `other`.
    pub open spec fn same_but_stream(&self, other: &Self) -> bool {
        &&& self.fb() == other.fb()
        &&& self.font() == other.font()
        &&& self.row() == other.row() && self.col() == other.col()
        &&& self.rows() == other.rows() && self.cols() == other.cols()
        &&& self.font_w() == other.font_w() && self.font_h() == other.font_h()
        &&& self.fg() == other.fg() && self.bg() == other.bg()
        &&& self.native_fg() == other.native_fg() && self.native_bg() == other.native_bg()
    }

    /// `after` is this terminal with `c` written, as `write_char` writes
    /// it; the character stream aside.
    pub open spec fn char_written(&self, c: char, after: Self) -> bool {
        &&& after.wf()
        &&& after.font() == self.font()
        &&& after.rows() == self.rows() && after.cols() == self.cols()
        &&& after.font_w() == self.font_w() && after.font_h() == self.font_h()
        &&& after.fg() == self.fg() && after.bg() == self.bg()
        &&& after.native_fg() == self.native_fg() && after.native_bg() == self.native_bg()
        &&& same_shape(after.fb(), self.fb())
        &&& (after.row(), after.col()) == self.cursor_after(c)
        &&& forall|px: int, py: int|
            0 <= px < self.fb().spec_width() && 0 <= py < self.fb().spec_height() ==> #[trigger] after.fb().pixel(px, py)
                == self.written(c)(px, py)
    }
}

impl<T: Framebuffer, U: Font> Terminal for Graphical<T, U> {
    open spec fn inv(&self) -> bool {
        self.ready()
    }

    open spec fn position_ok(&self, row: usize, col: usize) -> bool {
        row < self.rows() && col < self.cols()
    }

    open spec fn colors(&self) -> (Color, Color) {
        (self.fg(), self.bg())
    }

    open spec fn cursor_pos(&self) -> (usize, usize) {
        (self.row(), self.col())
    }

    open spec fn reset_post(&self, after: Self, r: FmtResult) -> bool {
        &&& r is Ok
        &&& after.fg() == Color::LightGrey && after.bg() == Color::Black
        &&& after.row() == 0 && after.col() == 0
        &&& same_shape(after.fb(), self.fb())
        &&& forall|px: int, py: int|
            0 <= px < self.fb().spec_width() && 0 <= py < self.fb().spec_height() ==> #[trigger] after.fb().pixel(px, py)
                == self.fb().stored(after.native_bg())
    }

    open spec fn clear_post(&self, after: Self, r: FmtResult) -> bool {
        &&& r is Ok
        &&& after.row() == 0 && after.col() == 0
        &&& after.same_settings(self)
        &&& same_shape(after.fb(), self.fb())
        &&& forall|px: int, py: int|
            0 <= px < self.fb().spec_width() && 0 <= py < self.fb().spec_height() ==> #[trigger] after.fb().pixel(px, py)
                == self.fb().stored(self.native_bg())
        &&& forall|px: int, py: int|
            0 <= px < self.fb().spec_width() && 0 <= py < self.fb().spec_height() ==> #[trigger] after.fb().shown_pixel(
                px,
                py,
            ) == after.fb().pixel(px, py)
    }

    open spec fn set_cursor_post(&self, row: usize, col: usize, after: Self, r: FmtResult) -> bool {
        &&& r is Ok
        &&& after.row() == row && after.col() == col
        &&& after.same_settings(self)
        &&& after.fb() == self.fb()
    }

    open spec fn set_color_post(&self, fg: Color, bg: Color, after: Self, r: FmtResult) -> bool {
        &&& r is Ok
        &&& after.colors() == (fg, bg)
        &&& after.native_fg() == self.native(fg) && after.native_bg() == self.native(bg)
        &&& after.row() == self.row() && after.col() == self.col()
        &&& after.fb() == self.fb()
    }

    open spec fn put_post(&self, byte: u8, fg: Color, bg: Color, row: usize, col: usize, after: Self, r: FmtResult) -> bool {
        &&& r is Ok
        &&& after.same_but_fb(self)
        &&& same_shape(after.fb(), self.fb())
        &&& forall|px: int, py: int|
            0 <= px < self.fb().spec_width() && 0 <= py < self.fb().spec_height() ==> #[trigger] after.fb().pixel(px, py)
                == self.drawn(byte as char, row as int, col as int, (self.native(fg), self.native(bg)))(px, py)
    }

    /// The byte joins the waiting bytes; the characters they then make are
    /// written one after the other, and what is left of them waits.
    open spec fn write_post(&self, byte: u8, after: Self, r: FmtResult) -> bool {
        let d = drain(self.stream().bytes().push(byte));
        &&& r is Ok
        &&& after.stream().bytes() == d.1
        &&& exists|states: Seq<Self>|
            #![trigger states.len()]
            {
                &&& states.len() == d.0.len() + 1
                &&& states[0].same_but_stream(self)
                &&& states.last() == after
                &&& forall|i: int| 0 <= i < d.0.len() ==> #[trigger] states[i].char_written(d.0[i], states[i + 1])
            }
    }

    open spec fn flush_post(&self, after: Self, r: FmtResult) -> bool {
        r is Ok && after == *self
    }

    /// Light grey on black, cleared.
    fn reset(&mut self) -> (r: FmtResult)
        ensures
            r.is_ok(),
            final(self).fg() == Color::LightGrey && final(self).bg() == Color::Black,
            final(self).row() == 0 && final(self).col() == 0,
            same_shape(final(self).fb(), old(self).fb()),
            forall|px: int, py: int|
                0 <= px < old(self).fb().spec_width() && 0 <= py < old(self).fb().spec_height() ==> #[trigger] final(self).fb().pixel(px, py)
                    == old(self).fb().stored(final(self).native_bg()),
    {
        self.fg = Color::LightGrey;
        self.bg = Color::Black;
        self.update_colors();
        self.clear()
    }

    /// Paint the whole screen in the background color and move the cursor
    /// home.
    fn clear(&mut self) -> (r: FmtResult)
        ensures
            r.is_ok(),
            final(self).row() == 0 && final(self).col() == 0,
            final(self).same_settings(old(self)),
            same_shape(final(self).fb(), old(self).fb()),
            forall|px: int, py: int|
                0 <= px < old(self).fb().spec_width() && 0 <= py < old(self).fb().spec_height() ==> #[trigger] final(self).fb().pixel(px, py)
                    == old(self).fb().stored(old(self).native_bg()),
            forall|px: int, py: int|
                0 <= px < old(self).fb().spec_width() && 0 <= py < old(self).fb().spec_height() ==> #[trigger] final(self).fb().shown_pixel(px, py)
                    == final(self).fb().pixel(px, py),
    {
        self.row = 0;
        self.col = 0;
        let width = self.fb.width();
        let height = self.fb.height();
        let bg = self.native_bg;
        self.fb.fill(0, 0, width, height, bg);
        Ok(())
    }

    fn get_cursor(&self) -> (r: (usize, usize))
        ensures
            r == (self.row(), self.col()),
    {
        (self.row, self.col)
    }

    fn set_cursor(&mut self, row: usize, col: usize) -> (r: FmtResult)
        ensures
            r.is_ok(),
            final(self).row() == row && final(self).col() == col,
            final(self).same_settings(old(self)),
            final(self).fb() == old(self).fb(),
    {
        self.row = row;
        self.col = col;
        Ok(())
    }

    fn get_color(&self) -> (r: (Color, Color)) {
        (self.fg, self.bg)
    }

    fn set_color(&mut self, fg: Color, bg: Color) -> (r: FmtResult)
        ensures
            r.is_ok(),
            final(self).colors() == (fg, bg),
            final(self).native_fg() == old(self).native(fg) && final(self).native_bg() == old(self).native(bg),
            final(self).row() == old(self).row() && final(self).col() == old(self).col(),
            final(self).fb() == old(self).fb(),
    {
        self.fg = fg;
        self.bg = bg;
        self.update_colors();
        Ok(())
    }

    /// Draw the character of `byte` at `(row, col)` in the given colors.
    fn put_raw_byte(&mut self, byte: u8, fg: Color, bg: Color, row: usize, col: usize) -> (r: FmtResult)
        ensures
            r.is_ok(),
            final(self).same_but_fb(old(self)),
            same_shape(final(self).fb(), old(self).fb()),
            forall|px: int, py: int|
                0 <= px < old(self).fb().spec_width() && 0 <= py < old(self).fb().spec_height() ==> #[trigger] final(self).fb().pixel(px, py)
                    == old(self).drawn(
                    byte as char,
                    row as int,
                    col as int,
                    (old(self).native(fg), old(self).native(bg)),
                )(px, py),
    {
        let f = self.fb.color_format().format(fg.to_rgb());
        let b = self.fb.color_format().format(bg.to_rgb());
        self.render(byte as char, row, col, (f, b));
        Ok(())
    }

    /// Take one more byte of UTF-8 text, and write each character it
    /// completes (U+FFFD for an invalid sequence).
    fn write_raw_byte(&mut self, byte: u8) -> (r: FmtResult)
        ensures
            r.is_ok(),
            final(self).colors() == old(self).colors(),
            same_shape(final(self).fb(), old(self).fb()),
            old(self).write_post(byte, *final(self), r),
    {
        let ghost s0 = self.char_buf.bytes();
        self.char_buf.push(byte);
        let ghost t = self.char_buf.bytes();
        proof {
            assert(t =~= s0.push(byte));
            lemma_pending_push(s0, byte);
            assert(drain(t) == (Seq::<char>::empty() + drain(t).0, drain(t).1));
        }
        let ghost fb0 = self.fb;
        let ghost mut states: Seq<Self> = seq![*self];
        let ghost mut done: Seq<char> = Seq::empty();
        loop
            invariant
                self.wf(),
                self.stream().wf(),
                self.stream().bytes() == t || self.stream().len() <= 1,
                t == s0.push(byte),
                s0 == old(self).stream().bytes(),
                pending(s0),
                utf8_check(t, 0) matches Err(None) ==> pending(t),
                utf8_check(t, 0) matches Err(Some(n)) ==> n >= 1 && n + 1 >= t.len(),
                self.fg() == old(self).fg() && self.bg() == old(self).bg(),
                self.rows() == old(self).rows() && self.cols() == old(self).cols(),
                same_shape(self.fb(), fb0),
                same_shape(fb0, old(self).fb()),
                states.len() == done.len() + 1,
                states[0].same_but_stream(old(self)),
                states.last() == *self,
                forall|i: int| 0 <= i < done.len() ==> #[trigger] states[i].char_written(done[i], states[i + 1]),
                drain(t) == (done + drain(self.stream().bytes()).0, drain(self.stream().bytes()).1),
            ensures
                self.ready(),
                self.fg() == old(self).fg() && self.bg() == old(self).bg(),
                self.rows() == old(self).rows() && self.cols() == old(self).cols(),
                same_shape(self.fb(), fb0),
                states.len() == done.len() + 1,
                states[0].same_but_stream(old(self)),
                states.last() == *self,
                forall|i: int| 0 <= i < done.len() ==> #[trigger] states[i].char_written(done[i], states[i + 1]),
                done == drain(t).0,
                self.stream().bytes() == drain(t).1,
            decreases self.stream().len(),
        {
            let ghost before = self.char_buf.bytes();
            let ghost k: int = done.len() as int;
            match self.char_buf.consume() {
                Some(ch) => {
                    proof {
                        let nb = self.char_buf.bytes();
                        match utf8_check(before, 0) {
                            Ok(()) => {
                                assert(nb =~= Seq::<u8>::empty());
                                assert(ch == seq_value(before, 0) as char);
                            },
                            Err(None) => {},
                            Err(Some(n)) => {
                                assert(nb =~= before.skip(n as int));
                            },
                        }
                        assert(drain(before) == (seq![ch] + drain(nb).0, drain(nb).1));
                        assert(done + drain(before).0 =~= done.push(ch) + drain(nb).0);
                        let s1 = states;
                        states = states.update(k, *self);
                        assert forall|i: int| 0 <= i < done.len() implies #[trigger] states[i].char_written(
                            done[i],
                            states[i + 1],
                        ) by {
                            assert(s1[i].char_written(done[i], s1[i + 1]));
                        }
                    }
                    self.write_char(ch);
                    proof {
                        let s2 = states;
                        states = states.push(*self);
                        done = done.push(ch);
                        assert forall|i: int| 0 <= i < done.len() implies #[trigger] states[i].char_written(
                            done[i],
                            states[i + 1],
                        ) by {
                            if i < k {
                                assert(s2[i].char_written(done[i], s2[i + 1]));
                            }
                        }
                    }
                },
                None => {
                    proof {
                        if before.len() == 1 && utf8_check(before, 0) is Err {
                            reveal_with_fuel(crate::terminal::char_stream::scan_seq, 2);
                            reveal_with_fuel(crate::terminal::char_stream::utf8_check, 2);
                        }
                        assert(drain(before).0 =~= Seq::<char>::empty());
                        assert(done + drain(before).0 =~= done);
                    }
                    break;
                },
            }
        }
        proof {
            assert(states.len() == drain(t).0.len() + 1);
        }
        Ok(())
    }

    fn flush(&mut self) -> (r: FmtResult)
        ensures
            r.is_ok(),
            *final(self) == *old(self),
    {
        Ok(())
    }
}

impl<T: Framebuffer, U: Font> Graphical<T, U> {
    /// Turn double buffering of the framebuffer on or off.
    pub fn set_double_buffer(&mut self, enabled: bool)
        requires
            old(self).ready(),
        ensures
            final(self).ready(),
            final(self).same_but_fb(old(self)),
            final(self).fb().double_buffered() == enabled,
    {
        self.fb.set_double_buffer(enabled);
    }
}

} // verus!
