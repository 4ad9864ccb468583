//! Text terminals: colors, the terminal interface, and an ANSI escape
//! sequence interpreter wrapped around any terminal.

pub mod char_stream;
pub mod graphical;
pub mod vga;

pub use vga::{Vga, VgaConfig};

use vstd::prelude::*;

verus! {

/// The error type of formatting and terminal operations.
#[verifier::external_type_specification]
#[verifier::external_body]
pub struct ExFmtError(core::fmt::Error);

/// The result of a terminal operation.
pub type FmtResult = Result<(), core::fmt::Error>;

/// Colors common to most terminals, in the order of the VGA text mode
/// palette.
#[derive(Debug, PartialEq, Eq, Clone, Copy, Structural)]
pub enum Color {
    Black,
    Blue,
    Green,
    Cyan,
    Red,
    Magenta,
    Brown,
    LightGrey,
    DarkGrey,
    LightBlue,
    LightGreen,
    LightCyan,
    LightRed,
    LightMagenta,
    LightBrown,
    White,
}

/// The VGA palette index of a color.
pub open spec fn color_index(c: Color) -> u8 {
    match c {
        Color::Black => 0,
        Color::Blue => 1,
        Color::Green => 2,
        Color::Cyan => 3,
        Color::Red => 4,
        Color::Magenta => 5,
        Color::Brown => 6,
        Color::LightGrey => 7,
        Color::DarkGrey => 8,
        Color::LightBlue => 9,
        Color::LightGreen => 10,
        Color::LightCyan => 11,
        Color::LightRed => 12,
        Color::LightMagenta => 13,
        Color::LightBrown => 14,
        Color::White => 15,
    }
}

/// The color with VGA palette index `n` (taken modulo 16).
pub open spec fn color_of_index(n: u8) -> Color {
    let m = n % 16;
    if m == 0 {
        Color::Black
    } else if m == 1 {
        Color::Blue
    } else if m == 2 {
        Color::Green
    } else if m == 3 {
        Color::Cyan
    } else if m == 4 {
        Color::Red
    } else if m == 5 {
        Color::Magenta
    } else if m == 6 {
        Color::Brown
    } else if m == 7 {
        Color::LightGrey
    } else if m == 8 {
        Color::DarkGrey
    } else if m == 9 {
        Color::LightBlue
    } else if m == 10 {
        Color::LightGreen
    } else if m == 11 {
        Color::LightCyan
    } else if m == 12 {
        Color::LightRed
    } else if m == 13 {
        Color::LightMagenta
    } else if m == 14 {
        Color::LightBrown
    } else {
        Color::White
    }
}

/// The 24-bit RGB value of each palette entry.
pub open spec fn color_rgb(c: Color) -> u32 {
    match c {
        Color::Black => 0x000000,
        Color::Blue => 0x000080,
        Color::Green => 0x008000,
        Color::Cyan => 0x008080,
        Color::Red => 0x800000,
        Color::Magenta => 0x800080,
        Color::Brown => 0x808000,
        Color::LightGrey => 0xc0c0c0,
        Color::DarkGrey => 0x404040,
        Color::LightBlue => 0x0000ff,
        Color::LightGreen => 0x00ff00,
        Color::LightCyan => 0x00ffff,
        Color::LightRed => 0xff0000,
        Color::LightMagenta => 0xff00ff,
        Color::LightBrown => 0xffff00,
        Color::White => 0xffffff,
    }
}

/// The palette in terms of the index bits: in the colors other than black,
/// the greys and white, bit 2 of the index turns on red, bit 1 green and bit
/// 0 blue, each at 0x80 for the dark colors and 0xff for the light ones;
/// white (index 15) follows the same rule. Black is 0x000000, light grey
/// 0xc0c0c0 and dark grey 0x404040.
pub open spec fn palette_rule(c: Color, rgb: u32) -> bool {
    let i = color_index(c) as int;
    let level: int = if i < 8 { 0x80 } else { 0xff };
    &&& (i % 8 != 0 && i != 7) ==> rgb == (if (i / 4) % 2 == 1 { level * 0x10000 } else { 0 }) + (if (i / 2) % 2 == 1 {
        level * 0x100
    } else {
        0
    }) + (if i % 2 == 1 { level } else { 0 })
    &&& i == 0 ==> rgb == 0x000000
    &&& i == 7 ==> rgb == 0xc0c0c0
    &&& i == 8 ==> rgb == 0x404040
}

/// Every color's RGB value follows the VGA palette rule.
pub proof fn law_palette(c: Color)
    ensures
        palette_rule(c, color_rgb(c)),
{
    match c {
        Color::Black => {},
        Color::Blue => {},
        Color::Green => {},
        Color::Cyan => {},
        Color::Red => {},
        Color::Magenta => {},
        Color::Brown => {},
        Color::LightGrey => {},
        Color::DarkGrey => {},
        Color::LightBlue => {},
        Color::LightGreen => {},
        Color::LightCyan => {},
        Color::LightRed => {},
        Color::LightMagenta => {},
        Color::LightBrown => {},
        Color::White => {},
    }
}

impl Color {
    /// The VGA palette index of the color.
    pub fn index(self) -> (r: u8)
        ensures
            r == color_index(self),
            r < 16,
    {
        match self {
            Color::Black => 0,
            Color::Blue => 1,
            Color::Green => 2,
            Color::Cyan => 3,
            Color::Red => 4,
            Color::Magenta => 5,
            Color::Brown => 6,
            Color::LightGrey => 7,
            Color::DarkGrey => 8,
            Color::LightBlue => 9,
            Color::LightGreen => 10,
            Color::LightCyan => 11,
            Color::LightRed => 12,
            Color::LightMagenta => 13,
            Color::LightBrown => 14,
            Color::White => 15,
        }
    }

    /// The color with VGA palette index `n % 16`.
    pub fn from_index(n: u8) -> (r: Color)
        ensures
            r == color_of_index(n),
            n < 16 ==> color_index(r) == n,
    {
        match n % 16 {
            0 => Color::Black,
            1 => Color::Blue,
            2 => Color::Green,
            3 => Color::Cyan,
            4 => Color::Red,
            5 => Color::Magenta,
            6 => Color::Brown,
            7 => Color::LightGrey,
            8 => Color::DarkGrey,
            9 => Color::LightBlue,
            10 => Color::LightGreen,
            11 => Color::LightCyan,
            12 => Color::LightRed,
            13 => Color::LightMagenta,
            14 => Color::LightBrown,
            _ => Color::White,
        }
    }

    /// The light variant of the color.
    pub fn lighten(self) -> (r: Color)
        ensures
            r == color_of_index((color_index(self) % 8 + 8) as u8),
    {
        Color::from_index(self.index() % 8 + 8)
    }

    /// The dark variant of the color.
    pub fn darken(self) -> (r: Color)
        ensures
            r == color_of_index(color_index(self) % 8),
    {
        Color::from_index(self.index() % 8)
    }

    pub fn to_rgb(self) -> (r: u32)
        ensures
            r == color_rgb(self),
            palette_rule(self, r),
    {
        proof {
            law_palette(self);
        }
        match self {
            Color::Black => 0x000000,
            Color::Blue => 0x000080,
            Color::Green => 0x008000,
            Color::Cyan => 0x008080,
            Color::Red => 0x800000,
            Color::Magenta => 0x800080,
            Color::Brown => 0x808000,
            Color::LightGrey => 0xc0c0c0,
            Color::DarkGrey => 0x404040,
            Color::LightBlue => 0x0000ff,
            Color::LightGreen => 0x00ff00,
            Color::LightCyan => 0x00ffff,
            Color::LightRed => 0xff0000,
            Color::LightMagenta => 0xff00ff,
            Color::LightBrown => 0xffff00,
            Color::White => 0xffffff,
        }
    }
}

} // verus!

verus! {

/// A terminal.
pub trait Terminal: Sized {
    /// The terminal's own consistency condition.
    spec fn inv(&self) -> bool;

    /// `(row, col)` is a position on the screen.
    spec fn position_ok(&self, row: usize, col: usize) -> bool;

    /// The current `(foreground, background)` colors.
    spec fn colors(&self) -> (Color, Color);

    /// The cursor's `(row, col)` position.
    spec fn cursor_pos(&self) -> (usize, usize);

    /// `reset` turns this terminal into `after`, with the result `r`.
    spec fn reset_post(&self, after: Self, r: FmtResult) -> bool;

    /// `clear` turns this terminal into `after`, with the result `r`.
    spec fn clear_post(&self, after: Self, r: FmtResult) -> bool;

    /// `set_cursor(row, col)` turns this terminal into `after`, with the
    /// result `r`.
    spec fn set_cursor_post(&self, row: usize, col: usize, after: Self, r: FmtResult) -> bool;

    /// `set_color(fg, bg)` turns this terminal into `after`, with the result
    /// `r`.
    spec fn set_color_post(&self, fg: Color, bg: Color, after: Self, r: FmtResult) -> bool;

    /// `put_raw_byte(byte, fg, bg, row, col)` turns this terminal into
    /// `after`, with the result `r`.
    spec fn put_post(&self, byte: u8, fg: Color, bg: Color, row: usize, col: usize, after: Self, r: FmtResult) -> bool;

    /// `write_raw_byte(byte)` turns this terminal into `after`, with the
    /// result `r`.
    spec fn write_post(&self, byte: u8, after: Self, r: FmtResult) -> bool;

    /// `flush` turns this terminal into `after`, with the result `r`.
    spec fn flush_post(&self, after: Self, r: FmtResult) -> bool;

    /// Reset the terminal to its initial state.
    fn reset(&mut self) -> (r: FmtResult)
        requires
            old(self).inv(),
        ensures
            final(self).inv(),
            forall|row: usize, col: usize|
                final(self).position_ok(row, col) == old(self).position_ok(row, col),
            old(self).reset_post(*final(self), r),
    ;

    /// Clear the terminal buffer.
    fn clear(&mut self) -> (r: FmtResult)
        requires
            old(self).inv(),
        ensures
            final(self).inv(),
            final(self).colors() == old(self).colors(),
            forall|row: usize, col: usize|
                final(self).position_ok(row, col) == old(self).position_ok(row, col),
            old(self).clear_post(*final(self), r),
    ;

    /// Get the current `(row, col)` position of the cursor.
    fn get_cursor(&self) -> (r: (usize, usize))
        requires
            self.inv(),
        ensures
            r == self.cursor_pos(),
    ;

    /// Set the cursor to a given `(row, col)` position.
    fn set_cursor(&mut self, row: usize, col: usize) -> (r: FmtResult)
        requires
            old(self).inv(),
            old(self).position_ok(row, col),
        ensures
            final(self).inv(),
            final(self).colors() == old(self).colors(),
            forall|row: usize, col: usize|
                final(self).position_ok(row, col) == old(self).position_ok(row, col),
            old(self).set_cursor_post(row, col, *final(self), r),
    ;

    /// Get the current color set of the terminal.
    fn get_color(&self) -> (r: (Color, Color))
        requires
            self.inv(),
        ensures
            r == self.colors(),
    ;

    /// Set the current color set of the terminal.
    fn set_color(&mut self, fg: Color, bg: Color) -> (r: FmtResult)
        requires
            old(self).inv(),
        ensures
            final(self).inv(),
            forall|row: usize, col: usize|
                final(self).position_ok(row, col) == old(self).position_ok(row, col),
            old(self).set_color_post(fg, bg, *final(self), r),
    ;

    /// Put a byte at the given `(row, col)` position with the given colors,
    /// without changing the cursor or the current color set.
    fn put_raw_byte(&mut self, byte: u8, fg: Color, bg: Color, row: usize, col: usize) -> (r: FmtResult)
        requires
            old(self).inv(),
            old(self).position_ok(row, col),
        ensures
            final(self).inv(),
            final(self).colors() == old(self).colors(),
            forall|row: usize, col: usize|
                final(self).position_ok(row, col) == old(self).position_ok(row, col),
            old(self).put_post(byte, fg, bg, row, col, *final(self), r),
    ;

    /// Write a raw byte at the current cursor position with the current
    /// color set.
    fn write_raw_byte(&mut self, byte: u8) -> (r: FmtResult)
        requires
            old(self).inv(),
        ensures
            final(self).inv(),
            forall|row: usize, col: usize|
                final(self).position_ok(row, col) == old(self).position_ok(row, col),
            old(self).write_post(byte, *final(self), r),
    ;

    /// Write a byte slice at the current cursor position, stopping at the
    /// first error.
    fn write_raw_bytes(&mut self, bytes: &[u8]) -> (r: FmtResult)
        requires
            old(self).inv(),
        ensures
            final(self).inv(),
            forall|row: usize, col: usize|
                final(self).position_ok(row, col) == old(self).position_ok(row, col),
            exists|states: Seq<Self>, rs: Seq<FmtResult>|
                #![trigger states.len(), rs.len()]
                {
                    &&& states.len() == rs.len() + 1
                    &&& rs.len() <= bytes@.len()
                    &&& states[0] == *old(self)
                    &&& states.last() == *final(self)
                    &&& forall|i: int|
                        0 <= i < rs.len() ==> #[trigger] states[i].write_post(bytes@[i], states[i + 1], rs[i])
                    &&& forall|i: int| 0 <= i < rs.len() - 1 ==> (#[trigger] rs[i]) is Ok
                    &&& if rs.len() > 0 && rs.last() is Err {
                        r == rs.last()
                    } else {
                        rs.len() == bytes@.len() && r is Ok
                    }
                },
    {
        let ghost mut states: Seq<Self> = seq![*self];
        let ghost mut rs: Seq<FmtResult> = seq![];
        let mut i: usize = 0;
        while i < bytes.len()
            invariant
                self.inv(),
                forall|row: usize, col: usize|
                    self.position_ok(row, col) == old(self).position_ok(row, col),
                i <= bytes@.len(),
                states.len() == i + 1,
                rs.len() == i,
                states[0] == *old(self),
                states.last() == *self,
                forall|k: int| 0 <= k < i ==> #[trigger] states[k].write_post(bytes@[k], states[k + 1], rs[k]),
                forall|k: int| 0 <= k < i ==> (#[trigger] rs[k]) is Ok,
            decreases bytes@.len() - i,
        {
            let ghost before = *self;
            let r = self.write_raw_byte(bytes[i]);
            proof {
                let s0 = states;
                states = states.push(*self);
                rs = rs.push(r);
                assert forall|k: int| 0 <= k < i + 1 implies #[trigger] states[k].write_post(bytes@[k], states[k + 1], rs[k]) by {
                    if k < i {
                        assert(states[k] == s0[k]);
                        assert(states[k + 1] == s0[k + 1]);
                    }
                }
            }
            if r.is_err() {
                proof {
                    assert(states.len() == rs.len() + 1);
                }
                return r;
            }
            i = i + 1;
        }
        proof {
            assert(states.len() == rs.len() + 1);
        }
        Ok(())
    }

    /// Flush any deferred commands or buffers.
    fn flush(&mut self) -> (r: FmtResult)
        requires
            old(self).inv(),
        ensures
            final(self).inv(),
            final(self).colors() == old(self).colors(),
            forall|row: usize, col: usize|
                final(self).position_ok(row, col) == old(self).position_ok(row, col),
            old(self).flush_post(*final(self), r),
    ;
}

/// Ignores all commands and does nothing. Useful initial state.
pub struct Null;

impl Terminal for Null {
    open spec fn inv(&self) -> bool {
        true
    }

    open spec fn position_ok(&self, row: usize, col: usize) -> bool {
        true
    }

    open spec fn colors(&self) -> (Color, Color) {
        (Color::White, Color::Black)
    }

    open spec fn cursor_pos(&self) -> (usize, usize) {
        (0, 0)
    }

    open spec fn reset_post(&self, after: Self, r: FmtResult) -> bool {
        r is Ok
    }

    open spec fn clear_post(&self, after: Self, r: FmtResult) -> bool {
        r is Ok
    }

    open spec fn set_cursor_post(&self, row: usize, col: usize, after: Self, r: FmtResult) -> bool {
        r is Ok
    }

    open spec fn set_color_post(&self, fg: Color, bg: Color, after: Self, r: FmtResult) -> bool {
        r is Ok
    }

    open spec fn put_post(&self, byte: u8, fg: Color, bg: Color, row: usize, col: usize, after: Self, r: FmtResult) -> bool {
        r is Ok
    }

    open spec fn write_post(&self, byte: u8, after: Self, r: FmtResult) -> bool {
        r is Ok
    }

    open spec fn flush_post(&self, after: Self, r: FmtResult) -> bool {
        r is Ok
    }

    fn reset(&mut self) -> (r: FmtResult) {
        Ok(())
    }

    fn clear(&mut self) -> (r: FmtResult) {
        Ok(())
    }

    fn get_cursor(&self) -> (r: (usize, usize)) {
        (0, 0)
    }

    fn set_cursor(&mut self, _row: usize, _col: usize) -> (r: FmtResult) {
        Ok(())
    }

    fn get_color(&self) -> (r: (Color, Color)) {
        (Color::White, Color::Black)
    }

    fn set_color(&mut self, _fg: Color, _bg: Color) -> (r: FmtResult) {
        Ok(())
    }

    fn put_raw_byte(&mut self, _byte: u8, _fg: Color, _bg: Color, _row: usize, _col: usize) -> (r:
        FmtResult) {
        Ok(())
    }

    fn write_raw_byte(&mut self, _byte: u8) -> (r: FmtResult) {
        Ok(())
    }

    fn flush(&mut self) -> (r: FmtResult) {
        Ok(())
    }
}

} // verus!

verus! {

/// Where the ANSI interpreter is within an escape sequence.
#[derive(Debug, Clone, Copy)]
pub enum AnsiState {
    Normal,
    StartSeq,
    /// Inside a Control Sequence Introducer: number of parameters, whether
    /// the next digit starts a new parameter, and the parameters.
    Csi(u8, bool, [u8; 16]),
}

/// A well-formed state: inside a CSI there are 1 to 16 parameters.
pub open spec fn ansi_state_ok(s: AnsiState) -> bool {
    match s {
        AnsiState::Csi(size, _, _) => 1 <= size <= 16,
        _ => true,
    }
}

/// The parameter state after a decimal digit (8-bit parameters wrap).
pub open spec fn spec_csi_digit(size: u8, new: bool, buf: Seq<u8>, digit: u8) -> (u8, bool, Seq<u8>) {
    if new && size >= 16 {
        (size, new, buf)
    } else {
        let size2 = if new { (size + 1) as u8 } else { size };
        let index = size2 - 1;
        (size2, false, buf.update(index, (buf[index] * 10 + digit) as u8))
    }
}

/// The decimal number that the digits `ds` write, most significant first.
pub open spec fn decimal(ds: Seq<u8>) -> int
    decreases ds.len(),
{
    if ds.len() == 0 {
        0
    } else {
        decimal(ds.drop_last()) * 10 + ds.last()
    }
}

/// The parameter state after the digits `ds`, one at a time.
pub open spec fn digits_fed(size: u8, new: bool, buf: Seq<u8>, ds: Seq<u8>) -> (u8, bool, Seq<u8>)
    decreases ds.len(),
{
    if ds.len() == 0 {
        (size, new, buf)
    } else {
        let st = digits_fed(size, new, buf, ds.drop_last());
        spec_csi_digit(st.0, st.1, st.2, ds.last())
    }
}

proof fn lemma_decimal_prefix(ds: Seq<u8>)
    requires
        forall|i: int| 0 <= i < ds.len() ==> #[trigger] ds[i] < 10,
    ensures
        decimal(ds) >= 0,
        ds.len() > 0 ==> decimal(ds.drop_last()) <= decimal(ds),
    decreases ds.len(),
{
    if ds.len() > 0 {
        let a = ds.drop_last();
        assert forall|i: int| 0 <= i < a.len() implies #[trigger] a[i] < 10 by {
            assert(a[i] == ds[i]);
        }
        lemma_decimal_prefix(a);
    }
}

/// The digits of a control sequence parameter make its decimal value: from
/// a parameter slot holding zero (the next one after a `;`, or the current
/// one), the digits `ds` of a number below 256 leave that number in the
/// slot, and no other slot changes.
pub proof fn law_csi_decimal(size: u8, new: bool, buf: Seq<u8>, ds: Seq<u8>)
    requires
        buf.len() == 16,
        ds.len() >= 1,
        forall|i: int| 0 <= i < ds.len() ==> #[trigger] ds[i] < 10,
        decimal(ds) < 256,
        new ==> size < 16 && buf[size as int] == 0,
        !new ==> 1 <= size <= 16 && buf[size - 1] == 0,
    ensures
        ({
            let st = digits_fed(size, new, buf, ds);
            let p = if new { size + 1 } else { size as int };
            &&& st.0 == p
            &&& !st.1
            &&& st.2.len() == 16
            &&& st.2[p - 1] == decimal(ds)
            &&& forall|i: int| 0 <= i < 16 && i != p - 1 ==> #[trigger] st.2[i] == buf[i]
        }),
    decreases ds.len(),
{
    lemma_decimal_prefix(ds);
    let a = ds.drop_last();
    if ds.len() == 1 {
        assert(a.len() == 0);
        assert(decimal(a) == 0);
        assert(digits_fed(size, new, buf, a) == (size, new, buf));
    } else {
        assert forall|i: int| 0 <= i < a.len() implies #[trigger] a[i] < 10 by {
            assert(a[i] == ds[i]);
        }
        law_csi_decimal(size, new, buf, a);
    }
}

/// The parameter state after a `;`.
pub open spec fn spec_csi_push(size: u8, new: bool) -> (u8, bool) {
    if new {
        if size < 16 { ((size + 1) as u8, new) } else { (size, new) }
    } else {
        (size, true)
    }
}

impl AnsiState {
    fn csi_digit(&mut self, digit: u8)
        requires
            *old(self) is Csi,
            ansi_state_ok(*old(self)),
        ensures
            match (*old(self), *final(self)) {
                (AnsiState::Csi(size, new, buf), AnsiState::Csi(size2, new2, buf2)) => (
                size2,
                new2,
                buf2@,
            ) == spec_csi_digit(size, new, buf@, digit),
                _ => false,
            },
            ansi_state_ok(*final(self)),
    {
        let ghost old_buf = match *self {
            AnsiState::Csi(_, _, b) => b@,
            _ => Seq::empty(),
        };
        match *self {
            AnsiState::Csi(size, new, buf) => {
                let mut size = size;
                let mut new = new;
                let mut buf = buf;
                if new {
                    if (size as usize) >= buf.len() {
                        return ;
                    }
                    size = size + 1;
                    new = false;
                }
                let index = (size as usize) - 1;
                buf[index] = buf[index].wrapping_mul(10).wrapping_add(digit);
                proof {
                    assert(buf@ =~= old_buf.update(index as int, (old_buf[index as int] * 10
                        + digit) as u8)) by {
                        let x: u8 = old_buf[index as int];
                        assert(x.wrapping_mul(10).wrapping_add(digit) == ((x * 10 + digit) as u8)) by (bit_vector);
                    }
                }
                *self = AnsiState::Csi(size, new, buf);
            },
            _ => {},
        }
    }

    fn csi_push(&mut self)
        requires
            *old(self) is Csi,
            ansi_state_ok(*old(self)),
        ensures
            match (*old(self), *final(self)) {
                (AnsiState::Csi(size, new, buf), AnsiState::Csi(size2, new2, buf2)) => (size2, new2)
                    == spec_csi_push(size, new) && buf2 == buf,
                _ => false,
            },
            ansi_state_ok(*final(self)),
    {
        match *self {
            AnsiState::Csi(size, new, buf) => {
                if new {
                    if (size as usize) < buf.len() {
                        *self = AnsiState::Csi(size + 1, new, buf);
                    }
                } else {
                    *self = AnsiState::Csi(size, true, buf);
                }
            },
            _ => {},
        }
    }

    /// The parameters of the control sequence.
    fn csi_finish(&self) -> (r: Vec<u8>)
        requires
            self is Csi,
            ansi_state_ok(*self),
        ensures
            match *self {
                AnsiState::Csi(size, _, buf) => r@ == buf@.subrange(0, size as int),
                _ => false,
            },
    {
        match *self {
            AnsiState::Csi(size, _, buf) => {
                let mut r: Vec<u8> = Vec::new();
                let mut i: usize = 0;
                while i < size as usize
                    invariant
                        size <= 16,
                        i <= size,
                        r@ == buf@.subrange(0, i as int),
                    decreases size - i,
                {
                    r.push(buf[i]);
                    proof {
                        assert(r@ =~= buf@.subrange(0, i as int + 1));
                    }
                    i = i + 1;
                }
                r
            },
            _ => Vec::new(),
        }
    }
}

/// The color of an ANSI color number 0 to 7.
pub open spec fn ansi_color(n: u8) -> Color {
    if n == 0 {
        Color::Black
    } else if n == 1 {
        Color::Red
    } else if n == 2 {
        Color::Green
    } else if n == 3 {
        Color::Brown
    } else if n == 4 {
        Color::Blue
    } else if n == 5 {
        Color::Magenta
    } else if n == 6 {
        Color::Cyan
    } else {
        Color::LightGrey
    }
}

/// ANSI numbers its eight colors with red in bit 0, green in bit 1 and
/// blue in bit 2; the VGA palette has them the other way round, blue in bit
/// 0 and red in bit 2. The ANSI color `n` is the dark VGA color with those
/// bits reversed.
pub proof fn law_ansi_color_bits(n: u8)
    requires
        n < 8,
    ensures
        color_index(ansi_color(n)) == (n % 2) * 4 + ((n / 2) % 2) * 2 + (n / 4) % 2,
{
}

fn ansi_attr_color(n: u8) -> (r: Color)
    requires
        n < 8,
    ensures
        r == ansi_color(n),
        color_index(r) == (n % 2) * 4 + ((n / 2) % 2) * 2 + (n / 4) % 2,
{
    proof {
        law_ansi_color_bits(n);
    }
    match n {
        0 => Color::Black,
        1 => Color::Red,
        2 => Color::Green,
        3 => Color::Brown,
        4 => Color::Blue,
        5 => Color::Magenta,
        6 => Color::Cyan,
        _ => Color::LightGrey,
    }
}

/// The effect of one Select Graphic Rendition attribute on
/// `(foreground, background, bold)`.
pub open spec fn sgr_step(st: (Color, Color, bool), attr: u8) -> (Color, Color, bool) {
    if attr == 0 {
        (Color::LightGrey, Color::Black, false)
    } else if attr == 1 {
        (st.0, st.1, true)
    } else if attr == 22 {
        (st.0, st.1, false)
    } else if 30 <= attr <= 37 {
        (ansi_color((attr - 30) as u8), st.1, st.2)
    } else if 40 <= attr <= 47 {
        (st.0, ansi_color((attr - 40) as u8), st.2)
    } else {
        st
    }
}

/// The effect of a list of attributes, applied in order.
pub open spec fn sgr_fold(st: (Color, Color, bool), attrs: Seq<u8>) -> (Color, Color, bool)
    decreases attrs.len(),
{
    if attrs.len() == 0 {
        st
    } else {
        sgr_step(sgr_fold(st, attrs.drop_last()), attrs.last())
    }
}

/// The colors set at the end of a control sequence: the attributes are
/// applied, then the foreground is lightened when bold and darkened when
/// not.
pub open spec fn sgr_result(st: (Color, Color, bool), attrs: Seq<u8>) -> (Color, Color, bool) {
    let (fg, bg, bold) = sgr_fold(st, attrs);
    (
        if bold {
            color_of_index((color_index(fg) % 8 + 8) as u8)
        } else {
            color_of_index(color_index(fg) % 8)
        },
        bg,
        bold,
    )
}

/// The attribute changes whether text is bold: 0 (reset) and 22 turn bold
/// off, 1 turns it on.
pub open spec fn bold_attr(a: u8) -> bool {
    a == 0 || a == 1 || a == 22
}

/// Among the attributes, the last one that touches bold is `k`.
pub open spec fn last_bold_attr(attrs: Seq<u8>, k: int) -> bool {
    &&& 0 <= k < attrs.len()
    &&& bold_attr(attrs[k])
    &&& forall|j: int| k < j < attrs.len() ==> !bold_attr(#[trigger] attrs[j])
}

/// The palette index of the color with index `n % 8` is below 8, and that
/// of the color with index `n % 8 + 8` is 8 or more.
proof fn lemma_dark_light_index(n: u8)
    ensures
        color_index(color_of_index(n % 8)) == n % 8,
        color_index(color_of_index((n % 8 + 8) as u8)) == n % 8 + 8,
{
}

/// The attribute sets the foreground: 0 (reset) or 30 to 37.
pub open spec fn fg_attr(a: u8) -> bool {
    a == 0 || (30 <= a && a <= 37)
}

/// The attribute sets the background: 0 (reset) or 40 to 47.
pub open spec fn bg_attr(a: u8) -> bool {
    a == 0 || (40 <= a && a <= 47)
}

/// Attributes that set neither color leave both colors as they were.
proof fn lemma_sgr_fold_colors(st: (Color, Color, bool), attrs: Seq<u8>, k: int, fg: bool)
    requires
        0 <= k <= attrs.len(),
        forall|j: int| k <= j < attrs.len() ==> !(if fg { fg_attr(#[trigger] attrs[j]) } else { bg_attr(attrs[j]) }),
    ensures
        fg ==> sgr_fold(st, attrs).0 == sgr_fold(st, attrs.subrange(0, k)).0,
        !fg ==> sgr_fold(st, attrs).1 == sgr_fold(st, attrs.subrange(0, k)).1,
    decreases attrs.len(),
{
    if attrs.len() > k {
        let a = attrs.drop_last();
        assert forall|j: int| k <= j < a.len() implies !(if fg { fg_attr(#[trigger] a[j]) } else { bg_attr(a[j]) }) by {
            assert(a[j] == attrs[j]);
        }
        lemma_sgr_fold_colors(st, a, k, fg);
        assert(a.subrange(0, k) =~= attrs.subrange(0, k));
        assert(!(if fg { fg_attr(attrs[attrs.len() - 1]) } else { bg_attr(attrs[attrs.len() - 1]) }));
    } else {
        assert(attrs.subrange(0, k) =~= attrs);
    }
}

/// The ANSI color number `n` with its bits reversed: the VGA index of the
/// same color.
pub open spec fn ansi_to_vga(n: int) -> int {
    (n % 2) * 4 + ((n / 2) % 2) * 2 + (n / 4) % 2
}

/// After a list of attributes, the foreground is the color that the last
/// attribute setting it named (light grey after a reset), lightened or
/// darkened by bold; the background is the one the last attribute setting
/// it named (black after a reset).
pub proof fn law_sgr_colors(st: (Color, Color, bool), attrs: Seq<u8>)
    ensures
        forall|k: int|
            0 <= k < attrs.len() && #[trigger] fg_attr(attrs[k]) && (forall|j: int|
                k < j < attrs.len() ==> !fg_attr(#[trigger] attrs[j])) ==> color_index(sgr_result(st, attrs).0) % 8
                == if attrs[k] == 0 {
                7
            } else {
                ansi_to_vga(attrs[k] - 30)
            },
        forall|k: int|
            0 <= k < attrs.len() && #[trigger] bg_attr(attrs[k]) && (forall|j: int|
                k < j < attrs.len() ==> !bg_attr(#[trigger] attrs[j])) ==> color_index(sgr_result(st, attrs).1)
                == if attrs[k] == 0 {
                0
            } else {
                ansi_to_vga(attrs[k] - 40)
            },
{
    let fg = sgr_fold(st, attrs).0;
    lemma_dark_light_index(color_index(fg));
    assert forall|k: int|
        0 <= k < attrs.len() && #[trigger] fg_attr(attrs[k]) && (forall|j: int|
            k < j < attrs.len() ==> !fg_attr(#[trigger] attrs[j])) implies color_index(sgr_result(st, attrs).0) % 8
            == if attrs[k] == 0 {
            7
        } else {
            ansi_to_vga(attrs[k] - 30)
        } by {
        lemma_sgr_fold_colors(st, attrs, k + 1, true);
        let p = attrs.subrange(0, k + 1);
        assert(p.drop_last() =~= attrs.subrange(0, k));
        assert(p.last() == attrs[k]);
        if attrs[k] != 0 {
            law_ansi_color_bits((attrs[k] - 30) as u8);
        }
    }
    assert forall|k: int|
        0 <= k < attrs.len() && #[trigger] bg_attr(attrs[k]) && (forall|j: int|
            k < j < attrs.len() ==> !bg_attr(#[trigger] attrs[j])) implies color_index(sgr_result(st, attrs).1)
            == if attrs[k] == 0 {
            0
        } else {
            ansi_to_vga(attrs[k] - 40)
        } by {
        lemma_sgr_fold_colors(st, attrs, k + 1, false);
        let p = attrs.subrange(0, k + 1);
        assert(p.drop_last() =~= attrs.subrange(0, k));
        assert(p.last() == attrs[k]);
        if attrs[k] != 0 {
            law_ansi_color_bits((attrs[k] - 40) as u8);
        }
    }
}

/// Attributes that touch no bold leave the bold flag as it was.
proof fn lemma_sgr_fold_bold(st: (Color, Color, bool), attrs: Seq<u8>, k: int)
    requires
        0 <= k <= attrs.len(),
        forall|j: int| k <= j < attrs.len() ==> !bold_attr(#[trigger] attrs[j]),
    ensures
        sgr_fold(st, attrs).2 == sgr_fold(st, attrs.subrange(0, k)).2,
    decreases attrs.len(),
{
    if attrs.len() > k {
        let a = attrs.drop_last();
        assert forall|j: int| k <= j < a.len() implies !bold_attr(#[trigger] a[j]) by {
            assert(a[j] == attrs[j]);
        }
        lemma_sgr_fold_bold(st, a, k);
        assert(a.subrange(0, k) =~= attrs.subrange(0, k));
        assert(!bold_attr(attrs[attrs.len() - 1]));
    } else {
        assert(attrs.subrange(0, k) =~= attrs);
    }
}

/// After a list of Select Graphic Rendition attributes, text is bold exactly
/// when the last attribute that touches bold is 1; with none, bold stays as
/// it was. Bold text is drawn in a light color (palette index 8 or more),
/// other text in a dark one (below 8).
pub proof fn law_sgr_bold(st: (Color, Color, bool), attrs: Seq<u8>)
    ensures
        forall|k: int| #[trigger] last_bold_attr(attrs, k) ==> sgr_result(st, attrs).2 == (attrs[k] == 1),
        (forall|j: int| 0 <= j < attrs.len() ==> !bold_attr(#[trigger] attrs[j])) ==> sgr_result(st, attrs).2 == st.2,
        sgr_result(st, attrs).2 ==> color_index(sgr_result(st, attrs).0) >= 8,
        !sgr_result(st, attrs).2 ==> color_index(sgr_result(st, attrs).0) < 8,
{
    let fg = sgr_fold(st, attrs).0;
    lemma_dark_light_index(color_index(fg));
    assert forall|k: int| #[trigger] last_bold_attr(attrs, k) implies sgr_result(st, attrs).2 == (attrs[k] == 1) by {
        lemma_sgr_fold_bold(st, attrs, k + 1);
        let p = attrs.subrange(0, k + 1);
        assert(p.drop_last() =~= attrs.subrange(0, k));
        assert(p.last() == attrs[k]);
    }
    if forall|j: int| 0 <= j < attrs.len() ==> !bold_attr(#[trigger] attrs[j]) {
        lemma_sgr_fold_bold(st, attrs, 0);
        assert(attrs.subrange(0, 0) =~= Seq::<u8>::empty());
    }
}

/// Apply Select Graphic Rendition attributes to `(foreground, background,
/// bold)`.
pub fn sgr_colors(fg: Color, bg: Color, bold: bool, attrs: &[u8]) -> (r: (Color, Color, bool))
    ensures
        r == sgr_result((fg, bg, bold), attrs@),
        forall|k: int| #[trigger] last_bold_attr(attrs@, k) ==> r.2 == (attrs@[k] == 1),
        (forall|j: int| 0 <= j < attrs@.len() ==> !bold_attr(#[trigger] attrs@[j])) ==> r.2 == bold,
        r.2 ==> color_index(r.0) >= 8,
        !r.2 ==> color_index(r.0) < 8,
{
    proof {
        law_sgr_bold((fg, bg, bold), attrs@);
    }
    let mut fg = fg;
    let mut bg = bg;
    let mut bold = bold;
    let ghost st0 = (fg, bg, bold);
    let mut i: usize = 0;
    while i < attrs.len()
        invariant
            i <= attrs@.len(),
            (fg, bg, bold) == sgr_fold(st0, attrs@.subrange(0, i as int)),
        decreases attrs@.len() - i,
    {
        let attr = attrs[i];
        proof {
            assert(attrs@.subrange(0, i as int + 1).drop_last() =~= attrs@.subrange(0, i as int));
        }
        if attr == 0 {
            bold = false;
            fg = Color::LightGrey;
            bg = Color::Black;
        } else if attr == 1 {
            bold = true;
        } else if attr == 22 {
            bold = false;
        } else if 30 <= attr && attr <= 37 {
            fg = ansi_attr_color(attr - 30);
        } else if 40 <= attr && attr <= 47 {
            bg = ansi_attr_color(attr - 40);
        }
        i = i + 1;
    }
    proof {
        assert(attrs@.subrange(0, attrs@.len() as int) =~= attrs@);
    }
    if bold {
        fg = fg.lighten();
    } else {
        fg = fg.darken();
    }
    (fg, bg, bold)
}

/// The shape of a state: 0 for normal, 1 after an escape, 2 inside a
/// control sequence, with its parameter count and whether the next digit
/// starts a new parameter.
pub open spec fn state_shape(s: AnsiState) -> (int, u8, bool) {
    match s {
        AnsiState::Normal => (0, 0, false),
        AnsiState::StartSeq => (1, 0, false),
        AnsiState::Csi(size, new, _) => (2, size, new),
    }
}

/// The shape of the state after `byte`, unless `byte` ends a control
/// sequence: escape starts a sequence, `[` after it starts a control
/// sequence, digits and `;` build its parameters, and anything else ends it.
pub open spec fn ansi_next_shape(s: AnsiState, byte: u8) -> (int, u8, bool) {
    match s {
        AnsiState::Normal => if byte == 0x1b {
            (1, 0, false)
        } else {
            (0, 0, false)
        },
        AnsiState::StartSeq => if byte == 0x5b {
            (2, 1, false)
        } else {
            (0, 0, false)
        },
        AnsiState::Csi(size, new, buf) => if 0x30 <= byte <= 0x39 {
            let (size2, new2, buf2) = spec_csi_digit(size, new, buf@, (byte - 0x30) as u8);
            (2, size2, new2)
        } else if byte == 0x3b {
            let (size2, new2) = spec_csi_push(size, new);
            (2, size2, new2)
        } else {
            (0, 0, false)
        },
    }
}

/// Wraps a Terminal to make it compatible with ANSI escape sequences.
pub struct Ansi<T> {
    term: T,
    state: AnsiState,
    bold: bool,
}

impl<T: Terminal> Ansi<T> {
    pub closed spec fn term(&self) -> T {
        self.term
    }

    pub closed spec fn state(&self) -> AnsiState {
        self.state
    }

    pub closed spec fn bold(&self) -> bool {
        self.bold
    }

    /// Wrap an existing Terminal to make it compatible with ANSI escape
    /// sequences.
    pub fn new(term: T) -> (r: Ansi<T>)
        ensures
            r.term() == term,
            r.state() is Normal,
            !r.bold(),
    {
        Ansi { term, state: AnsiState::Normal, bold: false }
    }

    fn csi_sgr(&mut self) -> (r: FmtResult)
        requires
            old(self).state is Csi,
            ansi_state_ok(old(self).state),
            old(self).term.inv(),
        ensures
            final(self).state is Normal,
            final(self).term.inv(),
            forall|row: usize, col: usize|
                final(self).term.position_ok(row, col) == old(self).term.position_ok(row, col),
            match old(self).state {
                AnsiState::Csi(size, _, buf) => final(self).bold == sgr_result(
                    (old(self).term.colors().0, old(self).term.colors().1, old(self).bold),
                    buf@.subrange(0, size as int),
                ).2,
                _ => false,
            },
            match old(self).state {
                AnsiState::Csi(size, _, buf) => {
                    let res = sgr_result(
                        (old(self).term.colors().0, old(self).term.colors().1, old(self).bold),
                        buf@.subrange(0, size as int),
                    );
                    old(self).term.set_color_post(res.0, res.1, final(self).term, r)
                },
                _ => false,
            },
    {
        let state = self.state;
        self.state = AnsiState::Normal;
        let (fg, bg) = self.term.get_color();
        let attrs = state.csi_finish();
        let (fg, bg, bold) = sgr_colors(fg, bg, self.bold, attrs.as_slice());
        self.bold = bold;
        self.term.set_color(fg, bg)
    }
}

impl<T: Terminal> Terminal for Ansi<T> {
    open spec fn inv(&self) -> bool {
        self.term().inv() && ansi_state_ok(self.state())
    }

    open spec fn position_ok(&self, row: usize, col: usize) -> bool {
        self.term().position_ok(row, col)
    }

    open spec fn colors(&self) -> (Color, Color) {
        self.term().colors()
    }

    open spec fn cursor_pos(&self) -> (usize, usize) {
        self.term().cursor_pos()
    }

    /// The wrapped terminal is reset; on success the escape state and bold
    /// are reset too.
    open spec fn reset_post(&self, after: Self, r: FmtResult) -> bool {
        &&& self.term().reset_post(after.term(), r)
        &&& r is Ok ==> after.state() is Normal && !after.bold()
        &&& r is Err ==> after.state() == self.state() && after.bold() == self.bold()
    }

    open spec fn clear_post(&self, after: Self, r: FmtResult) -> bool {
        &&& self.term().clear_post(after.term(), r)
        &&& after.state() == self.state() && after.bold() == self.bold()
    }

    open spec fn set_cursor_post(&self, row: usize, col: usize, after: Self, r: FmtResult) -> bool {
        &&& self.term().set_cursor_post(row, col, after.term(), r)
        &&& after.state() == self.state() && after.bold() == self.bold()
    }

    open spec fn set_color_post(&self, fg: Color, bg: Color, after: Self, r: FmtResult) -> bool {
        &&& self.term().set_color_post(fg, bg, after.term(), r)
        &&& after.state() == self.state() && after.bold() == self.bold()
    }

    open spec fn put_post(&self, byte: u8, fg: Color, bg: Color, row: usize, col: usize, after: Self, r: FmtResult) -> bool {
        &&& self.term().put_post(byte, fg, bg, row, col, after.term(), r)
        &&& after.state() == self.state() && after.bold() == self.bold()
    }

    /// Plain bytes are written to the wrapped terminal; escape sequences
    /// change the state as `write_raw_byte` says.
    open spec fn write_post(&self, byte: u8, after: Self, r: FmtResult) -> bool {
        &&& ((self.state() is Normal && byte != 0x1b) || (self.state() is StartSeq && byte != 0x5b)) ==> self.term().write_post(
            byte,
            after.term(),
            r,
        )
        &&& self.state() is Csi && byte == 0x6d ==> after.state() is Normal
        &&& !(self.state() is Csi && byte == 0x6d) ==> after.bold() == self.bold() && state_shape(after.state())
            == ansi_next_shape(self.state(), byte)
        &&& self.state() is Csi && 0x30 <= byte <= 0x39 ==> match (self.state(), after.state()) {
            (AnsiState::Csi(size, new, buf), AnsiState::Csi(_, _, buf2)) => buf2@ == spec_csi_digit(
                size,
                new,
                buf@,
                (byte - 0x30) as u8,
            ).2,
            _ => false,
        }
        &&& self.state() is StartSeq && byte == 0x5b ==> match after.state() {
            AnsiState::Csi(_, _, buf) => buf@ == Seq::new(16, |i: int| 0u8),
            _ => false,
        }
        &&& self.state() is Csi && byte == 0x6d ==> match self.state() {
            AnsiState::Csi(size, _, buf) => after.bold() == sgr_result(
                (self.term().colors().0, self.term().colors().1, self.bold()),
                buf@.subrange(0, size as int),
            ).2,
            _ => false,
        }
        &&& self.state() is Csi && byte == 0x6d ==> match self.state() {
            AnsiState::Csi(size, _, buf) => {
                let res = sgr_result(
                    (self.term().colors().0, self.term().colors().1, self.bold()),
                    buf@.subrange(0, size as int),
                );
                self.term().set_color_post(res.0, res.1, after.term(), r)
            },
            _ => false,
        }
        &&& !((self.state() is Normal && byte != 0x1b) || (self.state() is StartSeq && byte != 0x5b) || (
        self.state() is Csi && byte == 0x6d)) ==> after.colors() == self.colors()
    }

    open spec fn flush_post(&self, after: Self, r: FmtResult) -> bool {
        &&& self.term().flush_post(after.term(), r)
        &&& after.state() == self.state() && after.bold() == self.bold()
    }

    fn reset(&mut self) -> (r: FmtResult)
        ensures
            r.is_ok() ==> final(self).state() is Normal && !final(self).bold(),
    {
        let r = self.term.reset();
        if r.is_ok() {
            self.state = AnsiState::Normal;
            self.bold = false;
        }
        r
    }

    fn clear(&mut self) -> (r: FmtResult) {
        self.term.clear()
    }

    fn get_cursor(&self) -> (r: (usize, usize)) {
        self.term.get_cursor()
    }

    fn set_cursor(&mut self, row: usize, col: usize) -> (r: FmtResult) {
        self.term.set_cursor(row, col)
    }

    fn get_color(&self) -> (r: (Color, Color)) {
        self.term.get_color()
    }

    fn set_color(&mut self, fg: Color, bg: Color) -> (r: FmtResult) {
        self.term.set_color(fg, bg)
    }

    fn put_raw_byte(&mut self, byte: u8, fg: Color, bg: Color, row: usize, col: usize) -> (r:
        FmtResult) {
        self.term.put_raw_byte(byte, fg, bg, row, col)
    }

    /// Interpret `byte`: escape sequences change the state (and, when a
    /// Select Graphic Rendition sequence ends with `m`, the colors); other
    /// bytes are written to the wrapped terminal.
    fn write_raw_byte(&mut self, byte: u8) -> (r: FmtResult)
        ensures
            old(self).state() is Csi && byte == 0x6d ==> final(self).state() is Normal,
            !(old(self).state() is Csi && byte == 0x6d) ==> final(self).bold() == old(self).bold()
                && state_shape(final(self).state()) == ansi_next_shape(old(self).state(), byte),
            old(self).state() is Csi && 0x30 <= byte <= 0x39 ==> match (
                old(self).state(),
                final(self).state(),
            ) {
                (AnsiState::Csi(size, new, buf), AnsiState::Csi(_, _, buf2)) => buf2@ == spec_csi_digit(
                    size,
                    new,
                    buf@,
                    (byte - 0x30) as u8,
                ).2,
                _ => false,
            },
            old(self).state() is StartSeq && byte == 0x5b ==> match final(self).state() {
                AnsiState::Csi(_, _, buf) => buf@ == Seq::new(16, |i: int| 0u8),
                _ => false,
            },
            old(self).state() is Csi && byte == 0x6d ==> match old(self).state() {
                AnsiState::Csi(size, _, buf) => final(self).bold() == sgr_result(
                    (old(self).term().colors().0, old(self).term().colors().1, old(self).bold()),
                    buf@.subrange(0, size as int),
                ).2,
                _ => false,
            },
            !((old(self).state() is Normal && byte != 0x1b) || (old(self).state() is StartSeq
                && byte != 0x5b) || (old(self).state() is Csi && byte == 0x6d)) ==> final(self).colors()
                == old(self).colors(),
    {
        match self.state {
            AnsiState::Normal => {
                if byte == 0x1b {
                    self.state = AnsiState::StartSeq;
                    Ok(())
                } else {
                    self.term.write_raw_byte(byte)
                }
            },
            AnsiState::StartSeq => {
                if byte == 0x5b {
                    self.state = AnsiState::Csi(1, false, [0u8, 0, 0, 0, 0, 0, 0, 0, 0, 0, 0, 0, 0, 0, 0, 0]);
                    proof {
                        match self.state {
                            AnsiState::Csi(_, _, buf) => {
                                assert(buf@ =~= Seq::new(16, |i: int| 0u8));
                            },
                            _ => {},
                        }
                    }
                    Ok(())
                } else {
                    self.state = AnsiState::Normal;
                    self.term.write_raw_byte(byte)
                }
            },
            AnsiState::Csi(_, _, _) => {
                if 0x30 <= byte && byte <= 0x39 {
                    self.state.csi_digit(byte - 0x30);
                    Ok(())
                } else if byte == 0x3b {
                    self.state.csi_push();
                    Ok(())
                } else if byte == 0x6d {
                    self.csi_sgr()
                } else {
                    self.state = AnsiState::Normal;
                    Ok(())
                }
            },
        }
    }

    fn flush(&mut self) -> (r: FmtResult) {
        self.term.flush()
    }
}

/// The VGA text mode palette, as the C interface passes colors.
#[derive(Debug, PartialEq, Eq, Clone, Copy, Structural)]
pub enum VgaColor {
    Black,
    Blue,
    Green,
    Cyan,
    Red,
    Magenta,
    Brown,
    LightGrey,
    DarkGrey,
    LightBlue,
    LightGreen,
    LightCyan,
    LightRed,
    LightMagenta,
    LightBrown,
    White,
}

/// The palette index of a VGA color.
pub open spec fn vga_index(c: VgaColor) -> u8 {
    match c {
        VgaColor::Black => 0,
        VgaColor::Blue => 1,
        VgaColor::Green => 2,
        VgaColor::Cyan => 3,
        VgaColor::Red => 4,
        VgaColor::Magenta => 5,
        VgaColor::Brown => 6,
        VgaColor::LightGrey => 7,
        VgaColor::DarkGrey => 8,
        VgaColor::LightBlue => 9,
        VgaColor::LightGreen => 10,
        VgaColor::LightCyan => 11,
        VgaColor::LightRed => 12,
        VgaColor::LightMagenta => 13,
        VgaColor::LightBrown => 14,
        VgaColor::White => 15,
    }
}

impl VgaColor {
    /// The VGA color with the palette index `n`.
    pub fn from_index(n: u8) -> (r: VgaColor)
        requires
            n < 16,
        ensures
            vga_index(r) == n,
    {
        match n {
            0 => VgaColor::Black,
            1 => VgaColor::Blue,
            2 => VgaColor::Green,
            3 => VgaColor::Cyan,
            4 => VgaColor::Red,
            5 => VgaColor::Magenta,
            6 => VgaColor::Brown,
            7 => VgaColor::LightGrey,
            8 => VgaColor::DarkGrey,
            9 => VgaColor::LightBlue,
            10 => VgaColor::LightGreen,
            11 => VgaColor::LightCyan,
            12 => VgaColor::LightRed,
            13 => VgaColor::LightMagenta,
            14 => VgaColor::LightBrown,
            _ => VgaColor::White,
        }
    }

    /// The palette index of the color.
    pub fn index(self) -> (r: u8)
        ensures
            r == vga_index(self),
    {
        match self {
            VgaColor::Black => 0,
            VgaColor::Blue => 1,
            VgaColor::Green => 2,
            VgaColor::Cyan => 3,
            VgaColor::Red => 4,
            VgaColor::Magenta => 5,
            VgaColor::Brown => 6,
            VgaColor::LightGrey => 7,
            VgaColor::DarkGrey => 8,
            VgaColor::LightBlue => 9,
            VgaColor::LightGreen => 10,
            VgaColor::LightCyan => 11,
            VgaColor::LightRed => 12,
            VgaColor::LightMagenta => 13,
            VgaColor::LightBrown => 14,
            VgaColor::White => 15,
        }
    }

    /// The VGA color of the same palette index as `color`.
    pub fn from_color(color: Color) -> (r: VgaColor)
        ensures
            vga_index(r) == color_index(color),
    {
        VgaColor::from_index(color.index())
    }

    /// The terminal color of the same palette index.
    pub fn to_color(self) -> (r: Color)
        ensures
            color_index(r) == vga_index(self),
    {
        Color::from_index(self.index())
    }
}

/// The virtual address at which a linear framebuffer is mapped.
pub const LINEAR_FRAMEBUFFER_VADDR: u64 = 0xffff_ffff_0000_0000;

/// The I/O port of the VGA text-mode cursor.
pub const VGA_CURSOR_PORT: u16 = 0x3d4;

/// The framebuffer that the console is to run on, from the boot loader's
/// description: a linear RGB framebuffer for type 1, VGA text mode for
/// type 2, none for any other type.
pub fn console_config(info: &crate::multiboot::Info) -> (r: Option<crate::framebuffer::FramebufferConfig>)
    requires
        usize::MAX == u64::MAX,
        info.framebuffer_type == 1 ==> info.framebuffer_height * info.framebuffer_pitch < 0x8000_0000
            && info.framebuffer_addr < u64::MAX,
        info.framebuffer_type == 2 ==> info.framebuffer_addr < crate::constants::KERNEL_LOW_END,
    ensures
        info.framebuffer_type == 1 ==> r == Some(
            crate::framebuffer::FramebufferConfig::LinearPixel(
                (crate::framebuffer::LinearPixelConfig {
                    buffer: LINEAR_FRAMEBUFFER_VADDR as usize,
                    width: info.framebuffer_width as usize,
                    height: info.framebuffer_height as usize,
                    pitch: info.framebuffer_pitch as usize,
                    bits_per_pixel: info.framebuffer_bpp,
                    color_format: crate::framebuffer::ColorFormat::Rgb {
                        red: crate::framebuffer::MaskShift {
                            mask_bits: info.color_info.bytes()[1],
                            shift: info.color_info.bytes()[0],
                        },
                        green: crate::framebuffer::MaskShift {
                            mask_bits: info.color_info.bytes()[3],
                            shift: info.color_info.bytes()[2],
                        },
                        blue: crate::framebuffer::MaskShift {
                            mask_bits: info.color_info.bytes()[5],
                            shift: info.color_info.bytes()[4],
                        },
                    },
                }),
            ),
        ),
        info.framebuffer_type == 2 ==> r == Some(
            crate::framebuffer::FramebufferConfig::VgaTextMode(
                (VgaConfig {
                    width: info.framebuffer_width as usize,
                    height: info.framebuffer_height as usize,
                    buffer: (crate::constants::KERNEL_OFFSET + info.framebuffer_addr) as usize,
                    port: VGA_CURSOR_PORT,
                }),
            ),
        ),
        info.framebuffer_type != 1 && info.framebuffer_type != 2 ==> r is None,
{
    if info.framebuffer_type == 1 {
        let rgb = info.color_info.rgb();
        let config = crate::framebuffer::LinearPixelConfig {
            buffer: LINEAR_FRAMEBUFFER_VADDR as usize,
            width: info.framebuffer_width as usize,
            height: info.framebuffer_height as usize,
            pitch: info.framebuffer_pitch as usize,
            bits_per_pixel: info.framebuffer_bpp,
            color_format: crate::framebuffer::ColorFormat::Rgb {
                red: crate::framebuffer::MaskShift {
                    mask_bits: rgb.framebuffer_red_mask_size,
                    shift: rgb.framebuffer_red_field_position,
                },
                green: crate::framebuffer::MaskShift {
                    mask_bits: rgb.framebuffer_green_mask_size,
                    shift: rgb.framebuffer_green_field_position,
                },
                blue: crate::framebuffer::MaskShift {
                    mask_bits: rgb.framebuffer_blue_mask_size,
                    shift: rgb.framebuffer_blue_field_position,
                },
            },
        };
        Some(crate::framebuffer::FramebufferConfig::LinearPixel(config))
    } else if info.framebuffer_type == 2 {
        let buffer = match crate::constants::translate_low_addr(info.framebuffer_addr as u32) {
            Some(a) => a,
            None => {
                proof {
                    assert(false);
                }
                0
            },
        };
        Some(
            crate::framebuffer::FramebufferConfig::VgaTextMode(
                VgaConfig {
                    width: info.framebuffer_width as usize,
                    height: info.framebuffer_height as usize,
                    buffer: buffer as usize,
                    port: VGA_CURSOR_PORT,
                },
            ),
        )
    } else {
        None
    }
}

} // verus!
