//! Framebuffer configuration and pixel color formats.

use vstd::prelude::*;

use crate::terminal::VgaConfig;
use crate::util::{align_up, spec_align_up};

verus! {

/// Size of a page of memory.
pub const PAGE_SIZE: usize = 4096;

/// Configuration for a framebuffer, in either text mode or graphics mode.
#[derive(Debug, Clone)]
pub enum FramebufferConfig {
    VgaTextMode(VgaConfig),
    LinearPixel(LinearPixelConfig),
}

/// A linear framebuffer: `height` rows of `pitch` bytes each, starting at
/// address `buffer`.
#[derive(Debug, Clone, Copy, PartialEq, Eq)]
pub struct LinearPixelConfig {
    pub buffer: usize,
    pub pitch: usize,
    pub width: usize,
    pub height: usize,
    pub bits_per_pixel: u8,
    pub color_format: ColorFormat,
}

impl LinearPixelConfig {
    /// The number of pixels that fit in the buffer.
    pub fn size(&self) -> (r: usize)
        requires
            self.pitch * self.height <= usize::MAX,
            self.bits_per_pixel >= 8,
        ensures
            r == (self.pitch * self.height) / (self.bits_per_pixel / 8) as int,
    {
        self.size_in_bytes() / (self.bits_per_pixel / 8) as usize
    }

    pub fn size_in_bytes(&self) -> (r: usize)
        requires
            self.pitch * self.height <= usize::MAX,
        ensures
            r == self.pitch * self.height,
    {
        self.pitch * self.height
    }

    /// The number of pages the buffer spans.
    pub fn size_in_pages(&self) -> (r: usize)
        requires
            self.pitch * self.height + PAGE_SIZE - 1 <= usize::MAX,
        ensures
            r == spec_align_up(self.pitch * self.height, PAGE_SIZE as int) / PAGE_SIZE as int,
    {
        proof {
            assert(PAGE_SIZE & ((PAGE_SIZE - 1) as usize) == 0) by (bit_vector);
        }
        align_up(self.size_in_bytes(), PAGE_SIZE) / PAGE_SIZE
    }

    /// The number of whole bytes a pixel takes.
    pub fn bytes_per_pixel(&self) -> (r: usize)
        ensures
            r == spec_align_up(self.bits_per_pixel as int, 8) / 8,
    {
        proof {
            assert(8usize & ((8 - 1) as usize) == 0) by (bit_vector);
        }
        align_up(self.bits_per_pixel as usize, 8) / 8
    }
}

/// How red, green and blue are packed into a native pixel value.
#[derive(Debug, Clone, Copy, PartialEq, Eq, Structural)]
pub enum ColorFormat {
    Rgb { red: MaskShift, green: MaskShift, blue: MaskShift },
}

/// A color channel: its number of significant bits and its bit position.
#[derive(Debug, Clone, Copy, PartialEq, Eq, Structural)]
pub struct MaskShift {
    pub mask_bits: u8,
    pub shift: u8,
}

/// The top `mask_bits` bits of `value`, moved to bit `shift`.
pub open spec fn spec_shift(m: MaskShift, value: u8) -> u32 {
    (((value >> ((8 - m.mask_bits) as u8)) as u32) << m.shift) as u32
}

impl MaskShift {
    /// Scale an 8-bit channel value to this channel's width and position.
    pub fn shift(self, value: u8) -> (r: u32)
        requires
            1 <= self.mask_bits <= 8,
            self.shift < 32,
        ensures
            r == spec_shift(self, value),
    {
        ((value >> (8 - self.mask_bits)) as u32) << self.shift
    }
}

/// 8-bit red, green, blue in increasing byte order.
pub open spec fn rgb24() -> ColorFormat {
    ColorFormat::Rgb {
        red: MaskShift { mask_bits: 8, shift: 0 },
        green: MaskShift { mask_bits: 8, shift: 8 },
        blue: MaskShift { mask_bits: 8, shift: 16 },
    }
}

/// 8-bit blue, green, red in increasing byte order.
pub open spec fn bgr24() -> ColorFormat {
    ColorFormat::Rgb {
        red: MaskShift { mask_bits: 8, shift: 16 },
        green: MaskShift { mask_bits: 8, shift: 8 },
        blue: MaskShift { mask_bits: 8, shift: 0 },
    }
}

/// The RGB24 format.
pub fn rgb24_format() -> (r: ColorFormat)
    ensures
        r == rgb24(),
{
    ColorFormat::Rgb {
        red: MaskShift { mask_bits: 8, shift: 0 },
        green: MaskShift { mask_bits: 8, shift: 8 },
        blue: MaskShift { mask_bits: 8, shift: 16 },
    }
}

/// The BGR24 format.
pub fn bgr24_format() -> (r: ColorFormat)
    ensures
        r == bgr24(),
{
    ColorFormat::Rgb {
        red: MaskShift { mask_bits: 8, shift: 16 },
        green: MaskShift { mask_bits: 8, shift: 8 },
        blue: MaskShift { mask_bits: 8, shift: 0 },
    }
}

/// The native color of `0xRRGGBB` on a little-endian machine. RGB24 stores
/// the bytes `RR GG BB 00`; BGR24 keeps the value as it is; other formats
/// pack each channel by its mask and shift.
pub open spec fn spec_format(f: ColorFormat, rgb: u32) -> u32 {
    if f == rgb24() {
        (((rgb >> 16) & 0xff) | (((rgb >> 8) & 0xff) << 8) | ((rgb & 0xff) << 16)) as u32
    } else if f == bgr24() {
        rgb
    } else {
        match f {
            ColorFormat::Rgb { red, green, blue } => spec_shift(red, (rgb >> 16) as u8) | spec_shift(
                green,
                (rgb >> 8) as u8,
            ) | spec_shift(blue, rgb as u8),
        }
    }
}

/// `0xRRGGBB` packed channel by channel: the top `mask_bits` bits of each
/// channel's byte moved to its `shift`.
pub open spec fn packed(f: ColorFormat, rgb: u32) -> u32 {
    match f {
        ColorFormat::Rgb { red, green, blue } => spec_shift(red, (rgb >> 16) as u8) | spec_shift(green, (rgb >> 8) as u8)
            | spec_shift(blue, rgb as u8),
    }
}

proof fn lemma_byte_orders(rgb: u32)
    by (bit_vector)
    requires
        rgb <= 0xffffff,
    ensures
        ((rgb >> 16) & 0xff) | (((rgb >> 8) & 0xff) << 8) | ((rgb & 0xff) << 16) == ((((((rgb >> 16) as u8) >> 0u8)
            as u32) << 0u8) as u32) | ((((((rgb >> 8) as u8) >> 0u8) as u32) << 8u8) as u32) | (((((rgb as u8)
            >> 0u8) as u32) << 16u8) as u32),
        rgb == ((((((rgb >> 16) as u8) >> 0u8) as u32) << 16u8) as u32) | ((((((rgb >> 8) as u8) >> 0u8) as u32)
            << 8u8) as u32) | (((((rgb as u8) >> 0u8) as u32) << 0u8) as u32),
{
}

/// The RGB24 and BGR24 formats convert a color as packing its channels by
/// their masks and shifts does: the fast paths agree with the general rule.
pub proof fn law_fast_formats(rgb: u32)
    requires
        rgb <= 0xffffff,
    ensures
        spec_format(rgb24(), rgb) == packed(rgb24(), rgb),
        spec_format(bgr24(), rgb) == packed(bgr24(), rgb),
{
    lemma_byte_orders(rgb);
    assert(rgb24() != bgr24());
}

/// Every channel is 1 to 8 bits wide and placed inside 32 bits.
pub open spec fn format_valid(f: ColorFormat) -> bool {
    match f {
        ColorFormat::Rgb { red, green, blue } => {
            &&& 1 <= red.mask_bits <= 8 && red.shift < 32
            &&& 1 <= green.mask_bits <= 8 && green.shift < 32
            &&& 1 <= blue.mask_bits <= 8 && blue.shift < 32
        },
    }
}

impl ColorFormat {
    /// Convert an rgb color to the native color format.
    pub fn format(&self, rgb: u32) -> (r: u32)
        requires
            format_valid(*self),
        ensures
            r == spec_format(*self, rgb),
    {
        if *self == rgb24_format() {
            // The bytes RR GG BB 00 in memory order.
            ((rgb >> 16) & 0xff) | (((rgb >> 8) & 0xff) << 8) | ((rgb & 0xff) << 16)
        } else if *self == bgr24_format() {
            rgb
        } else {
            match *self {
                ColorFormat::Rgb { red, green, blue } => {
                    red.shift((rgb >> 16) as u8) | green.shift((rgb >> 8) as u8) | blue.shift(
                        rgb as u8,
                    )
                },
            }
        }
    }
}

/// `256` to the power `n`.
pub open spec fn pow256(n: nat) -> nat
    decreases n,
{
    if n == 0 {
        1
    } else {
        256 * pow256((n - 1) as nat)
    }
}

/// The value of the `n` little-endian bytes of `b` at `off`.
pub open spec fn le_value(b: Seq<u8>, off: int, n: nat) -> nat
    decreases n,
{
    if n == 0 {
        0
    } else {
        b[off] as nat + 256 * le_value(b, off + 1, (n - 1) as nat)
    }
}

/// `b` with the `n` bytes at `off` replaced by the low bytes of `v`,
/// little-endian.
pub open spec fn with_le_value(b: Seq<u8>, off: int, n: nat, v: nat) -> Seq<u8>
    decreases n,
{
    if n == 0 {
        b
    } else {
        with_le_value(b.update(off, (v % 256) as u8), off + 1, (n - 1) as nat, v / 256)
    }
}

proof fn lemma_le_value_bound(b: Seq<u8>, off: int, n: nat)
    ensures
        le_value(b, off, n) < pow256(n),
    decreases n,
{
    if n > 0 {
        lemma_le_value_bound(b, off + 1, (n - 1) as nat);
    }
}

/// Writing `n` bytes touches only those bytes, and reads back as the
/// value cut to `n` bytes.
proof fn lemma_with_le_value(b: Seq<u8>, off: int, n: nat, v: nat)
    requires
        0 <= off,
        off + n <= b.len(),
    ensures
        with_le_value(b, off, n, v).len() == b.len(),
        forall|k: int| 0 <= k < b.len() && !(off <= k < off + n) ==> #[trigger] with_le_value(b, off, n, v)[k] == b[k],
        le_value(with_le_value(b, off, n, v), off, n) == v % pow256(n),
    decreases n,
{
    if n > 0 {
        let b2 = b.update(off, (v % 256) as u8);
        lemma_with_le_value(b2, off + 1, (n - 1) as nat, v / 256);
        let w = with_le_value(b2, off + 1, (n - 1) as nat, v / 256);
        assert(w[off] == (v % 256) as u8);
        assert(v % pow256(n) == v % 256 + 256 * ((v / 256) % pow256((n - 1) as nat))) by {
            lemma_pow256_pos((n - 1) as nat);
            vstd::arithmetic::div_mod::lemma_breakdown(v as int, 256, pow256((n - 1) as nat) as int);
        }
    }
}

proof fn lemma_pow256_pos(n: nat)
    ensures
        pow256(n) > 0,
    decreases n,
{
    if n > 0 {
        lemma_pow256_pos((n - 1) as nat);
    }
}

/// Equal bytes read as equal values.
proof fn lemma_le_value_same(a: Seq<u8>, b: Seq<u8>, off: int, n: nat)
    requires
        forall|k: int| off <= k < off + n ==> a[k] == b[k],
    ensures
        le_value(a, off, n) == le_value(b, off, n),
    decreases n,
{
    if n > 0 {
        lemma_le_value_same(a, b, off + 1, (n - 1) as nat);
    }
}

fn read_le(b: &[u8], off: usize, n: usize) -> (r: u32)
    requires
        n <= 4,
        off + n <= b@.len(),
    ensures
        r == le_value(b@, off as int, n as nat),
    decreases n,
{
    if n == 0 {
        0
    } else {
        let len = b.len();
        assert(off + 1 <= len);
        let rest = read_le(b, off + 1, n - 1);
        proof {
            lemma_le_value_bound(b@, off + 1, (n - 1) as nat);
            reveal_with_fuel(pow256, 4);
            assert(pow256(3) == 0x100_0000);
        }
        b[off] as u32 + 256 * rest
    }
}

fn write_le(b: &mut [u8], off: usize, n: usize, v: u32)
    requires
        off + n <= old(b)@.len(),
    ensures
        final(b)@ == with_le_value(old(b)@, off as int, n as nat, v as nat),
    decreases n,
{
    if n > 0 {
        let len = b.len();
        assert(off + 1 <= len);
        b[off] = (v % 256) as u8;
        write_le(b, off + 1, n - 1, v / 256);
    }
}

/// The depths a linear framebuffer can be edited at.
pub open spec fn depth_ok(bpp: u8) -> bool {
    bpp == 32 || bpp == 15 || bpp == 16 || bpp == 1 || bpp == 4 || bpp == 8
}

/// The bytes of a pixel: 32-bit, 16-bit or 8-bit values.
pub open spec fn pixel_size(bpp: u8) -> nat {
    if bpp == 32 {
        4
    } else if bpp == 15 || bpp == 16 {
        2
    } else {
        1
    }
}

/// Byte `k` belongs to a pixel of the rectangle of `w` by `h` pixels of
/// `size` bytes at `(x, y)`, with rows `pitch` bytes apart.
pub open spec fn in_rect(k: int, pitch: int, size: int, x: int, y: int, w: int, h: int) -> bool {
    &&& y <= k / pitch < y + h
    &&& x * size <= k % pitch < (x + w) * size
}

/// The pixel at `off` was edited by `mapper` at `(cx, cy)`: it holds what the
/// mapper answered for its old value, cut to the pixel size.
pub open spec fn pixel_edited<F: Fn(usize, usize, u32) -> u32>(
    before: Seq<u8>,
    after: Seq<u8>,
    off: int,
    size: nat,
    cx: int,
    cy: int,
    mapper: F,
) -> bool {
    exists|r: u32|
        #[trigger] call_ensures(mapper, (cx as usize, cy as usize, le_value(before, off, size) as u32), r) && le_value(
            after,
            off,
            size,
        ) == r as nat % pow256(size)
}

proof fn lemma_row_col(k: int, row: int, col: int, pitch: int)
    requires
        pitch > 0,
        0 <= col < pitch,
        k == row * pitch + col,
    ensures
        k / pitch == row,
        k % pitch == col,
{
    vstd::arithmetic::div_mod::lemma_fundamental_div_mod_converse(k, pitch, row, col);
}

/// `after` is `before` with the rectangle of `w` by `h` pixels of `size`
/// bytes at `(x, y)` edited by `mapper`, rows `pitch` bytes apart, and every
/// other byte kept.
pub open spec fn rect_edited<F: Fn(usize, usize, u32) -> u32>(
    before: Seq<u8>,
    after: Seq<u8>,
    pitch: int,
    size: nat,
    x: int,
    y: int,
    w: int,
    h: int,
    mapper: F,
) -> bool {
    &&& after.len() == before.len()
    &&& forall|cx: int, cy: int|
        0 <= cx < w && 0 <= cy < h ==> #[trigger] pixel_edited(
            before,
            after,
            (y + cy) * pitch + (x + cx) * size,
            size,
            cx,
            cy,
            mapper,
        )
    &&& forall|k: int|
        0 <= k < before.len() && !in_rect(k, pitch, size as int, x, y, w, h) ==> #[trigger] after[k] == before[k]
}

/// Edit the rectangle of `w` by `h` pixels of `size` bytes at `(x, y)`.
fn edit_bytes<F: Fn(usize, usize, u32) -> u32>(
    buf: &mut [u8],
    pitch: usize,
    size: usize,
    x: usize,
    y: usize,
    w: usize,
    h: usize,
    mapper: &F,
)
    requires
        size == 1 || size == 2 || size == 4,
        x + w <= usize::MAX,
        y + h <= usize::MAX,
        (x + w) * size <= pitch,
        (y + h) * pitch <= old(buf)@.len(),
        forall|cx: usize, cy: usize, v: u32| cx < w && cy < h ==> #[trigger] call_requires(*mapper, (cx, cy, v)),
    ensures
        rect_edited(
            old(buf)@,
            final(buf)@,
            pitch as int,
            size as nat,
            x as int,
            y as int,
            w as int,
            h as int,
            *mapper,
        ),
{
    let ghost b0 = buf@;
    let len = buf.len();
    let mut cy: usize = 0;
    while cy < h
        invariant
            len == b0.len(),
            size == 1 || size == 2 || size == 4,
            x + w <= usize::MAX,
            y + h <= usize::MAX,
            (x + w) * size <= pitch,
            (y + h) * pitch <= b0.len(),
            forall|cx: usize, cy: usize, v: u32| cx < w && cy < h ==> #[trigger] call_requires(*mapper, (cx, cy, v)),
            b0 == old(buf)@,
            buf@.len() == b0.len(),
            cy <= h,
            forall|i: int, j: int|
                0 <= i < w && 0 <= j < cy ==> #[trigger] pixel_edited(
                    b0,
                    buf@,
                    (y + j) * pitch + (x + i) * size,
                    size as nat,
                    i,
                    j,
                    *mapper,
                ),
            forall|k: int|
                0 <= k < b0.len() && !in_rect(k, pitch as int, size as int, x as int, y as int, w as int, cy as int)
                    ==> #[trigger] buf@[k] == b0[k],
        decreases h - cy,
    {
        assert((y + cy) * pitch + pitch <= (y + h) * pitch) by (nonlinear_arith)
            requires
                cy < h,
        ;
        assert((y + cy) * pitch <= len);
        let row = (y + cy) * pitch;
        let mut cx: usize = 0;
        while cx < w
            invariant
                len == b0.len(),
                row + pitch <= b0.len(),
                size == 1 || size == 2 || size == 4,
                x + w <= usize::MAX,
                (x + w) * size <= pitch,
                (y + h) * pitch <= b0.len(),
                forall|cx: usize, cy: usize, v: u32| cx < w && cy < h ==> #[trigger] call_requires(*mapper, (cx, cy, v)),
                b0 == old(buf)@,
                buf@.len() == b0.len(),
                cy < h,
                cx <= w,
                row == (y + cy) * pitch,
                forall|i: int, j: int|
                    0 <= i < w && 0 <= j < cy ==> #[trigger] pixel_edited(
                        b0,
                        buf@,
                        (y + j) * pitch + (x + i) * size,
                        size as nat,
                        i,
                        j,
                        *mapper,
                    ),
                forall|i: int|
                    0 <= i < cx ==> #[trigger] pixel_edited(
                        b0,
                        buf@,
                        (y + cy) * pitch + (x + i) * size,
                        size as nat,
                        i,
                        cy as int,
                        *mapper,
                    ),
                forall|k: int|
                    0 <= k < b0.len() && !in_rect(k, pitch as int, size as int, x as int, y as int, w as int, cy as int)
                        && !(row + x * size <= k < row + (x + cx) * size) ==> #[trigger] buf@[k] == b0[k],
            decreases w - cx,
        {
            assert((y + cy + 1) * pitch <= b0.len()) by (nonlinear_arith)
                requires
                    cy < h,
                    (y + h) * pitch <= b0.len(),
            ;
            assert(row + (x + cx + 1) * size <= row + pitch) by (nonlinear_arith)
                requires
                    cx < w,
                    (x + w) * size <= pitch,
            ;
            let off = row + (x + cx) * size;
            let ghost before = buf@;
            let old_value = read_le(buf, off, size);
            let new_value = mapper(cx, cy, old_value);
            write_le(buf, off, size, new_value);
            proof {
                lemma_with_le_value(before, off as int, size as nat, new_value as nat);
                // The pixel's bytes were still the original ones.
                assert forall|k: int| off <= k < off + size implies before[k] == b0[k] by {
                    assert(0 <= (x + cx) * size + (k - off) < pitch) by (nonlinear_arith)
                        requires
                            off <= k < off + size,
                            off == row + (x + cx) * size,
                            (x + cx + 1) * size <= pitch,
                    ;
                    lemma_row_col(k, (y + cy) as int, (x + cx) * size + (k - off), pitch as int);
                    assert((y + cy) * pitch == row);
                }
                lemma_le_value_same(before, b0, off as int, size as nat);
                assert(call_ensures(*mapper, (cx, cy, old_value), new_value));
                assert(call_ensures(
                    *mapper,
                    (cx as int as usize, cy as int as usize, le_value(b0, off as int, size as nat) as u32),
                    new_value,
                ) && le_value(buf@, off as int, size as nat) == new_value as nat % pow256(size as nat));
                assert(pixel_edited(b0, buf@, off as int, size as nat, cx as int, cy as int, *mapper));
                assert forall|i: int, j: int|
                    0 <= i < w && 0 <= j < cy implies #[trigger] pixel_edited(
                        b0,
                        buf@,
                        (y + j) * pitch + (x + i) * size,
                        size as nat,
                        i,
                        j,
                        *mapper,
                    ) by {
                    lemma_pixel_apart(pitch as int, size as int, x as int, w as int, y as int, i, j, cx as int, cy as int);
                    lemma_pixel_edited_stable(b0, before, buf@, (y + j) * pitch + (x + i) * size, size as nat, i, j, *mapper);
                }
                assert forall|i: int|
                    0 <= i < cx + 1 implies #[trigger] pixel_edited(
                        b0,
                        buf@,
                        (y + cy) * pitch + (x + i) * size,
                        size as nat,
                        i,
                        cy as int,
                        *mapper,
                    ) by {
                    if i < cx {
                        lemma_pixel_apart(pitch as int, size as int, x as int, w as int, y as int, i, cy as int, cx as int, cy as int);
                        lemma_pixel_edited_stable(b0, before, buf@, (y + cy) * pitch + (x + i) * size, size as nat, i, cy as int, *mapper);
                    }
                }
                assert((x + cx) * size + size == (x + cx + 1) * size) by (nonlinear_arith);
            }
            cx = cx + 1;
        }
        proof {
            assert forall|k: int|
                0 <= k < b0.len() && !in_rect(k, pitch as int, size as int, x as int, y as int, w as int, (cy + 1) as int)
                    implies #[trigger] buf@[k] == b0[k] by {
                if row + x * size <= k < row + (x + w) * size {
                    lemma_row_col(k, (y + cy) as int, k - row, pitch as int);
                }
            }
        }
        cy = cy + 1;
    }
}

/// Pixels before `(cx, cy)` in row order end before it starts.
proof fn lemma_pixel_apart(pitch: int, size: int, x: int, w: int, y: int, i: int, j: int, cx: int, cy: int)
    requires
        size > 0,
        (x + w) * size <= pitch,
        0 <= x,
        0 <= y,
        0 <= i < w,
        0 <= cx < w,
        0 <= j <= cy,
        j < cy || i < cx,
    ensures
        (y + j) * pitch + (x + i) * size + size <= (y + cy) * pitch + (x + cx) * size,
{
    if j < cy {
        assert((y + j) * pitch + (x + i) * size + size <= (y + cy) * pitch) by (nonlinear_arith)
            requires
                size > 0,
                (x + w) * size <= pitch,
                0 <= i < w,
                j < cy,
                0 <= x,
        ;
        assert(0 <= (x + cx) * size) by (nonlinear_arith)
            requires
                size > 0,
                0 <= x,
                0 <= cx,
        ;
    } else {
        assert((x + i) * size + size <= (x + cx) * size) by (nonlinear_arith)
            requires
                size > 0,
                i < cx,
        ;
    }
}

/// An edited pixel stays edited while its bytes stay the same.
proof fn lemma_pixel_edited_stable<F: Fn(usize, usize, u32) -> u32>(
    b0: Seq<u8>,
    a: Seq<u8>,
    b: Seq<u8>,
    off: int,
    size: nat,
    cx: int,
    cy: int,
    mapper: F,
)
    requires
        pixel_edited(b0, a, off, size, cx, cy, mapper),
        forall|k: int| off <= k < off + size ==> a[k] == b[k],
    ensures
        pixel_edited(b0, b, off, size, cx, cy, mapper),
{
    lemma_le_value_same(a, b, off, size);
    let r = choose|r: u32|
        #[trigger] call_ensures(mapper, (cx as usize, cy as usize, le_value(b0, off, size) as u32), r) && le_value(a, off, size)
            == r as nat % pow256(size);
    assert(call_ensures(mapper, (cx as usize, cy as usize, le_value(b0, off, size) as u32), r) && le_value(b, off, size)
        == r as nat % pow256(size));
}

/// Move `n` bytes from `src` to `dst` within `buf`; the ranges may overlap.
fn move_bytes(buf: &mut [u8], src: usize, dst: usize, n: usize)
    requires
        src + n <= old(buf)@.len(),
        dst + n <= old(buf)@.len(),
    ensures
        final(buf)@.len() == old(buf)@.len(),
        forall|k: int|
            0 <= k < old(buf)@.len() ==> #[trigger] final(buf)@[k] == if dst <= k < dst + n {
                old(buf)@[src + (k - dst)]
            } else {
                old(buf)@[k]
            },
{
    let ghost b0 = buf@;
    let len = buf.len();
    if dst <= src {
        let mut i: usize = 0;
        while i < n
            invariant
                len == b0.len(),
                buf@.len() == b0.len(),
                src + n <= len,
                dst + n <= len,
                dst <= src,
                i <= n,
                forall|k: int|
                    0 <= k < b0.len() ==> #[trigger] buf@[k] == if dst <= k < dst + i {
                        b0[src + (k - dst)]
                    } else {
                        b0[k]
                    },
            decreases n - i,
        {
            let v = buf[src + i];
            buf[dst + i] = v;
            i = i + 1;
        }
    } else {
        let mut i: usize = n;
        while i > 0
            invariant
                len == b0.len(),
                buf@.len() == b0.len(),
                src + n <= len,
                dst + n <= len,
                src < dst,
                i <= n,
                forall|k: int|
                    0 <= k < b0.len() ==> #[trigger] buf@[k] == if dst + i <= k < dst + n {
                        b0[src + (k - dst)]
                    } else {
                        b0[k]
                    },
            decreases i,
        {
            i = i - 1;
            let v = buf[src + i];
            buf[dst + i] = v;
        }
    }
}

/// `screen` with the bytes of the rectangle of `w` by `h` pixels of `bpp`
/// bytes at `(x, y)` taken from `shadow`.
pub open spec fn refreshed(
    screen: Seq<u8>,
    shadow: Seq<u8>,
    pitch: int,
    bpp: int,
    x: int,
    y: int,
    w: int,
    h: int,
) -> Seq<u8> {
    Seq::new(
        screen.len(),
        |k: int|
            if in_rect(k, pitch, bpp, x, y, w, h) {
                shadow[k]
            } else {
                screen[k]
            },
    )
}

/// `b` with the rectangle of `w` by `h` pixels of `bpp` bytes at `(dx, dy)`
/// holding what the one at `(sx, sy)` held.
pub open spec fn moved(
    b: Seq<u8>,
    pitch: int,
    bpp: int,
    sx: int,
    sy: int,
    dx: int,
    dy: int,
    w: int,
    h: int,
) -> Seq<u8> {
    Seq::new(
        b.len(),
        |k: int|
            if in_rect(k, pitch, bpp, dx, dy, w, h) {
                b[k + (sy - dy) * pitch + (sx - dx) * bpp]
            } else {
                b[k]
            },
    )
}

/// Copy the rows `y .. y + h`, bytes `x_off .. x_off + wb` of each, from
/// `shadow` to `screen`.
fn refresh_rect(screen: &mut [u8], shadow: &[u8], pitch: usize, bpp: usize, x: usize, y: usize, w: usize, h: usize)
    requires
        shadow@.len() == old(screen)@.len(),
        y + h <= usize::MAX,
        (x + w) * bpp <= pitch,
        (y + h) * pitch <= old(screen)@.len(),
    ensures
        final(screen)@ == refreshed(old(screen)@, shadow@, pitch as int, bpp as int, x as int, y as int, w as int, h as int),
{
    let ghost b0 = screen@;
    let len = screen.len();
    assert(x * bpp + w * bpp == (x + w) * bpp) by (nonlinear_arith);
    assert(x * bpp <= (x + w) * bpp) by (nonlinear_arith);
    let x_off = x * bpp;
    let wb = w * bpp;
    let mut cy: usize = 0;
    while cy < h
        invariant
            len == b0.len(),
            screen@.len() == b0.len(),
            shadow@.len() == b0.len(),
            x_off == x * bpp,
            wb == w * bpp,
            x_off + wb == (x + w) * bpp,
            (x + w) * bpp <= pitch,
            (y + h) * pitch <= b0.len(),
            y + h <= usize::MAX,
            cy <= h,
            forall|k: int|
                0 <= k < b0.len() ==> #[trigger] screen@[k] == if in_rect(
                    k,
                    pitch as int,
                    bpp as int,
                    x as int,
                    y as int,
                    w as int,
                    cy as int,
                ) {
                    shadow@[k]
                } else {
                    b0[k]
                },
        decreases h - cy,
    {
        assert((y + cy) * pitch + pitch <= (y + h) * pitch) by (nonlinear_arith)
            requires
                cy < h,
        ;
        assert((y + cy) * pitch <= len);
        let row = (y + cy) * pitch;
        let mut j: usize = 0;
        while j < wb
            invariant
                len == b0.len(),
                screen@.len() == b0.len(),
                shadow@.len() == b0.len(),
                x_off + wb <= pitch,
                row + pitch <= b0.len(),
                row == (y + cy) * pitch,
                j <= wb,
                forall|k: int|
                    0 <= k < b0.len() ==> #[trigger] screen@[k] == if in_rect(
                        k,
                        pitch as int,
                        bpp as int,
                        x as int,
                        y as int,
                        w as int,
                        cy as int,
                    ) || (row + x_off <= k < row + x_off + j) {
                        shadow@[k]
                    } else {
                        b0[k]
                    },
            decreases wb - j,
        {
            let v = shadow[row + x_off + j];
            screen[row + x_off + j] = v;
            j = j + 1;
        }
        proof {
            assert forall|k: int| 0 <= k < b0.len() implies #[trigger] screen@[k] == if in_rect(
                k,
                pitch as int,
                bpp as int,
                x as int,
                y as int,
                w as int,
                (cy + 1) as int,
            ) {
                shadow@[k]
            } else {
                b0[k]
            } by {
                if row + x_off <= k < row + x_off + wb {
                    lemma_row_col(k, (y + cy) as int, k - row, pitch as int);
                } else if in_rect(k, pitch as int, bpp as int, x as int, y as int, w as int, (cy + 1) as int)
                    && !in_rect(k, pitch as int, bpp as int, x as int, y as int, w as int, cy as int) {
                    // Then k lies in row y + cy, inside the copied bytes.
                    let r = k % pitch as int;
                    assert(pitch > 0);
                    vstd::arithmetic::div_mod::lemma_fundamental_div_mod(k, pitch as int);
                    assert(k / pitch as int == y + cy);
                    assert(k == (y + cy) * pitch + r) by (nonlinear_arith)
                        requires
                            k == pitch * (k / pitch as int) + r,
                            k / pitch as int == y + cy,
                    ;
                    assert(false);
                }
            }
        }
        cy = cy + 1;
    }
}

/// Byte `k` lies in row `r` of a rectangle exactly when it lies between the
/// row's first and last byte.
proof fn lemma_in_row(k: int, pitch: int, bpp: int, x: int, w: int, r: int)
    requires
        0 <= k,
        0 <= r,
        0 <= x,
        0 <= w,
        0 <= bpp,
        (x + w) * bpp <= pitch,
    ensures
        (k / pitch == r && x * bpp <= k % pitch < (x + w) * bpp) <==> (r * pitch + x * bpp <= k < r * pitch + (x + w)
            * bpp),
{
    assert(x * bpp + w * bpp == (x + w) * bpp) by (nonlinear_arith);
    assert(0 <= w * bpp && 0 <= x * bpp) by (nonlinear_arith)
        requires
            0 <= x,
            0 <= w,
            0 <= bpp,
    ;
    if w * bpp > 0 {
        assert(pitch > 0);
        if r * pitch + x * bpp <= k < r * pitch + (x + w) * bpp {
            lemma_row_col(k, r, k - r * pitch, pitch);
        }
        if k / pitch == r && x * bpp <= k % pitch < (x + w) * bpp {
            vstd::arithmetic::div_mod::lemma_fundamental_div_mod(k, pitch);
            assert(k == r * pitch + k % pitch) by (nonlinear_arith)
                requires
                    k == pitch * (k / pitch) + k % pitch,
                    k / pitch == r,
            ;
        }
    }
}

/// Copy the rectangle of `w` by `h` pixels of `bpp` bytes at `(sx, sy)` to
/// `(dx, dy)`, row by row in the order that reads each source row before it
/// is overwritten.
fn copy_rect(
    buf: &mut [u8],
    pitch: usize,
    bpp: usize,
    sx: usize,
    sy: usize,
    dx: usize,
    dy: usize,
    w: usize,
    h: usize,
)
    requires
        sy + h <= usize::MAX,
        dy + h <= usize::MAX,
        (sx + w) * bpp <= pitch,
        (dx + w) * bpp <= pitch,
        (sy + h) * pitch <= old(buf)@.len(),
        (dy + h) * pitch <= old(buf)@.len(),
    ensures
        final(buf)@ == moved(
            old(buf)@,
            pitch as int,
            bpp as int,
            sx as int,
            sy as int,
            dx as int,
            dy as int,
            w as int,
            h as int,
        ),
{
    let ghost b0 = buf@;
    let len = buf.len();
    assert(sx * bpp + w * bpp == (sx + w) * bpp) by (nonlinear_arith);
    assert(dx * bpp + w * bpp == (dx + w) * bpp) by (nonlinear_arith);
    assert(0 <= sx * bpp && 0 <= dx * bpp && 0 <= w * bpp) by (nonlinear_arith);
    let sx_off = sx * bpp;
    let dx_off = dx * bpp;
    let wb = w * bpp;
    let ghost shift: int = (sy - dy) * pitch + (sx - dx) * bpp;
    let mut index: usize = 0;
    while index < h
        invariant
            len == b0.len(),
            buf@.len() == b0.len(),
            sy + h <= usize::MAX,
            dy + h <= usize::MAX,
            (sx + w) * bpp <= pitch,
            (dx + w) * bpp <= pitch,
            (sy + h) * pitch <= b0.len(),
            (dy + h) * pitch <= b0.len(),
            sx_off == sx * bpp,
            dx_off == dx * bpp,
            wb == w * bpp,
            sx_off + wb == (sx + w) * bpp,
            dx_off + wb == (dx + w) * bpp,
            shift == (sy - dy) * pitch + (sx - dx) * bpp,
            index <= h,
            forall|k: int|
                0 <= k < b0.len() ==> #[trigger] buf@[k] == if in_rect(
                    k,
                    pitch as int,
                    bpp as int,
                    dx as int,
                    dy + (if sy >= dy { 0 } else { h - index }),
                    w as int,
                    index as int,
                ) {
                    b0[k + shift]
                } else {
                    b0[k]
                },
        decreases h - index,
    {
        let py = if sy >= dy {
            index
        } else {
            h - 1 - index
        };
        assert((sy + py) * pitch + pitch <= (sy + h) * pitch) by (nonlinear_arith)
            requires
                py < h,
        ;
        assert((dy + py) * pitch + pitch <= (dy + h) * pitch) by (nonlinear_arith)
            requires
                py < h,
        ;
        assert((sy + py) * pitch <= len);
        assert((dy + py) * pitch <= len);
        let src = (sy + py) * pitch + sx_off;
        let dst = (dy + py) * pitch + dx_off;
        let ghost before = buf@;
        move_bytes(buf, src, dst, wb);
        proof {
            let lo_old: int = if sy >= dy { 0 } else { h - index };
            let lo_new: int = if sy >= dy { 0 } else { h - (index + 1) };
            assert(src - dst == shift) by (nonlinear_arith)
                requires
                    src == (sy + py) * pitch + sx * bpp,
                    dst == (dy + py) * pitch + dx * bpp,
                    shift == (sy - dy) * pitch + (sx - dx) * bpp,
            ;
            assert forall|k: int| 0 <= k < b0.len() implies #[trigger] buf@[k] == if in_rect(
                k,
                pitch as int,
                bpp as int,
                dx as int,
                dy + lo_new,
                w as int,
                (index + 1) as int,
            ) {
                b0[k + shift]
            } else {
                b0[k]
            } by {
                lemma_in_row(k, pitch as int, bpp as int, dx as int, w as int, dy + py);
                if dst <= k < dst + wb {
                    let j = src + (k - dst);
                    lemma_in_row(j, pitch as int, bpp as int, sx as int, w as int, sy + py);
                    lemma_in_row(j, pitch as int, bpp as int, dx as int, w as int, sy + py);
                    assert(!in_rect(j, pitch as int, bpp as int, dx as int, dy + lo_old, w as int, index as int));
                }
            }
        }
        index = index + 1;
    }
    proof {
        assert(buf@ =~= moved(b0, pitch as int, bpp as int, sx as int, sy as int, dx as int, dy as int, w as int, h as int));
    }
}

/// `new_value` is what a pixel keeps, by `stored`, of an answer of `mapper`
/// at `(cx, cy)` for `old_value`.
pub open spec fn mapped<F: Fn(usize, usize, u32) -> u32>(
    mapper: F,
    cx: int,
    cy: int,
    old_value: nat,
    new_value: nat,
    stored: spec_fn(u32) -> nat,
) -> bool {
    exists|r: u32| #[trigger] call_ensures(mapper, (cx as usize, cy as usize, old_value as u32), r) && new_value == stored(r)
}

/// A pixel framebuffer that can be drawn on.
pub trait Framebuffer: Sized {
    /// The framebuffer's own consistency condition.
    spec fn inv(&self) -> bool;

    spec fn spec_width(&self) -> usize;

    spec fn spec_height(&self) -> usize;

    spec fn spec_color_format(&self) -> ColorFormat;

    /// Drawing goes to a shadow buffer first.
    spec fn double_buffered(&self) -> bool;

    /// Pixels can be edited one by one.
    spec fn pixels_ok(&self) -> bool;

    /// Rectangles can be copied.
    spec fn copy_ok(&self) -> bool;

    /// The native color of the pixel at `(x, y)` as last drawn.
    spec fn pixel(&self, x: int, y: int) -> nat;

    /// The native color of the pixel at `(x, y)` as shown.
    spec fn shown_pixel(&self, x: int, y: int) -> nat;

    /// What a pixel keeps of the native color `v`.
    spec fn stored(&self, v: u32) -> nat;

    fn color_format(&self) -> (r: &ColorFormat)
        requires
            self.inv(),
        ensures
            *r == self.spec_color_format(),
    ;

    fn width(&self) -> (r: usize)
        requires
            self.inv(),
        ensures
            r == self.spec_width(),
    ;

    fn height(&self) -> (r: usize)
        requires
            self.inv(),
        ensures
            r == self.spec_height(),
    ;

    fn double_buffer_enabled(&self) -> (r: bool)
        requires
            self.inv(),
        ensures
            r == self.double_buffered(),
    ;

    /// Turn double buffering on or off. Turning it on starts the shadow
    /// buffer from what is shown; turning it off draws on what is shown.
    fn set_double_buffer(&mut self, enabled: bool)
        requires
            old(self).inv(),
        ensures
            final(self).inv(),
            final(self).spec_width() == old(self).spec_width(),
            final(self).spec_height() == old(self).spec_height(),
            final(self).spec_color_format() == old(self).spec_color_format(),
            final(self).pixels_ok() == old(self).pixels_ok(),
            final(self).copy_ok() == old(self).copy_ok(),
            forall|v: u32| #[trigger] final(self).stored(v) == old(self).stored(v),
            final(self).double_buffered() == enabled,
            forall|x: int, y: int|
                0 <= x < old(self).spec_width() && 0 <= y < old(self).spec_height() ==> {
                    &&& #[trigger] final(self).shown_pixel(x, y) == old(self).shown_pixel(x, y)
                    &&& final(self).pixel(x, y) == if enabled {
                        old(self).pixel(x, y)
                    } else {
                        old(self).shown_pixel(x, y)
                    }
                },
    ;

    /// Edit the pixels in the specified rectanglar region according to the
    /// given `mapper` function, which takes `(x, y, old_native_color)` with
    /// `(x, y)` relative to the region.
    fn edit<F: Fn(usize, usize, u32) -> u32>(&mut self, x: usize, y: usize, width: usize, height: usize, mapper: F)
        requires
            old(self).inv(),
            old(self).pixels_ok(),
            x + width <= old(self).spec_width(),
            y + height <= old(self).spec_height(),
            forall|cx: usize, cy: usize, v: u32|
                cx < width && cy < height ==> #[trigger] call_requires(mapper, (cx, cy, v)),
        ensures
            final(self).inv(),
            final(self).spec_width() == old(self).spec_width(),
            final(self).spec_height() == old(self).spec_height(),
            final(self).spec_color_format() == old(self).spec_color_format(),
            final(self).pixels_ok() == old(self).pixels_ok(),
            final(self).copy_ok() == old(self).copy_ok(),
            forall|v: u32| #[trigger] final(self).stored(v) == old(self).stored(v),
            final(self).double_buffered() == old(self).double_buffered(),
            forall|px: int, py: int|
                0 <= px < old(self).spec_width() && 0 <= py < old(self).spec_height() && !(x <= px < x + width && y
                    <= py < y + height) ==> #[trigger] final(self).pixel(px, py) == old(self).pixel(px, py),
            forall|px: int, py: int|
                #![trigger final(self).pixel(px, py)]
                x <= px < x + width && y <= py < y + height ==> mapped(
                    mapper,
                    px - x,
                    py - y,
                    old(self).pixel(px, py),
                    final(self).pixel(px, py),
                    |v: u32| old(self).stored(v),
                ),
            forall|px: int, py: int|
                0 <= px < old(self).spec_width() && 0 <= py < old(self).spec_height() ==> #[trigger] final(self).shown_pixel(px, py)
                    == if x <= px < x + width && y <= py < y + height {
                    final(self).pixel(px, py)
                } else {
                    old(self).shown_pixel(px, py)
                },
    ;

    /// Fill rectangular region with the specified native color.
    fn fill(&mut self, x: usize, y: usize, width: usize, height: usize, color: u32)
        requires
            old(self).inv(),
            old(self).pixels_ok(),
            x + width <= old(self).spec_width(),
            y + height <= old(self).spec_height(),
        ensures
            final(self).inv(),
            final(self).spec_width() == old(self).spec_width(),
            final(self).spec_height() == old(self).spec_height(),
            final(self).spec_color_format() == old(self).spec_color_format(),
            final(self).pixels_ok() == old(self).pixels_ok(),
            final(self).copy_ok() == old(self).copy_ok(),
            forall|v: u32| #[trigger] final(self).stored(v) == old(self).stored(v),
            final(self).double_buffered() == old(self).double_buffered(),
            forall|px: int, py: int|
                0 <= px < old(self).spec_width() && 0 <= py < old(self).spec_height() ==> #[trigger] final(self).pixel(px, py)
                    == if x <= px < x + width && y <= py < y + height {
                    old(self).stored(color)
                } else {
                    old(self).pixel(px, py)
                },
            forall|px: int, py: int|
                0 <= px < old(self).spec_width() && 0 <= py < old(self).spec_height() ==> #[trigger] final(self).shown_pixel(px, py)
                    == if x <= px < x + width && y <= py < y + height {
                    final(self).pixel(px, py)
                } else {
                    old(self).shown_pixel(px, py)
                },
    {
        let paint = |_cx: usize, _cy: usize, _old: u32| -> (r: u32)
            ensures
                r == color,
            { color };
        self.edit(x, y, width, height, paint);
        proof {
            assert forall|px: int, py: int|
                0 <= px < old(self).spec_width() && 0 <= py < old(self).spec_height() implies #[trigger] self.pixel(px, py)
                    == if x <= px < x + width && y <= py < y + height {
                    old(self).stored(color)
                } else {
                    old(self).pixel(px, py)
                } by {
                if x <= px < x + width && y <= py < y + height {
                    assert(mapped(paint, px - x, py - y, old(self).pixel(px, py), self.pixel(px, py), |v: u32| old(self).stored(v)));
                    let r = choose|r: u32|
                        #[trigger] call_ensures(paint, ((px - x) as usize, (py - y) as usize, old(self).pixel(px, py) as u32), r)
                            && self.pixel(px, py) == (|v: u32| old(self).stored(v))(r);
                }
            }
        }
    }

    /// Copy rectangle within the framebuffer, from the coordinates specified by
    /// `(sx, sy)` to `(dx, dy)`.
    fn copy_within(&mut self, sx: usize, sy: usize, dx: usize, dy: usize, width: usize, height: usize)
        requires
            old(self).inv(),
            old(self).copy_ok(),
            sx + width <= old(self).spec_width(),
            dx + width <= old(self).spec_width(),
            sy + height <= old(self).spec_height(),
            dy + height <= old(self).spec_height(),
        ensures
            final(self).inv(),
            final(self).spec_width() == old(self).spec_width(),
            final(self).spec_height() == old(self).spec_height(),
            final(self).spec_color_format() == old(self).spec_color_format(),
            final(self).pixels_ok() == old(self).pixels_ok(),
            final(self).copy_ok() == old(self).copy_ok(),
            forall|v: u32| #[trigger] final(self).stored(v) == old(self).stored(v),
            final(self).double_buffered() == old(self).double_buffered(),
            old(self).pixels_ok() ==> forall|px: int, py: int|
                0 <= px < old(self).spec_width() && 0 <= py < old(self).spec_height() ==> #[trigger] final(self).pixel(px, py)
                    == if dx <= px < dx + width && dy <= py < dy + height {
                    old(self).pixel(px - dx + sx, py - dy + sy)
                } else {
                    old(self).pixel(px, py)
                },
            old(self).pixels_ok() ==> forall|px: int, py: int|
                0 <= px < old(self).spec_width() && 0 <= py < old(self).spec_height() ==> #[trigger] final(self).shown_pixel(px, py)
                    == if dx <= px < dx + width && dy <= py < dy + height {
                    final(self).pixel(px, py)
                } else {
                    old(self).shown_pixel(px, py)
                },
    ;
}


/// Equal bytes read as equal values, wherever they stand.
proof fn lemma_le_value_shift(a: Seq<u8>, b: Seq<u8>, off_a: int, off_b: int, n: nat)
    requires
        forall|j: int| #![trigger a[off_a + j]] 0 <= j < n ==> a[off_a + j] == b[off_b + j],
    ensures
        le_value(a, off_a, n) == le_value(b, off_b, n),
    decreases n,
{
    if n > 0 {
        assert(a[off_a + 0] == b[off_b + 0]);
        assert forall|j: int| #![trigger a[(off_a + 1) + j]] 0 <= j < n - 1 implies a[(off_a + 1) + j] == b[(off_b + 1) + j] by {
            assert(a[off_a + (j + 1)] == b[off_b + (j + 1)]);
        }
        lemma_le_value_shift(a, b, off_a + 1, off_b + 1, (n - 1) as nat);
    }
}

/// Byte `j` of pixel `(px, py)` lies in row `py`, at column `px * size + j`,
/// and in a rectangle exactly when the pixel does.
proof fn lemma_pixel_byte(
    pitch: int,
    size: int,
    width: int,
    px: int,
    py: int,
    j: int,
    x: int,
    y: int,
    w: int,
    h: int,
    height: int,
)
    requires
        size > 0,
        width * size <= pitch,
        0 <= px < width,
        0 <= py < height,
        0 <= j < size,
    ensures
        0 <= py * pitch + px * size + j < pitch * height,
        (py * pitch + px * size + j) / pitch == py,
        (py * pitch + px * size + j) % pitch == px * size + j,
        in_rect(py * pitch + px * size + j, pitch, size, x, y, w, h) <==> (x <= px < x + w && y <= py < y + h),
{
    assert(px * size + j < pitch) by (nonlinear_arith)
        requires
            0 <= px < width,
            0 <= j < size,
            width * size <= pitch,
    ;
    assert(0 <= px * size) by (nonlinear_arith)
        requires
            0 <= px,
            size > 0,
    ;
    lemma_row_col(py * pitch + px * size + j, py, px * size + j, pitch);
    assert((py + 1) * pitch <= height * pitch) by (nonlinear_arith)
        requires
            py + 1 <= height,
            0 <= pitch,
    ;
    assert(height * pitch == pitch * height) by (nonlinear_arith);
    assert((py + 1) * pitch == py * pitch + pitch) by (nonlinear_arith);
    assert(0 <= py * pitch) by (nonlinear_arith)
        requires
            0 <= py,
            0 <= pitch,
    ;
    assert((x * size <= px * size + j < (x + w) * size) <==> (x <= px < x + w)) by (nonlinear_arith)
        requires
            size > 0,
            0 <= j < size,
    ;
}

/// Two framebuffers of the same size, format and drawing abilities, both
/// consistent, both or neither double buffered.
pub open spec fn same_shape<T: Framebuffer>(a: T, b: T) -> bool {
    &&& a.inv() && b.inv()
    &&& a.spec_width() == b.spec_width()
    &&& a.spec_height() == b.spec_height()
    &&& a.spec_color_format() == b.spec_color_format()
    &&& a.pixels_ok() == b.pixels_ok()
    &&& a.copy_ok() == b.copy_ok()
    &&& a.double_buffered() == b.double_buffered()
    &&& forall|v: u32| #[trigger] a.stored(v) == b.stored(v)
}

/// Pixel `(x, y)`'s first byte.
pub open spec fn pixel_offset(c: LinearPixelConfig, x: int, y: int) -> int {
    y * c.pitch + x * pixel_size(c.bits_per_pixel)
}

/// The whole bytes a pixel of `bpp` bits takes.
pub open spec fn whole_bytes(bpp: u8) -> int {
    spec_align_up(bpp as int, 8) / 8
}

/// The bytes of one pixel, as `edit` reads and writes them.
fn pixel_bytes(bpp: u8) -> (r: usize)
    ensures
        r == pixel_size(bpp),
{
    if bpp == 32 {
        4
    } else if bpp == 15 || bpp == 16 {
        2
    } else {
        1
    }
}

/// A framebuffer whose rows of pixels follow one another in memory, with an
/// optional shadow buffer that drawing goes to first.
pub struct LinearFramebuffer<'a> {
    config: LinearPixelConfig,
    slice: &'a mut [u8],
    shadow: Option<Vec<u8>>,
}

impl<'a> LinearFramebuffer<'a> {
    pub closed spec fn config(&self) -> LinearPixelConfig {
        self.config
    }

    /// The bytes that are shown.
    pub closed spec fn screen(&self) -> Seq<u8> {
        self.slice@
    }

    /// The shadow buffer, when double buffering is on.
    pub closed spec fn shadow(&self) -> Option<Seq<u8>> {
        match self.shadow {
            Some(v) => Some(v@),
            None => None,
        }
    }

    /// The bytes that drawing goes to.
    pub open spec fn buffer(&self) -> Seq<u8> {
        match self.shadow() {
            Some(s) => s,
            None => self.screen(),
        }
    }

    pub open spec fn wf(&self) -> bool {
        &&& self.config().pitch * self.config().height == self.screen().len()
        &&& self.shadow() matches Some(s) ==> s.len() == self.screen().len()
    }

    /// A framebuffer over the `pitch * height` bytes of `slice`.
    pub fn new(config: LinearPixelConfig, slice: &'a mut [u8]) -> (r: LinearFramebuffer<'a>)
        requires
            old(slice)@.len() == config.pitch * config.height,
        ensures
            r.wf(),
            r.config() == config,
            r.screen() == old(slice)@,
            r.shadow() is None,
    {
        LinearFramebuffer { config, slice, shadow: None }
    }

    /// Copy the edited rectangle from the shadow buffer to the screen, if
    /// double buffering is on.
    fn dirty(&mut self, x: usize, y: usize, width: usize, height: usize)
        requires
            old(self).wf(),
            y + height <= usize::MAX,
            (x + width) * whole_bytes(old(self).config().bits_per_pixel) <= old(self).config().pitch,
            y + height <= old(self).config().height,
        ensures
            final(self).wf(),
            final(self).config() == old(self).config(),
            final(self).shadow() == old(self).shadow(),
            final(self).screen() == match old(self).shadow() {
                Some(s) => refreshed(
                    old(self).screen(),
                    s,
                    old(self).config().pitch as int,
                    whole_bytes(old(self).config().bits_per_pixel),
                    x as int,
                    y as int,
                    width as int,
                    height as int,
                ),
                None => old(self).screen(),
            },
    {
        let bpp = self.config.bytes_per_pixel();
        let pitch = self.config.pitch;
        assert((y + height) * pitch <= self.config.height * pitch) by (nonlinear_arith)
            requires
                y + height <= self.config.height,
        ;
        assert(self.config.height * pitch == pitch * self.config.height) by (nonlinear_arith);
        match &self.shadow {
            Some(v) => {
                refresh_rect(self.slice, v.as_slice(), pitch, bpp, x, y, width, height);
            },
            None => {},
        }
    }
}

/// The configuration's pixels can be edited one by one: a depth `edit`
/// handles, and rows a whole number of pixels long that hold a row of the
/// screen.
pub open spec fn linear_pixels_ok(c: LinearPixelConfig) -> bool {
    &&& depth_ok(c.bits_per_pixel)
    &&& (c.pitch as int) % (pixel_size(c.bits_per_pixel) as int) == 0
    &&& c.width * pixel_size(c.bits_per_pixel) <= c.pitch
}

/// The pixel-level effect of an edit, from its byte-level effect.
proof fn lemma_edit_pixels<F: Fn(usize, usize, u32) -> u32>(
    c: LinearPixelConfig,
    b0: Seq<u8>,
    b1: Seq<u8>,
    x: int,
    y: int,
    w: int,
    h: int,
    mapper: F,
)
    requires
        linear_pixels_ok(c),
        b0.len() == c.pitch * c.height,
        0 <= x,
        0 <= y,
        0 <= w,
        0 <= h,
        x + w <= c.width,
        y + h <= c.height,
        rect_edited(b0, b1, c.pitch as int, pixel_size(c.bits_per_pixel), x, y, w, h, mapper),
    ensures
        forall|px: int, py: int|
            0 <= px < c.width && 0 <= py < c.height && !(x <= px < x + w && y <= py < y + h) ==> #[trigger] le_value(
                b1,
                pixel_offset(c, px, py),
                pixel_size(c.bits_per_pixel),
            ) == le_value(b0, pixel_offset(c, px, py), pixel_size(c.bits_per_pixel)),
        forall|px: int, py: int|
            x <= px < x + w && y <= py < y + h ==> #[trigger] pixel_edited(
                b0,
                b1,
                pixel_offset(c, px, py),
                pixel_size(c.bits_per_pixel),
                px - x,
                py - y,
                mapper,
            ),
{
    let size = pixel_size(c.bits_per_pixel);
    let pitch = c.pitch as int;
    assert forall|px: int, py: int|
        0 <= px < c.width && 0 <= py < c.height && !(x <= px < x + w && y <= py < y + h) implies #[trigger] le_value(
            b1,
            pixel_offset(c, px, py),
            size,
        ) == le_value(b0, pixel_offset(c, px, py), size) by {
        let off = pixel_offset(c, px, py);
        assert forall|k: int| off <= k < off + size implies b1[k] == b0[k] by {
            lemma_pixel_byte(pitch, size as int, c.width as int, px, py, k - off, x, y, w, h, c.height as int);
        }
        lemma_le_value_same(b1, b0, off, size);
    }
    assert forall|px: int, py: int| x <= px < x + w && y <= py < y + h implies #[trigger] pixel_edited(
        b0,
        b1,
        pixel_offset(c, px, py),
        size,
        px - x,
        py - y,
        mapper,
    ) by {
        let cx = px - x;
        let cy = py - y;
        assert((y + cy) * pitch + (x + cx) * size == pixel_offset(c, px, py));
        assert(pixel_edited(b0, b1, (y + cy) * pitch + (x + cx) * size, size, cx, cy, mapper));
    }
}

/// The shown pixels after the edited rectangle was copied from the shadow.
proof fn lemma_refreshed_pixels(c: LinearPixelConfig, screen: Seq<u8>, shadow: Seq<u8>, x: int, y: int, w: int, h: int)
    requires
        linear_pixels_ok(c),
        screen.len() == c.pitch * c.height,
        shadow.len() == screen.len(),
        0 <= x,
        0 <= y,
        0 <= w,
        0 <= h,
    ensures
        forall|px: int, py: int|
            0 <= px < c.width && 0 <= py < c.height ==> #[trigger] le_value(
                refreshed(screen, shadow, c.pitch as int, pixel_size(c.bits_per_pixel) as int, x, y, w, h),
                pixel_offset(c, px, py),
                pixel_size(c.bits_per_pixel),
            ) == if x <= px < x + w && y <= py < y + h {
                le_value(shadow, pixel_offset(c, px, py), pixel_size(c.bits_per_pixel))
            } else {
                le_value(screen, pixel_offset(c, px, py), pixel_size(c.bits_per_pixel))
            },
{
    let size = pixel_size(c.bits_per_pixel);
    let pitch = c.pitch as int;
    let s1 = refreshed(screen, shadow, pitch, size as int, x, y, w, h);
    assert forall|px: int, py: int| 0 <= px < c.width && 0 <= py < c.height implies #[trigger] le_value(
        s1,
        pixel_offset(c, px, py),
        size,
    ) == if x <= px < x + w && y <= py < y + h {
        le_value(shadow, pixel_offset(c, px, py), size)
    } else {
        le_value(screen, pixel_offset(c, px, py), size)
    } by {
        let off = pixel_offset(c, px, py);
        let inside = x <= px < x + w && y <= py < y + h;
        assert forall|k: int| off <= k < off + size implies s1[k] == if inside {
            shadow[k]
        } else {
            screen[k]
        } by {
            lemma_pixel_byte(pitch, size as int, c.width as int, px, py, k - off, x, y, w, h, c.height as int);
        }
        if inside {
            lemma_le_value_same(s1, shadow, off, size);
        } else {
            lemma_le_value_same(s1, screen, off, size);
        }
    }
}

/// Bytes per pixel, as `copy_within` counts them, for the depths `edit`
/// handles.
proof fn lemma_whole_bytes(bpp: u8)
    requires
        depth_ok(bpp),
    ensures
        whole_bytes(bpp) == pixel_size(bpp) as int,
{
}

impl<'a> Framebuffer for LinearFramebuffer<'a> {
    open spec fn inv(&self) -> bool {
        self.wf()
    }

    open spec fn spec_width(&self) -> usize {
        self.config().width
    }

    open spec fn spec_height(&self) -> usize {
        self.config().height
    }

    open spec fn spec_color_format(&self) -> ColorFormat {
        self.config().color_format
    }

    open spec fn double_buffered(&self) -> bool {
        self.shadow() is Some
    }

    open spec fn pixels_ok(&self) -> bool {
        linear_pixels_ok(self.config())
    }

    open spec fn copy_ok(&self) -> bool {
        self.config().width * whole_bytes(self.config().bits_per_pixel) <= self.config().pitch
    }

    open spec fn pixel(&self, x: int, y: int) -> nat {
        le_value(self.buffer(), pixel_offset(self.config(), x, y), pixel_size(self.config().bits_per_pixel))
    }

    open spec fn shown_pixel(&self, x: int, y: int) -> nat {
        le_value(self.screen(), pixel_offset(self.config(), x, y), pixel_size(self.config().bits_per_pixel))
    }

    open spec fn stored(&self, v: u32) -> nat {
        v as nat % pow256(pixel_size(self.config().bits_per_pixel))
    }

    fn color_format(&self) -> (r: &ColorFormat) {
        &self.config.color_format
    }

    fn width(&self) -> (r: usize) {
        self.config.width
    }

    fn height(&self) -> (r: usize) {
        self.config.height
    }

    fn double_buffer_enabled(&self) -> (r: bool) {
        self.shadow.is_some()
    }

    fn set_double_buffer(&mut self, enabled: bool)
        ensures
            final(self).config() == old(self).config(),
            final(self).screen() == old(self).screen(),
            final(self).shadow() == if !enabled {
                None
            } else if old(self).shadow() is Some {
                old(self).shadow()
            } else {
                Some(old(self).screen())
            },
    {
        if enabled {
            if self.shadow.is_none() {
                // Start from what is shown.
                let copy = vstd::slice::slice_to_vec(self.slice);
                self.shadow = Some(copy);
            }
        } else {
            self.shadow = None;
        }
    }

    fn edit<F: Fn(usize, usize, u32) -> u32>(&mut self, x: usize, y: usize, width: usize, height: usize, mapper: F)
        ensures
            final(self).config() == old(self).config(),
            rect_edited(
                old(self).buffer(),
                final(self).buffer(),
                old(self).config().pitch as int,
                pixel_size(old(self).config().bits_per_pixel),
                x as int,
                y as int,
                width as int,
                height as int,
                mapper,
            ),
            final(self).screen() == match old(self).shadow() {
                Some(_) => refreshed(
                    old(self).screen(),
                    final(self).buffer(),
                    old(self).config().pitch as int,
                    pixel_size(old(self).config().bits_per_pixel) as int,
                    x as int,
                    y as int,
                    width as int,
                    height as int,
                ),
                None => final(self).buffer(),
            },
    {
        let ghost c = self.config;
        let ghost b0 = self.buffer();
        let ghost s0 = self.screen();
        let size = pixel_bytes(self.config.bits_per_pixel);
        // Rows are a whole number of pixels apart.
        let stride = self.config.pitch / size * size;
        proof {
            vstd::arithmetic::div_mod::lemma_fundamental_div_mod(c.pitch as int, size as int);
            assert(stride == c.pitch);
            assert((x + width) * size <= c.width * size) by (nonlinear_arith)
                requires
                    x + width <= c.width,
            ;
            assert((y + height) * stride <= c.height * stride) by (nonlinear_arith)
                requires
                    y + height <= c.height,
            ;
            assert(c.height * stride == stride * c.height) by (nonlinear_arith);
        }
        match &mut self.shadow {
            Some(v) => {
                edit_bytes(v.as_mut_slice(), stride, size, x, y, width, height, &mapper);
            },
            None => {
                edit_bytes(self.slice, stride, size, x, y, width, height, &mapper);
            },
        }
        proof {
            lemma_whole_bytes(c.bits_per_pixel);
        }
        self.dirty(x, y, width, height);
        proof {
            let b1 = self.buffer();
            lemma_edit_pixels(c, b0, b1, x as int, y as int, width as int, height as int, mapper);
            let size = pixel_size(c.bits_per_pixel);
            assert forall|px: int, py: int|
                #![trigger self.pixel(px, py)]
                x <= px < x + width && y <= py < y + height implies mapped(
                    mapper,
                    px - x,
                    py - y,
                    old(self).pixel(px, py),
                    self.pixel(px, py),
                    |v: u32| old(self).stored(v),
                ) by {
                let off = pixel_offset(c, px, py);
                assert(pixel_edited(b0, b1, off, size, px - x, py - y, mapper));
                let r = choose|r: u32|
                    #[trigger] call_ensures(mapper, ((px - x) as usize, (py - y) as usize, le_value(b0, off, size) as u32), r)
                        && le_value(b1, off, size) == r as nat % pow256(size);
                assert(call_ensures(mapper, ((px - x) as usize, (py - y) as usize, old(self).pixel(px, py) as u32), r));
                assert(self.pixel(px, py) == (|v: u32| old(self).stored(v))(r));
            }
            if old(self).shadow() is Some {
                lemma_refreshed_pixels(c, s0, b1, x as int, y as int, width as int, height as int);
            }

        }
    }

    fn copy_within(&mut self, sx: usize, sy: usize, dx: usize, dy: usize, width: usize, height: usize)
        ensures
            final(self).config() == old(self).config(),
            final(self).buffer() == moved(
                old(self).buffer(),
                old(self).config().pitch as int,
                whole_bytes(old(self).config().bits_per_pixel),
                sx as int,
                sy as int,
                dx as int,
                dy as int,
                width as int,
                height as int,
            ),
            final(self).screen() == match old(self).shadow() {
                Some(_) => refreshed(
                    old(self).screen(),
                    final(self).buffer(),
                    old(self).config().pitch as int,
                    whole_bytes(old(self).config().bits_per_pixel),
                    dx as int,
                    dy as int,
                    width as int,
                    height as int,
                ),
                None => final(self).buffer(),
            },
    {
        let ghost c = self.config;
        let ghost b0 = self.buffer();
        let ghost s0 = self.screen();
        let pitch = self.config.pitch;
        let bpp = self.config.bytes_per_pixel();
        proof {
            assert((sx + width) * bpp <= c.width * bpp) by (nonlinear_arith)
                requires
                    sx + width <= c.width,
            ;
            assert((dx + width) * bpp <= c.width * bpp) by (nonlinear_arith)
                requires
                    dx + width <= c.width,
            ;
            assert((sy + height) * pitch <= c.height * pitch) by (nonlinear_arith)
                requires
                    sy + height <= c.height,
            ;
            assert((dy + height) * pitch <= c.height * pitch) by (nonlinear_arith)
                requires
                    dy + height <= c.height,
            ;
            assert(c.height * pitch == pitch * c.height) by (nonlinear_arith);
        }
        match &mut self.shadow {
            Some(v) => {
                copy_rect(v.as_mut_slice(), pitch, bpp, sx, sy, dx, dy, width, height);
            },
            None => {
                copy_rect(self.slice, pitch, bpp, sx, sy, dx, dy, width, height);
            },
        }
        self.dirty(dx, dy, width, height);
        proof {
            if linear_pixels_ok(c) {
                lemma_whole_bytes(c.bits_per_pixel);
                lemma_moved_pixels(c, b0, sx as int, sy as int, dx as int, dy as int, width as int, height as int);
                if old(self).shadow() is Some {
                    lemma_refreshed_pixels(c, s0, self.buffer(), dx as int, dy as int, width as int, height as int);
                }
            }
        }
    }
}

/// The pixel-level effect of copying a rectangle.
proof fn lemma_moved_pixels(c: LinearPixelConfig, b0: Seq<u8>, sx: int, sy: int, dx: int, dy: int, w: int, h: int)
    requires
        linear_pixels_ok(c),
        b0.len() == c.pitch * c.height,
        0 <= sx,
        0 <= sy,
        0 <= dx,
        0 <= dy,
        0 <= w,
        0 <= h,
        sx + w <= c.width,
        dx + w <= c.width,
        sy + h <= c.height,
        dy + h <= c.height,
    ensures
        forall|px: int, py: int|
            0 <= px < c.width && 0 <= py < c.height ==> #[trigger] le_value(
                moved(b0, c.pitch as int, pixel_size(c.bits_per_pixel) as int, sx, sy, dx, dy, w, h),
                pixel_offset(c, px, py),
                pixel_size(c.bits_per_pixel),
            ) == if dx <= px < dx + w && dy <= py < dy + h {
                le_value(b0, pixel_offset(c, px - dx + sx, py - dy + sy), pixel_size(c.bits_per_pixel))
            } else {
                le_value(b0, pixel_offset(c, px, py), pixel_size(c.bits_per_pixel))
            },
{
    let size = pixel_size(c.bits_per_pixel);
    let pitch = c.pitch as int;
    let b1 = moved(b0, pitch, size as int, sx, sy, dx, dy, w, h);
    assert forall|px: int, py: int| 0 <= px < c.width && 0 <= py < c.height implies #[trigger] le_value(
        b1,
        pixel_offset(c, px, py),
        size,
    ) == if dx <= px < dx + w && dy <= py < dy + h {
        le_value(b0, pixel_offset(c, px - dx + sx, py - dy + sy), size)
    } else {
        le_value(b0, pixel_offset(c, px, py), size)
    } by {
        let off = pixel_offset(c, px, py);
        if dx <= px < dx + w && dy <= py < dy + h {
            let off2 = pixel_offset(c, px - dx + sx, py - dy + sy);
            assert forall|j: int| #![trigger b1[off + j]] 0 <= j < size implies b1[off + j] == b0[off2 + j] by {
                lemma_pixel_byte(pitch, size as int, c.width as int, px, py, j, dx, dy, w, h, c.height as int);
                assert(off + j + (sy - dy) * pitch + (sx - dx) * size == off2 + j) by (nonlinear_arith)
                    requires
                        off == py * pitch + px * size,
                        off2 == (py - dy + sy) * pitch + (px - dx + sx) * size,
                ;
            }
            lemma_le_value_shift(b1, b0, off, off2, size);
        } else {
            assert forall|k: int| off <= k < off + size implies b1[k] == b0[k] by {
                lemma_pixel_byte(pitch, size as int, c.width as int, px, py, k - off, dx, dy, w, h, c.height as int);
            }
            lemma_le_value_same(b1, b0, off, size);
        }
    }
}

} // verus!
