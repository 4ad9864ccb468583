use kit_kernel::framebuffer::{rgb24_format, Framebuffer, LinearFramebuffer, LinearPixelConfig};
use kit_kernel::terminal::char_stream::CharStream;
use kit_kernel::terminal::graphical::{Graphical, PsfFont};
use kit_kernel::terminal::{Color, Terminal};

/// A PSF1 font of 256 glyphs, 8 by 2 pixels, without a unicode table:
/// 'A' has its top left and bottom right pixels set, 'B' its whole top row.
fn tiny_font() -> Vec<u8> {
    let mut f = vec![0x36, 0x04, 0x00, 2];
    f.extend(vec![0u8; 2 * 256]);
    f[4 + 2 * 65] = 0b1000_0000;
    f[4 + 2 * 65 + 1] = 0b0000_0001;
    f[4 + 2 * 66] = 0xff;
    f
}

/// Two rows of two 9 by 2 cells, one byte per pixel.
fn screen_config() -> LinearPixelConfig {
    LinearPixelConfig {
        buffer: 0,
        pitch: 18,
        width: 18,
        height: 4,
        bits_per_pixel: 8,
        color_format: rgb24_format(),
    }
}

fn pixel(bytes: &[u8], x: usize, y: usize) -> u8 {
    bytes[y * 18 + x]
}

#[test]
fn graphical_new_sizes_the_text_area() {
    let font_file = tiny_font();
    let font = PsfFont::new(&font_file).unwrap();
    let mut bytes = vec![0u8; 18 * 4];
    let fb = LinearFramebuffer::new(screen_config(), &mut bytes);
    let term = Graphical::new(fb, font);
    assert_eq!(term.get_cursor(), (0, 0));
    assert_eq!(term.get_color(), (Color::White, Color::Black));
}

#[test]
fn graphical_writes_glyph_and_advances() {
    let font_file = tiny_font();
    let mut bytes = vec![0u8; 18 * 4];
    {
        let font = PsfFont::new(&font_file).unwrap();
        let fb = LinearFramebuffer::new(screen_config(), &mut bytes);
        let mut term = Graphical::new(fb, font);
        term.write_raw_byte(b'A').unwrap();
        assert_eq!(term.get_cursor(), (0, 1));
    }
    // White in RGB24 is 0x00ffffff; an 8-bit pixel keeps 0xff.
    assert_eq!(pixel(&bytes, 0, 0), 0xff);
    assert_eq!(pixel(&bytes, 7, 1), 0xff);
    assert_eq!(pixel(&bytes, 1, 0), 0);
    assert_eq!(pixel(&bytes, 8, 0), 0);
    assert_eq!(bytes.iter().filter(|b| **b != 0).count(), 2);
}

#[test]
fn graphical_wraps_and_scrolls() {
    let font_file = tiny_font();
    let mut bytes = vec![0u8; 18 * 4];
    {
        let font = PsfFont::new(&font_file).unwrap();
        let fb = LinearFramebuffer::new(screen_config(), &mut bytes);
        let mut term = Graphical::new(fb, font);
        // 'A' 'A' fills row 0 and wraps to row 1; "B\n" then scrolls.
        term.write_raw_bytes(b"AAB\n").unwrap();
        assert_eq!(term.get_cursor(), (1, 0));
    }
    // Row 0 now holds what row 1 held: 'B' in the first cell.
    for x in 0..8 {
        assert_eq!(pixel(&bytes, x, 0), 0xff);
    }
    assert_eq!(pixel(&bytes, 8, 0), 0);
    assert_eq!(pixel(&bytes, 9, 0), 0);
    // The last row was cleared.
    assert!(bytes[36..].iter().all(|b| *b == 0));
}

#[test]
fn graphical_backspace_blanks_previous_cell() {
    let font_file = tiny_font();
    let mut bytes = vec![0u8; 18 * 4];
    {
        let font = PsfFont::new(&font_file).unwrap();
        let fb = LinearFramebuffer::new(screen_config(), &mut bytes);
        let mut term = Graphical::new(fb, font);
        term.write_raw_bytes(&[b'B', 0x08]).unwrap();
        assert_eq!(term.get_cursor(), (0, 0));
    }
    assert!(bytes.iter().all(|b| *b == 0));
}

#[test]
fn graphical_clear_paints_background() {
    let font_file = tiny_font();
    let mut bytes = vec![7u8; 18 * 4];
    {
        let font = PsfFont::new(&font_file).unwrap();
        let fb = LinearFramebuffer::new(screen_config(), &mut bytes);
        let mut term = Graphical::new(fb, font);
        term.set_color(Color::Black, Color::Blue).unwrap();
        assert_eq!(term.get_color(), (Color::Black, Color::Blue));
        term.clear().unwrap();
        assert_eq!(term.get_cursor(), (0, 0));
    }
    // Blue 0x000080 in RGB24 is 0x00800000; an 8-bit pixel keeps 0x00.
    assert!(bytes.iter().all(|b| *b == 0));
}

#[test]
fn graphical_put_raw_byte_keeps_cursor() {
    let font_file = tiny_font();
    let mut bytes = vec![0u8; 18 * 4];
    {
        let font = PsfFont::new(&font_file).unwrap();
        let fb = LinearFramebuffer::new(screen_config(), &mut bytes);
        let mut term = Graphical::new(fb, font);
        term.put_raw_byte(b'B', Color::LightRed, Color::Black, 1, 1).unwrap();
        assert_eq!(term.get_cursor(), (0, 0));
    }
    // Light red 0xff0000 in RGB24 is 0x000000ff; an 8-bit pixel keeps 0xff.
    for x in 9..17 {
        assert_eq!(pixel(&bytes, x, 2), 0xff);
    }
    assert_eq!(pixel(&bytes, 9, 3), 0);
}

#[test]
fn graphical_decodes_utf8_before_drawing() {
    let font_file = tiny_font();
    let mut bytes = vec![0u8; 18 * 4];
    {
        let font = PsfFont::new(&font_file).unwrap();
        let fb = LinearFramebuffer::new(screen_config(), &mut bytes);
        let mut term = Graphical::new(fb, font);
        // The first byte of a two-byte sequence draws nothing yet.
        term.write_raw_byte(0xc3).unwrap();
        assert_eq!(term.get_cursor(), (0, 0));
        term.write_raw_byte(0xa9).unwrap();
        assert_eq!(term.get_cursor(), (0, 1));
        // An invalid byte still takes a cell (U+FFFD, which has no glyph).
        term.write_raw_byte(0xff).unwrap();
        assert_eq!(term.get_cursor(), (1, 0));
    }
    assert!(bytes.iter().all(|b| *b == 0));
}

#[test]
fn char_stream_decodes_multibyte_characters() {
    let mut s = CharStream::new();
    s.push(0xe2);
    assert_eq!(s.consume(), None);
    s.push(0x82);
    assert_eq!(s.consume(), None);
    s.push(0xac);
    assert_eq!(s.consume(), Some('€'));
    assert_eq!(s.consume(), None);
    s.push(b'x');
    assert_eq!(s.consume(), Some('x'));
}

#[test]
fn char_stream_replaces_invalid_sequences() {
    let mut s = CharStream::new();
    s.push(0xe2);
    assert_eq!(s.consume(), None);
    s.push(b'A');
    assert_eq!(s.consume(), Some('\u{fffd}'));
    assert_eq!(s.consume(), Some('A'));
    assert_eq!(s.consume(), None);
    // An overlong lead byte is invalid on its own.
    s.push(0xc0);
    assert_eq!(s.consume(), Some('\u{fffd}'));
    assert_eq!(s.consume(), None);
    // A surrogate is refused at its second byte.
    s.push(0xed);
    assert_eq!(s.consume(), None);
    s.push(0xa0);
    assert_eq!(s.consume(), Some('\u{fffd}'));
    assert_eq!(s.consume(), Some('\u{fffd}'));
    assert_eq!(s.consume(), None);
}

#[test]
fn char_stream_roundtrips_encoded_characters() {
    for c in ['a', '\u{7f}', '\u{80}', 'é', '\u{7ff}', '\u{800}', '€', '\u{d7ff}', '\u{e000}', '\u{ffff}', '\u{10000}', '😀', '\u{10ffff}'] {
        let mut buf = [0u8; 4];
        let bytes = c.encode_utf8(&mut buf).as_bytes().to_vec();
        let mut s = CharStream::new();
        for (i, b) in bytes.iter().enumerate() {
            s.push(*b);
            let got = s.consume();
            if i + 1 < bytes.len() {
                assert_eq!(got, None);
            } else {
                assert_eq!(got, Some(c));
            }
        }
        assert_eq!(s.consume(), None);
    }
}
