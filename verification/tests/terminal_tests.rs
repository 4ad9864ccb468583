use kit_kernel::terminal::{Ansi, Color, Null, Terminal, Vga, VgaConfig};

fn cell(byte: u8, attr: u8) -> u16 {
    (byte as u16) | ((attr as u16) << 8)
}

fn small_vga() -> Vga {
    Vga::new(VgaConfig { width: 4, height: 2, buffer: 0xb8000, port: 0x3d4 })
}

#[test]
fn vga_attr_packs_colors() {
    assert_eq!(Vga::attr(Color::LightGrey, Color::Black), 0x07);
    assert_eq!(Vga::attr(Color::White, Color::Blue), 0x1f);
    assert_eq!(Vga::color(Color::LightBrown), 14);
}

#[test]
fn vga_new_is_blank() {
    let vga = small_vga();
    assert!(vga.screen().iter().all(|&c| c == cell(b' ', 0x07)));
    assert_eq!(vga.get_cursor(), (0, 0));
    assert_eq!(vga.get_color(), (Color::LightGrey, Color::Black));
}

#[test]
fn vga_writes_and_wraps() {
    let mut vga = small_vga();
    vga.write_raw_bytes(b"abcde").unwrap();
    let s = vga.screen();
    assert_eq!(s[0], cell(b'a', 0x07));
    assert_eq!(s[3], cell(b'd', 0x07));
    assert_eq!(s[4], cell(b'e', 0x07));
    assert_eq!(vga.get_cursor(), (1, 1));
}

#[test]
fn vga_scrolls_at_bottom() {
    let mut vga = small_vga();
    vga.write_raw_bytes(b"ab\ncd\nef").unwrap();
    let s = vga.screen();
    assert_eq!(s[0], cell(b'c', 0x07));
    assert_eq!(s[1], cell(b'd', 0x07));
    assert_eq!(s[4], cell(b'e', 0x07));
    assert_eq!(s[5], cell(b'f', 0x07));
    assert_eq!(s[6], cell(b' ', 0x07));
    assert_eq!(vga.get_cursor(), (1, 2));
}

#[test]
fn vga_backspace_blanks() {
    let mut vga = small_vga();
    vga.write_raw_bytes(b"ab\x08").unwrap();
    assert_eq!(vga.screen()[1], cell(b' ', 0x07));
    assert_eq!(vga.get_cursor(), (0, 1));
    vga.write_raw_bytes(b"\x08\x08").unwrap();
    assert_eq!(vga.screen()[0], cell(b' ', 0x07));
    assert_eq!(vga.get_cursor(), (0, 0));
}

#[test]
fn vga_put_raw_byte_keeps_cursor() {
    let mut vga = small_vga();
    vga.put_raw_byte(b'x', Color::Red, Color::Green, 1, 2).unwrap();
    assert_eq!(vga.screen()[6], cell(b'x', 0x24));
    assert_eq!(vga.get_cursor(), (0, 0));
}

#[test]
fn ansi_sgr_sets_colors() {
    let mut t = Ansi::new(small_vga());
    t.write_raw_bytes(b"\x1b[31;44mx").unwrap();
    assert_eq!(t.get_color(), (Color::Red, Color::Blue));
    t.write_raw_bytes(b"\x1b[1m").unwrap();
    assert_eq!(t.get_color(), (Color::LightRed, Color::Blue));
    t.write_raw_bytes(b"\x1b[0m").unwrap();
    assert_eq!(t.get_color(), (Color::LightGrey, Color::Black));
}

#[test]
fn ansi_passes_plain_bytes() {
    let mut t = Ansi::new(small_vga());
    t.write_raw_bytes(b"hi").unwrap();
    assert_eq!(t.get_cursor(), (0, 2));
}

#[test]
fn null_terminal_accepts_everything() {
    let mut n = Null;
    n.write_raw_bytes(b"anything").unwrap();
    n.set_color(Color::Red, Color::Red).unwrap();
    assert_eq!(n.get_color(), (Color::White, Color::Black));
    assert_eq!(n.get_cursor(), (0, 0));
}

#[test]
fn color_lighten_darken() {
    assert_eq!(Color::Red.lighten(), Color::LightRed);
    assert_eq!(Color::LightRed.darken(), Color::Red);
    assert_eq!(Color::White.lighten(), Color::White);
    assert_eq!(Color::Black.darken(), Color::Black);
    assert_eq!(Color::Red.to_rgb(), 0x800000);
}
