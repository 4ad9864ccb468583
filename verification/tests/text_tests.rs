use kit_kernel::c_ffi::CStr;
use kit_kernel::cmdline::Cmdline;
use kit_kernel::log::{LevelFilter, Log, Logger, Serial};
use kit_kernel::terminal::graphical::{Font, PsfError, PsfFont};
use kit_kernel::terminal::{Color, VgaColor};

fn s(v: &[char]) -> String {
    v.iter().collect()
}

#[test]
fn cmdline_pairs() {
    let c = Cmdline::new("earlylog=com1 quiet loglevel=info,kernel=debug");
    let mut it = c.iter();
    let (k, v) = it.next().unwrap();
    assert_eq!((s(&k), s(&v)), ("earlylog".to_string(), "com1".to_string()));
    let (k, v) = it.next().unwrap();
    assert_eq!((s(&k), s(&v)), ("quiet".to_string(), String::new()));
    let (k, v) = it.next().unwrap();
    assert_eq!((s(&k), s(&v)), ("loglevel".to_string(), "info,kernel=debug".to_string()));
    assert!(it.next().is_none());
    assert!(it.next().is_none());
}

#[test]
fn cmdline_gives_back_its_string() {
    let line = "earlylog=com1 quiet loglevel=info,kernel=debug";
    assert_eq!(Cmdline::new(line).to_string(), line);
    assert_eq!(Cmdline::new("").to_string(), "");
}

#[test]
fn cmdline_empty_and_doubled_spaces() {
    let c = Cmdline::new("");
    let mut it = c.iter();
    let (k, v) = it.next().unwrap();
    assert!(k.is_empty() && v.is_empty());
    assert!(it.next().is_none());
    let c = Cmdline::new("a  b=");
    let items: Vec<(String, String)> = {
        let mut it = c.iter();
        let mut out = Vec::new();
        while let Some((k, v)) = it.next() {
            out.push((s(&k), s(&v)));
        }
        out
    };
    assert_eq!(items, vec![
        ("a".to_string(), String::new()),
        (String::new(), String::new()),
        ("b".to_string(), String::new()),
    ]);
}

#[test]
fn log_levels_parse_and_sort_longest_prefix_first() {
    let mut log = Log::new();
    assert_eq!(log.set_log_levels("info,kernel=debug,kernel::memory=TRACE"), Ok(()));
    let t = |x: &str| x.chars().collect::<Vec<char>>();
    assert!(log.enabled(&t("kernel::memory::pool"), LevelFilter::Trace));
    assert!(log.enabled(&t("kernel::process"), LevelFilter::Debug));
    assert!(!log.enabled(&t("kernel::process"), LevelFilter::Trace));
    assert!(log.enabled(&t("other"), LevelFilter::Info));
    assert!(!log.enabled(&t("other"), LevelFilter::Debug));
}

#[test]
fn log_levels_error_changes_nothing() {
    let mut log = Log::new();
    assert_eq!(log.set_log_levels("info,kernel=loud"), Err(()));
    assert!(log.enabled(&['x'], LevelFilter::Trace));
    assert_eq!(log.set_log_levels(""), Err(()));
    assert_eq!(log.set_log_levels("kernel=warn"), Ok(()));
    // A list without a plain level turns everything else off.
    assert!(!log.enabled(&['x'], LevelFilter::Error));
    assert!(log.enabled(&['k', 'e', 'r', 'n', 'e', 'l'], LevelFilter::Warn));
}

#[test]
fn log_default_level_and_loggers() {
    let mut log = Log::new();
    log.set_default_level(LevelFilter::Warn);
    assert!(log.enabled(&[], LevelFilter::Error));
    assert!(!log.enabled(&[], LevelFilter::Info));
    log.add_logger(Logger::Serial(Serial::Com1));
}

#[test]
fn c_str_length_and_bytes() {
    let b = b"hello\0world\0";
    let c = CStr::new(b);
    assert_eq!(c.len(), 5);
    assert_eq!(c.as_bytes(), b"hello");
    assert!(!c.is_empty());
    assert!(CStr::new(b"\0").is_empty());
}

fn psf(mode: u8, height: u8, glyphs: usize, table: &[u16]) -> Vec<u8> {
    let mut f = vec![0x36, 0x04, mode, height];
    for g in 0..glyphs {
        for row in 0..height as usize {
            f.push((g + row) as u8);
        }
    }
    for cp in table {
        f.extend_from_slice(&cp.to_le_bytes());
    }
    f
}

#[test]
fn psf_without_table_maps_code_points_to_glyphs() {
    let f = psf(0, 2, 256, &[]);
    let font = PsfFont::new(&f).unwrap();
    assert_eq!(font.char_width(), 8);
    assert_eq!(font.char_height(), 2);
    assert_eq!(font.char_bytes(), 2);
    assert_eq!(font.get('A'), Some(&[65u8, 66][..]));
    assert_eq!(font.get('\u{100}'), None);
}

#[test]
fn psf_with_table() {
    let mut table = vec![0x41u16, 0x61, 0xffff, 0x42, 0xffff];
    for _ in 2..256 {
        table.push(0xffff);
    }
    let f = psf(0x02, 1, 256, &table);
    let font = PsfFont::new(&f).unwrap();
    assert_eq!(font.get('a'), Some(&[0u8][..]));
    assert_eq!(font.get('A'), Some(&[0u8][..]));
    assert_eq!(font.get('B'), Some(&[1u8][..]));
    assert_eq!(font.get('C'), None);
}

#[test]
fn psf_errors() {
    assert!(matches!(PsfFont::new(&[1, 2, 0, 0]), Err(PsfError::WrongMagic)));
    assert!(matches!(PsfFont::new(&[0x36, 0x04, 0x08, 1]), Err(PsfError::BadMode(8))));
    assert!(matches!(PsfFont::new(&[0x36, 0x04, 0, 16, 0]), Err(PsfError::FileTooSmall)));
}

#[test]
fn vga_colors_convert_both_ways() {
    assert_eq!(VgaColor::from_color(Color::LightRed), VgaColor::LightRed);
    assert_eq!(VgaColor::Cyan.to_color(), Color::Cyan);
    assert_eq!(VgaColor::from_index(15), VgaColor::White);
    assert_eq!(VgaColor::Brown.index(), 6);
}
