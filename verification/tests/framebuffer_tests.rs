use kit_kernel::framebuffer::{bgr24_format, rgb24_format, ColorFormat, Framebuffer, LinearFramebuffer, LinearPixelConfig, MaskShift};

#[test]
fn test_color_format_rgb24() {
    let color_format = rgb24_format();

    let b = u32::from_ne_bytes;

    assert_eq!(color_format.format(0x000000), b([0x00, 0x00, 0x00, 0x00]));
    assert_eq!(color_format.format(0xffffff), b([0xff, 0xff, 0xff, 0x00]));
    assert_eq!(color_format.format(0x380a28), b([0x38, 0x0a, 0x28, 0x00]));
}

#[test]
fn test_color_format_bgr24() {
    let color_format = bgr24_format();

    let b = u32::from_ne_bytes;

    assert_eq!(color_format.format(0x000000), b([0x00, 0x00, 0x00, 0x00]));
    assert_eq!(color_format.format(0xffffff), b([0xff, 0xff, 0xff, 0x00]));
    assert_eq!(color_format.format(0x38f128), b([0x28, 0xf1, 0x38, 0x00]));
}

#[test]
fn test_color_format_rgb8() {
    let color_format = ColorFormat::Rgb {
        red: MaskShift { mask_bits: 2, shift: 0 },
        green: MaskShift { mask_bits: 3, shift: 2 },
        blue: MaskShift { mask_bits: 3, shift: 5 },
    };

    assert_eq!(color_format.format(0x000000), 0b00000000);
    assert_eq!(color_format.format(0xffffff), 0b11111111);
    assert_eq!(color_format.format(0xff9922), 0b00110011);
    assert_eq!(color_format.format(0x8038cc), 0b11000110);
}

#[test]
fn mask_shift_keeps_top_bits() {
    let m = MaskShift { mask_bits: 3, shift: 4 };
    assert_eq!(m.shift(0xff), 0b111 << 4);
    assert_eq!(m.shift(0x20), 0b001 << 4);
    assert_eq!(m.shift(0x1f), 0);
}

#[test]
fn linear_pixel_config_sizes() {
    let cfg = LinearPixelConfig {
        buffer: 0,
        pitch: 640 * 4,
        width: 640,
        height: 480,
        bits_per_pixel: 32,
        color_format: rgb24_format(),
    };
    assert_eq!(cfg.size(), 640 * 480);
    assert_eq!(cfg.bytes_per_pixel(), 4);
    assert_eq!(cfg.size_in_bytes(), 640 * 480 * 4);
    assert_eq!(cfg.size_in_pages(), 300);

    let odd = LinearPixelConfig {
        buffer: 0,
        pitch: 9,
        width: 3,
        height: 3,
        bits_per_pixel: 24,
        color_format: bgr24_format(),
    };
    assert_eq!(odd.bytes_per_pixel(), 3);
    assert_eq!(odd.size_in_bytes(), 27);
    assert_eq!(odd.size(), 9);
    assert_eq!(odd.size_in_pages(), 1);
}

fn config_32(width: usize, height: usize) -> LinearPixelConfig {
    LinearPixelConfig {
        buffer: 0,
        pitch: width * 4,
        width,
        height,
        bits_per_pixel: 32,
        color_format: rgb24_format(),
    }
}

#[test]
fn linear_fill_sets_rectangle_only() {
    let mut bytes = vec![0u8; 4 * 4 * 3];
    {
        let mut fb = LinearFramebuffer::new(config_32(4, 3), &mut bytes);
        assert_eq!(fb.width(), 4);
        assert_eq!(fb.height(), 3);
        fb.fill(1, 1, 2, 1, 0xaabbccdd);
    }
    let mut expected = vec![0u8; 48];
    for k in [20, 24] {
        expected[k..k + 4].copy_from_slice(&[0xdd, 0xcc, 0xbb, 0xaa]);
    }
    assert_eq!(bytes, expected);
}

#[test]
fn linear_edit_passes_relative_coordinates_and_old_color() {
    let mut bytes = vec![0u8; 4 * 4 * 3];
    bytes[4 * 5] = 7; // pixel (1, 1) holds 7
    {
        let mut fb = LinearFramebuffer::new(config_32(4, 3), &mut bytes);
        fb.edit(1, 1, 2, 2, |x, y, old| old + 100 * y as u32 + 10 * x as u32 + 1);
    }
    let pixel = |x: usize, y: usize| u32::from_le_bytes(bytes[y * 16 + x * 4..y * 16 + x * 4 + 4].try_into().unwrap());
    assert_eq!(pixel(1, 1), 8);
    assert_eq!(pixel(2, 1), 11);
    assert_eq!(pixel(1, 2), 101);
    assert_eq!(pixel(2, 2), 111);
    assert_eq!(pixel(0, 0), 0);
    assert_eq!(pixel(3, 2), 0);
}

#[test]
fn linear_edit_16bit_keeps_low_bytes() {
    let config = LinearPixelConfig {
        buffer: 0,
        pitch: 4,
        width: 2,
        height: 1,
        bits_per_pixel: 16,
        color_format: rgb24_format(),
    };
    let mut bytes = vec![0u8; 4];
    {
        let mut fb = LinearFramebuffer::new(config, &mut bytes);
        fb.fill(1, 0, 1, 1, 0x12345678);
    }
    assert_eq!(bytes, vec![0, 0, 0x78, 0x56]);
}

#[test]
fn linear_copy_within_moves_rectangle_up() {
    let mut bytes: Vec<u8> = (0..48).collect();
    {
        let mut fb = LinearFramebuffer::new(config_32(4, 3), &mut bytes);
        // rows 1..3 move to rows 0..2
        fb.copy_within(0, 1, 0, 0, 4, 2);
    }
    let mut expected: Vec<u8> = (16..48).collect();
    expected.extend(32..48);
    assert_eq!(bytes, expected);
}

#[test]
fn linear_copy_within_moves_rectangle_down_and_right() {
    let mut bytes: Vec<u8> = (0..48).collect();
    {
        let mut fb = LinearFramebuffer::new(config_32(4, 3), &mut bytes);
        // pixels (0..2, 0..2) move to (1..3, 1..3)
        fb.copy_within(0, 0, 1, 1, 2, 2);
    }
    let original: Vec<u8> = (0..48).collect();
    let mut expected = original.clone();
    expected[20..28].copy_from_slice(&original[0..8]);
    expected[36..44].copy_from_slice(&original[16..24]);
    assert_eq!(bytes, expected);
}

#[test]
fn linear_double_buffer_updates_screen_on_draw() {
    let mut bytes = vec![0u8; 4 * 4 * 3];
    {
        let mut fb = LinearFramebuffer::new(config_32(4, 3), &mut bytes);
        assert!(!fb.double_buffer_enabled());
        fb.set_double_buffer(true);
        assert!(fb.double_buffer_enabled());
        fb.fill(0, 2, 1, 1, 0x01020304);
        fb.set_double_buffer(false);
        assert!(!fb.double_buffer_enabled());
    }
    assert_eq!(&bytes[32..36], &[4, 3, 2, 1]);
    assert!(bytes[..32].iter().all(|b| *b == 0));
    assert!(bytes[36..].iter().all(|b| *b == 0));
}
