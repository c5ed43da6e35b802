use monoos::console::{
    init, is_initialized, ColorCode, Console, FramebufferInfo, Writer, DEFAULT_TEXT_BG,
    DEFAULT_TEXT_FG, FONT_SIZE,
};

fn test_info() -> FramebufferInfo {
    // 64 x 32 pixels, 4 bytes per pixel, no padding between rows
    FramebufferInfo::new(64, 32, 256, 32)
}

fn test_font() -> Vec<u8> {
    // a font whose glyphs fill their box completely, except that the
    // question mark's glyph is empty so replacements are visible
    let mut font = vec![0xffu8; FONT_SIZE];
    for row in 0..16 {
        font[('?' as usize) * 16 + row] = 0;
    }
    font
}

fn test_writer() -> Writer {
    let info = test_info();
    let fb = vec![0u32; 64 * 32];
    Writer::new(fb, info, test_font())
}

#[test]
fn color_code_accessors() {
    let c = ColorCode(0x112233, 0x445566);
    assert_eq!(c.fg(), 0x112233);
    assert_eq!(c.bg(), 0x445566);
    let d = ColorCode::default();
    assert_eq!(d.fg(), DEFAULT_TEXT_FG);
    assert_eq!(d.bg(), DEFAULT_TEXT_BG);
}

#[test]
fn plot_pixel_in_and_out_of_bounds() {
    let mut w = test_writer();
    w.plot_pixel(3, 2, 0xff00ff);
    assert_eq!(w.fb[3 + 64 * 2], 0xff00ff);
    // out-of-bounds coordinates are ignored
    w.plot_pixel(64, 0, 0x123456);
    w.plot_pixel(0, 32, 0x123456);
    assert!(w.fb.iter().filter(|p| **p == 0x123456).count() == 0);
}

#[test]
fn plot_char_draws_glyph() {
    let mut w = test_writer();
    w.plot_char(8, 16, 'A');
    // 'A' is drawn as a full 8 x 16 block of the foreground color
    for gy in 0..16 {
        for gx in 0..8 {
            assert_eq!(w.fb[(8 + gx) + 64 * (16 + gy)], DEFAULT_TEXT_FG);
        }
    }
    // the pixel to the left of the box is untouched
    assert_eq!(w.fb[7 + 64 * 16], 0);
}

#[test]
fn plot_char_replaces_non_ascii() {
    let mut w = test_writer();
    // a non-ASCII character draws the question mark's glyph, which is
    // empty in this font: every box pixel becomes the background color
    w.plot_char(0, 0, '\u{e9}');
    for gy in 0..16 {
        for gx in 0..8 {
            assert_eq!(w.fb[gx + 64 * gy], DEFAULT_TEXT_BG);
        }
    }
}

#[test]
fn put_char_moves_cursor() {
    let mut w = test_writer();
    assert_eq!((w.col, w.row), (0, 0));
    w.put_char('A');
    assert_eq!((w.col, w.row), (1, 0));
    w.put_char('\n');
    assert_eq!((w.col, w.row), (0, 1));
    w.put_char('B');
    w.put_char('\r');
    assert_eq!((w.col, w.row), (0, 1));
}

#[test]
fn put_char_wraps_at_line_end() {
    let mut w = test_writer();
    // 64 pixels hold 8 glyph columns
    for _ in 0..8 {
        w.put_char('x');
    }
    assert_eq!((w.col, w.row), (8, 0));
    w.put_char('y');
    assert_eq!((w.col, w.row), (1, 1));
}

#[test]
fn tab_advances_to_next_stop() {
    let mut w = test_writer();
    w.put_char('\t');
    assert_eq!(w.col, 4);
    w.put_char('x');
    w.put_char('\t');
    assert_eq!(w.col, 8);
    // at the end of the line the tab clamps to the last column
    w.put_char('\t');
    assert_eq!(w.col, 8);
}

#[test]
fn put_string_writes_all() {
    let mut w = test_writer();
    w.put_string("hi\nthere");
    assert_eq!((w.col, w.row), (5, 1));
    // the first glyph cell was painted
    assert_eq!(w.fb[0], DEFAULT_TEXT_FG);
}

#[test]
fn console_initializes_once() {
    let mut console = Console::new();
    assert!(!is_initialized(&console));
    let info = test_info();
    init(&mut console, vec![0u32; 64 * 32], info, test_font());
    assert!(is_initialized(&console));
    // a second call is a safe no-op: the writer state survives
    if let Some(w) = &mut console.writer {
        w.put_char('A');
    }
    init(&mut console, vec![7u32; 64 * 32], info, test_font());
    let w = console.writer.as_ref().unwrap();
    assert_eq!(w.col, 1);
    assert_eq!(w.fb[0], DEFAULT_TEXT_FG);
}
