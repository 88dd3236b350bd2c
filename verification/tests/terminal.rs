use segterm::fb::Framebuffer;
use segterm::fb::FramebufferInfo;
use segterm::font::Font;
use segterm::Color;
use segterm::Cursor;
use segterm::Padding;
use segterm::Terminal;
use segterm::TerminalConfig;

const WIDTH: usize = 16;
const HEIGHT: usize = 4;
const PITCH: usize = 64;

fn layout() -> FramebufferInfo {
    FramebufferInfo {
        width: WIDTH,
        height: HEIGHT,
        pitch: PITCH,
        bpp: 32,
        red_mask_shift: 16,
        green_mask_shift: 8,
        blue_mask_shift: 0,
    }
}

/// An 8x2 font where only 'A' has set bits: the top row has its leftmost and
/// rightmost pixel, the bottom row its second pixel.
fn font_table() -> Vec<u8> {
    let mut t = vec![0u8; 256 * 2];
    t[b'A' as usize * 2] = 0b1000_0001;
    t[b'A' as usize * 2 + 1] = 0b0100_0000;
    t
}

fn pixel(screen: &[u8], x: usize, y: usize) -> u32 {
    let off = y * PITCH + x * 4;
    u32::from_ne_bytes([screen[off], screen[off + 1], screen[off + 2], screen[off + 3]])
}

/// The pixels of the screen that are not zero.
fn lit(screen: &[u8]) -> Vec<(usize, usize, u32)> {
    let mut v = Vec::new();
    for y in 0..HEIGHT {
        for x in 0..WIDTH {
            let p = pixel(screen, x, y);
            if p != 0 {
                v.push((x, y, p));
            }
        }
    }
    v
}

const WHITE: u32 = 0x00ff_ffff;
const RED: u32 = 0x00ff_0000;

/// Writes each text in turn on a fresh screen; returns the screen and the
/// final configuration's cursor and colours.
fn run(ansi: bool, texts: &[&str]) -> (Vec<u8>, (usize, usize), Color, Color) {
    let table = font_table();
    let mut screen = vec![0u8; PITCH * HEIGHT];
    let state;
    {
        let mut fb = Framebuffer::new(&mut screen, layout());
        let mut cfg = TerminalConfig::with_font(Font::new(8, 2, &table));
        cfg.ansi = ansi;
        let mut t = Terminal::new(&mut fb, cfg);
        for text in texts {
            t.write(text);
        }
        state = ((t.cfg.cur.x, t.cfg.cur.y), t.cfg.fg, t.cfg.bg);
    }
    (screen, state.0, state.1, state.2)
}

#[test]
fn default_config() {
    let table = font_table();
    let cfg = TerminalConfig::with_font(Font::new(8, 2, &table));
    assert_eq!((cfg.x, cfg.y, cfg.ansi), (0, 0, false));
    assert_eq!((cfg.cur.x, cfg.cur.y, cfg.cur.blink), (0, 0, false));
    assert_eq!((cfg.pad.x, cfg.pad.y), (0, 0));
    assert_eq!(cfg.fg, Color::white());
    assert_eq!(cfg.bg, Color::black());
    let c = Cursor::default();
    assert_eq!((c.x, c.y, c.blink), (0, 0, false));
    let p = Padding::default();
    assert_eq!((p.x, p.y), (0, 0));
}

#[test]
fn rows_and_cols() {
    let table = font_table();
    let mut screen = vec![0u8; PITCH * HEIGHT];
    let mut fb = Framebuffer::new(&mut screen, layout());
    let mut cfg = TerminalConfig::with_font(Font::new(8, 2, &table));
    cfg.pad = Padding { x: 4, y: 1 };
    let t = Terminal::new(&mut fb, cfg);
    assert_eq!(t.cols(), 1);
    assert_eq!(t.rows(), 1);
}

#[test]
fn padding_wider_than_the_screen_leaves_no_columns() {
    let table = font_table();
    let mut screen = vec![0u8; PITCH * HEIGHT];
    let mut fb = Framebuffer::new(&mut screen, layout());
    let mut cfg = TerminalConfig::with_font(Font::new(8, 2, &table));
    cfg.pad = Padding { x: 100, y: 100 };
    let t = Terminal::new(&mut fb, cfg);
    assert_eq!(t.cols(), 0);
    assert_eq!(t.rows(), 0);
}

#[test]
fn a_character_is_drawn_in_the_cursor_cell() {
    let (screen, cur, _, _) = run(false, &["A"]);
    assert_eq!(lit(&screen), vec![(0, 0, WHITE), (7, 0, WHITE), (1, 1, WHITE)]);
    assert_eq!(cur, (1, 0));
}

#[test]
fn line_feed_starts_the_next_line() {
    let (screen, cur, _, _) = run(false, &["A\nA"]);
    assert_eq!(
        lit(&screen),
        vec![(0, 0, WHITE), (7, 0, WHITE), (1, 1, WHITE), (0, 2, WHITE), (7, 2, WHITE), (1, 3, WHITE)]
    );
    assert_eq!(cur, (1, 1));
}

#[test]
fn long_lines_wrap() {
    let (screen, cur, _, _) = run(false, &["AAA"]);
    assert_eq!(
        lit(&screen),
        vec![
            (0, 0, WHITE),
            (7, 0, WHITE),
            (8, 0, WHITE),
            (15, 0, WHITE),
            (1, 1, WHITE),
            (9, 1, WHITE),
            (0, 2, WHITE),
            (7, 2, WHITE),
            (1, 3, WHITE),
        ]
    );
    assert_eq!(cur, (1, 1));
}

#[test]
fn the_last_line_feed_scrolls_the_screen() {
    let (screen, cur, _, _) = run(false, &["A\n\nA"]);
    // the first line scrolled off; the new line is drawn on the last row
    assert_eq!(lit(&screen), vec![(0, 2, WHITE), (7, 2, WHITE), (1, 3, WHITE)]);
    assert_eq!(cur, (1, 1));
}

#[test]
fn carriage_return_goes_back_to_the_first_column() {
    let (screen, cur, _, _) = run(false, &["AA\rA"]);
    assert_eq!(cur, (1, 0));
    assert_eq!(pixel(&screen, 0, 0), WHITE);
    assert_eq!(pixel(&screen, 8, 0), WHITE);
}

#[test]
fn escape_bytes_are_drawn_without_ansi() {
    let (_, cur, fg, _) = run(false, &["\x1b[31m"]);
    assert_eq!(fg, Color::white());
    // five bytes drawn on a two-column screen
    assert_eq!(cur, (1, 1));
}

#[test]
fn sgr_sets_the_foreground() {
    let (screen, cur, fg, _) = run(true, &["\x1b[31mA"]);
    assert_eq!(fg, Color::red());
    assert_eq!(lit(&screen), vec![(0, 0, RED), (7, 0, RED), (1, 1, RED)]);
    assert_eq!(cur, (1, 0));
}

#[test]
fn sgr_palette_and_reset() {
    let names = [
        Color::black(),
        Color::red(),
        Color::green(),
        Color::yellow(),
        Color::blue(),
        Color::magenta(),
        Color::cyan(),
        Color::white(),
    ];
    for (i, c) in names.iter().enumerate() {
        let (_, _, fg, bg) = run(true, &[&format!("\x1b[{}m", 30 + i)]);
        assert_eq!(fg, *c);
        assert_eq!(bg, Color::black());
        let (_, _, fg, bg) = run(true, &[&format!("\x1b[{}m", 40 + i)]);
        assert_eq!(fg, Color::white());
        assert_eq!(bg, *c);
    }
    let (_, _, fg, bg) = run(true, &["\x1b[31;44m\x1b[0m"]);
    assert_eq!((fg, bg), (Color::white(), Color::black()));
    let (_, _, fg, bg) = run(true, &["\x1b[1;38;39;48;31m"]);
    assert_eq!((fg, bg), (Color::red(), Color::black()));
}

#[test]
fn background_fills_scrolled_rows() {
    let (screen, _, _, bg) = run(true, &["\x1b[44m\n\n"]);
    assert_eq!(bg, Color::blue());
    for x in 0..WIDTH {
        assert_eq!(pixel(&screen, x, 0), 0);
        assert_eq!(pixel(&screen, x, 2), 0x0000_00ff);
        assert_eq!(pixel(&screen, x, 3), 0x0000_00ff);
    }
}

#[test]
fn cursor_position_moves_the_cursor() {
    let (screen, cur, _, _) = run(true, &["\x1b[1;1;HA"]);
    assert_eq!(cur, (2, 1));
    assert_eq!(lit(&screen), vec![(8, 2, WHITE), (15, 2, WHITE), (9, 3, WHITE)]);
    let (_, cur, _, _) = run(true, &["\x1b[1;5H"]);
    assert_eq!(cur, (0, 1));
}

#[test]
fn writes_compose_without_ansi() {
    let (a, ca, _, _) = run(false, &["A\nAA"]);
    let (b, cb, _, _) = run(false, &["A\n", "AA"]);
    assert_eq!(a, b);
    assert_eq!(ca, cb);
}

#[test]
fn writes_compose_with_ansi_between_sequences() {
    let (a, ca, fa, _) = run(true, &["\x1b[31mA\n\x1b[32mA"]);
    let (b, cb, fb, _) = run(true, &["\x1b[31mA\n", "\x1b[32mA"]);
    assert_eq!(a, b);
    assert_eq!((ca, fa), (cb, fb));
}

#[test]
fn a_sequence_split_between_writes_is_not_recognised() {
    let (_, cur, fg, _) = run(true, &["\x1b", "[31mA"]);
    assert_eq!(fg, Color::white());
    // "[31mA" is five characters on a two-column screen
    assert_eq!(cur, (1, 1));
    let (_, cur, fg, _) = run(true, &["\x1b[31mA"]);
    assert_eq!((cur, fg), ((1, 0), Color::red()));
}

#[test]
fn scrolling_the_terminal() {
    let table = font_table();
    let mut screen = vec![0u8; PITCH * HEIGHT];
    {
        let mut fb = Framebuffer::new(&mut screen, layout());
        let cfg = TerminalConfig::with_font(Font::new(8, 2, &table));
        let mut t = Terminal::new(&mut fb, cfg);
        t.write("A");
        t.scroll_down();
    }
    assert_eq!(lit(&screen), vec![(0, 2, WHITE), (7, 2, WHITE), (1, 3, WHITE)]);
    {
        let mut fb = Framebuffer::new(&mut screen, layout());
        let cfg = TerminalConfig::with_font(Font::new(8, 2, &table));
        let mut t = Terminal::new(&mut fb, cfg);
        t.scroll_up();
    }
    assert_eq!(lit(&screen), vec![(0, 0, WHITE), (7, 0, WHITE), (1, 1, WHITE)]);
}

#[test]
fn writing_keeps_the_cursor_on_screen() {
    let table = font_table();
    let mut screen = vec![0u8; PITCH * HEIGHT];
    let mut fb = Framebuffer::new(&mut screen, layout());
    assert!(fb.is_consistent());
    let cfg = TerminalConfig::with_font(Font::new(8, 2, &table));
    let mut t = Terminal::new(&mut fb, cfg);
    for text in ["A\n", "AAAA\n\n\n", "AAAAAAAAA", "\r\nA"] {
        assert!(t.can_write(text));
        t.write(text);
        assert!(t.cfg.cur.x <= t.cols() && t.cfg.cur.y < t.rows());
    }
}

#[test]
fn cursor_far_off_screen_is_accepted_until_it_is_drawn() {
    let table = font_table();
    let mut screen = vec![0u8; PITCH * HEIGHT];
    let mut fb = Framebuffer::new(&mut screen, layout());
    let mut cfg = TerminalConfig::with_font(Font::new(8, 2, &table));
    cfg.ansi = true;
    let mut t = Terminal::new(&mut fb, cfg);
    assert!(t.can_write("\x1b[65535;65535;H"));
    t.write("\x1b[65535;65535;H");
    assert_eq!((t.cfg.cur.x, t.cfg.cur.y), (65535, 65535));
    // the next glyph wraps: the line feed scrolls and the glyph lands on the last row
    assert!(t.can_write("A\r"));
    t.write("A\r");
    assert_eq!((t.cfg.cur.x, t.cfg.cur.y), (0, 1));
    t.cfg.cur.y = usize::MAX;
    // a line feed on the last possible row overflows
    assert!(!t.can_write("\n"));
    // a carriage return needs nothing
    assert!(t.can_write("\r"));
}

#[test]
fn can_write_checks_fonts_and_layout() {
    let short_table = vec![0u8; 10];
    let mut screen = vec![0u8; PITCH * HEIGHT];
    let mut fb = Framebuffer::new(&mut screen, layout());
    let t = Terminal::new(&mut fb, TerminalConfig::with_font(Font::new(8, 2, &short_table)));
    // glyphs 0 to 4 exist, 'A' does not; line breaks need none
    assert!(t.can_write("\x01\x04\n\r"));
    assert!(!t.can_write("A"));
    let mut ansi = t.cfg;
    ansi.ansi = true;
    let t = Terminal::new(t.fb, ansi);
    // the bytes of an escape sequence are not drawn
    assert!(t.can_write("\x1b[31m\x01"));
    assert!(!t.can_write("\x1b[31mA"));
    let mut wide = t.cfg;
    wide.font = Font::new(9, 2, &short_table);
    let t = Terminal::new(t.fb, wide);
    assert!(!t.can_write("\x01"));
    assert!(t.can_write("\n"));
    let mut empty = t.cfg;
    empty.font = Font::new(0, 2, &short_table);
    let t = Terminal::new(t.fb, empty);
    // no columns can be counted, but line breaks need none
    assert!(!t.can_write("\x01"));
    assert!(t.can_write("\n\r"));
    assert!(t.can_write(""));
}

#[test]
fn narrow_rows_only_matter_where_pixels_are_drawn() {
    // pitch 32 holds 8 pixels of a 16-pixel-wide screen: drawing in the
    // right half of the last row would leave the buffer
    let table = font_table();
    let mut screen = vec![0u8; 32 * HEIGHT];
    let layout = FramebufferInfo { pitch: 32, ..layout() };
    let mut fb = Framebuffer::new(&mut screen, layout);
    let t = Terminal::new(&mut fb, TerminalConfig::with_font(Font::new(8, 2, &table)));
    assert!(t.can_write("A"));
    assert!(t.can_write("AA"));
    assert!(!t.can_write("\nAA"));
}

#[test]
fn inconsistent_framebuffer_is_detected() {
    let mut screen = vec![0u8; PITCH * HEIGHT - 1];
    let fb = Framebuffer::new(&mut screen, layout());
    assert!(!fb.is_consistent());
}
