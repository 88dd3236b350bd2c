use segterm::fb::Framebuffer;
use segterm::fb::FramebufferInfo;
use segterm::Color;

fn info(width: usize, height: usize, pitch: usize, bpp: usize) -> FramebufferInfo {
    FramebufferInfo {
        width,
        height,
        pitch,
        bpp,
        red_mask_shift: 16,
        green_mask_shift: 8,
        blue_mask_shift: 0,
    }
}

/// The bytes of a pixel value in this machine's order.
fn native(v: u32) -> [u8; 4] {
    v.to_ne_bytes()
}

fn at(buf: &[u8], off: usize) -> [u8; 4] {
    [buf[off], buf[off + 1], buf[off + 2], buf[off + 3]]
}

#[test]
fn new_framebuffer_keeps_the_layout() {
    let mut screen = vec![7u8; 2 * 8];
    let fb = Framebuffer::new(&mut screen, info(2, 2, 8, 32));
    assert_eq!((fb.width, fb.height, fb.pitch, fb.bpp), (2, 2, 8, 32));
    assert_eq!((fb.red_mask_shift, fb.green_mask_shift, fb.blue_mask_shift), (16, 8, 0));
    assert!(!fb.backbuffer_enabled());
}

#[test]
fn put_pixel_writes_the_pixel_value() {
    let mut screen = vec![0u8; 2 * 8];
    {
        let mut fb = Framebuffer::new(&mut screen, info(2, 2, 8, 32));
        fb.put_pixel(1, 1, Color::rgb(0x11, 0x22, 0x33));
    }
    assert_eq!(at(&screen, 12), native(0x0011_2233));
    let written: Vec<u8> = screen.iter().copied().enumerate().filter(|(i, _)| *i < 12).map(|(_, b)| b).collect();
    assert!(written.iter().all(|&b| b == 0));
    assert_eq!(u32::from_ne_bytes(at(&screen, 12)), 0x0011_2233);
}

#[test]
fn put_pixel_follows_the_channel_shifts() {
    let mut screen = vec![0u8; 4];
    {
        let layout = FramebufferInfo {
            width: 1,
            height: 1,
            pitch: 4,
            bpp: 32,
            red_mask_shift: 0,
            green_mask_shift: 8,
            blue_mask_shift: 16,
        };
        let mut fb = Framebuffer::new(&mut screen, layout);
        fb.put_pixel(0, 0, Color::rgba(0xaa, 0xbb, 0xcc, 0x00));
    }
    assert_eq!(at(&screen, 0), native(0x00cc_bbaa));
}

#[test]
fn put_pixel_outside_or_not_32_bits_does_nothing() {
    let mut screen = vec![9u8; 2 * 8];
    {
        let mut fb = Framebuffer::new(&mut screen, info(2, 2, 8, 32));
        fb.put_pixel(2, 0, Color::white());
        fb.put_pixel(0, 2, Color::white());
    }
    assert!(screen.iter().all(|&b| b == 9));
    {
        let mut fb = Framebuffer::new(&mut screen, info(2, 2, 8, 24));
        fb.put_pixel(0, 0, Color::white());
    }
    assert!(screen.iter().all(|&b| b == 9));
}

#[test]
fn back_buffer_is_shown_by_present() {
    let mut screen = vec![0u8; 2 * 8];
    {
        let mut fb = Framebuffer::new(&mut screen, info(2, 2, 8, 32));
        fb.enable_backbuffer();
        assert!(fb.backbuffer_enabled());
        fb.put_pixel(0, 0, Color::rgb(1, 2, 3));
        assert!(fb.front.iter().all(|&b| b == 0));
        fb.present();
    }
    assert_eq!(at(&screen, 0), native(0x0001_0203));
    assert!(screen[4..].iter().all(|&b| b == 0));
}

#[test]
fn present_without_back_buffer_does_nothing() {
    let mut screen = vec![5u8; 2 * 8];
    {
        let mut fb = Framebuffer::new(&mut screen, info(2, 2, 8, 32));
        fb.present();
    }
    assert!(screen.iter().all(|&b| b == 5));
}

#[test]
fn switching_twice_restores_the_mode() {
    let mut screen = vec![0u8; 8];
    let mut fb = Framebuffer::new(&mut screen, info(2, 1, 8, 32));
    fb.switch_backbuffer();
    assert!(fb.backbuffer_enabled());
    fb.switch_backbuffer();
    assert!(!fb.backbuffer_enabled());
    fb.enable_backbuffer();
    fb.disable_backbuffer();
    assert!(!fb.backbuffer_enabled());
}

#[test]
fn clear_fills_the_back_buffer() {
    let mut screen = vec![0u8; 2 * 8];
    {
        let mut fb = Framebuffer::new(&mut screen, info(2, 2, 8, 32));
        fb.clear_backbuffer(Color::rgb(0, 0, 0xff));
        fb.enable_backbuffer();
        fb.present();
    }
    for off in (0..16).step_by(4) {
        assert_eq!(at(&screen, off), native(0xff));
    }
}

#[test]
fn scroll_up_moves_rows_and_fills_the_bottom() {
    // 1 pixel wide, 3 rows, pitch 4
    let mut screen: Vec<u8> = (1..=12).collect();
    {
        let mut fb = Framebuffer::new(&mut screen, info(1, 3, 4, 32));
        fb.scroll_up(1, Color::rgb(0, 0, 0x42));
    }
    assert_eq!(&screen[0..8], &[5, 6, 7, 8, 9, 10, 11, 12]);
    assert_eq!(at(&screen, 8), native(0x42));
}

#[test]
fn scroll_down_moves_rows_and_fills_the_top() {
    let mut screen: Vec<u8> = (1..=12).collect();
    {
        let mut fb = Framebuffer::new(&mut screen, info(1, 3, 4, 32));
        fb.scroll_down(2, Color::rgb(0, 0, 0x42));
    }
    assert_eq!(at(&screen, 0), native(0x42));
    assert_eq!(at(&screen, 4), native(0x42));
    assert_eq!(&screen[8..12], &[1, 2, 3, 4]);
}

#[test]
fn scroll_in_the_back_buffer() {
    let mut screen = vec![0u8; 12];
    {
        let mut fb = Framebuffer::new(&mut screen, info(1, 3, 4, 32));
        fb.enable_backbuffer();
        fb.put_pixel(0, 2, Color::rgb(0, 0, 7));
        fb.scroll_up(2, Color::rgb(0, 0, 1));
        assert!(fb.front.iter().all(|&b| b == 0));
        fb.present();
    }
    assert_eq!(at(&screen, 0), native(7));
    assert_eq!(at(&screen, 4), native(1));
    assert_eq!(at(&screen, 8), native(1));
}

#[test]
fn scroll_by_a_whole_screen_does_nothing() {
    let mut screen: Vec<u8> = (1..=12).collect();
    {
        let mut fb = Framebuffer::new(&mut screen, info(1, 3, 4, 32));
        fb.scroll_up(3, Color::white());
        fb.scroll_down(5, Color::white());
    }
    assert_eq!(screen, (1..=12).collect::<Vec<u8>>());
}

#[test]
fn two_scrolls_are_one_longer_scroll() {
    let mut one: Vec<u8> = (0..4 * 5).map(|i| i as u8).collect();
    let mut two = one.clone();
    {
        let mut fb = Framebuffer::new(&mut one, info(1, 5, 4, 32));
        fb.enable_backbuffer();
        for y in 0..5 {
            fb.put_pixel(0, y, Color::rgb(0, 0, y as u8 + 1));
        }
        fb.scroll_up(1, Color::rgb(9, 9, 9));
        fb.scroll_up(2, Color::rgb(9, 9, 9));
        fb.present();
    }
    {
        let mut fb = Framebuffer::new(&mut two, info(1, 5, 4, 32));
        fb.enable_backbuffer();
        for y in 0..5 {
            fb.put_pixel(0, y, Color::rgb(0, 0, y as u8 + 1));
        }
        fb.scroll_up(3, Color::rgb(9, 9, 9));
        fb.present();
    }
    assert_eq!(one, two);
    assert_eq!(at(&one, 0), native(4));
    assert_eq!(at(&one, 4), native(5));
    assert_eq!(at(&one, 8), native(0x0009_0909));
}
