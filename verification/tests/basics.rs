use segterm::allocator::claim_region;
use segterm::allocator::decide;
use segterm::allocator::settle;
use segterm::allocator::Decision;
use segterm::allocator::AllocStep;
use segterm::allocator::Allocator;
use segterm::font::Font;
use segterm::Color;

#[test]
fn rgb_is_opaque() {
    let c = Color::rgb(1, 2, 3);
    assert_eq!(c, Color { r: 1, g: 2, b: 3, a: 255 });
    assert_eq!(Color::rgba(1, 2, 3, 4), Color { r: 1, g: 2, b: 3, a: 4 });
}

#[test]
fn named_colors() {
    assert_eq!(Color::black(), Color::rgb(0, 0, 0));
    assert_eq!(Color::white(), Color::rgb(255, 255, 255));
    assert_eq!(Color::red(), Color::rgb(255, 0, 0));
    assert_eq!(Color::green(), Color::rgb(0, 255, 0));
    assert_eq!(Color::blue(), Color::rgb(0, 0, 255));
    assert_eq!(Color::yellow(), Color::rgb(255, 255, 0));
    assert_eq!(Color::cyan(), Color::rgb(0, 255, 255));
    assert_eq!(Color::magenta(), Color::rgb(255, 0, 255));
    assert_eq!(Color::bright_black(), Color::rgb(128, 128, 128));
    assert_eq!(Color::bright_red(), Color::rgb(255, 85, 85));
    assert_eq!(Color::bright_green(), Color::rgb(85, 255, 85));
    assert_eq!(Color::bright_yellow(), Color::rgb(255, 255, 85));
    assert_eq!(Color::bright_blue(), Color::rgb(85, 85, 255));
    assert_eq!(Color::bright_magenta(), Color::rgb(255, 85, 255));
    assert_eq!(Color::bright_cyan(), Color::rgb(85, 255, 255));
    assert_eq!(Color::bright_white(), Color::rgb(255, 255, 255));
    assert_eq!(Color::dark_gray(), Color::rgb(64, 64, 64));
    assert_eq!(Color::gray(), Color::rgb(128, 128, 128));
    assert_eq!(Color::light_gray(), Color::rgb(192, 192, 192));
    assert_eq!(Color::orange(), Color::rgb(255, 165, 0));
    assert_eq!(Color::purple(), Color::rgb(128, 0, 128));
    assert_eq!(Color::pink(), Color::rgb(255, 105, 180));
    assert_eq!(Color::brown(), Color::rgb(139, 69, 19));
}

#[test]
fn glyph_is_the_characters_rows() {
    let table: Vec<u8> = (0..=255u8).flat_map(|c| [c, !c, c ^ 0x55]).collect();
    let font = Font::new(8, 3, &table);
    assert_eq!(font.width, 8);
    assert_eq!(font.height, 3);
    assert_eq!(font.glyph(0), &[0, 255, 0x55]);
    assert_eq!(font.glyph(b'A'), &[65, !65u8, 65 ^ 0x55]);
    assert_eq!(font.glyph(255), &[255, 0, 255 ^ 0x55]);
}

#[test]
fn claim_rounds_up_to_the_alignment() {
    assert_eq!(claim_region(5, 8, 4), Some((8, 16)));
    assert_eq!(claim_region(8, 8, 4), Some((8, 16)));
    assert_eq!(claim_region(0, 1, 1), Some((0, 1)));
    assert_eq!(claim_region(4097, 10, 4096), Some((8192, 8202)));
}

#[test]
fn claim_refuses_overflow() {
    assert_eq!(claim_region(usize::MAX, 1, 2), None);
    assert_eq!(claim_region(usize::MAX - 3, 8, 4), None);
    assert_eq!(claim_region(usize::MAX - 3, 3, 4), Some((usize::MAX - 3, usize::MAX)));
}

#[test]
fn successive_claims_do_not_overlap() {
    let (s1, e1) = claim_region(3, 5, 2).unwrap();
    let (s2, e2) = claim_region(e1, 7, 8).unwrap();
    assert_eq!((s1, e1), (4, 9));
    assert_eq!((s2, e2), (16, 23));
    assert!(e1 <= s2);
}

fn allocate(a: &Allocator, size: usize, align: usize) -> Option<usize> {
    let mut current = a.next_free();
    loop {
        match a.try_alloc(current, size, align) {
            AllocStep::Granted(p) => return Some(p),
            AllocStep::Refused => return None,
            AllocStep::Exhausted(_) => return None,
            AllocStep::Retry(actual) => current = actual,
        }
    }
}

#[test]
fn bump_allocator_hands_out_aligned_disjoint_blocks() {
    let a = Allocator::new();
    a.init(4096, 1024);
    assert_eq!(a.next_free(), 4096);
    assert_eq!(allocate(&a, 10, 8), Some(4096));
    assert_eq!(a.next_free(), 4106);
    assert_eq!(allocate(&a, 16, 16), Some(4112));
    assert_eq!(a.next_free(), 4128);
    assert_eq!(allocate(&a, 0, 1), None);
    assert_eq!(allocate(&a, 2000, 1), None);
    assert_eq!(a.next_free(), 4128);
    assert_eq!(allocate(&a, 992, 1), Some(4128));
    assert_eq!(allocate(&a, 1, 1), None);
    a.dealloc(4096, 10, 8);
    assert_eq!(a.next_free(), 5120);
}

#[test]
fn stale_start_asks_for_a_retry() {
    let a = Allocator::new();
    a.init(100, 100);
    assert_eq!(allocate(&a, 10, 1), Some(100));
    assert_eq!(a.try_alloc(100, 4, 4), AllocStep::Retry(110));
    assert_eq!(a.try_alloc(100, 0, 4), AllocStep::Refused);
    assert_eq!(a.try_alloc(110, 91, 1), AllocStep::Exhausted(200));
    assert_eq!(a.try_alloc(usize::MAX, 1, 2), AllocStep::Refused);
}

#[test]
fn empty_allocator_refuses() {
    let a = Allocator::new();
    assert_eq!(allocate(&a, 1, 1), None);
    assert_eq!(a.next_free(), 0);
    assert_eq!(a.try_alloc(0, 1, 1), AllocStep::Exhausted(0));
}

#[test]
fn decide_against_the_region_end() {
    assert_eq!(decide(0x1001, 4, 4, 0x1100), Decision::Claim(0x1004, 0x1008));
    assert_eq!(decide(0x1000, 0x100, 1, 0x1100), Decision::Claim(0x1000, 0x1100));
    assert_eq!(decide(0x10fe, 4, 4, 0x1100), Decision::Exhausted(0x1100));
    assert_eq!(decide(0x1000, 0, 4, 0x1100), Decision::Refuse);
    assert_eq!(decide(usize::MAX, 1, 2, usize::MAX), Decision::Refuse);
}

#[test]
fn settle_maps_the_exchange() {
    assert_eq!(settle(0x1004, Ok(0x1001)), AllocStep::Granted(0x1004));
    assert_eq!(settle(0x1004, Err(0x1010)), AllocStep::Retry(0x1010));
}

#[test]
fn after_init_a_block_is_rounded_up() {
    let a = Allocator::new();
    a.init(0x1000, 0x100);
    assert_eq!(allocate(&a, 1, 1), Some(0x1000));
    assert_eq!(allocate(&a, 4, 4), Some(0x1004));
    assert_eq!(a.next_free(), 0x1008);
}
