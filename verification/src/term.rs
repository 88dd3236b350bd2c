use vstd::prelude::*;
use vstd::string::StringSliceAdditionalSpecFns;

use crate::ansi::run;
use crate::ansi::step;
use crate::ansi::ActionView;
use crate::ansi::Action;
use crate::ansi::Parser;
use crate::ansi::ParserView;
use crate::ansi::State;
use crate::ansi::action_view;
use crate::ansi::parser_equiv;
use crate::ansi::action_equiv;
use crate::ansi::parser_valid;
use crate::color::Color;
use crate::color::opaque;
use crate::fb::FbView;
use crate::fb::color_bytes;
use crate::fb::fb_wf;
use crate::fb::with_target;
use crate::fb::Framebuffer;
use crate::fb::pixel_hit;
use crate::fb::pixel_offset;
use crate::fb::put_pixel_spec;
use crate::fb::target;
use crate::fb::scroll_down_spec;
use crate::fb::scroll_ok;
use crate::fb::scroll_up_spec;
use crate::fb::shifts_ok;
use crate::font::Font;
use crate::font::glyph_rows;
use crate::font::has_glyph;

verus! {

/// The text cursor, in character cells.
#[derive(Debug, Clone, Copy)]
pub struct Cursor {
    pub x: usize,
    pub y: usize,
    pub blink: bool,
}

impl Default for Cursor {
    fn default() -> (c: Self)
        ensures
            c == (Cursor { x: 0, y: 0, blink: false }),
    {
        Cursor { x: 0, y: 0, blink: false }
    }
}

/// Space left free around the text area, in pixels.
#[derive(Debug, Clone, Copy)]
pub struct Padding {
    pub x: usize,
    pub y: usize,
}

impl Default for Padding {
    fn default() -> (p: Self)
        ensures
            p == (Padding { x: 0, y: 0 }),
    {
        Padding { x: 0, y: 0 }
    }
}

/// How the terminal looks and where its cursor stands.
#[derive(Clone, Copy)]
pub struct TerminalConfig<'a> {
    pub x: usize,
    pub y: usize,
    pub ansi: bool,
    pub cur: Cursor,
    pub pad: Padding,
    pub font: Font<'a>,
    pub fg: Color,
    pub bg: Color,
}

impl<'a> TerminalConfig<'a> {
    /// The default configuration with the given font: no ANSI sequences, the
    /// cursor at the top left, no padding, white on black.
    pub fn with_font(font: Font<'a>) -> (c: Self)
        ensures
            c.x == 0,
            c.y == 0,
            !c.ansi,
            c.cur == (Cursor { x: 0, y: 0, blink: false }),
            c.pad == (Padding { x: 0, y: 0 }),
            c.font == font,
            c.fg == opaque(255, 255, 255),
            c.bg == opaque(0, 0, 0),
    {
        TerminalConfig {
            x: 0,
            y: 0,
            ansi: false,
            cur: Cursor::default(),
            pad: Padding::default(),
            font,
            fg: Color::white(),
            bg: Color::black(),
        }
    }
}

/// A text terminal drawing on a framebuffer.
pub struct Terminal<'a> {
    pub fb: &'a mut Framebuffer<'a>,
    pub cfg: TerminalConfig<'a>,
}

/// A terminal as mathematical values.
pub struct TermView<'a> {
    pub cfg: TerminalConfig<'a>,
    pub fb: FbView,
}

impl<'a> Terminal<'a> {
    pub open spec fn view(&self) -> TermView<'a> {
        TermView { cfg: self.cfg, fb: self.fb@ }
    }
}

pub open spec fn sat_sub(a: int, b: int) -> int {
    if a >= b {
        a - b
    } else {
        0
    }
}

/// Text rows that fit between the vertical paddings.
pub open spec fn rows(t: TermView) -> int {
    sat_sub(t.fb.height as int, t.cfg.pad.y * 2) / (t.cfg.font.height as int)
}

/// Text columns that fit between the horizontal paddings.
pub open spec fn cols(t: TermView) -> int {
    sat_sub(t.fb.width as int, t.cfg.pad.x * 2) / (t.cfg.font.width as int)
}

pub open spec fn with_cursor<'a>(t: TermView<'a>, x: usize, y: usize) -> TermView<'a> {
    TermView {
        cfg: TerminalConfig { cur: Cursor { x, y, ..t.cfg.cur }, ..t.cfg },
        ..t
    }
}

/// Moves to the start of the next line; at the bottom, the picture scrolls
/// up one line and the cursor stays on the last line.
pub open spec fn newline_spec<'a>(t: TermView<'a>) -> TermView<'a> {
    let y = t.cfg.cur.y + 1;
    if y >= rows(t) {
        let t1 = with_cursor(t, 0, sat_sub(rows(t), 1) as usize);
        TermView {
            fb: scroll_up_spec(t1.fb, t.cfg.font.height as usize, t.cfg.bg),
            ..t1
        }
    } else {
        with_cursor(t, 0, y as usize)
    }
}


/// What a line feed needs: the row count can be computed, the next row fits
/// in a `usize`, and a scroll, when the line feed causes one, stays within
/// the framebuffer.
pub open spec fn newline_ok(t: TermView) -> bool {
    &&& t.cfg.pad.y * 2 <= usize::MAX
    &&& t.cfg.font.height > 0
    &&& t.cfg.cur.y + 1 <= usize::MAX
    &&& t.cfg.cur.y + 1 >= rows(t) ==> scroll_ok(t.fb, t.cfg.font.height as usize, true)
}

/// A line feed leaves the cursor in the first column and, when the screen
/// has rows, on one of them; it changes nothing but the cursor and the
/// picture.
pub proof fn lemma_newline_cursor(t: TermView)
    requires
        t.cfg.font.height > 0,
    ensures
        newline_spec(t).cfg.cur.x == 0,
        rows(t) > 0 ==> newline_spec(t).cfg.cur.y < rows(t),
        same_setup(t, newline_spec(t)),
        newline_spec(t).cfg == (TerminalConfig { cur: newline_spec(t).cfg.cur, ..t.cfg }),
{
    lemma_rows_bound(t);
}

proof fn lemma_rows_bound(t: TermView)
    requires
        t.cfg.font.height > 0,
    ensures
        0 <= rows(t) <= t.fb.height,
        t.cfg.font.width > 0 ==> 0 <= cols(t) <= t.fb.width,
{
    let h = sat_sub(t.fb.height as int, t.cfg.pad.y * 2);
    let fh = t.cfg.font.height as int;
    assert(0 <= h / fh <= h) by (nonlinear_arith)
        requires
            h >= 0,
            fh > 0,
    ;
    if t.cfg.font.width > 0 {
        let w = sat_sub(t.fb.width as int, t.cfg.pad.x * 2);
        let fw = t.cfg.font.width as int;
        assert(0 <= w / fw <= w) by (nonlinear_arith)
            requires
                w >= 0,
                fw > 0,
        ;
    }
}

/// The two framebuffers have the same layout, byte order, drawing target and
/// buffer sizes.
pub open spec fn same_layout(a: FbView, b: FbView) -> bool {
    &&& a.width == b.width
    &&& a.height == b.height
    &&& a.pitch == b.pitch
    &&& a.bpp == b.bpp
    &&& a.red_shift == b.red_shift
    &&& a.green_shift == b.green_shift
    &&& a.blue_shift == b.blue_shift
    &&& a.little_endian == b.little_endian
    &&& a.back_enabled == b.back_enabled
    &&& a.front.len() == b.front.len()
    &&& a.back.len() == b.back.len()
}

/// Where the cursor's cell starts on the screen, in pixels.
pub open spec fn cell_x(t: TermView) -> int {
    t.cfg.pad.x + t.cfg.cur.x * t.cfg.font.width
}

pub open spec fn cell_y(t: TermView) -> int {
    t.cfg.pad.y + t.cfg.cur.y * t.cfg.font.height
}

/// Whether column `col` of a glyph row is set (most significant bit first).
pub open spec fn bit_set(bits: u8, col: nat) -> bool {
    bits & (0x80u8 >> (col as u8)) != 0
}

/// Draws the set bits among the first `ncols` columns of a glyph row.
pub open spec fn draw_row(fb: FbView, bits: u8, x: int, y: int, ncols: nat, c: Color) -> FbView
    decreases ncols,
{
    if ncols == 0 {
        fb
    } else {
        let col = (ncols - 1) as nat;
        let f = draw_row(fb, bits, x, y, col, c);
        if bit_set(bits, col) {
            put_pixel_spec(f, (x + col) as usize, y as usize, c)
        } else {
            f
        }
    }
}

/// Draws the first `nrows` rows of a glyph with its top left corner at `(x, y)`.
pub open spec fn draw_glyph(
    fb: FbView,
    glyph: Seq<u8>,
    x: int,
    y: int,
    width: nat,
    nrows: nat,
    c: Color,
) -> FbView
    decreases nrows,
{
    if nrows == 0 {
        fb
    } else {
        let r = (nrows - 1) as nat;
        draw_row(draw_glyph(fb, glyph, x, y, width, r, c), glyph[r as int], x, y + r, width, c)
    }
}

/// The framebuffer after drawing `byte` in the cursor's cell.
pub open spec fn draw_char_spec(t: TermView, byte: u8) -> FbView {
    draw_glyph(
        t.fb,
        glyph_rows(t.cfg.font, byte),
        cell_x(t),
        cell_y(t),
        t.cfg.font.width as nat,
        t.cfg.font.height as nat,
        t.cfg.fg,
    )
}

/// The font can draw `byte`: the glyph is in the table and, when it has
/// rows, they fit in the eight bits of a glyph byte.
pub open spec fn drawable(font: Font, byte: u8) -> bool {
    has_glyph(font, byte) && (font.height == 0 || font.width <= 8)
}

/// Whether pixel `col` of row `row` of a glyph is set.
pub open spec fn glyph_bit(glyph: Seq<u8>, row: nat, col: nat) -> bool {
    bit_set(glyph[row as int], col)
}

/// Every set pixel of a glyph drawn with its top left corner at `(x, y)` is
/// one that `put_pixel` can draw.
pub open spec fn glyph_fits(fb: FbView, glyph: Seq<u8>, x: int, y: int, width: nat, height: nat) -> bool {
    forall|row: nat, col: nat|
        row < height && col < width && #[trigger] glyph_bit(glyph, row, col) && pixel_hit(
            fb,
            (x + col) as usize,
            (y + row) as usize,
        ) ==> {
            &&& shifts_ok(fb)
            &&& pixel_offset(fb, (x + col) as usize, (y + row) as usize) + 4 <= target(fb).len()
        }
}

/// What drawing `byte` in the cursor's cell needs: a glyph the font can
/// draw, pixel coordinates that fit in a `usize`, and set pixels that
/// `put_pixel` can draw.
pub open spec fn draw_ok(t: TermView, byte: u8) -> bool {
    &&& drawable(t.cfg.font, byte)
    &&& cell_x(t) + t.cfg.font.width <= usize::MAX + 1
    &&& cell_y(t) + t.cfg.font.height <= usize::MAX + 1
    &&& glyph_fits(
        t.fb,
        glyph_rows(t.cfg.font, byte),
        cell_x(t),
        cell_y(t),
        t.cfg.font.width as nat,
        t.cfg.font.height as nat,
    )
}

proof fn lemma_put_pixel_keeps(v: FbView, x: usize, y: usize, c: Color)
    ensures
        same_layout(v, put_pixel_spec(v, x, y, c)),
{
}

proof fn lemma_draw_row_keeps(fb: FbView, bits: u8, x: int, y: int, ncols: nat, c: Color)
    ensures
        same_layout(fb, draw_row(fb, bits, x, y, ncols, c)),
    decreases ncols,
{
    if ncols > 0 {
        let col = (ncols - 1) as nat;
        lemma_draw_row_keeps(fb, bits, x, y, col, c);
        lemma_put_pixel_keeps(draw_row(fb, bits, x, y, col, c), (x + col) as usize, y as usize, c);
    }
}

proof fn lemma_draw_glyph_keeps(
    fb: FbView,
    glyph: Seq<u8>,
    x: int,
    y: int,
    width: nat,
    nrows: nat,
    c: Color,
)
    ensures
        same_layout(fb, draw_glyph(fb, glyph, x, y, width, nrows, c)),
    decreases nrows,
{
    if nrows > 0 {
        let r = (nrows - 1) as nat;
        lemma_draw_glyph_keeps(fb, glyph, x, y, width, r, c);
        lemma_draw_row_keeps(draw_glyph(fb, glyph, x, y, width, r, c), glyph[r as int], x, y + r, width, c);
    }
}

/// Whether byte `i` of the buffer drawn to is one of the four bytes of the
/// pixel `(px, py)` that `put_pixel` draws.
pub open spec fn in_drawn_pixel(v: FbView, px: int, py: int, i: int) -> bool {
    &&& v.bpp == 32
    &&& 0 <= px < v.width
    &&& 0 <= py < v.height
    &&& py * v.pitch + px * 4 <= i < py * v.pitch + px * 4 + 4
}

/// Pixels of an earlier row end before the pixels of a later row start,
/// when a row of `width` pixels fits in `p` bytes.
proof fn lemma_rows_apart(p: int, width: int, ya: int, yb: int, xa: int, xb: int)
    by (nonlinear_arith)
    requires
        0 <= ya < yb,
        0 <= xa < width,
        0 <= xb,
        width * 4 <= p,
    ensures
        ya * p + xa * 4 + 4 <= yb * p + xb * 4,
{
    assert(ya * p + p <= yb * p);
}

/// A pixel on the screen lies inside the screen's bytes, when a row of
/// pixels fits in a pitch.
proof fn lemma_pixel_inside(v: FbView, px: int, py: int)
    by (nonlinear_arith)
    requires
        0 <= px < v.width,
        0 <= py < v.height,
        v.width * 4 <= v.pitch,
    ensures
        0 <= py * v.pitch + px * 4,
        py * v.pitch + px * 4 + 4 <= v.height * v.pitch,
{
    assert(py * v.pitch + v.pitch <= v.height * v.pitch);
}

proof fn lemma_draw_row_pixels(fb: FbView, bits: u8, x: int, y: int, ncols: nat, c: Color)
    requires
        0 <= x,
        x + ncols <= usize::MAX + 1,
        0 <= y <= usize::MAX,
    ensures
        ({
            let w = draw_row(fb, bits, x, y, ncols, c);
            &&& w == with_target(fb, target(w))
            &&& target(w).len() == target(fb).len()
            &&& forall|i: int|
                0 <= i < target(fb).len() && #[trigger] target(w)[i] != target(fb)[i] ==> exists|
                    col: nat,
                |
                    col < ncols && #[trigger] bit_set(bits, col) && in_drawn_pixel(
                        fb,
                        x + col,
                        y,
                        i,
                    )
            &&& fb_wf(fb) && fb.width * 4 <= fb.pitch ==> forall|col: nat|
                col < ncols && #[trigger] bit_set(bits, col) && fb.bpp == 32 && x + col < fb.width
                    && y < fb.height ==> target(w).subrange(
                    y * fb.pitch + (x + col) * 4,
                    y * fb.pitch + (x + col) * 4 + 4,
                ) == color_bytes(fb, c)
        }),
    decreases ncols,
{
    let w = draw_row(fb, bits, x, y, ncols, c);
    if ncols == 0 {
        assert(w == with_target(fb, target(w)));
    } else {
        let col = (ncols - 1) as nat;
        let f = draw_row(fb, bits, x, y, col, c);
        lemma_draw_row_pixels(fb, bits, x, y, col, c);
        let px = (x + col) as usize;
        let o = y * fb.pitch + (x + col) * 4;
        assert(px == x + col);
        assert(pixel_offset(f, px, y as usize) == o);
        let hit = bit_set(bits, col) && pixel_hit(f, px, y as usize);
        if hit {
            assert(w == put_pixel_spec(f, px, y as usize, c));
            assert(color_bytes(f, c) == color_bytes(fb, c));
            assert(color_bytes(fb, c).len() == 4);
        } else {
            assert(w == f);
        }
        assert forall|i: int|
            0 <= i < target(fb).len() && #[trigger] target(w)[i] != target(fb)[i] implies exists|
                k: nat,
            | k < ncols && #[trigger] bit_set(bits, k) && in_drawn_pixel(fb, x + k, y, i) by {
            if target(w)[i] != target(f)[i] {
                assert(hit);
                assert(o <= i < o + 4);
                assert(in_drawn_pixel(fb, x + col, y, i));
            } else {
                assert(target(f)[i] != target(fb)[i]);
            }
        }
        if fb_wf(fb) && fb.width * 4 <= fb.pitch {
            assert forall|k: nat|
                k < ncols && #[trigger] bit_set(bits, k) && fb.bpp == 32 && x + k < fb.width && y
                    < fb.height implies target(w).subrange(
                y * fb.pitch + (x + k) * 4,
                y * fb.pitch + (x + k) * 4 + 4,
            ) == color_bytes(fb, c) by {
                let ok = y * fb.pitch + (x + k) * 4;
                lemma_pixel_inside(fb, x + k, y);
                if k == col {
                    assert(target(w).subrange(ok, ok + 4) =~= color_bytes(fb, c));
                } else {
                    assert(target(f).subrange(ok, ok + 4) == color_bytes(fb, c));
                    assert(target(w).subrange(ok, ok + 4) =~= target(f).subrange(ok, ok + 4));
                }
            }
        }
    }
}

proof fn lemma_draw_glyph_pixels(
    fb: FbView,
    glyph: Seq<u8>,
    x: int,
    y: int,
    width: nat,
    nrows: nat,
    c: Color,
)
    requires
        0 <= x,
        x + width <= usize::MAX + 1,
        0 <= y,
        y + nrows <= usize::MAX + 1,
        nrows <= glyph.len(),
    ensures
        ({
            let w = draw_glyph(fb, glyph, x, y, width, nrows, c);
            &&& w == with_target(fb, target(w))
            &&& target(w).len() == target(fb).len()
            &&& forall|i: int|
                0 <= i < target(fb).len() && #[trigger] target(w)[i] != target(fb)[i] ==> exists|
                    r: nat,
                    col: nat,
                |
                    r < nrows && col < width && #[trigger] glyph_bit(glyph, r, col)
                        && in_drawn_pixel(fb, x + col, y + r, i)
            &&& fb_wf(fb) && fb.width * 4 <= fb.pitch ==> forall|r: nat, col: nat|
                r < nrows && col < width && #[trigger] glyph_bit(glyph, r, col) && fb.bpp == 32 && x
                    + col < fb.width && y + r < fb.height ==> target(w).subrange(
                    (y + r) * fb.pitch + (x + col) * 4,
                    (y + r) * fb.pitch + (x + col) * 4 + 4,
                ) == color_bytes(fb, c)
        }),
    decreases nrows,
{
    let w = draw_glyph(fb, glyph, x, y, width, nrows, c);
    if nrows == 0 {
        assert(w == with_target(fb, target(w)));
    } else {
        let r0 = (nrows - 1) as nat;
        let g = draw_glyph(fb, glyph, x, y, width, r0, c);
        let bits = glyph[r0 as int];
        lemma_draw_glyph_pixels(fb, glyph, x, y, width, r0, c);
        lemma_draw_row_pixels(g, bits, x, y + r0, width, c);
        assert(w == draw_row(g, bits, x, y + r0, width, c));
        assert(color_bytes(g, c) == color_bytes(fb, c));
        assert forall|i: int|
            0 <= i < target(fb).len() && #[trigger] target(w)[i] != target(fb)[i] implies exists|
                r: nat,
                k: nat,
            | r < nrows && k < width && #[trigger] glyph_bit(glyph, r, k) && in_drawn_pixel(
                fb,
                x + k,
                y + r,
                i,
            ) by {
            if target(w)[i] != target(g)[i] {
                let k = choose|k: nat|
                    k < width && #[trigger] bit_set(bits, k) && in_drawn_pixel(g, x + k, y + r0, i);
                assert(glyph_bit(glyph, r0, k));
                assert(in_drawn_pixel(fb, x + k, y + r0, i));
            } else {
                assert(target(g)[i] != target(fb)[i]);
            }
        }
        if fb_wf(fb) && fb.width * 4 <= fb.pitch {
            assert(fb_wf(g));
            assert forall|r: nat, k: nat|
                r < nrows && k < width && #[trigger] glyph_bit(glyph, r, k) && fb.bpp == 32 && x + k
                    < fb.width && y + r < fb.height implies target(w).subrange(
                (y + r) * fb.pitch + (x + k) * 4,
                (y + r) * fb.pitch + (x + k) * 4 + 4,
            ) == color_bytes(fb, c) by {
                let o = (y + r) * fb.pitch + (x + k) * 4;
                lemma_pixel_inside(fb, x + k, y + r);
                if r == r0 {
                    assert(bit_set(bits, k));
                } else {
                    assert(target(g).subrange(o, o + 4) == color_bytes(fb, c));
                    assert forall|j: int| o <= j < o + 4 implies #[trigger] target(w)[j]
                        == target(g)[j] by {
                        if target(w)[j] != target(g)[j] {
                            let k2 = choose|k2: nat|
                                k2 < width && #[trigger] bit_set(bits, k2) && in_drawn_pixel(
                                    g,
                                    x + k2,
                                    y + r0,
                                    j,
                                );
                            lemma_rows_apart(
                                fb.pitch as int,
                                fb.width as int,
                                y + r,
                                y + r0,
                                x + k,
                                x + k2,
                            );
                        }
                    }
                    assert(target(w).subrange(o, o + 4) =~= target(g).subrange(o, o + 4));
                }
            }
        }
    }
}

/// Whether column `col` of row `row` of the glyph of `byte` is set, the
/// leftmost column being the most significant bit of the row's byte.
pub open spec fn glyph_pixel(font: Font, byte: u8, row: nat, col: nat) -> bool {
    font.glyphs@[byte * font.height + row] & (0x80u8 >> (col as u8)) != 0
}

/// Drawing a character puts the glyph's top left corner at
/// `(pad.x + cur.x * font.width, pad.y + cur.y * font.height)`, inside the
/// padding: a set bit in row `r`, column `c` of the glyph lights the pixel
/// `c` columns right of and `r` rows below that corner in the foreground
/// colour (when that pixel is on a 32-bit screen whose rows do not overlap),
/// and a byte of the buffer drawn to changes only inside such a pixel.
/// Nothing else of the framebuffer changes.
pub proof fn lemma_draw_char_places_glyph(t: TermView, byte: u8)
    requires
        has_glyph(t.cfg.font, byte),
        t.cfg.cur.x * t.cfg.font.width + t.cfg.font.width + t.cfg.pad.x <= usize::MAX + 1,
        t.cfg.cur.y * t.cfg.font.height + t.cfg.font.height + t.cfg.pad.y <= usize::MAX + 1,
    ensures
        ({
            let x0 = t.cfg.pad.x + t.cfg.cur.x * t.cfg.font.width;
            let y0 = t.cfg.pad.y + t.cfg.cur.y * t.cfg.font.height;
            let v = t.fb;
            let w = draw_char_spec(t, byte);
            &&& w == with_target(v, target(w))
            &&& target(w).len() == target(v).len()
            &&& fb_wf(v) && v.width * 4 <= v.pitch ==> forall|r: nat, c: nat|
                r < t.cfg.font.height && c < t.cfg.font.width && #[trigger] glyph_pixel(
                    t.cfg.font,
                    byte,
                    r,
                    c,
                ) && v.bpp == 32 && x0 + c < v.width && y0 + r < v.height ==> target(w).subrange(
                    (y0 + r) * v.pitch + (x0 + c) * 4,
                    (y0 + r) * v.pitch + (x0 + c) * 4 + 4,
                ) == color_bytes(v, t.cfg.fg)
            &&& forall|i: int|
                0 <= i < target(v).len() && #[trigger] target(w)[i] != target(v)[i] ==> exists|
                    r: nat,
                    c: nat,
                |
                    r < t.cfg.font.height && c < t.cfg.font.width && #[trigger] glyph_pixel(
                        t.cfg.font,
                        byte,
                        r,
                        c,
                    ) && v.bpp == 32 && x0 + c < v.width && y0 + r < v.height && (y0 + r)
                        * v.pitch + (x0 + c) * 4 <= i < (y0 + r) * v.pitch + (x0 + c) * 4 + 4
        }),
{
    let font = t.cfg.font;
    let fw = font.width as nat;
    let fh = font.height as nat;
    let x0 = t.cfg.pad.x + t.cfg.cur.x * t.cfg.font.width;
    let y0 = t.cfg.pad.y + t.cfg.cur.y * t.cfg.font.height;
    let v = t.fb;
    let glyph = glyph_rows(font, byte);
    assert(x0 == cell_x(t) && y0 == cell_y(t));
    assert(0 <= t.cfg.cur.x * t.cfg.font.width) by (nonlinear_arith);
    assert(0 <= t.cfg.cur.y * t.cfg.font.height) by (nonlinear_arith);
    let w = draw_char_spec(t, byte);
    lemma_draw_glyph_pixels(v, glyph, x0, y0, fw, fh, t.cfg.fg);
    assert forall|r: nat, c: nat| r < fh implies #[trigger] glyph_pixel(font, byte, r, c)
        == glyph_bit(glyph, r, c) by {
        assert(glyph[r as int] == font.glyphs@[byte * font.height + r]);
    }
    assert forall|i: int|
        0 <= i < target(v).len() && #[trigger] target(w)[i] != target(v)[i] implies exists|
            r: nat,
            c: nat,
        |
            r < fh && c < fw && #[trigger] glyph_pixel(font, byte, r, c) && v.bpp == 32 && x0 + c
                < v.width && y0 + r < v.height && (y0 + r) * v.pitch + (x0 + c) * 4 <= i < (y0 + r)
                * v.pitch + (x0 + c) * 4 + 4 by {
        let (r, c) = choose|r: nat, c: nat|
            r < fh && c < fw && #[trigger] glyph_bit(glyph, r, c) && in_drawn_pixel(
                v,
                x0 + c,
                y0 + r,
                i,
            );
        assert(glyph_pixel(font, byte, r, c));
    }
    if fb_wf(v) && v.width * 4 <= v.pitch {
        assert forall|r: nat, c: nat|
            r < fh && c < fw && #[trigger] glyph_pixel(font, byte, r, c) && v.bpp == 32 && x0 + c
                < v.width && y0 + r < v.height implies target(w).subrange(
            (y0 + r) * v.pitch + (x0 + c) * 4,
            (y0 + r) * v.pitch + (x0 + c) * 4 + 4,
        ) == color_bytes(v, t.cfg.fg) by {
            assert(glyph_bit(glyph, r, c));
        }
    }
}

/// Shows one byte: a line feed starts a new line, a carriage return goes
/// back to the first column, any other byte is drawn in the cursor's cell
/// (after wrapping to the next line when the cursor is past the last column)
/// and moves the cursor one column right.
pub open spec fn print_spec<'a>(t: TermView<'a>, byte: u8) -> TermView<'a> {
    if byte == 0x0a {
        newline_spec(t)
    } else if byte == 0x0d {
        with_cursor(t, 0, t.cfg.cur.y)
    } else {
        let t1 = if t.cfg.cur.x >= cols(t) {
            newline_spec(t)
        } else {
            t
        };
        let t2 = TermView { fb: draw_char_spec(t1, byte), ..t1 };
        with_cursor(t2, (t1.cfg.cur.x + 1) as usize, t1.cfg.cur.y)
    }
}

/// Shows the bytes one after another, with no escape sequences.
pub open spec fn plain_spec<'a>(t: TermView<'a>, bytes: Seq<u8>) -> TermView<'a>
    decreases bytes.len(),
{
    if bytes.len() == 0 {
        t
    } else {
        print_spec(plain_spec(t, bytes.drop_last()), bytes.last())
    }
}

/// The colours that SGR parameters 30 to 37 and 40 to 47 select.
pub open spec fn palette(i: int) -> Color {
    if i == 0 {
        opaque(0, 0, 0)
    } else if i == 1 {
        opaque(255, 0, 0)
    } else if i == 2 {
        opaque(0, 255, 0)
    } else if i == 3 {
        opaque(255, 255, 0)
    } else if i == 4 {
        opaque(0, 0, 255)
    } else if i == 5 {
        opaque(255, 0, 255)
    } else if i == 6 {
        opaque(0, 255, 255)
    } else {
        opaque(255, 255, 255)
    }
}

/// One SGR parameter: 0 resets to white on black, 30-37 pick the
/// foreground, 40-47 the background; any other value is ignored.
pub open spec fn sgr_one<'a>(cfg: TerminalConfig<'a>, p: u16) -> TerminalConfig<'a> {
    if p == 0 {
        TerminalConfig { fg: opaque(255, 255, 255), bg: opaque(0, 0, 0), ..cfg }
    } else if 30 <= p <= 37 {
        TerminalConfig { fg: palette(p - 30), ..cfg }
    } else if 40 <= p <= 47 {
        TerminalConfig { bg: palette(p - 40), ..cfg }
    } else {
        cfg
    }
}

/// The SGR parameters applied in order.
pub open spec fn sgr_spec<'a>(cfg: TerminalConfig<'a>, params: Seq<u16>) -> TerminalConfig<'a>
    decreases params.len(),
{
    if params.len() == 0 {
        cfg
    } else {
        sgr_one(sgr_spec(cfg, params.drop_last()), params.last())
    }
}

/// The first parameter is the cursor's row, the second its column; missing
/// ones leave the cursor as it is.
pub open spec fn cursor_position_spec<'a>(cfg: TerminalConfig<'a>, params: Seq<u16>) -> TerminalConfig<'a> {
    let y: usize = if params.len() >= 1 {
        params[0] as usize
    } else {
        cfg.cur.y
    };
    let x: usize = if params.len() >= 2 {
        params[1] as usize
    } else {
        cfg.cur.x
    };
    TerminalConfig { cur: Cursor { x, y, ..cfg.cur }, ..cfg }
}

/// What the terminal does for a parser action.
pub open spec fn action_spec<'a>(t: TermView<'a>, a: ActionView) -> TermView<'a> {
    match a {
        ActionView::Print(b) => print_spec(t, b),
        ActionView::Sgr { params, len } => TermView {
            cfg: sgr_spec(t.cfg, params.take(len as int)),
            ..t
        },
        ActionView::CursorPosition { params, len } => TermView {
            cfg: cursor_position_spec(t.cfg, params.take(len as int)),
            ..t
        },
    }
}

/// The state of a new parser.
pub open spec fn init_parser() -> ParserView {
    ParserView {
        state: State::Ground,
        params: Seq::new(16, |i: int| 0u16),
        params_len: 0,
        current: 0,
    }
}

/// The terminal after the bytes, read through a parser that starts at `p`.
pub open spec fn ansi_spec<'a>(t: TermView<'a>, p: ParserView, bytes: Seq<u8>) -> TermView<'a>
    decreases bytes.len(),
{
    if bytes.len() == 0 {
        t
    } else {
        let t1 = ansi_spec(t, p, bytes.drop_last());
        match step(run(p, bytes.drop_last()), bytes.last()).1 {
            Some(a) => action_spec(t1, a),
            None => t1,
        }
    }
}

/// The terminal before a byte other than a line break is drawn: on the next
/// line when the cursor is past the last column.
pub open spec fn wrapped<'a>(t: TermView<'a>) -> TermView<'a> {
    if t.cfg.cur.x >= cols(t) {
        newline_spec(t)
    } else {
        t
    }
}

/// What showing `byte` needs (see `print_spec`): for a line feed, what the
/// line feed needs; for any byte but a carriage return, a column count,
/// what the wrapping line feed needs, what drawing needs, and a next column
/// that fits in a `usize`.
pub open spec fn print_ok(t: TermView, byte: u8) -> bool {
    if byte == 0x0a {
        newline_ok(t)
    } else if byte == 0x0d {
        true
    } else {
        &&& t.cfg.pad.x * 2 <= usize::MAX
        &&& t.cfg.font.width > 0
        &&& t.cfg.cur.x >= cols(t) ==> newline_ok(t)
        &&& draw_ok(wrapped(t), byte)
        &&& wrapped(t).cfg.cur.x + 1 <= usize::MAX
    }
}

/// What showing the bytes one after another needs.
pub open spec fn plain_ok(t: TermView, bytes: Seq<u8>) -> bool
    decreases bytes.len(),
{
    if bytes.len() == 0 {
        true
    } else {
        plain_ok(t, bytes.drop_last()) && print_ok(plain_spec(t, bytes.drop_last()), bytes.last())
    }
}

/// What carrying out an action needs: only printing needs anything.
pub open spec fn action_ok(t: TermView, a: Option<ActionView>) -> bool {
    match a {
        Some(ActionView::Print(b)) => print_ok(t, b),
        _ => true,
    }
}

/// What reading the bytes through a parser that starts at `p` needs.
pub open spec fn ansi_ok(t: TermView, p: ParserView, bytes: Seq<u8>) -> bool
    decreases bytes.len(),
{
    if bytes.len() == 0 {
        true
    } else {
        ansi_ok(t, p, bytes.drop_last()) && action_ok(
            ansi_spec(t, p, bytes.drop_last()),
            step(run(p, bytes.drop_last()), bytes.last()).1,
        )
    }
}

/// What writing `bytes` needs: exactly that no step overflows, divides by
/// zero or leaves a buffer.
pub open spec fn write_ok(t: TermView, bytes: Seq<u8>) -> bool {
    if t.cfg.ansi {
        ansi_ok(t, init_parser(), bytes)
    } else {
        plain_ok(t, bytes)
    }
}

/// What writing `bytes` does: shown as they are, or read for escape
/// sequences with a new parser when ANSI is on.
pub open spec fn write_spec<'a>(t: TermView<'a>, bytes: Seq<u8>) -> TermView<'a> {
    if t.cfg.ansi {
        ansi_spec(t, init_parser(), bytes)
    } else {
        plain_spec(t, bytes)
    }
}

/// The two terminals agree on everything but the cursor, the colours and
/// the picture.
pub open spec fn same_setup(a: TermView, b: TermView) -> bool {
    &&& same_layout(a.fb, b.fb)
    &&& a.cfg.x == b.cfg.x
    &&& a.cfg.y == b.cfg.y
    &&& a.cfg.ansi == b.cfg.ansi
    &&& a.cfg.pad == b.cfg.pad
    &&& a.cfg.font == b.cfg.font
}

proof fn lemma_sgr_keeps(cfg: TerminalConfig, params: Seq<u16>)
    ensures
        sgr_spec(cfg, params) == (TerminalConfig {
            fg: sgr_spec(cfg, params).fg,
            bg: sgr_spec(cfg, params).bg,
            ..cfg
        }),
    decreases params.len(),
{
    if params.len() > 0 {
        lemma_sgr_keeps(cfg, params.drop_last());
    }
}

proof fn lemma_scroll_keeps(v: FbView, pixels: usize, c: Color)
    ensures
        same_layout(v, scroll_up_spec(v, pixels, c)),
{
}

proof fn lemma_print_setup(t: TermView, byte: u8)
    ensures
        same_setup(t, print_spec(t, byte)),
        print_spec(t, byte).cfg == (TerminalConfig { cur: print_spec(t, byte).cfg.cur, ..t.cfg }),
{
    lemma_scroll_keeps(t.fb, t.cfg.font.height as usize, t.cfg.bg);
    if byte != 0x0a && byte != 0x0d {
        let t1 = wrapped(t);
        lemma_draw_glyph_keeps(
            t1.fb,
            glyph_rows(t1.cfg.font, byte),
            cell_x(t1),
            cell_y(t1),
            t1.cfg.font.width as nat,
            t1.cfg.font.height as nat,
            t1.cfg.fg,
        );
    }
}

proof fn lemma_plain_setup(t: TermView, bytes: Seq<u8>)
    ensures
        same_setup(t, plain_spec(t, bytes)),
    decreases bytes.len(),
{
    if bytes.len() > 0 {
        lemma_plain_setup(t, bytes.drop_last());
        lemma_print_setup(plain_spec(t, bytes.drop_last()), bytes.last());
    }
}

proof fn lemma_action_setup(t: TermView, a: ActionView)
    ensures
        same_setup(t, action_spec(t, a)),
        a is Sgr ==> action_spec(t, a).cfg.cur == t.cfg.cur,
{
    match a {
        ActionView::Print(b) => lemma_print_setup(t, b),
        ActionView::Sgr { params, len } => lemma_sgr_keeps(t.cfg, params.take(len as int)),
        ActionView::CursorPosition { .. } => {},
    }
}

proof fn lemma_ansi_setup(t: TermView, p: ParserView, bytes: Seq<u8>)
    ensures
        same_setup(t, ansi_spec(t, p, bytes)),
    decreases bytes.len(),
{
    if bytes.len() > 0 {
        lemma_ansi_setup(t, p, bytes.drop_last());
        match step(run(p, bytes.drop_last()), bytes.last()).1 {
            Some(a) => lemma_action_setup(ansi_spec(t, p, bytes.drop_last()), a),
            None => {},
        }
    }
}

/// What a text needs carries over to its prefixes; the step after a prefix
/// of length `k - 1` is safe.
proof fn lemma_plain_ok_prefix(t: TermView, bytes: Seq<u8>, k: int)
    requires
        plain_ok(t, bytes),
        0 <= k <= bytes.len(),
    ensures
        plain_ok(t, bytes.take(k)),
        k > 0 ==> print_ok(plain_spec(t, bytes.take(k - 1)), bytes[k - 1]),
    decreases bytes.len() - k,
{
    if k < bytes.len() {
        lemma_plain_ok_prefix(t, bytes, k + 1);
        assert(bytes.take(k + 1).drop_last() =~= bytes.take(k));
    } else {
        assert(bytes.take(k) =~= bytes);
    }
    if k > 0 {
        let pre = bytes.take(k);
        assert(pre.drop_last() =~= bytes.take(k - 1));
        assert(pre.last() == bytes[k - 1]);
    }
}

proof fn lemma_ansi_ok_prefix(t: TermView, p: ParserView, bytes: Seq<u8>, k: int)
    requires
        ansi_ok(t, p, bytes),
        0 <= k <= bytes.len(),
    ensures
        ansi_ok(t, p, bytes.take(k)),
        k > 0 ==> action_ok(
            ansi_spec(t, p, bytes.take(k - 1)),
            step(run(p, bytes.take(k - 1)), bytes[k - 1]).1,
        ),
    decreases bytes.len() - k,
{
    if k < bytes.len() {
        lemma_ansi_ok_prefix(t, p, bytes, k + 1);
        assert(bytes.take(k + 1).drop_last() =~= bytes.take(k));
    } else {
        assert(bytes.take(k) =~= bytes);
    }
    if k > 0 {
        let pre = bytes.take(k);
        assert(pre.drop_last() =~= bytes.take(k - 1));
        assert(pre.last() == bytes[k - 1]);
    }
}

/// The cursor is on the screen: at most one past the last column, on a row.
pub open spec fn on_screen(t: TermView) -> bool {
    t.cfg.cur.x <= cols(t) && t.cfg.cur.y < rows(t)
}

/// Showing a byte keeps the cursor on a screen that has rows and columns.
pub proof fn lemma_print_on_screen(t: TermView, byte: u8)
    requires
        t.cfg.font.width > 0,
        t.cfg.font.height > 0,
        rows(t) >= 1,
        cols(t) >= 1,
        on_screen(t),
    ensures
        on_screen(print_spec(t, byte)),
{
    lemma_rows_bound(t);
    lemma_newline_cursor(t);
    lemma_print_setup(t, byte);
    let n = print_spec(t, byte);
    assert(rows(n) == rows(t) && cols(n) == cols(t));
}

/// Without ANSI, writing keeps the cursor on a screen that has rows and
/// columns: long lines wrap and the last row scrolls.
pub proof fn lemma_plain_on_screen(t: TermView, bytes: Seq<u8>)
    requires
        t.cfg.font.width > 0,
        t.cfg.font.height > 0,
        rows(t) >= 1,
        cols(t) >= 1,
        on_screen(t),
    ensures
        on_screen(plain_spec(t, bytes)),
    decreases bytes.len(),
{
    if bytes.len() > 0 {
        let pre = bytes.drop_last();
        lemma_plain_on_screen(t, pre);
        lemma_plain_setup(t, pre);
        let t1 = plain_spec(t, pre);
        assert(rows(t1) == rows(t) && cols(t1) == cols(t));
        lemma_print_on_screen(t1, bytes.last());
    }
}

/// With ANSI on, text without an escape byte is shown exactly as without
/// ANSI, and leaves the parser as it found it in the ground state.
pub proof fn lemma_ansi_without_escape(t: TermView, p: ParserView, bytes: Seq<u8>)
    requires
        p.state == State::Ground,
        forall|i: int| 0 <= i < bytes.len() ==> #[trigger] bytes[i] != crate::ansi::ESC,
    ensures
        ansi_spec(t, p, bytes) == plain_spec(t, bytes),
        run(p, bytes) == p,
    decreases bytes.len(),
{
    if bytes.len() > 0 {
        let pre = bytes.drop_last();
        assert forall|i: int| 0 <= i < pre.len() implies #[trigger] pre[i] != crate::ansi::ESC by {
            assert(pre[i] == bytes[i]);
        }
        lemma_ansi_without_escape(t, p, pre);
        assert(bytes.last() == bytes[bytes.len() - 1]);
    }
}

proof fn lemma_print_cfg(t: TermView, byte: u8)
    ensures
        print_spec(t, byte).cfg == (TerminalConfig { cur: print_spec(t, byte).cfg.cur, ..t.cfg }),
{
}

proof fn lemma_action_ansi(t: TermView, a: ActionView)
    ensures
        action_spec(t, a).cfg.ansi == t.cfg.ansi,
{
    match a {
        ActionView::Print(b) => lemma_print_cfg(t, b),
        ActionView::Sgr { params, len } => lemma_sgr_keeps(t.cfg, params.take(len as int)),
        ActionView::CursorPosition { .. } => {},
    }
}

proof fn lemma_plain_ansi(t: TermView, bytes: Seq<u8>)
    ensures
        plain_spec(t, bytes).cfg.ansi == t.cfg.ansi,
    decreases bytes.len(),
{
    if bytes.len() > 0 {
        lemma_plain_ansi(t, bytes.drop_last());
        lemma_print_cfg(plain_spec(t, bytes.drop_last()), bytes.last());
    }
}

proof fn lemma_ansi_ansi(t: TermView, p: ParserView, bytes: Seq<u8>)
    ensures
        ansi_spec(t, p, bytes).cfg.ansi == t.cfg.ansi,
    decreases bytes.len(),
{
    if bytes.len() > 0 {
        lemma_ansi_ansi(t, p, bytes.drop_last());
        match step(run(p, bytes.drop_last()), bytes.last()).1 {
            Some(a) => lemma_action_ansi(ansi_spec(t, p, bytes.drop_last()), a),
            None => {},
        }
    }
}

proof fn lemma_plain_concat(t: TermView, a: Seq<u8>, b: Seq<u8>)
    ensures
        plain_spec(t, a + b) == plain_spec(plain_spec(t, a), b),
    decreases b.len(),
{
    if b.len() == 0 {
        assert(a + b =~= a);
    } else {
        lemma_plain_concat(t, a, b.drop_last());
        assert((a + b).drop_last() =~= a + b.drop_last());
    }
}

proof fn lemma_ansi_concat(t: TermView, p: ParserView, a: Seq<u8>, b: Seq<u8>)
    ensures
        ansi_spec(t, p, a + b) == ansi_spec(ansi_spec(t, p, a), run(p, a), b),
    decreases b.len(),
{
    if b.len() == 0 {
        assert(a + b =~= a);
    } else {
        lemma_ansi_concat(t, p, a, b.drop_last());
        assert((a + b).drop_last() =~= a + b.drop_last());
        crate::ansi::lemma_run_concat(p, a, b.drop_last());
    }
}

proof fn lemma_action_equiv(t: TermView, a: Option<ActionView>, b: Option<ActionView>)
    requires
        action_equiv(a, b),
    ensures
        (match a {
            Some(x) => action_spec(t, x),
            None => t,
        }) == (match b {
            Some(y) => action_spec(t, y),
            None => t,
        }),
{
}

/// Equivalent parser states read the same bytes to the same terminal.
proof fn lemma_ansi_equiv(t: TermView, p: ParserView, q: ParserView, bytes: Seq<u8>)
    requires
        parser_valid(p),
        parser_valid(q),
        parser_equiv(p, q),
    ensures
        ansi_spec(t, p, bytes) == ansi_spec(t, q, bytes),
    decreases bytes.len(),
{
    if bytes.len() > 0 {
        let init = bytes.drop_last();
        lemma_ansi_equiv(t, p, q, init);
        crate::ansi::lemma_run_equiv(p, q, init);
        crate::ansi::lemma_step_equiv(run(p, init), run(q, init), bytes.last());
        lemma_action_equiv(
            ansi_spec(t, p, init),
            step(run(p, init), bytes.last()).1,
            step(run(q, init), bytes.last()).1,
        );
    }
}

/// Without ANSI, writing `a` and then `b` is writing `a` followed by `b` in
/// one call.
pub proof fn lemma_write_plain_composes(t: TermView, a: Seq<u8>, b: Seq<u8>)
    requires
        !t.cfg.ansi,
    ensures
        write_spec(write_spec(t, a), b) == write_spec(t, a + b),
{
    lemma_plain_ansi(t, a);
    lemma_plain_concat(t, a, b);
}

/// With ANSI on, writing `a` and then `b` is writing `a` followed by `b` in
/// one call, provided `a` does not end inside an escape sequence. (Each write
/// reads with a new parser, so a sequence split between two writes is not
/// recognised.)
pub proof fn lemma_write_ansi_composes(t: TermView, a: Seq<u8>, b: Seq<u8>)
    requires
        t.cfg.ansi,
        run(init_parser(), a).state == State::Ground,
    ensures
        write_spec(write_spec(t, a), b) == write_spec(t, a + b),
{
    lemma_ansi_ansi(t, init_parser(), a);
    lemma_ansi_concat(t, init_parser(), a, b);
    crate::ansi::lemma_run_valid(init_parser(), a);
    lemma_ansi_equiv(ansi_spec(t, init_parser(), a), run(init_parser(), a), init_parser(), b);
}

/// With ANSI on, a write after any other write reads with a new parser: if
/// it holds no escape byte, it is shown exactly as without ANSI, even when
/// the earlier write ended inside an escape sequence.
pub proof fn lemma_next_write_starts_fresh(t: TermView, a: Seq<u8>, b: Seq<u8>)
    requires
        t.cfg.ansi,
        forall|i: int| 0 <= i < b.len() ==> #[trigger] b[i] != crate::ansi::ESC,
    ensures
        write_spec(write_spec(t, a), b) == plain_spec(write_spec(t, a), b),
{
    lemma_ansi_ansi(t, init_parser(), a);
    lemma_ansi_without_escape(write_spec(t, a), init_parser(), b);
}

/// Whether an SGR parameter chooses the foreground: 0 (reset) or 30-37.
pub open spec fn sets_fg(p: u16) -> bool {
    p == 0 || (30 <= p <= 37)
}

/// Whether an SGR parameter chooses the background: 0 (reset) or 40-47.
pub open spec fn sets_bg(p: u16) -> bool {
    p == 0 || (40 <= p <= 47)
}

/// The foreground an SGR parameter chooses: white on a reset, else colour
/// `p - 30` of the eight.
pub open spec fn fg_choice(p: u16) -> Color {
    if p == 0 {
        opaque(255, 255, 255)
    } else {
        palette(p - 30)
    }
}

/// The background an SGR parameter chooses: black on a reset, else colour
/// `p - 40` of the eight.
pub open spec fn bg_choice(p: u16) -> Color {
    if p == 0 {
        opaque(0, 0, 0)
    } else {
        palette(p - 40)
    }
}

proof fn lemma_sgr_one_colours(cfg: TerminalConfig, p: u16)
    ensures
        sgr_one(cfg, p).fg == (if sets_fg(p) { fg_choice(p) } else { cfg.fg }),
        sgr_one(cfg, p).bg == (if sets_bg(p) { bg_choice(p) } else { cfg.bg }),
{
}

proof fn lemma_sgr_last_fg(cfg: TerminalConfig, params: Seq<u16>)
    ensures
        (forall|k: int| 0 <= k < params.len() ==> !sets_fg(#[trigger] params[k])) ==> sgr_spec(
            cfg,
            params,
        ).fg == cfg.fg,
        forall|k: int|
            0 <= k < params.len() && sets_fg(#[trigger] params[k]) && (forall|j: int|
                k < j < params.len() ==> !sets_fg(params[j])) ==> sgr_spec(cfg, params).fg
                == fg_choice(params[k]),
    decreases params.len(),
{
    if params.len() > 0 {
        let n = params.len() - 1;
        let front = params.drop_last();
        let x = params[n];
        lemma_sgr_last_fg(cfg, front);
        let c0 = sgr_spec(cfg, front);
        assert(sgr_spec(cfg, params) == sgr_one(c0, x));
        lemma_sgr_one_colours(c0, x);
        let f = sgr_spec(cfg, params).fg;
        assert(f == (if sets_fg(x) { fg_choice(x) } else { c0.fg }));
        if forall|k: int| 0 <= k < params.len() ==> !sets_fg(#[trigger] params[k]) {
            assert(!sets_fg(params[n]));
            assert forall|k: int| 0 <= k < front.len() implies !sets_fg(#[trigger] front[k]) by {
                assert(!sets_fg(params[k]));
            }
        }
        assert forall|k: int|
            0 <= k < params.len() && sets_fg(#[trigger] params[k]) && (forall|j: int|
                k < j < params.len() ==> !sets_fg(params[j])) implies f == fg_choice(params[k]) by {
            if k < n {
                assert(!sets_fg(params[n]));
                assert(front[k] == params[k]);
                assert forall|j: int| k < j < front.len() implies !sets_fg(#[trigger] front[j]) by {
                    assert(front[j] == params[j]);
                    assert(!sets_fg(params[j]));
                }
            }
        }
    }
}

proof fn lemma_sgr_last_bg(cfg: TerminalConfig, params: Seq<u16>)
    ensures
        (forall|k: int| 0 <= k < params.len() ==> !sets_bg(#[trigger] params[k])) ==> sgr_spec(
            cfg,
            params,
        ).bg == cfg.bg,
        forall|k: int|
            0 <= k < params.len() && sets_bg(#[trigger] params[k]) && (forall|j: int|
                k < j < params.len() ==> !sets_bg(params[j])) ==> sgr_spec(cfg, params).bg
                == bg_choice(params[k]),
    decreases params.len(),
{
    if params.len() > 0 {
        let n = params.len() - 1;
        let front = params.drop_last();
        let x = params[n];
        lemma_sgr_last_bg(cfg, front);
        let c0 = sgr_spec(cfg, front);
        assert(sgr_spec(cfg, params) == sgr_one(c0, x));
        lemma_sgr_one_colours(c0, x);
        let b = sgr_spec(cfg, params).bg;
        assert(b == (if sets_bg(x) { bg_choice(x) } else { c0.bg }));
        if forall|k: int| 0 <= k < params.len() ==> !sets_bg(#[trigger] params[k]) {
            assert(!sets_bg(params[n]));
            assert forall|k: int| 0 <= k < front.len() implies !sets_bg(#[trigger] front[k]) by {
                assert(!sets_bg(params[k]));
            }
        }
        assert forall|k: int|
            0 <= k < params.len() && sets_bg(#[trigger] params[k]) && (forall|j: int|
                k < j < params.len() ==> !sets_bg(params[j])) implies b == bg_choice(params[k]) by {
            if k < n {
                assert(!sets_bg(params[n]));
                assert(front[k] == params[k]);
                assert forall|j: int| k < j < front.len() implies !sets_bg(#[trigger] front[j]) by {
                    assert(front[j] == params[j]);
                    assert(!sets_bg(params[j]));
                }
            }
        }
    }
}

/// An SGR action applies its parameters one after another: the foreground
/// is the one chosen by the last parameter that chooses one (0 gives white,
/// 30-37 the eight colours in order) and stays when none does; likewise the
/// background (0 gives black, 40-47 the eight colours). Nothing else
/// changes.
pub proof fn lemma_sgr_applies_in_order(t: TermView, params: Seq<u16>, len: nat)
    requires
        len <= params.len(),
    ensures
        ({
            let u = action_spec(t, ActionView::Sgr { params, len });
            &&& u.fb == t.fb
            &&& u.cfg == (TerminalConfig { fg: u.cfg.fg, bg: u.cfg.bg, ..t.cfg })
            &&& (forall|k: int| 0 <= k < len ==> !sets_fg(#[trigger] params[k])) ==> u.cfg.fg
                == t.cfg.fg
            &&& (forall|k: int| 0 <= k < len ==> !sets_bg(#[trigger] params[k])) ==> u.cfg.bg
                == t.cfg.bg
            &&& forall|k: int|
                0 <= k < len && sets_fg(#[trigger] params[k]) && (forall|j: int|
                    k < j < len ==> !sets_fg(params[j])) ==> u.cfg.fg == fg_choice(params[k])
            &&& forall|k: int|
                0 <= k < len && sets_bg(#[trigger] params[k]) && (forall|j: int|
                    k < j < len ==> !sets_bg(params[j])) ==> u.cfg.bg == bg_choice(params[k])
        }),
{
    let s = params.take(len as int);
    lemma_sgr_keeps(t.cfg, s);
    lemma_sgr_last_fg(t.cfg, s);
    lemma_sgr_last_bg(t.cfg, s);
    assert forall|k: int| 0 <= k < len implies #[trigger] s[k] == params[k] by {}
    let u = action_spec(t, ActionView::Sgr { params, len });
    if forall|k: int| 0 <= k < len ==> !sets_fg(#[trigger] params[k]) {
        assert forall|k: int| 0 <= k < s.len() implies !sets_fg(#[trigger] s[k]) by {
            assert(!sets_fg(params[k]));
        }
    }
    if forall|k: int| 0 <= k < len ==> !sets_bg(#[trigger] params[k]) {
        assert forall|k: int| 0 <= k < s.len() implies !sets_bg(#[trigger] s[k]) by {
            assert(!sets_bg(params[k]));
        }
    }
    assert forall|k: int|
        0 <= k < len && sets_fg(#[trigger] params[k]) && (forall|j: int|
            k < j < len ==> !sets_fg(params[j])) implies u.cfg.fg == fg_choice(params[k]) by {
        assert(sets_fg(s[k]));
        assert forall|j: int| k < j < s.len() implies !sets_fg(s[j]) by {
            assert(s[j] == params[j]);
        }
    }
    assert forall|k: int|
        0 <= k < len && sets_bg(#[trigger] params[k]) && (forall|j: int|
            k < j < len ==> !sets_bg(params[j])) implies u.cfg.bg == bg_choice(params[k]) by {
        assert(sets_bg(s[k]));
        assert forall|j: int| k < j < s.len() implies !sets_bg(s[j]) by {
            assert(s[j] == params[j]);
        }
    }
}

/// A cursor-position action moves the cursor to the row its first parameter
/// gives and the column its second gives; a coordinate without a parameter
/// stays, and nothing but the cursor's row and column changes.
pub proof fn lemma_cursor_position_moves(t: TermView, params: Seq<u16>, len: nat)
    requires
        len <= params.len(),
    ensures
        ({
            let u = action_spec(t, ActionView::CursorPosition { params, len });
            &&& u.fb == t.fb
            &&& u.cfg == (TerminalConfig { cur: u.cfg.cur, ..t.cfg })
            &&& u.cfg.cur.blink == t.cfg.cur.blink
            &&& len >= 1 ==> u.cfg.cur.y == params[0] as usize
            &&& len == 0 ==> u.cfg.cur.y == t.cfg.cur.y
            &&& len >= 2 ==> u.cfg.cur.x == params[1] as usize
            &&& len <= 1 ==> u.cfg.cur.x == t.cfg.cur.x
        }),
{
    let s = params.take(len as int);
    if len >= 1 {
        assert(s[0] == params[0]);
    }
    if len >= 2 {
        assert(s[1] == params[1]);
    }
}

/// `q` is the largest count of cells of size `cell` that fit in `room` after
/// taking off `2 * pad`, or zero when the two paddings leave no room.
proof fn lemma_fit_count(room: int, pad: int, cell: int, q: int)
    requires
        room >= 0,
        pad >= 0,
        cell > 0,
        q == sat_sub(room, pad * 2) / cell,
    ensures
        2 * pad <= room ==> q * cell + 2 * pad <= room < (q + 1) * cell + 2 * pad,
        2 * pad > room ==> q == 0,
        q >= 0,
{
    let w = sat_sub(room, pad * 2);
    assert(w >= 0);
    assert(q * cell <= w < (q + 1) * cell && q >= 0) by (nonlinear_arith)
        requires
            w >= 0,
            cell > 0,
            q == w / cell,
    ;
    if 2 * pad > room {
        assert(w == 0);
        assert(q == 0) by (nonlinear_arith)
            requires
                w == 0,
                cell > 0,
                q == w / cell,
        ;
    }
}

/// The columns are the most glyphs that fit side by side between the left
/// and the right padding: `cols * font.width + 2 * pad.x <= width`, and one
/// more column would not fit; with paddings wider than the screen there are
/// none. Likewise the rows between the top and the bottom padding.
pub proof fn lemma_grid_fits_between_paddings(t: TermView)
    ensures
        t.cfg.font.width > 0 && 2 * t.cfg.pad.x <= t.fb.width ==> cols(t) * t.cfg.font.width + 2
            * t.cfg.pad.x <= t.fb.width < (cols(t) + 1) * t.cfg.font.width + 2 * t.cfg.pad.x,
        t.cfg.font.width > 0 && 2 * t.cfg.pad.x > t.fb.width ==> cols(t) == 0,
        t.cfg.font.height > 0 && 2 * t.cfg.pad.y <= t.fb.height ==> rows(t) * t.cfg.font.height
            + 2 * t.cfg.pad.y <= t.fb.height < (rows(t) + 1) * t.cfg.font.height + 2 * t.cfg.pad.y,
        t.cfg.font.height > 0 && 2 * t.cfg.pad.y > t.fb.height ==> rows(t) == 0,
{
    if t.cfg.font.width > 0 {
        lemma_fit_count(t.fb.width as int, t.cfg.pad.x as int, t.cfg.font.width as int, cols(t));
    }
    if t.cfg.font.height > 0 {
        lemma_fit_count(t.fb.height as int, t.cfg.pad.y as int, t.cfg.font.height as int, rows(t));
    }
}

/// How one byte moves the cursor and what it does to the picture: a
/// carriage return goes back to the first column of the row; a line feed
/// goes to the first column of the next row, or, on the last row, stays on
/// the last row while the picture scrolls up one text line and the freed
/// line takes the background colour; any other byte is drawn in the
/// cursor's cell and the cursor moves one column right, after first going
/// to the start of the next line (scrolling on the last row) when the
/// cursor is past the last column. The rest of the configuration stays.
pub proof fn lemma_print_moves_cursor(t: TermView, byte: u8)
    requires
        t.cfg.font.height > 0,
        t.cfg.cur.y + 1 <= usize::MAX,
    ensures
        ({
            let u = print_spec(t, byte);
            let next_line = t.cfg.cur.y + 1 < rows(t);
            let last_row = if rows(t) >= 1 { rows(t) - 1 } else { 0 };
            &&& u.cfg == (TerminalConfig { cur: u.cfg.cur, ..t.cfg })
            &&& u.cfg.cur.blink == t.cfg.cur.blink
            &&& byte == 0x0d ==> u.cfg.cur.x == 0 && u.cfg.cur.y == t.cfg.cur.y && u.fb == t.fb
            &&& byte == 0x0a && next_line ==> u.cfg.cur.x == 0 && u.cfg.cur.y == t.cfg.cur.y + 1
                && u.fb == t.fb
            &&& byte == 0x0a && !next_line ==> u.cfg.cur.x == 0 && u.cfg.cur.y == last_row && u.fb
                == scroll_up_spec(t.fb, t.cfg.font.height as usize, t.cfg.bg)
            &&& byte != 0x0a && byte != 0x0d && t.cfg.font.width > 0 && t.cfg.cur.x < cols(t)
                ==> u.cfg.cur.x
                == t.cfg.cur.x + 1 && u.cfg.cur.y == t.cfg.cur.y && u.fb == draw_char_spec(t, byte)
            &&& byte != 0x0a && byte != 0x0d && t.cfg.font.width > 0 && t.cfg.cur.x >= cols(t)
                && next_line ==> u.cfg.cur.x
                == 1 && u.cfg.cur.y == t.cfg.cur.y + 1 && u.fb == draw_char_spec(
                with_cursor(t, 0, (t.cfg.cur.y + 1) as usize),
                byte,
            )
            &&& byte != 0x0a && byte != 0x0d && t.cfg.font.width > 0 && t.cfg.cur.x >= cols(t)
                && !next_line ==> u.cfg.cur.x == 1 && u.cfg.cur.y == last_row && u.fb
                == draw_char_spec(
                TermView {
                    fb: scroll_up_spec(t.fb, t.cfg.font.height as usize, t.cfg.bg),
                    ..with_cursor(t, 0, last_row as usize)
                },
                byte,
            )
        }),
{
    lemma_print_setup(t, byte);
    lemma_rows_bound(t);
}

proof fn lemma_ansi_silent(t: TermView, p: ParserView, bytes: Seq<u8>)
    requires
        forall|i: int| 0 <= i < bytes.len() ==> #[trigger] step(run(p, bytes.take(i)), bytes[i]).1 is None,
    ensures
        ansi_spec(t, p, bytes) == t,
    decreases bytes.len(),
{
    if bytes.len() > 0 {
        let n = bytes.len() - 1;
        let pre = bytes.drop_last();
        assert forall|i: int| 0 <= i < pre.len() implies #[trigger] step(run(p, pre.take(i)), pre[i]).1 is None by {
            assert(pre.take(i) =~= bytes.take(i));
            assert(pre[i] == bytes[i]);
            assert(step(run(p, bytes.take(i)), bytes[i]).1 is None);
        }
        lemma_ansi_silent(t, p, pre);
        assert(bytes.take(n) =~= pre);
        assert(step(run(p, bytes.take(n)), bytes[n]).1 is None);
    }
}

/// With ANSI on, writing `ESC [ digits m` draws nothing and only sets the
/// colours as its one parameter says: 0 gives white on black, 30-37 the
/// foreground and 40-47 the background among the eight colours, and any
/// other value leaves them.
pub proof fn lemma_write_sgr_sequence(t: TermView, digits: Seq<u8>)
    requires
        t.cfg.ansi,
        forall|i: int| 0 <= i < digits.len() ==> crate::ansi::is_digit(#[trigger] digits[i]),
    ensures
        ({
            let v = crate::ansi::param_value(digits);
            let u = write_spec(t, seq![crate::ansi::ESC, 0x5bu8] + digits + seq![0x6du8]);
            &&& u.fb == t.fb
            &&& u.cfg == (TerminalConfig { fg: u.cfg.fg, bg: u.cfg.bg, ..t.cfg })
            &&& u.cfg.fg == (if sets_fg(v) { fg_choice(v) } else { t.cfg.fg })
            &&& u.cfg.bg == (if sets_bg(v) { bg_choice(v) } else { t.cfg.bg })
        }),
{
    let p0 = init_parser();
    let prefix = seq![crate::ansi::ESC, 0x5bu8];
    let body = prefix + digits;
    let bytes = body + seq![0x6du8];
    let p1 = step(p0, crate::ansi::ESC).0;
    let p2 = step(p1, 0x5b).0;
    assert(prefix.drop_last() =~= seq![crate::ansi::ESC]);
    assert(seq![crate::ansi::ESC].drop_last() =~= Seq::<u8>::empty());
    assert(run(p0, Seq::<u8>::empty()) == p0);
    assert(run(p0, seq![crate::ansi::ESC]) == p1);
    assert(run(p0, prefix) == p2);
    assert forall|i: int| 0 <= i < prefix.len() implies #[trigger] step(run(p0, prefix.take(i)), prefix[i]).1 is None by {
        if i == 0 {
            assert(prefix.take(0) =~= Seq::<u8>::empty());
        } else {
            assert(prefix.take(1) =~= seq![crate::ansi::ESC]);
        }
    }
    lemma_ansi_silent(t, p0, prefix);
    crate::ansi::lemma_digits_accumulate(p2, digits);
    lemma_ansi_silent(t, p2, digits);
    lemma_ansi_concat(t, p0, prefix, digits);
    crate::ansi::lemma_run_concat(p0, prefix, digits);
    lemma_ansi_concat(t, p0, body, seq![0x6du8]);
    crate::ansi::lemma_sgr_sequence(p0, digits);
    let q = run(p0, body);
    assert(ansi_spec(t, q, seq![0x6du8]) == match step(q, 0x6du8).1 {
        Some(a) => action_spec(t, a),
        None => t,
    }) by {
        let m = seq![0x6du8];
        assert(m.drop_last() =~= Seq::<u8>::empty());
        assert(m.last() == 0x6du8);
        assert(run(q, Seq::<u8>::empty()) == q);
        assert(ansi_spec(t, q, Seq::<u8>::empty()) == t);
    }
    assert(ansi_spec(t, p0, body) == t);
    assert(ansi_spec(t, p0, bytes) == ansi_spec(t, q, seq![0x6du8]));
    let params = step(q, 0x6du8).1->Some_0->Sgr_params;
    assert(params[0] == crate::ansi::param_value(digits));
    let s = params.take(1);
    assert(s.drop_last() =~= Seq::<u16>::empty());
    assert(s.last() == params[0]);
    assert(sgr_spec(t.cfg, Seq::<u16>::empty()) == t.cfg);
    assert(sgr_spec(t.cfg, s) == sgr_one(t.cfg, params[0]));
    lemma_sgr_one_colours(t.cfg, params[0]);
    assert(ansi_spec(t, q, seq![0x6du8]) == (TermView { cfg: sgr_one(t.cfg, params[0]), ..t }));
    assert(write_spec(t, bytes) == ansi_spec(t, p0, bytes));
}

impl<'a> Terminal<'a> {
    pub fn new(fb: &'a mut Framebuffer<'a>, cfg: TerminalConfig<'a>) -> (t: Self)
        ensures
            t.cfg == cfg,
            t.fb@ == old(fb)@,
            final(fb)@ == final(t.fb)@,
    {
        Self { fb, cfg }
    }

    /// Text rows on the screen.
    pub fn rows(&self) -> (r: usize)
        requires
            self.cfg.pad.y * 2 <= usize::MAX,
            self.cfg.font.height > 0,
        ensures
            r == rows(self.view()),
    {
        self.fb.height.saturating_sub(self.cfg.pad.y * 2) / self.cfg.font.height as usize
    }

    /// Text columns on the screen.
    pub fn cols(&self) -> (c: usize)
        requires
            self.cfg.pad.x * 2 <= usize::MAX,
            self.cfg.font.width > 0,
        ensures
            c == cols(self.view()),
    {
        self.fb.width.saturating_sub(self.cfg.pad.x * 2) / self.cfg.font.width as usize
    }

    /// Scrolls the picture up by one text line.
    pub fn scroll_up(&mut self)
        requires
            scroll_ok(old(self).view().fb, old(self).cfg.font.height as usize, true),
        ensures
            final(self).view() == (TermView {
                fb: scroll_up_spec(old(self).view().fb, old(self).cfg.font.height as usize, old(self).cfg.bg),
                ..old(self).view()
            }),
    {
        self.fb.scroll_up(self.cfg.font.height as usize, self.cfg.bg);
    }

    /// Scrolls the picture down by one text line.
    pub fn scroll_down(&mut self)
        requires
            scroll_ok(old(self).view().fb, old(self).cfg.font.height as usize, false),
        ensures
            final(self).view() == (TermView {
                fb: scroll_down_spec(old(self).view().fb, old(self).cfg.font.height as usize, old(self).cfg.bg),
                ..old(self).view()
            }),
    {
        self.fb.scroll_down(self.cfg.font.height as usize, self.cfg.bg);
    }


    /// Draws the glyph of `byte` in the cursor's cell, in the foreground colour.
    fn draw_char(&mut self, byte: u8)
        requires
            draw_ok(old(self).view(), byte),
        ensures
            final(self).view() == (TermView { fb: draw_char_spec(old(self).view(), byte), ..old(self).view() }),
    {
        let ghost t0 = self.view();
        let fw = self.cfg.font.width;
        proof {
            let fwi = fw as int;
            let fhi = self.cfg.font.height as int;
            assert(self.cfg.cur.x * fwi <= cell_x(t0) - self.cfg.pad.x);
            assert(self.cfg.cur.y * fhi <= cell_y(t0) - self.cfg.pad.y);
            if fwi == 0 {
                assert(self.cfg.cur.x * fwi == 0) by (nonlinear_arith)
                    requires
                        fwi == 0,
                ;
            }
            if fhi == 0 {
                assert(self.cfg.cur.y * fhi == 0) by (nonlinear_arith)
                    requires
                        fhi == 0,
                ;
            }
        }
        let glyph = self.cfg.font.glyph(byte);
        let x = self.cfg.pad.x + self.cfg.cur.x * self.cfg.font.width as usize;
        let y = self.cfg.pad.y + self.cfg.cur.y * self.cfg.font.height as usize;
        let fg = self.cfg.fg;
        let n = glyph.len();
        let mut row: usize = 0;
        while row < n
            invariant
                n == glyph@.len(),
                glyph@ == glyph_rows(t0.cfg.font, byte),
                n == t0.cfg.font.height,
                fw == t0.cfg.font.width,
                n == 0 || fw <= 8,
                x == cell_x(t0),
                y == cell_y(t0),
                x + fw <= usize::MAX + 1,
                y + n <= usize::MAX + 1,
                fg == t0.cfg.fg,
                glyph_fits(t0.fb, glyph@, x as int, y as int, fw as nat, n as nat),
                row <= n,
                self.cfg == t0.cfg,
                self.view().fb == draw_glyph(t0.fb, glyph@, x as int, y as int, fw as nat, row as nat, fg),
            decreases n - row,
        {
            let bits = glyph[row];
            proof {
                lemma_draw_glyph_keeps(t0.fb, glyph@, x as int, y as int, fw as nat, row as nat, fg);
            }
            let ghost f0 = self.view().fb;
            let mut col: u8 = 0;
            while col < fw
                invariant
                    fw <= 8,
                    col <= fw,
                    x + fw <= usize::MAX + 1,
                    y + n <= usize::MAX + 1,
                    row < n,
                    bits == glyph@[row as int],
                    glyph_fits(t0.fb, glyph@, x as int, y as int, fw as nat, n as nat),
                    same_layout(t0.fb, f0),
                    self.cfg == t0.cfg,
                    fg == t0.cfg.fg,
                    self.view().fb == draw_row(f0, bits, x as int, (y + row) as int, col as nat, fg),
                decreases fw - col,
            {
                proof {
                    lemma_draw_row_keeps(f0, bits, x as int, (y + row) as int, col as nat, fg);
                }
                if bits & (0x80 >> col) != 0 {
                    proof {
                        assert(glyph_bit(glyph@, row as nat, col as nat));
                    }
                    self.fb.put_pixel(x + col as usize, y + row, fg);
                }
                col = col + 1;
            }
            row = row + 1;
        }
    }

    /// Whether the font can draw `byte` (`drawable`).
    fn can_draw(&self, byte: u8) -> (ok: bool)
        ensures
            ok == drawable(self.cfg.font, byte),
    {
        let h = self.cfg.font.height as usize;
        assert(byte as usize * h <= 255 * 255) by (nonlinear_arith)
            requires
                byte <= 255,
                h <= 255,
        ;
        byte as usize * h + h <= self.cfg.font.glyphs.len() && (h == 0 || self.cfg.font.width
            <= 8)
    }

    /// Whether a line feed with the cursor on row `cy` may happen
    /// (`newline_ok`), and the row it moves to.
    fn check_newline(&self, Ghost(t): Ghost<TermView<'a>>, cy: usize) -> (r: (bool, usize))
        requires
            same_setup(self.view(), t),
            cy == t.cfg.cur.y,
        ensures
            r.0 == newline_ok(t),
            r.0 ==> r.1 == newline_spec(t).cfg.cur.y,
    {
        if self.cfg.pad.y > usize::MAX / 2 || self.cfg.font.height == 0 || cy == usize::MAX {
            return (false, 0);
        }
        let nrows = self.rows();
        assert(nrows == rows(t));
        if cy + 1 >= nrows {
            if !self.fb.can_scroll(self.cfg.font.height as usize, true) {
                return (false, 0);
            }
            (true, nrows.saturating_sub(1))
        } else {
            (true, cy + 1)
        }
    }

    /// Whether drawing `byte` in the cell at column `cx`, row `cy` may happen
    /// (`draw_ok`).
    fn check_draw(&self, Ghost(t): Ghost<TermView<'a>>, cx: usize, cy: usize, byte: u8) -> (ok: bool)
        requires
            same_setup(self.view(), t),
            cx == t.cfg.cur.x,
            cy == t.cfg.cur.y,
        ensures
            ok == draw_ok(t, byte),
    {
        if !self.can_draw(byte) {
            return false;
        }
        let fw = self.cfg.font.width;
        let fh = self.cfg.font.height;
        proof {
            let fwi = fw as int;
            let fhi = fh as int;
            assert(fwi == 0 ==> cx * fwi == 0) by (nonlinear_arith);
            assert(fhi == 0 ==> cy * fhi == 0) by (nonlinear_arith);
        }
        let x = match cx.checked_mul(fw as usize) {
            Some(v) => match self.cfg.pad.x.checked_add(v) {
                Some(w) => w,
                None => return false,
            },
            None => {
                proof {
                    assert(cx * fw <= cell_x(t) - self.cfg.pad.x);
                }
                return false;
            },
        };
        let y = match cy.checked_mul(fh as usize) {
            Some(v) => match self.cfg.pad.y.checked_add(v) {
                Some(w) => w,
                None => return false,
            },
            None => {
                proof {
                    assert(cy * fh <= cell_y(t) - self.cfg.pad.y);
                }
                return false;
            },
        };
        if fw > 0 && x > usize::MAX - (fw as usize - 1) {
            return false;
        }
        if fh > 0 && y > usize::MAX - (fh as usize - 1) {
            return false;
        }
        let glyph = self.cfg.font.glyph(byte);
        let n = glyph.len();
        let mut row: usize = 0;
        while row < n
            invariant
                n == glyph@.len(),
                glyph@ == glyph_rows(t.cfg.font, byte),
                n == t.cfg.font.height,
                fw == t.cfg.font.width,
                n == 0 || fw <= 8,
                x == cell_x(t),
                y == cell_y(t),
                x + fw <= usize::MAX + 1,
                y + n <= usize::MAX + 1,
                same_setup(self.view(), t),
                row <= n,
                forall|r: nat, c: nat|
                    r < row && c < fw && #[trigger] glyph_bit(glyph@, r, c) && pixel_hit(
                        t.fb,
                        (x + c) as usize,
                        (y + r) as usize,
                    ) ==> {
                        &&& shifts_ok(t.fb)
                        &&& pixel_offset(t.fb, (x + c) as usize, (y + r) as usize) + 4 <= target(
                            t.fb,
                        ).len()
                    },
            decreases n - row,
        {
            let bits = glyph[row];
            let mut col: u8 = 0;
            while col < fw
                invariant
                    fw <= 8,
                    col <= fw,
                    row < n,
                    n == glyph@.len(),
                    glyph@ == glyph_rows(t.cfg.font, byte),
                    n == t.cfg.font.height,
                    fw == t.cfg.font.width,
                    x == cell_x(t),
                    y == cell_y(t),
                    bits == glyph@[row as int],
                    x + fw <= usize::MAX + 1,
                    y + n <= usize::MAX + 1,
                    same_setup(self.view(), t),
                    forall|r: nat, c: nat|
                        (r < row && c < fw || r == row && c < col) && #[trigger] glyph_bit(glyph@, r, c)
                            && pixel_hit(t.fb, (x + c) as usize, (y + r) as usize) ==> {
                            &&& shifts_ok(t.fb)
                            &&& pixel_offset(t.fb, (x + c) as usize, (y + r) as usize) + 4
                                <= target(t.fb).len()
                        },
                decreases fw - col,
            {
                if bits & (0x80 >> col) != 0 {
                    let px = x + col as usize;
                    let py = y + row;
                    proof {
                        assert(glyph_bit(glyph@, row as nat, col as nat));
                    }
                    if !self.fb.can_put_pixel(px, py) {
                        proof {
                            let r = row as nat;
                            let c = col as nat;
                            assert(glyph_bit(glyph@, r, c));
                            assert((x + c) as usize == px && (y + r) as usize == py);
                            assert(!glyph_fits(t.fb, glyph@, x as int, y as int, fw as nat, n as nat));
                        }
                        return false;
                    }
                }
                col = col + 1;
            }
            row = row + 1;
        }
        true
    }

    /// Whether showing `byte` with the cursor at `(cx, cy)` may happen
    /// (`print_ok`), and where the cursor goes.
    fn check_print(&self, Ghost(t): Ghost<TermView<'a>>, cx: usize, cy: usize, byte: u8) -> (r: (
        bool,
        usize,
        usize,
    ))
        requires
            same_setup(self.view(), t),
            cx == t.cfg.cur.x,
            cy == t.cfg.cur.y,
        ensures
            r.0 == print_ok(t, byte),
            r.0 ==> r.1 == print_spec(t, byte).cfg.cur.x && r.2 == print_spec(t, byte).cfg.cur.y,
    {
        if byte == 0x0a {
            let (ok, y) = self.check_newline(Ghost(t), cy);
            return (ok, 0, y);
        }
        if byte == 0x0d {
            return (true, 0, cy);
        }
        if self.cfg.pad.x > usize::MAX / 2 || self.cfg.font.width == 0 {
            return (false, 0, 0);
        }
        let ncols = self.cols();
        assert(ncols == cols(t));
        let ghost t1 = wrapped(t);
        let mut x = cx;
        let mut y = cy;
        if cx >= ncols {
            let (ok, ny) = self.check_newline(Ghost(t), cy);
            if !ok {
                return (false, 0, 0);
            }
            x = 0;
            y = ny;
        }
        proof {
            lemma_scroll_keeps(t.fb, t.cfg.font.height as usize, t.cfg.bg);
        }
        if !self.check_draw(Ghost(t1), x, y, byte) {
            return (false, 0, 0);
        }
        if x == usize::MAX {
            return (false, 0, 0);
        }
        (true, x + 1, y)
    }

    /// Whether `write(text)` may be called now (`write_ok`): no step of it
    /// overflows, divides by zero or leaves a buffer.
    pub fn can_write(&self, text: &str) -> (ok: bool)
        ensures
            ok == write_ok(self.view(), text.spec_bytes()),
    {
        let ghost t0 = self.view();
        let bytes = text.as_bytes();
        let n = bytes.len();
        let mut i: usize = 0;
        let mut cx = self.cfg.cur.x;
        let mut cy = self.cfg.cur.y;
        let ghost mut t = t0;
        if !self.cfg.ansi {
            while i < n
                invariant
                    n == bytes@.len(),
                    bytes@ == text.spec_bytes(),
                    t0 == self.view(),
                    !t0.cfg.ansi,
                    i <= n,
                    t == plain_spec(t0, bytes@.take(i as int)),
                    plain_ok(t0, bytes@.take(i as int)),
                    same_setup(t0, t),
                    cx == t.cfg.cur.x,
                    cy == t.cfg.cur.y,
                decreases n - i,
            {
                proof {
                    assert(bytes@.take(i + 1).drop_last() =~= bytes@.take(i as int));
                }
                let b = bytes[i];
                let (ok, nx, ny) = self.check_print(Ghost(t), cx, cy, b);
                if !ok {
                    proof {
                        if plain_ok(t0, bytes@) {
                            lemma_plain_ok_prefix(t0, bytes@, i + 1);
                        }
                    }
                    return false;
                }
                proof {
                    lemma_print_setup(t, b);
                    t = print_spec(t, b);
                }
                cx = nx;
                cy = ny;
                i = i + 1;
            }
            assert(bytes@.take(n as int) =~= bytes@);
            return true;
        }
        let mut parser = Parser::new();
        assert(parser@.params =~= init_parser().params);
        while i < n
            invariant
                n == bytes@.len(),
                bytes@ == text.spec_bytes(),
                t0 == self.view(),
                t0.cfg.ansi,
                i <= n,
                parser@ == run(init_parser(), bytes@.take(i as int)),
                t == ansi_spec(t0, init_parser(), bytes@.take(i as int)),
                ansi_ok(t0, init_parser(), bytes@.take(i as int)),
                same_setup(t0, t),
                cx == t.cfg.cur.x,
                cy == t.cfg.cur.y,
            decreases n - i,
        {
            proof {
                assert(bytes@.take(i + 1).drop_last() =~= bytes@.take(i as int));
            }
            let b = bytes[i];
            let action = parser.advance(b);
            match action {
                Some(Action::Print(c)) => {
                    let (ok, nx, ny) = self.check_print(Ghost(t), cx, cy, c);
                    if !ok {
                        proof {
                            if ansi_ok(t0, init_parser(), bytes@) {
                                lemma_ansi_ok_prefix(t0, init_parser(), bytes@, i + 1);
                            }
                        }
                        return false;
                    }
                    cx = nx;
                    cy = ny;
                },
                Some(Action::CursorPosition { params, len }) => {
                    if len >= 1 {
                        assert(params@.take(len as int)[0] == params@[0]);
                        cy = params[0] as usize;
                    }
                    if len >= 2 {
                        assert(params@.take(len as int)[1] == params@[1]);
                        cx = params[1] as usize;
                    }
                },
                _ => {},
            }
            proof {
                match action_view(action) {
                    Some(a) => {
                        lemma_action_setup(t, a);
                        t = action_spec(t, a);
                    },
                    None => {},
                }
            }
            i = i + 1;
        }
        assert(bytes@.take(n as int) =~= bytes@);
        true
    }

    /// Shows one byte (see `print_spec`).
    fn print_byte(&mut self, byte: u8)
        requires
            print_ok(old(self).view(), byte),
        ensures
            final(self).view() == print_spec(old(self).view(), byte),
    {
        if byte == 0x0a {
            self.newline();
        } else if byte == 0x0d {
            self.cfg.cur.x = 0;
        } else {
            if self.cfg.cur.x >= self.cols() {
                self.newline();
            }
            self.draw_char(byte);
            self.cfg.cur.x = self.cfg.cur.x + 1;
        }
    }

    /// Shows the text with no escape sequences.
    fn write_plain(&mut self, text: &str)
        requires
            plain_ok(old(self).view(), text.spec_bytes()),
        ensures
            final(self).view() == plain_spec(old(self).view(), text.spec_bytes()),
    {
        let ghost t0 = self.view();
        let bytes = text.as_bytes();
        let n = bytes.len();
        let mut i: usize = 0;
        while i < n
            invariant
                n == bytes@.len(),
                bytes@ == text.spec_bytes(),
                i <= n,
                plain_ok(t0, bytes@),
                self.view() == plain_spec(t0, bytes@.take(i as int)),
            decreases n - i,
        {
            proof {
                lemma_plain_ok_prefix(t0, bytes@, i + 1);
                assert(bytes@.take(i + 1).drop_last() =~= bytes@.take(i as int));
            }
            let b = bytes[i];
            self.print_byte(b);
            i = i + 1;
        }
        assert(bytes@.take(n as int) =~= bytes@);
    }

    /// Applies SGR parameters (colours).
    fn handle_sgr(&mut self, params: &[u16])
        ensures
            final(self).view() == (TermView { cfg: sgr_spec(old(self).cfg, params@), ..old(self).view() }),
    {
        let ghost t0 = self.view();
        let n = params.len();
        let mut i: usize = 0;
        while i < n
            invariant
                n == params@.len(),
                i <= n,
                self.view() == (TermView { cfg: sgr_spec(t0.cfg, params@.take(i as int)), ..t0 }),
            decreases n - i,
        {
            proof {
                assert(params@.take(i + 1).drop_last() =~= params@.take(i as int));
            }
            let param = params[i];
            match param {
                0 => {
                    self.cfg.fg = Color::white();
                    self.cfg.bg = Color::black();
                },
                30 => self.cfg.fg = Color::black(),
                31 => self.cfg.fg = Color::red(),
                32 => self.cfg.fg = Color::green(),
                33 => self.cfg.fg = Color::yellow(),
                34 => self.cfg.fg = Color::blue(),
                35 => self.cfg.fg = Color::magenta(),
                36 => self.cfg.fg = Color::cyan(),
                37 => self.cfg.fg = Color::white(),
                40 => self.cfg.bg = Color::black(),
                41 => self.cfg.bg = Color::red(),
                42 => self.cfg.bg = Color::green(),
                43 => self.cfg.bg = Color::yellow(),
                44 => self.cfg.bg = Color::blue(),
                45 => self.cfg.bg = Color::magenta(),
                46 => self.cfg.bg = Color::cyan(),
                47 => self.cfg.bg = Color::white(),
                _ => {},
            }
            i = i + 1;
        }
        assert(params@.take(n as int) =~= params@);
    }

    /// Moves the cursor to the row and column the parameters give.
    fn handle_cursor_position(&mut self, params: &[u16])
        ensures
            final(self).view() == (TermView {
                cfg: cursor_position_spec(old(self).cfg, params@),
                ..old(self).view()
            }),
    {
        if params.len() >= 1 {
            let row = params[0];
            self.cfg.cur.y = row as usize;
        }
        if params.len() >= 2 {
            let col = params[1];
            self.cfg.cur.x = col as usize;
        }
    }


    /// Carries out a parser action.
    fn handle_action(&mut self, action: Action)
        requires
            action_ok(old(self).view(), Some(action.view())),
            action matches Action::Sgr { len, .. } ==> len <= 16,
            action matches Action::CursorPosition { len, .. } ==> len <= 16,
        ensures
            final(self).view() == action_spec(old(self).view(), action.view()),
    {
        match action {
            Action::Print(byte) => {
                self.print_byte(byte);
            },
            Action::Sgr { params, len } => {
                let p = &params[0..len];
                assert(p@ =~= params@.take(len as int));
                self.handle_sgr(p);
            },
            Action::CursorPosition { params, len } => {
                let p = &params[0..len];
                assert(p@ =~= params@.take(len as int));
                self.handle_cursor_position(p);
            },
        }
    }

    /// Writes text: as it is, or, with ANSI on, read through a new parser
    /// that carries out SGR and cursor-position sequences.
    pub fn write(&mut self, text: &str)
        requires
            write_ok(old(self).view(), text.spec_bytes()),
        ensures
            final(self).view() == write_spec(old(self).view(), text.spec_bytes()),
            same_setup(old(self).view(), final(self).view()),
    {
        proof {
            if self.cfg.ansi {
                lemma_ansi_setup(self.view(), init_parser(), text.spec_bytes());
            } else {
                lemma_plain_setup(self.view(), text.spec_bytes());
            }
        }
        if !self.cfg.ansi {
            self.write_plain(text);
            return;
        }
        let ghost t0 = self.view();
        let mut parser = Parser::new();
        assert(parser@.params =~= init_parser().params);
        let bytes = text.as_bytes();
        let n = bytes.len();
        let mut i: usize = 0;
        while i < n
            invariant
                n == bytes@.len(),
                bytes@ == text.spec_bytes(),
                i <= n,
                ansi_ok(t0, init_parser(), bytes@),
                parser@ == run(init_parser(), bytes@.take(i as int)),
                parser_valid(parser@),
                self.view() == ansi_spec(t0, init_parser(), bytes@.take(i as int)),
            decreases n - i,
        {
            proof {
                assert(bytes@.take(i + 1).drop_last() =~= bytes@.take(i as int));
                lemma_ansi_ok_prefix(t0, init_parser(), bytes@, i + 1);
            }
            let b = bytes[i];
            match parser.advance(b) {
                Some(action) => {
                    self.handle_action(action);
                },
                None => {},
            }
            i = i + 1;
        }
        assert(bytes@.take(n as int) =~= bytes@);
    }

    fn newline(&mut self)
        requires
            newline_ok(old(self).view()),
        ensures
            final(self).view() == newline_spec(old(self).view()),
    {
        self.cfg.cur.x = 0;
        self.cfg.cur.y = self.cfg.cur.y + 1;
        let rows = self.rows();
        if self.cfg.cur.y >= rows {
            self.cfg.cur.y = rows.saturating_sub(1);
            self.scroll_up();
        }
    }
}

} // verus!
