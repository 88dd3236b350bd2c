use vstd::prelude::*;

pub use crate::color::Color;

verus! {

/// The layout of a linear framebuffer, as the bootloader reports it.
#[derive(Debug, Clone, Copy)]
pub struct FramebufferInfo {
    pub width: usize,
    pub height: usize,
    pub pitch: usize,
    pub bpp: usize,
    pub red_mask_shift: u8,
    pub green_mask_shift: u8,
    pub blue_mask_shift: u8,
}

/// A linear framebuffer with an optional back buffer.
///
/// `front` is the visible memory, `pitch * height` bytes. While the back
/// buffer is enabled, drawing goes to the back buffer and `present` copies it
/// to the screen.
pub struct Framebuffer<'a> {
    pub front: &'a mut [u8],
    pub width: usize,
    pub height: usize,
    pub pitch: usize,
    pub bpp: usize,
    pub red_mask_shift: u8,
    pub green_mask_shift: u8,
    pub blue_mask_shift: u8,
    pub back: BackBuffer,
}

/// The back buffer and the machine's byte order, which only the
/// framebuffer's own methods change.
pub struct BackBuffer {
    buf: Vec<u8>,
    enabled: bool,
    little_endian: bool,
}

impl BackBuffer {
    pub closed spec fn data(&self) -> Seq<u8> {
        self.buf@
    }

    pub closed spec fn enabled(&self) -> bool {
        self.enabled
    }

    pub closed spec fn little_endian(&self) -> bool {
        self.little_endian
    }
}

/// A framebuffer as mathematical values.
pub struct FbView {
    pub width: usize,
    pub height: usize,
    pub pitch: usize,
    pub bpp: usize,
    pub red_shift: u8,
    pub green_shift: u8,
    pub blue_shift: u8,
    /// Whether pixels are stored least significant byte first.
    pub little_endian: bool,
    pub front: Seq<u8>,
    pub back: Seq<u8>,
    pub back_enabled: bool,
}

impl<'a> View for Framebuffer<'a> {
    type V = FbView;

    open spec fn view(&self) -> FbView {
        FbView {
            width: self.width,
            height: self.height,
            pitch: self.pitch,
            bpp: self.bpp,
            red_shift: self.red_mask_shift,
            green_shift: self.green_mask_shift,
            blue_shift: self.blue_mask_shift,
            little_endian: self.back.little_endian(),
            front: self.front@,
            back: self.back.data(),
            back_enabled: self.back.enabled(),
        }
    }
}

/// The number of bytes of one screen.
pub open spec fn screen_size(v: FbView) -> int {
    v.height * v.pitch
}

/// Both buffers hold exactly one screen.
pub open spec fn fb_wf(v: FbView) -> bool {
    &&& screen_size(v) <= usize::MAX
    &&& v.front.len() == screen_size(v)
    &&& v.back.len() == screen_size(v)
}

/// The channel shifts fit a 32-bit pixel.
pub open spec fn shifts_ok(v: FbView) -> bool {
    v.red_shift < 32 && v.green_shift < 32 && v.blue_shift < 32
}

/// The 32-bit pixel value of a colour (alpha is not stored).
pub open spec fn pixel_value(v: FbView, c: Color) -> u32 {
    ((c.r as u32) << v.red_shift) | ((c.g as u32) << v.green_shift) | ((c.b as u32) << v.blue_shift)
}

pub open spec fn le_bytes(p: u32) -> Seq<u8> {
    seq![(p & 0xff) as u8, ((p >> 8) & 0xff) as u8, ((p >> 16) & 0xff) as u8, ((p >> 24) & 0xff) as u8]
}

pub open spec fn be_bytes(p: u32) -> Seq<u8> {
    seq![((p >> 24) & 0xff) as u8, ((p >> 16) & 0xff) as u8, ((p >> 8) & 0xff) as u8, (p & 0xff) as u8]
}

/// The four bytes that store a pixel in memory.
pub open spec fn pixel_bytes(p: u32, little_endian: bool) -> Seq<u8> {
    if little_endian {
        le_bytes(p)
    } else {
        be_bytes(p)
    }
}

/// The pixel value stored in four bytes.
pub open spec fn pixel_from_bytes(b: Seq<u8>, little_endian: bool) -> u32 {
    if little_endian {
        (b[0] as u32) | ((b[1] as u32) << 8) | ((b[2] as u32) << 16) | ((b[3] as u32) << 24)
    } else {
        (b[3] as u32) | ((b[2] as u32) << 8) | ((b[1] as u32) << 16) | ((b[0] as u32) << 24)
    }
}

/// `s` with `b` written at `off`.
pub open spec fn write_bytes(s: Seq<u8>, off: int, b: Seq<u8>) -> Seq<u8> {
    Seq::new(s.len(), |i: int| if off <= i < off + b.len() { b[i - off] } else { s[i] })
}

/// `s` with `chunks` copies of the four bytes `b` written from `start` on.
pub open spec fn fill_chunks(s: Seq<u8>, start: int, chunks: int, b: Seq<u8>) -> Seq<u8> {
    Seq::new(
        s.len(),
        |i: int| if start <= i < start + 4 * chunks { b[(i - start) % 4] } else { s[i] },
    )
}

/// `s` with the bytes of `src..end` copied to `dst` (as `copy_within`).
pub open spec fn moved(s: Seq<u8>, src: int, end: int, dst: int) -> Seq<u8> {
    Seq::new(
        s.len(),
        |i: int| if dst <= i < dst + (end - src) { s[src + (i - dst)] } else { s[i] },
    )
}

/// Whether `put_pixel` draws at `(x, y)`.
pub open spec fn pixel_hit(v: FbView, x: usize, y: usize) -> bool {
    x < v.width && y < v.height && v.bpp == 32
}

/// Where the pixel `(x, y)` starts in a buffer.
pub open spec fn pixel_offset(v: FbView, x: usize, y: usize) -> int {
    y * v.pitch + x * 4
}

/// The bytes that a colour is stored as.
pub open spec fn color_bytes(v: FbView, c: Color) -> Seq<u8> {
    pixel_bytes(pixel_value(v, c), v.little_endian)
}

/// The buffer that drawing goes to.
pub open spec fn target(v: FbView) -> Seq<u8> {
    if v.back_enabled {
        v.back
    } else {
        v.front
    }
}

/// `v` with the buffer that drawing goes to replaced by `s`.
pub open spec fn with_target(v: FbView, s: Seq<u8>) -> FbView {
    if v.back_enabled {
        FbView { back: s, ..v }
    } else {
        FbView { front: s, ..v }
    }
}

pub open spec fn put_pixel_spec(v: FbView, x: usize, y: usize, c: Color) -> FbView {
    if pixel_hit(v, x, y) {
        with_target(v, write_bytes(target(v), pixel_offset(v, x, y), color_bytes(v, c)))
    } else {
        v
    }
}

pub open spec fn present_spec(v: FbView) -> FbView {
    if v.back_enabled {
        FbView {
            front: Seq::new(v.front.len(), |i: int| if i < v.back.len() { v.back[i] } else { v.front[i] }),
            ..v
        }
    } else {
        v
    }
}

pub open spec fn clear_spec(v: FbView, c: Color) -> FbView {
    if v.bpp == 32 {
        FbView { back: fill_chunks(v.back, 0, (v.back.len() / 4) as int, color_bytes(v, c)), ..v }
    } else {
        v
    }
}

/// What scrolling up by `pixels` rows does.
pub open spec fn scroll_up_spec(v: FbView, pixels: usize, c: Color) -> FbView {
    let offset = pixels * v.pitch;
    let size = screen_size(v);
    if offset >= size {
        v
    } else if v.back_enabled {
        let s = moved(v.back, offset, size, 0);
        FbView {
            back: fill_chunks(s, size - offset, (v.back.len() - (size - offset)) / 4, color_bytes(v, c)),
            ..v
        }
    } else {
        let s = moved(v.front, offset, size, 0);
        FbView { front: fill_chunks(s, size - offset, (offset + 3) / 4, color_bytes(v, c)), ..v }
    }
}

/// What scrolling down by `pixels` rows does.
pub open spec fn scroll_down_spec(v: FbView, pixels: usize, c: Color) -> FbView {
    let offset = pixels * v.pitch;
    let size = screen_size(v);
    if offset >= size {
        v
    } else if v.back_enabled {
        let s = moved(v.back, 0, size - offset, offset);
        FbView { back: fill_chunks(s, 0, offset / 4, color_bytes(v, c)), ..v }
    } else {
        let s = moved(v.front, 0, size - offset, offset);
        FbView { front: fill_chunks(s, 0, (offset + 3) / 4, color_bytes(v, c)), ..v }
    }
}

/// What a scroll by `pixels` rows needs: no overflow in `pixels * pitch` or
/// `height * pitch`, and, when it moves anything, shifts that fit a pixel and
/// a buffer drawn to that holds the screen and the fill.
pub open spec fn scroll_ok(v: FbView, pixels: usize, up: bool) -> bool {
    let offset = pixels * v.pitch;
    let size = screen_size(v);
    &&& offset <= usize::MAX
    &&& size <= usize::MAX
    &&& offset < size ==> {
        &&& shifts_ok(v)
        &&& if v.back_enabled {
            size <= v.back.len()
        } else {
            &&& size <= v.front.len()
            &&& if up {
                size - offset + 4 * ((offset + 3) / 4) <= v.front.len()
            } else {
                4 * ((offset + 3) / 4) <= v.front.len()
            }
        }
    }
}

/// Reading the four bytes of a stored pixel gives the pixel back, in either
/// byte order.
pub proof fn lemma_pixel_bytes_roundtrip(p: u32, little_endian: bool)
    ensures
        pixel_bytes(p, little_endian).len() == 4,
        pixel_from_bytes(pixel_bytes(p, little_endian), little_endian) == p,
{
    let b = pixel_bytes(p, little_endian);
    let b0 = (p & 0xff) as u8;
    let b1 = ((p >> 8) & 0xff) as u8;
    let b2 = ((p >> 16) & 0xff) as u8;
    let b3 = ((p >> 24) & 0xff) as u8;
    assert((b0 as u32) | ((b1 as u32) << 8) | ((b2 as u32) << 16) | ((b3 as u32) << 24) == p)
        by (bit_vector)
        requires
            b0 == (p & 0xff) as u8,
            b1 == ((p >> 8) & 0xff) as u8,
            b2 == ((p >> 16) & 0xff) as u8,
            b3 == ((p >> 24) & 0xff) as u8,
    ;
    if little_endian {
        assert(b[0] == b0 && b[1] == b1 && b[2] == b2 && b[3] == b3);
    } else {
        assert(b[3] == b0 && b[2] == b1 && b[1] == b2 && b[0] == b3);
    }
}

/// On a 32-bit screen, after `put_pixel` draws at `(x, y)`, the four bytes
/// at `y * pitch + x * 4` in the buffer drawn to hold the colour's pixel
/// value (red, green and blue shifted to their places), every other byte of
/// that buffer is unchanged, and so is the other buffer.
pub proof fn lemma_put_pixel_reads_back(v: FbView, x: usize, y: usize, c: Color)
    requires
        fb_wf(v),
        x < v.width,
        y < v.height,
        v.bpp == 32,
        y * v.pitch + x * 4 + 4 <= screen_size(v),
    ensures
        ({
            let w = put_pixel_spec(v, x, y, c);
            let off = y * v.pitch + x * 4;
            &&& pixel_from_bytes(target(w).subrange(off, off + 4), v.little_endian) == ((c.r as u32)
                << v.red_shift) | ((c.g as u32) << v.green_shift) | ((c.b as u32) << v.blue_shift)
            &&& forall|i: int|
                0 <= i < target(v).len() && !(off <= i < off + 4) ==> #[trigger] target(w)[i]
                    == target(v)[i]
            &&& if v.back_enabled {
                w.front == v.front
            } else {
                w.back == v.back
            }
        }),
{
    let w = put_pixel_spec(v, x, y, c);
    let off = pixel_offset(v, x, y);
    lemma_pixel_bytes_roundtrip(pixel_value(v, c), v.little_endian);
    assert(target(w).subrange(off, off + 4) =~= color_bytes(v, c));
}

/// `put_pixel` outside the screen, or on a framebuffer without 32 bits per
/// pixel, changes nothing.
pub proof fn lemma_put_pixel_off_screen(v: FbView, x: usize, y: usize, c: Color)
    requires
        x >= v.width || y >= v.height || v.bpp != 32,
    ensures
        put_pixel_spec(v, x, y, c) == v,
{
}

/// At 32 bits per pixel, clearing fills the back buffer with the colour's
/// pixel bytes, four bytes after four bytes, up to its last whole chunk of
/// four; the screen and the rest stay. At another depth nothing changes.
pub proof fn lemma_clear_fills_back(v: FbView, c: Color)
    ensures
        ({
            let w = clear_spec(v, c);
            &&& w == (FbView { back: w.back, ..v })
            &&& w.back.len() == v.back.len()
            &&& v.bpp != 32 ==> w == v
            &&& v.bpp == 32 ==> forall|i: int|
                0 <= i < 4 * (v.back.len() / 4) ==> #[trigger] w.back[i] == color_bytes(v, c)[i % 4]
            &&& forall|i: int|
                4 * (v.back.len() / 4) <= i < v.back.len() ==> #[trigger] w.back[i] == v.back[i]
        }),
{
}

/// With the back buffer enabled, `present` makes the screen show exactly the
/// back buffer.
pub proof fn lemma_present_shows_back(v: FbView)
    requires
        fb_wf(v),
        v.back_enabled,
    ensures
        present_spec(v).front == v.back,
        present_spec(v).back == v.back,
{
    assert(present_spec(v).front =~= v.back);
}

/// With the back buffer disabled, `present` changes nothing.
pub proof fn lemma_present_without_back(v: FbView)
    requires
        !v.back_enabled,
    ensures
        present_spec(v) == v,
{
}

/// The bytes of a value in the byte order of the machine running the code
/// (`vstd::endian::endianness`).
pub open spec fn native_order_bytes(v: u32) -> Seq<u8> {
    match vstd::endian::endianness() {
        vstd::endian::Endian::Little => le_bytes(v),
        vstd::endian::Endian::Big => be_bytes(v),
    }
}

/// With the back buffer enabled and holding one screen, and rows a whole
/// number of four-byte chunks, scrolling up by `a` rows and then by `b` rows
/// is scrolling up by `a + b` rows, while `a + b` rows leave some of the
/// screen.
pub proof fn lemma_scroll_up_composes(v: FbView, a: usize, b: usize, c: Color)
    requires
        v.back_enabled,
        v.back.len() == screen_size(v),
        v.pitch % 4 == 0,
        a + b < v.height,
    ensures
        scroll_up_spec(scroll_up_spec(v, a, c), b, c) == scroll_up_spec(v, (a + b) as usize, c),
{
    let p = v.pitch as int;
    let h = v.height as int;
    let ai = a as int;
    let bi = b as int;
    if p == 0 {
        assert(ai * p == 0 && bi * p == 0 && (ai + bi) * p == 0 && h * p == 0) by (nonlinear_arith)
            requires
                p == 0,
        ;
        return;
    }
    let size = h * p;
    let oa = ai * p;
    let ob = bi * p;
    let o = (ai + bi) * p;
    assert(o == oa + ob && o < size && oa >= 0 && ob >= 0) by (nonlinear_arith)
        requires
            o == (ai + bi) * p,
            oa == ai * p,
            ob == bi * p,
            size == h * p,
            ai + bi < h,
            p > 0,
            ai >= 0,
            bi >= 0,
    ;
    let k = p / 4;
    assert(p == 4 * k);
    assert(oa == (ai * k) * 4 && ob == (bi * k) * 4) by (nonlinear_arith)
        requires
            oa == ai * p,
            ob == bi * p,
            p == 4 * k,
    ;
    vstd::arithmetic::div_mod::lemma_mod_multiples_basic(ai * k, 4);
    vstd::arithmetic::div_mod::lemma_mod_multiples_basic(bi * k, 4);
    let bytes = color_bytes(v, c);
    let v1 = scroll_up_spec(v, a, c);
    let v2 = scroll_up_spec(v1, b, c);
    let w = scroll_up_spec(v, (a + b) as usize, c);
    assert(v1.back.len() == size);
    assert forall|i: int| 0 <= i < size implies #[trigger] v2.back[i] == w.back[i] by {
        if i >= size - ob {
            let x = i - (size - ob);
            assert((x + oa) % 4 == x % 4);
            assert(i - (size - o) == x + oa);
        }
    }
    assert(v2.back =~= w.back);
}

/// Scrolling down by `pixels` rows, with `offset = pixels * pitch` bytes
/// inside the screen and a whole number of four-byte chunks: in the buffer
/// drawn to, the bytes from `offset` on are the old bytes from the start,
/// the first `offset` bytes hold the colour's pixel bytes over and over, and
/// nothing else of the framebuffer changes. This holds for the back buffer
/// as for the screen.
pub proof fn lemma_scroll_down_moves_picture(v: FbView, pixels: usize, c: Color)
    requires
        fb_wf(v),
        pixels * v.pitch < screen_size(v),
        (pixels * v.pitch) % 4 == 0,
    ensures
        ({
            let w = scroll_down_spec(v, pixels, c);
            let offset = pixels * v.pitch;
            &&& w == with_target(v, target(w))
            &&& target(w).len() == screen_size(v)
            &&& forall|i: int| 0 <= i < offset ==> #[trigger] target(w)[i] == color_bytes(v, c)[i % 4]
            &&& forall|i: int| offset <= i < screen_size(v) ==> #[trigger] target(w)[i] == target(v)[i - offset]
        }),
{
    let offset = pixels * v.pitch;
    assert((offset + 3) / 4 == offset / 4);
    assert(4 * (offset / 4) == offset);
}

/// Scrolling up by `pixels` rows, with `offset = pixels * pitch` bytes
/// inside the screen and a whole number of four-byte chunks: in the buffer
/// drawn to, the bytes before `size - offset` are the old bytes from
/// `offset` on, the last `offset` bytes hold the colour's pixel bytes over
/// and over, and nothing else of the framebuffer changes. This holds for the
/// back buffer as for the screen.
pub proof fn lemma_scroll_up_moves_picture(v: FbView, pixels: usize, c: Color)
    requires
        fb_wf(v),
        pixels * v.pitch < screen_size(v),
        (pixels * v.pitch) % 4 == 0,
    ensures
        ({
            let w = scroll_up_spec(v, pixels, c);
            let offset = pixels * v.pitch;
            let size = screen_size(v);
            &&& w == with_target(v, target(w))
            &&& target(w).len() == size
            &&& forall|i: int| 0 <= i < size - offset ==> #[trigger] target(w)[i] == target(v)[i + offset]
            &&& forall|i: int| size - offset <= i < size ==> #[trigger] target(w)[i] == color_bytes(
                v,
                c,
            )[(i - (size - offset)) % 4]
        }),
{
    let offset = pixels * v.pitch;
    assert((offset + 3) / 4 == offset / 4);
    assert(4 * (offset / 4) == offset);
}

/// `u32::to_ne_bytes`: the value's bytes in the machine's native byte order.
#[verifier::external_body]
fn native_bytes(v: u32) -> (b: [u8; 4])
    ensures
        b@ == native_order_bytes(v),
{
    v.to_ne_bytes()
}

/// Whether the machine stores integers least significant byte first.
fn native_little_endian() -> (r: bool)
    ensures
        r == (vstd::endian::endianness() is Little),
{
    let probe = native_bytes(1);
    proof {
        let one: u32 = 1;
        assert((one & 0xff) as u8 == 1 && ((one >> 24) & 0xff) as u8 == 0) by (bit_vector)
            requires
                one == 1,
        ;
    }
    probe[0] == 1
}

/// Copies `buf[src..end]` to `buf[dst..]`; the ranges may overlap.
fn copy_within(buf: &mut [u8], src: usize, end: usize, dst: usize)
    requires
        src <= end <= old(buf)@.len(),
        dst + (end - src) <= old(buf)@.len(),
    ensures
        final(buf)@ == moved(old(buf)@, src as int, end as int, dst as int),
{
    let n = end - src;
    let ghost s = buf@;
    if dst <= src {
        let mut i: usize = 0;
        while i < n
            invariant
                n == end - src,
                src <= end <= s.len(),
                dst + n <= s.len(),
                dst <= src,
                i <= n,
                buf@.len() == s.len(),
                forall|k: int|
                    0 <= k < s.len() ==> #[trigger] buf@[k] == (if dst <= k < dst + i {
                        s[src + (k - dst)]
                    } else {
                        s[k]
                    }),
            decreases n - i,
        {
            let b = buf[src + i];
            buf[dst + i] = b;
            i = i + 1;
        }
    } else {
        let mut i: usize = n;
        while i > 0
            invariant
                n == end - src,
                src <= end <= s.len(),
                dst + n <= s.len(),
                dst > src,
                i <= n,
                buf@.len() == s.len(),
                forall|k: int|
                    0 <= k < s.len() ==> #[trigger] buf@[k] == (if dst + i <= k < dst + n {
                        s[src + (k - dst)]
                    } else {
                        s[k]
                    }),
            decreases i,
        {
            let b = buf[src + i - 1];
            buf[dst + i - 1] = b;
            i = i - 1;
        }
    }
    assert(buf@ =~= moved(s, src as int, end as int, dst as int));
}

/// Writes `chunks` copies of `bytes` from `start` on.
fn fill(buf: &mut [u8], start: usize, chunks: usize, bytes: [u8; 4])
    requires
        start + 4 * chunks <= old(buf)@.len(),
    ensures
        final(buf)@ == fill_chunks(old(buf)@, start as int, chunks as int, bytes@),
{
    let ghost s = buf@;
    let len = buf.len();
    let mut c: usize = 0;
    while c < chunks
        invariant
            len == s.len(),
            start + 4 * chunks <= s.len(),
            c <= chunks,
            buf@.len() == s.len(),
            forall|k: int|
                0 <= k < s.len() ==> #[trigger] buf@[k] == (if start <= k < start + 4 * c {
                    bytes@[(k - start) % 4]
                } else {
                    s[k]
                }),
        decreases chunks - c,
    {
        let base = start + 4 * c;
        buf[base] = bytes[0];
        buf[base + 1] = bytes[1];
        buf[base + 2] = bytes[2];
        buf[base + 3] = bytes[3];
        assert forall|k: int| 0 <= k < s.len() implies #[trigger] buf@[k] == (if start <= k < start
            + 4 * (c + 1) {
            bytes@[(k - start) % 4]
        } else {
            s[k]
        }) by {
            if base <= k < base + 4 {
                assert((k - start) % 4 == k - base);
            }
        }
        c = c + 1;
    }
    assert(buf@ =~= fill_chunks(s, start as int, chunks as int, bytes@));
}

/// Writes four bytes at `off`.
fn write4(buf: &mut [u8], off: usize, bytes: [u8; 4])
    requires
        off + 4 <= old(buf)@.len(),
    ensures
        final(buf)@ == write_bytes(old(buf)@, off as int, bytes@),
{
    let ghost s = buf@;
    buf[off] = bytes[0];
    buf[off + 1] = bytes[1];
    buf[off + 2] = bytes[2];
    buf[off + 3] = bytes[3];
    assert(buf@ =~= write_bytes(s, off as int, bytes@));
}

impl<'a> Framebuffer<'a> {
    /// A framebuffer drawing to `front`, with a cleared back buffer of one
    /// screen that is not enabled.
    pub fn new(front: &'a mut [u8], info: FramebufferInfo) -> (fb: Self)
        requires
            info.pitch * info.height <= usize::MAX,
        ensures
            fb@.width == info.width,
            fb@.height == info.height,
            fb@.pitch == info.pitch,
            fb@.bpp == info.bpp,
            fb@.red_shift == info.red_mask_shift,
            fb@.green_shift == info.green_mask_shift,
            fb@.blue_shift == info.blue_mask_shift,
            fb@.front == old(front)@,
            fb@.back == Seq::new((info.height * info.pitch) as nat, |i: int| 0u8),
            !fb@.back_enabled,
            fb@.little_endian == (vstd::endian::endianness() is Little),
    {
        let size = info.pitch * info.height;
        assert(info.pitch * info.height == info.height * info.pitch) by (nonlinear_arith);
        let back_buf = vec![0u8; size];
        assert(back_buf@ =~= Seq::new(size as nat, |i: int| 0u8));
        Self {
            front,
            width: info.width,
            height: info.height,
            pitch: info.pitch,
            bpp: info.bpp,
            red_mask_shift: info.red_mask_shift,
            green_mask_shift: info.green_mask_shift,
            blue_mask_shift: info.blue_mask_shift,
            back: BackBuffer { buf: back_buf, enabled: false, little_endian: native_little_endian() },
        }
    }

    /// Whether both buffers hold exactly one screen (`fb_wf`).
    pub fn is_consistent(&self) -> (b: bool)
        ensures
            b == fb_wf(self@),
    {
        match self.height.checked_mul(self.pitch) {
            Some(size) => self.front.len() == size && self.back.buf.len() == size,
            None => false,
        }
    }

    /// How many bytes the buffer that drawing goes to holds.
    pub fn target_len(&self) -> (n: usize)
        ensures
            n == target(self@).len(),
    {
        if self.back.enabled {
            self.back.buf.len()
        } else {
            self.front.len()
        }
    }

    /// Whether `put_pixel(x, y, _)` may be called: a pixel it draws has
    /// shifts that fit and lies inside the buffer drawn to.
    pub fn can_put_pixel(&self, x: usize, y: usize) -> (ok: bool)
        ensures
            ok == (pixel_hit(self@, x, y) ==> {
                &&& shifts_ok(self@)
                &&& pixel_offset(self@, x, y) + 4 <= target(self@).len()
            }),
    {
        if x >= self.width || y >= self.height || self.bpp != 32 {
            return true;
        }
        if !(self.red_mask_shift < 32 && self.green_mask_shift < 32 && self.blue_mask_shift < 32) {
            return false;
        }
        let len = self.target_len();
        let row = match y.checked_mul(self.pitch) {
            Some(v) => v,
            None => return false,
        };
        let col = match x.checked_mul(4) {
            Some(v) => v,
            None => return false,
        };
        match row.checked_add(col) {
            Some(off) => match off.checked_add(4) {
                Some(end) => end <= len,
                None => false,
            },
            None => false,
        }
    }

    /// Whether `scroll_up(pixels, _)` (with `up`) or `scroll_down(pixels, _)`
    /// may be called (`scroll_ok`).
    #[verifier::spinoff_prover]
    pub fn can_scroll(&self, pixels: usize, up: bool) -> (ok: bool)
        ensures
            ok == scroll_ok(self@, pixels, up),
    {
        let offset = match pixels.checked_mul(self.pitch) {
            Some(v) => v,
            None => return false,
        };
        let size = match self.height.checked_mul(self.pitch) {
            Some(v) => v,
            None => return false,
        };
        if offset >= size {
            return true;
        }
        if !(self.red_mask_shift < 32 && self.green_mask_shift < 32 && self.blue_mask_shift < 32) {
            return false;
        }
        if self.back.enabled {
            return size <= self.back.buf.len();
        }
        let front_len = self.front.len();
        if size > front_len {
            return false;
        }
        let fill = offset / 4 + if offset % 4 == 0 { 0 } else { 1 };
        if fill > usize::MAX / 4 {
            return false;
        }
        let fill_bytes = 4 * fill;
        if up {
            fill_bytes <= front_len - (size - offset)
        } else {
            fill_bytes <= front_len
        }
    }

    pub fn backbuffer_enabled(&self) -> (b: bool)
        ensures
            b == self@.back_enabled,
    {
        self.back.enabled
    }

    pub fn enable_backbuffer(&mut self)
        ensures
            final(self)@ == (FbView { back_enabled: true, ..old(self)@ }),
    {
        self.back.enabled = true;
    }

    pub fn disable_backbuffer(&mut self)
        ensures
            final(self)@ == (FbView { back_enabled: false, ..old(self)@ }),
    {
        self.back.enabled = false;
    }

    pub fn switch_backbuffer(&mut self)
        ensures
            final(self)@ == (FbView { back_enabled: !old(self)@.back_enabled, ..old(self)@ }),
    {
        self.back.enabled = !self.back.enabled;
    }

    /// The bytes that store `color`.
    fn encode(&self, color: Color) -> (b: [u8; 4])
        requires
            shifts_ok(self@),
        ensures
            b@ == color_bytes(self@, color),
    {
        let pixel: u32 = ((color.r as u32) << self.red_mask_shift) | ((color.g as u32)
            << self.green_mask_shift) | ((color.b as u32) << self.blue_mask_shift);
        let b0 = (pixel & 0xff) as u8;
        let b1 = ((pixel >> 8) & 0xff) as u8;
        let b2 = ((pixel >> 16) & 0xff) as u8;
        let b3 = ((pixel >> 24) & 0xff) as u8;
        let b = if self.back.little_endian {
            [b0, b1, b2, b3]
        } else {
            [b3, b2, b1, b0]
        };
        assert(b@ =~= color_bytes(self@, color));
        b
    }

    /// Draws one pixel; does nothing outside the screen or when the
    /// framebuffer does not have 32 bits per pixel.
    pub fn put_pixel(&mut self, x: usize, y: usize, color: Color)
        requires
            pixel_hit(old(self)@, x, y) ==> {
                &&& shifts_ok(old(self)@)
                &&& pixel_offset(old(self)@, x, y) + 4 <= target(old(self)@).len()
            },
        ensures
            final(self)@ == put_pixel_spec(old(self)@, x, y, color),
    {
        if x >= self.width || y >= self.height {
            return;
        }
        if self.bpp != 32 {
            return;
        }
        let target_len = if self.back.enabled {
            self.back.buf.len()
        } else {
            self.front.len()
        };
        assert(target_len == target(self@).len());
        let offset = y * self.pitch + x * 4;
        let bytes = self.encode(color);
        if self.back.enabled {
            write4(self.back.buf.as_mut_slice(), offset, bytes);
        } else {
            write4(self.front, offset, bytes);
        }
    }

    /// Copies the back buffer to the screen when the back buffer is enabled.
    pub fn present(&mut self)
        requires
            old(self)@.back_enabled ==> old(self)@.back.len() <= old(self)@.front.len(),
        ensures
            final(self)@ == present_spec(old(self)@),
    {
        if !self.back.enabled {
            return;
        }
        let ghost f = self.front@;
        let n = self.back.buf.len();
        let mut i: usize = 0;
        while i < n
            invariant
                self@ == (FbView { front: self@.front, ..old(self)@ }),
                n == self.back.buf@.len(),
                self.front@.len() == f.len(),
                n <= f.len(),
                i <= n,
                forall|k: int|
                    0 <= k < f.len() ==> #[trigger] self.front@[k] == (if k < i {
                        self.back.buf@[k]
                    } else {
                        f[k]
                    }),
            decreases n - i,
        {
            self.front[i] = self.back.buf[i];
            i = i + 1;
        }
        assert(self.front@ =~= Seq::new(f.len(), |k: int| if k < n { self.back.buf@[k] } else { f[k] }));
    }

    /// Fills the back buffer with `color` (only at 32 bits per pixel).
    pub fn clear_backbuffer(&mut self, color: Color)
        requires
            old(self)@.bpp == 32 ==> shifts_ok(old(self)@),
        ensures
            final(self)@ == clear_spec(old(self)@, color),
    {
        if self.bpp != 32 {
            return;
        }
        let bytes = self.encode(color);
        let chunks = self.back.buf.len() / 4;
        fill(self.back.buf.as_mut_slice(), 0, chunks, bytes);
    }

    /// Moves the picture up by `pixels` rows and fills the rows freed at the
    /// bottom with `background`.
    pub fn scroll_up(&mut self, pixels: usize, background: Color)
        requires
            scroll_ok(old(self)@, pixels, true),
        ensures
            final(self)@ == scroll_up_spec(old(self)@, pixels, background),
    {
        let offset = pixels * self.pitch;
        let size = self.height * self.pitch;
        if offset >= size {
            return;
        }
        let bytes = self.encode(background);
        let clear_start = size - offset;
        if self.back.enabled {
            copy_within(self.back.buf.as_mut_slice(), offset, size, 0);
            let chunks = (self.back.buf.len() - clear_start) / 4;
            fill(self.back.buf.as_mut_slice(), clear_start, chunks, bytes);
        } else {
            copy_within(self.front, offset, size, 0);
            let chunks = offset / 4 + if offset % 4 == 0 { 0 } else { 1 };
            fill(self.front, clear_start, chunks, bytes);
        }
    }

    /// Moves the picture down by `pixels` rows and fills the rows freed at the
    /// top with `background`.
    pub fn scroll_down(&mut self, pixels: usize, background: Color)
        requires
            scroll_ok(old(self)@, pixels, false),
        ensures
            final(self)@ == scroll_down_spec(old(self)@, pixels, background),
    {
        let offset = pixels * self.pitch;
        let size = self.height * self.pitch;
        if offset >= size {
            return;
        }
        let bytes = self.encode(background);
        if self.back.enabled {
            copy_within(self.back.buf.as_mut_slice(), 0, size - offset, offset);
            fill(self.back.buf.as_mut_slice(), 0, offset / 4, bytes);
        } else {
            copy_within(self.front, 0, size - offset, offset);
            let chunks = offset / 4 + if offset % 4 == 0 { 0 } else { 1 };
            fill(self.front, 0, chunks, bytes);
        }
    }
}

} // verus!
