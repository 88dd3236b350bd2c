use vstd::prelude::*;

verus! {

/// A bitmap font: `height` bytes per glyph, one byte per row, most
/// significant bit leftmost; glyphs stored one after another by byte value.
#[derive(Debug, Clone, Copy)]
pub struct Font<'a> {
    pub width: u8,
    pub height: u8,
    pub glyphs: &'a [u8],
}

/// Whether the glyph table holds the whole glyph of `character`.
pub open spec fn has_glyph(font: Font, character: u8) -> bool {
    character * font.height + font.height <= font.glyphs@.len()
}

/// The rows of the glyph of `character`.
pub open spec fn glyph_rows(font: Font, character: u8) -> Seq<u8> {
    font.glyphs@.subrange(
        character * font.height as int,
        character * font.height + font.height as int,
    )
}

/// The glyph of a character is the `height` bytes of the table that start
/// `character * height` bytes in: glyphs are stored one after another by
/// byte value, one byte per row, the top row first.
pub proof fn lemma_glyph_rows_in_table(font: Font, character: u8)
    requires
        has_glyph(font, character),
    ensures
        glyph_rows(font, character).len() == font.height,
        forall|r: int|
            0 <= r < font.height ==> #[trigger] glyph_rows(font, character)[r]
                == font.glyphs@[character * font.height + r],
{
}

impl<'a> Font<'a> {
    pub fn new(width: u8, height: u8, glyphs: &'a [u8]) -> (f: Self)
        ensures
            f.width == width,
            f.height == height,
            f.glyphs@ == glyphs@,
    {
        Self { width, height, glyphs }
    }

    /// The rows of the glyph for `character`.
    pub fn glyph(&self, character: u8) -> (g: &[u8])
        requires
            has_glyph(*self, character),
        ensures
            g@ == glyph_rows(*self, character),
    {
        let glyph_size = self.height as usize;
        assert(character as usize * glyph_size <= 255 * 255) by (nonlinear_arith)
            requires
                character <= 255,
                glyph_size <= 255,
        ;
        let offset = character as usize * glyph_size;
        &self.glyphs[offset..offset + glyph_size]
    }
}

} // verus!
