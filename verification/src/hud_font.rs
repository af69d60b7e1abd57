//! The 8×8 HUD bitmap font (CP866 code page: ASCII and Cyrillic): Unicode to glyph
//! index, glyph rows, and the 16×16-glyph R8 atlas. The font itself (256 glyphs of eight
//! row bytes, bit 7 the leftmost pixel) is supplied by the caller.
use vstd::prelude::*;

verus! {

pub const GLYPH_W: u32 = 8;

pub const GLYPH_H: u32 = 8;

/// Bytes of a full font: 256 glyphs of 8 rows.
pub const FONT_BYTES: usize = 2048;

/// The glyph index of a character: ASCII as is; А..Я, а..п, р..я at their CP866 places;
/// Ё and ё at 0xF0 and 0xF1; anything else shows as `?`.
pub open spec fn glyph_index(c: char) -> u8 {
    let u = c as u32;
    if u <= 0x7f {
        u as u8
    } else if 0x410 <= u && u <= 0x42f {
        (u - 0x410 + 0x80) as u8
    } else if 0x430 <= u && u <= 0x43f {
        (u - 0x430 + 0xa0) as u8
    } else if 0x440 <= u && u <= 0x44f {
        (u - 0x440 + 0xe0) as u8
    } else if u == 0x401 {
        0xf0
    } else if u == 0x451 {
        0xf1
    } else {
        0x3f
    }
}

pub fn char_index(c: char) -> (r: u8)
    ensures
        r == glyph_index(c),
{
    let u = c as u32;
    if u <= 0x7f {
        u as u8
    } else if 0x410 <= u && u <= 0x42f {
        (u - 0x410 + 0x80) as u8
    } else if 0x430 <= u && u <= 0x43f {
        (u - 0x430 + 0xa0) as u8
    } else if 0x440 <= u && u <= 0x44f {
        (u - 0x440 + 0xe0) as u8
    } else if u == 0x401 {
        0xf0
    } else if u == 0x451 {
        0xf1
    } else {
        0x3f
    }
}

/// The eight row bytes of glyph `idx`.
pub fn glyph_rows(font: &[u8], idx: u8) -> (r: [u8; 8])
    requires
        font@.len() >= FONT_BYTES,
    ensures
        forall|i: int| 0 <= i < 8 ==> #[trigger] r@[i] == font@[idx as int * 8 + i],
{
    let off = idx as usize * 8;
    let r = [
        font[off],
        font[off + 1],
        font[off + 2],
        font[off + 3],
        font[off + 4],
        font[off + 5],
        font[off + 6],
        font[off + 7],
    ];
    r
}

/// Pixel `col` of row `row` of glyph `g` is set (bit 7 is the leftmost pixel).
pub open spec fn glyph_bit(font: Seq<u8>, g: int, row: int, col: int) -> bool {
    font[g * 8 + row] & (0x80u8 >> (col as u8)) != 0
}

/// Texel `(x, y)` of the 128×128 atlas: glyph `(y / 8) * 16 + x / 8`, row `y % 8`,
/// column `x % 8`, 255 where the glyph pixel is set; the bottom-right texel is always
/// 255 (a white texel for solid fills).
pub open spec fn atlas_texel(font: Seq<u8>, x: int, y: int) -> u8 {
    if x == 127 && y == 127 {
        255
    } else if glyph_bit(font, (y / 8) * 16 + x / 8, y % 8, x % 8) {
        255
    } else {
        0
    }
}

/// Bakes the R8 atlas of all 256 glyphs: `(pixels, width, height)`, 128×128, row-major.
pub fn bake_atlas(font: &[u8]) -> (r: (Vec<u8>, u32, u32))
    requires
        font@.len() >= FONT_BYTES,
    ensures
        r.1 == 128 && r.2 == 128,
        r.0@.len() == 128 * 128,
        forall|x: int, y: int|
            0 <= x < 128 && 0 <= y < 128 ==> #[trigger] r.0@[y * 128 + x] == atlas_texel(
                font@,
                x,
                y,
            ),
{
    let mut px: Vec<u8> = Vec::new();
    let mut y: usize = 0;
    while y < 128
        invariant
            font@.len() >= FONT_BYTES,
            y <= 128,
            px@.len() == y * 128,
            forall|p: int| 0 <= p < px@.len() ==> #[trigger] px@[p] == atlas_texel(font@, p % 128, p / 128),
        decreases 128 - y,
    {
        let mut x: usize = 0;
        while x < 128
            invariant
                font@.len() >= FONT_BYTES,
                y < 128,
                x <= 128,
                px@.len() == y * 128 + x,
                forall|p: int|
                    0 <= p < px@.len() ==> #[trigger] px@[p] == atlas_texel(font@, p % 128, p / 128),
            decreases 128 - x,
        {
            let g = (y / 8) * 16 + x / 8;
            let row = y % 8;
            let col = x % 8;
            assert(g * 8 + row < 2048) by (nonlinear_arith)
                requires
                    g == (y / 8) * 16 + x / 8,
                    row == y % 8,
                    x < 128,
                    y < 128,
            ;
            let bits = font[g * 8 + row];
            let mask: u8 = 0x80u8 >> (col as u8);
            let v: u8 = if (x == 127 && y == 127) || bits & mask != 0 {
                255
            } else {
                0
            };
            let ghost p = px@.len() as int;
            assert(p % 128 == x as int && p / 128 == y as int) by (nonlinear_arith)
                requires
                    p == y * 128 + x,
                    x < 128,
            ;
            px.push(v);
            x += 1;
        }
        y += 1;
    }
    assert forall|x: int, y: int| 0 <= x < 128 && 0 <= y < 128 implies #[trigger] px@[y * 128 + x]
        == atlas_texel(font@, x, y) by {
        let p = y * 128 + x;
        assert(p % 128 == x && p / 128 == y && 0 <= p < 128 * 128) by (nonlinear_arith)
            requires
                p == y * 128 + x,
                0 <= x < 128,
                0 <= y < 128,
        ;
    }
    (px, 128, 128)
}

} // verus!
