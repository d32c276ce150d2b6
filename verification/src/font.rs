//! A 5 x 7 bitmap font and text drawing.
use vstd::prelude::*;
use vstd::string::*;
use crate::canvas::{in_rect, fill_rect, lemma_div_band, lemma_pixel_coords};

verus! {

/// The seven rows of the glyph of `ch` (bit 4 is the leftmost column), for
/// the digits, the letters in either case, and `` :/<>=-!.`` and space.
pub open spec fn glyph_rows(ch: char) -> Option<Seq<u8>> {
    match ch {
        '0' => Some(seq![0b01110u8, 0b10001u8, 0b10011u8, 0b10101u8, 0b11001u8, 0b10001u8, 0b01110u8]),
        '1' => Some(seq![0b00100u8, 0b01100u8, 0b00100u8, 0b00100u8, 0b00100u8, 0b00100u8, 0b01110u8]),
        '2' => Some(seq![0b01110u8, 0b10001u8, 0b00001u8, 0b00110u8, 0b01000u8, 0b10000u8, 0b11111u8]),
        '3' => Some(seq![0b01110u8, 0b10001u8, 0b00001u8, 0b00110u8, 0b00001u8, 0b10001u8, 0b01110u8]),
        '4' => Some(seq![0b00010u8, 0b00110u8, 0b01010u8, 0b10010u8, 0b11111u8, 0b00010u8, 0b00010u8]),
        '5' => Some(seq![0b11111u8, 0b10000u8, 0b11110u8, 0b00001u8, 0b00001u8, 0b10001u8, 0b01110u8]),
        '6' => Some(seq![0b00110u8, 0b01000u8, 0b10000u8, 0b11110u8, 0b10001u8, 0b10001u8, 0b01110u8]),
        '7' => Some(seq![0b11111u8, 0b00001u8, 0b00010u8, 0b00100u8, 0b01000u8, 0b01000u8, 0b01000u8]),
        '8' => Some(seq![0b01110u8, 0b10001u8, 0b10001u8, 0b01110u8, 0b10001u8, 0b10001u8, 0b01110u8]),
        '9' => Some(seq![0b01110u8, 0b10001u8, 0b10001u8, 0b01111u8, 0b00001u8, 0b00010u8, 0b01100u8]),
        'A' | 'a' => Some(seq![0b01110u8, 0b10001u8, 0b10001u8, 0b11111u8, 0b10001u8, 0b10001u8, 0b10001u8]),
        'B' | 'b' => Some(seq![0b11110u8, 0b10001u8, 0b10001u8, 0b11110u8, 0b10001u8, 0b10001u8, 0b11110u8]),
        'C' | 'c' => Some(seq![0b01110u8, 0b10001u8, 0b10000u8, 0b10000u8, 0b10000u8, 0b10001u8, 0b01110u8]),
        'D' | 'd' => Some(seq![0b11110u8, 0b10001u8, 0b10001u8, 0b10001u8, 0b10001u8, 0b10001u8, 0b11110u8]),
        'E' | 'e' => Some(seq![0b11111u8, 0b10000u8, 0b10000u8, 0b11110u8, 0b10000u8, 0b10000u8, 0b11111u8]),
        'F' | 'f' => Some(seq![0b11111u8, 0b10000u8, 0b10000u8, 0b11110u8, 0b10000u8, 0b10000u8, 0b10000u8]),
        'G' | 'g' => Some(seq![0b01110u8, 0b10001u8, 0b10000u8, 0b10111u8, 0b10001u8, 0b10001u8, 0b01110u8]),
        'H' | 'h' => Some(seq![0b10001u8, 0b10001u8, 0b10001u8, 0b11111u8, 0b10001u8, 0b10001u8, 0b10001u8]),
        'I' | 'i' => Some(seq![0b01110u8, 0b00100u8, 0b00100u8, 0b00100u8, 0b00100u8, 0b00100u8, 0b01110u8]),
        'J' | 'j' => Some(seq![0b00111u8, 0b00010u8, 0b00010u8, 0b00010u8, 0b00010u8, 0b10010u8, 0b01100u8]),
        'K' | 'k' => Some(seq![0b10001u8, 0b10010u8, 0b10100u8, 0b11000u8, 0b10100u8, 0b10010u8, 0b10001u8]),
        'L' | 'l' => Some(seq![0b10000u8, 0b10000u8, 0b10000u8, 0b10000u8, 0b10000u8, 0b10000u8, 0b11111u8]),
        'M' | 'm' => Some(seq![0b10001u8, 0b11011u8, 0b10101u8, 0b10101u8, 0b10001u8, 0b10001u8, 0b10001u8]),
        'N' | 'n' => Some(seq![0b10001u8, 0b11001u8, 0b10101u8, 0b10011u8, 0b10001u8, 0b10001u8, 0b10001u8]),
        'O' | 'o' => Some(seq![0b01110u8, 0b10001u8, 0b10001u8, 0b10001u8, 0b10001u8, 0b10001u8, 0b01110u8]),
        'P' | 'p' => Some(seq![0b11110u8, 0b10001u8, 0b10001u8, 0b11110u8, 0b10000u8, 0b10000u8, 0b10000u8]),
        'Q' | 'q' => Some(seq![0b01110u8, 0b10001u8, 0b10001u8, 0b10001u8, 0b10101u8, 0b10010u8, 0b01101u8]),
        'R' | 'r' => Some(seq![0b11110u8, 0b10001u8, 0b10001u8, 0b11110u8, 0b10100u8, 0b10010u8, 0b10001u8]),
        'S' | 's' => Some(seq![0b01110u8, 0b10001u8, 0b10000u8, 0b01110u8, 0b00001u8, 0b10001u8, 0b01110u8]),
        'T' | 't' => Some(seq![0b11111u8, 0b00100u8, 0b00100u8, 0b00100u8, 0b00100u8, 0b00100u8, 0b00100u8]),
        'U' | 'u' => Some(seq![0b10001u8, 0b10001u8, 0b10001u8, 0b10001u8, 0b10001u8, 0b10001u8, 0b01110u8]),
        'V' | 'v' => Some(seq![0b10001u8, 0b10001u8, 0b10001u8, 0b10001u8, 0b10001u8, 0b01010u8, 0b00100u8]),
        'W' | 'w' => Some(seq![0b10001u8, 0b10001u8, 0b10001u8, 0b10101u8, 0b10101u8, 0b10101u8, 0b01010u8]),
        'X' | 'x' => Some(seq![0b10001u8, 0b10001u8, 0b01010u8, 0b00100u8, 0b01010u8, 0b10001u8, 0b10001u8]),
        'Y' | 'y' => Some(seq![0b10001u8, 0b10001u8, 0b01010u8, 0b00100u8, 0b00100u8, 0b00100u8, 0b00100u8]),
        'Z' | 'z' => Some(seq![0b11111u8, 0b00001u8, 0b00010u8, 0b00100u8, 0b01000u8, 0b10000u8, 0b11111u8]),
        ' ' => Some(seq![0b00000u8, 0b00000u8, 0b00000u8, 0b00000u8, 0b00000u8, 0b00000u8, 0b00000u8]),
        ':' => Some(seq![0b00000u8, 0b00100u8, 0b00100u8, 0b00000u8, 0b00100u8, 0b00100u8, 0b00000u8]),
        '/' => Some(seq![0b00001u8, 0b00010u8, 0b00010u8, 0b00100u8, 0b01000u8, 0b01000u8, 0b10000u8]),
        '<' => Some(seq![0b00010u8, 0b00100u8, 0b01000u8, 0b10000u8, 0b01000u8, 0b00100u8, 0b00010u8]),
        '>' => Some(seq![0b01000u8, 0b00100u8, 0b00010u8, 0b00001u8, 0b00010u8, 0b00100u8, 0b01000u8]),
        '=' => Some(seq![0b00000u8, 0b00000u8, 0b11111u8, 0b00000u8, 0b11111u8, 0b00000u8, 0b00000u8]),
        '-' => Some(seq![0b00000u8, 0b00000u8, 0b00000u8, 0b11111u8, 0b00000u8, 0b00000u8, 0b00000u8]),
        '!' => Some(seq![0b00100u8, 0b00100u8, 0b00100u8, 0b00100u8, 0b00100u8, 0b00000u8, 0b00100u8]),
        '.' => Some(seq![0b00000u8, 0b00000u8, 0b00000u8, 0b00000u8, 0b00000u8, 0b00000u8, 0b00100u8]),
        _ => None,
    }
}

/// The glyph of `ch`, if the font has one; lower-case letters share the
/// glyphs of upper-case ones.
pub fn glyph(ch: char) -> (g: Option<[u8; 7]>)
    ensures
        match glyph_rows(ch) {
            Some(rows) => g matches Some(a) && a@ == rows,
            None => g is None,
        },
{
    let g = match ch {
        '0' => Some([0b01110, 0b10001, 0b10011, 0b10101, 0b11001, 0b10001, 0b01110]),
        '1' => Some([0b00100, 0b01100, 0b00100, 0b00100, 0b00100, 0b00100, 0b01110]),
        '2' => Some([0b01110, 0b10001, 0b00001, 0b00110, 0b01000, 0b10000, 0b11111]),
        '3' => Some([0b01110, 0b10001, 0b00001, 0b00110, 0b00001, 0b10001, 0b01110]),
        '4' => Some([0b00010, 0b00110, 0b01010, 0b10010, 0b11111, 0b00010, 0b00010]),
        '5' => Some([0b11111, 0b10000, 0b11110, 0b00001, 0b00001, 0b10001, 0b01110]),
        '6' => Some([0b00110, 0b01000, 0b10000, 0b11110, 0b10001, 0b10001, 0b01110]),
        '7' => Some([0b11111, 0b00001, 0b00010, 0b00100, 0b01000, 0b01000, 0b01000]),
        '8' => Some([0b01110, 0b10001, 0b10001, 0b01110, 0b10001, 0b10001, 0b01110]),
        '9' => Some([0b01110, 0b10001, 0b10001, 0b01111, 0b00001, 0b00010, 0b01100]),
        'A' | 'a' => Some([0b01110, 0b10001, 0b10001, 0b11111, 0b10001, 0b10001, 0b10001]),
        'B' | 'b' => Some([0b11110, 0b10001, 0b10001, 0b11110, 0b10001, 0b10001, 0b11110]),
        'C' | 'c' => Some([0b01110, 0b10001, 0b10000, 0b10000, 0b10000, 0b10001, 0b01110]),
        'D' | 'd' => Some([0b11110, 0b10001, 0b10001, 0b10001, 0b10001, 0b10001, 0b11110]),
        'E' | 'e' => Some([0b11111, 0b10000, 0b10000, 0b11110, 0b10000, 0b10000, 0b11111]),
        'F' | 'f' => Some([0b11111, 0b10000, 0b10000, 0b11110, 0b10000, 0b10000, 0b10000]),
        'G' | 'g' => Some([0b01110, 0b10001, 0b10000, 0b10111, 0b10001, 0b10001, 0b01110]),
        'H' | 'h' => Some([0b10001, 0b10001, 0b10001, 0b11111, 0b10001, 0b10001, 0b10001]),
        'I' | 'i' => Some([0b01110, 0b00100, 0b00100, 0b00100, 0b00100, 0b00100, 0b01110]),
        'J' | 'j' => Some([0b00111, 0b00010, 0b00010, 0b00010, 0b00010, 0b10010, 0b01100]),
        'K' | 'k' => Some([0b10001, 0b10010, 0b10100, 0b11000, 0b10100, 0b10010, 0b10001]),
        'L' | 'l' => Some([0b10000, 0b10000, 0b10000, 0b10000, 0b10000, 0b10000, 0b11111]),
        'M' | 'm' => Some([0b10001, 0b11011, 0b10101, 0b10101, 0b10001, 0b10001, 0b10001]),
        'N' | 'n' => Some([0b10001, 0b11001, 0b10101, 0b10011, 0b10001, 0b10001, 0b10001]),
        'O' | 'o' => Some([0b01110, 0b10001, 0b10001, 0b10001, 0b10001, 0b10001, 0b01110]),
        'P' | 'p' => Some([0b11110, 0b10001, 0b10001, 0b11110, 0b10000, 0b10000, 0b10000]),
        'Q' | 'q' => Some([0b01110, 0b10001, 0b10001, 0b10001, 0b10101, 0b10010, 0b01101]),
        'R' | 'r' => Some([0b11110, 0b10001, 0b10001, 0b11110, 0b10100, 0b10010, 0b10001]),
        'S' | 's' => Some([0b01110, 0b10001, 0b10000, 0b01110, 0b00001, 0b10001, 0b01110]),
        'T' | 't' => Some([0b11111, 0b00100, 0b00100, 0b00100, 0b00100, 0b00100, 0b00100]),
        'U' | 'u' => Some([0b10001, 0b10001, 0b10001, 0b10001, 0b10001, 0b10001, 0b01110]),
        'V' | 'v' => Some([0b10001, 0b10001, 0b10001, 0b10001, 0b10001, 0b01010, 0b00100]),
        'W' | 'w' => Some([0b10001, 0b10001, 0b10001, 0b10101, 0b10101, 0b10101, 0b01010]),
        'X' | 'x' => Some([0b10001, 0b10001, 0b01010, 0b00100, 0b01010, 0b10001, 0b10001]),
        'Y' | 'y' => Some([0b10001, 0b10001, 0b01010, 0b00100, 0b00100, 0b00100, 0b00100]),
        'Z' | 'z' => Some([0b11111, 0b00001, 0b00010, 0b00100, 0b01000, 0b10000, 0b11111]),
        ' ' => Some([0b00000, 0b00000, 0b00000, 0b00000, 0b00000, 0b00000, 0b00000]),
        ':' => Some([0b00000, 0b00100, 0b00100, 0b00000, 0b00100, 0b00100, 0b00000]),
        '/' => Some([0b00001, 0b00010, 0b00010, 0b00100, 0b01000, 0b01000, 0b10000]),
        '<' => Some([0b00010, 0b00100, 0b01000, 0b10000, 0b01000, 0b00100, 0b00010]),
        '>' => Some([0b01000, 0b00100, 0b00010, 0b00001, 0b00010, 0b00100, 0b01000]),
        '=' => Some([0b00000, 0b00000, 0b11111, 0b00000, 0b11111, 0b00000, 0b00000]),
        '-' => Some([0b00000, 0b00000, 0b00000, 0b11111, 0b00000, 0b00000, 0b00000]),
        '!' => Some([0b00100, 0b00100, 0b00100, 0b00100, 0b00100, 0b00000, 0b00100]),
        '.' => Some([0b00000, 0b00000, 0b00000, 0b00000, 0b00000, 0b00000, 0b00100]),
        _ => None,
    };
    proof {
        if let Some(a) = g {
            assert(a@ =~= glyph_rows(ch).unwrap());
        }
    }
    g
}

/// Column `col` (0 is leftmost) of a glyph row is lit.
pub open spec fn bit_on(bits: u8, col: int) -> bool {
    bits & (1u8 << ((4 - col) as usize)) != 0
}

/// The pixel (`px`, `py`) is lit by `ch` drawn at (`x`, `y`) with each font
/// dot a `s` x `s` square.
pub open spec fn char_covers(ch: char, x: int, y: int, s: int, px: int, py: int) -> bool {
    &&& s > 0
    &&& glyph_rows(ch) is Some
    &&& x <= px
    &&& y <= py
    &&& (px - x) / s < 5
    &&& (py - y) / s < 7
    &&& bit_on(glyph_rows(ch).unwrap()[(py - y) / s], (px - x) / s)
}

/// Like `char_covers`, for the dots before row `r`, and those of row `r` before column `c`.
pub open spec fn char_covers_before(ch: char, x: int, y: int, s: int, px: int, py: int, r: int, c: int) -> bool {
    &&& char_covers(ch, x, y, s, px, py)
    &&& ((py - y) / s < r || ((py - y) / s == r && (px - x) / s < c))
}

/// Where a dot square lies, in terms of the dot it belongs to.
proof fn lemma_dot_square(i: int, ww: int, wh: int, x: int, y: int, s: int, r: int, c: int)
    requires
        0 <= i < ww * wh,
        0 <= ww,
        0 <= wh,
        0 < s,
        0 <= r,
        0 <= c,
    ensures
        in_rect(i, ww, wh, x + c * s, y + r * s, s, s) <==> (
            x <= i % ww && y <= i / ww && (i % ww - x) / s == c && (i / ww - y) / s == r),
{
    lemma_pixel_coords(i, ww, wh);
    let px = i % ww;
    let py = i / ww;
    assert(0 <= c * s) by (nonlinear_arith) requires 0 <= c, 0 < s;
    assert(0 <= r * s) by (nonlinear_arith) requires 0 <= r, 0 < s;
    if x <= px {
        lemma_div_band(px - x, s, c);
    }
    if y <= py {
        lemma_div_band(py - y, s, r);
    }
}

/// Draws `ch` with its top-left corner at (`x`, `y`), each font dot a
/// `scale` x `scale` square; characters without a glyph draw nothing.
pub fn draw_char(buf: &mut [u32], ww: usize, wh: usize, ch: char, x: usize, y: usize, scale: usize, color: u32)
    requires
        ww * wh <= old(buf)@.len(),
        x + 5 * scale - 1 <= usize::MAX,
        y + 7 * scale - 1 <= usize::MAX,
    ensures
        final(buf)@.len() == old(buf)@.len(),
        forall|i: int| 0 <= i < old(buf)@.len() ==> #[trigger] final(buf)@[i]
            == if 0 <= i < ww * wh && char_covers(ch, x as int, y as int, scale as int, i % ww as int, i / ww as int) {
                color
            } else {
                old(buf)@[i]
            },
{
    let ghost start = buf@;
    let glyph = glyph(ch);
    if let Some(g) = glyph {
        let mut row: usize = 0;
        while row < 7
            invariant
                row <= 7,
                ww * wh <= start.len(),
                x + 5 * scale - 1 <= usize::MAX,
                y + 7 * scale - 1 <= usize::MAX,
                glyph_rows(ch) == Some(g@),
                buf@.len() == start.len(),
                forall|i: int| 0 <= i < start.len() ==> #[trigger] buf@[i]
                    == if 0 <= i < ww * wh && char_covers_before(ch, x as int, y as int, scale as int, i % ww as int, i / ww as int, row as int, 0) {
                        color
                    } else {
                        start[i]
                    },
            decreases 7 - row,
        {
            let bits = g[row];
            let mut col: usize = 0;
            while col < 5
                invariant
                    row < 7,
                    col <= 5,
                    bits == g@[row as int],
                    ww * wh <= start.len(),
                    x + 5 * scale - 1 <= usize::MAX,
                    y + 7 * scale - 1 <= usize::MAX,
                    glyph_rows(ch) == Some(g@),
                    buf@.len() == start.len(),
                    forall|i: int| 0 <= i < start.len() ==> #[trigger] buf@[i]
                        == if 0 <= i < ww * wh && char_covers_before(ch, x as int, y as int, scale as int, i % ww as int, i / ww as int, row as int, col as int) {
                            color
                        } else {
                            start[i]
                        },
                decreases 5 - col,
            {
                let ghost before = buf@;
                let lit = bits & (1 << (4 - col)) != 0;
                assert(lit == bit_on(bits, col as int));
                if lit {
                    assert(col * scale <= 4 * scale) by (nonlinear_arith) requires col <= 4;
                    assert(row * scale <= 6 * scale) by (nonlinear_arith) requires row <= 6;
                    fill_rect(buf, ww, wh, x + col * scale, y + row * scale, scale, scale, color);
                }
                proof {
                    assert forall|i: int| 0 <= i < start.len() implies #[trigger] buf@[i]
                        == if 0 <= i < ww * wh && char_covers_before(ch, x as int, y as int, scale as int, i % ww as int, i / ww as int, row as int, col + 1) {
                            color
                        } else {
                            start[i]
                        } by {
                        assert(before[i] == if 0 <= i < ww * wh && char_covers_before(ch, x as int, y as int, scale as int, i % ww as int, i / ww as int, row as int, col as int) {
                            color
                        } else {
                            start[i]
                        });
                        if 0 <= i < ww * wh && scale > 0 {
                            lemma_dot_square(i, ww as int, wh as int, x as int, y as int, scale as int, row as int, col as int);
                        }
                        if lit && 0 <= i < ww * wh && scale == 0 {
                            assert(!in_rect(i, ww as int, wh as int, (x + col * scale) as int, (y + row * scale) as int, 0, 0));
                        }
                    }
                }
                col += 1;
            }
            proof {
                assert forall|i: int| 0 <= i < start.len() implies #[trigger] buf@[i]
                    == if 0 <= i < ww * wh && char_covers_before(ch, x as int, y as int, scale as int, i % ww as int, i / ww as int, row + 1, 0) {
                        color
                    } else {
                        start[i]
                    } by {
                    if 0 <= i < ww * wh && scale > 0 {
                        lemma_pixel_coords(i, ww as int, wh as int);
                        if x <= i % ww as int {
                            lemma_div_band(i % ww as int - x, scale as int, (i % ww as int - x) / scale as int);
                        }
                    }
                }
            }
            row += 1;
        }
    } else {
        assert forall|i: int| 0 <= i < start.len() implies #[trigger] buf@[i]
            == if 0 <= i < ww * wh && char_covers(ch, x as int, y as int, scale as int, i % ww as int, i / ww as int) {
                color
            } else {
                start[i]
            } by {}
    }
}

/// The pixel (`px`, `py`) is lit by `text` drawn from (`x`, `y`): each
/// character takes a slot six dots wide (five for the glyph and one of space),
/// and the pixel is lit by the character of its slot.
pub open spec fn text_covers(text: Seq<char>, x: int, y: int, s: int, px: int, py: int) -> bool {
    text_covers_first(text, x, y, s, px, py, text.len() as int)
}

/// Like `text_covers`, for the first `n` characters.
pub open spec fn text_covers_first(text: Seq<char>, x: int, y: int, s: int, px: int, py: int, n: int) -> bool {
    let k = (px - x) / (6 * s);
    &&& s > 0
    &&& x <= px
    &&& k < n
    &&& char_covers(text[k], x + k * (6 * s), y, s, px, py)
}

/// Draws `text` from (`x`, `y`), one character slot every six dots.
pub fn draw_text(buf: &mut [u32], ww: usize, wh: usize, text: &str, x: usize, y: usize, scale: usize, color: u32)
    requires
        ww * wh <= old(buf)@.len(),
        text@.len() > 0 ==> x + 6 * scale * (text@.len() - 1) + 5 * scale - 1 <= usize::MAX,
        text@.len() > 0 ==> 6 * (text@.len() - 1) <= usize::MAX,
        text@.len() > 0 ==> y + 7 * scale - 1 <= usize::MAX,
    ensures
        final(buf)@.len() == old(buf)@.len(),
        forall|i: int| 0 <= i < old(buf)@.len() ==> #[trigger] final(buf)@[i]
            == if 0 <= i < ww * wh && text_covers(text@, x as int, y as int, scale as int, i % ww as int, i / ww as int) {
                color
            } else {
                old(buf)@[i]
            },
{
    let ghost start = buf@;
    let ghost t = text@;
    let n = text.unicode_len();
    let mut i: usize = 0;
    while i < n
        invariant
            i <= n,
            n == t.len(),
            t == text@,
            ww * wh <= start.len(),
            n > 0 ==> x + 6 * scale * (n - 1) + 5 * scale - 1 <= usize::MAX,
            n > 0 ==> 6 * (n - 1) <= usize::MAX,
            n > 0 ==> y + 7 * scale - 1 <= usize::MAX,
            buf@.len() == start.len(),
            forall|k: int| 0 <= k < start.len() ==> #[trigger] buf@[k]
                == if 0 <= k < ww * wh && text_covers_first(t, x as int, y as int, scale as int, k % ww as int, k / ww as int, i as int) {
                    color
                } else {
                    start[k]
                },
        decreases n - i,
    {
        let ch = text.get_char(i);
        assert((i * 6) * scale <= 6 * scale * (n - 1)) by (nonlinear_arith) requires i < n;
        assert(scale == 0 ==> (i * 6) * scale == 0) by (nonlinear_arith);
        assert(i * 6 <= 6 * (n - 1));
        let xi = x + i * 6 * scale;
        let ghost before = buf@;
        draw_char(buf, ww, wh, ch, xi, y, scale, color);
        proof {
            assert forall|k: int| 0 <= k < start.len() implies #[trigger] buf@[k]
                == if 0 <= k < ww * wh && text_covers_first(t, x as int, y as int, scale as int, k % ww as int, k / ww as int, i + 1) {
                    color
                } else {
                    start[k]
                } by {
                assert(before[k] == if 0 <= k < ww * wh && text_covers_first(t, x as int, y as int, scale as int, k % ww as int, k / ww as int, i as int) {
                    color
                } else {
                    start[k]
                });
                if 0 <= k < ww * wh && scale > 0 {
                    lemma_pixel_coords(k, ww as int, wh as int);
                    let px = k % ww as int;
                    let s = scale as int;
                    assert(i * 6 * scale == i * (6 * s)) by (nonlinear_arith) requires s == scale;
                    if x <= px {
                        lemma_div_band(px - x, 6 * s, i as int);
                        let q = (px - x) / (6 * s);
                        lemma_div_band(px - x, 6 * s, q);
                        if xi <= px {
                            lemma_div_band(px - xi, s, (px - xi) / s);
                            if (px - xi) / s < 5 {
                                assert(px - xi < 5 * s) by (nonlinear_arith)
                                    requires (px - xi) / s < 5, (px - xi) / s * s <= px - xi < (px - xi) / s * s + s, px - xi >= 0, s > 0;
                            }
                        }
                    }
                }
            }
        }
        i += 1;
    }
}

} // verus!
