//! Drawing into a frame buffer: a `ww` x `wh` canvas of 0xRRGGBB pixels
//! stored row after row; whatever falls outside the canvas is clipped.
use vstd::prelude::*;
use vstd::arithmetic::div_mod::{lemma_fundamental_div_mod, lemma_fundamental_div_mod_converse};
use crate::pieces::{PIECE_COUNT, piece_color, piece_color_light, spec_piece_color, spec_piece_color_light};

verus! {

/// Pixel `i` of a `ww` x `wh` canvas lies in the `w` x `h` rectangle whose
/// top-left corner is (`x`, `y`).
pub open spec fn in_rect(i: int, ww: int, wh: int, x: int, y: int, w: int, h: int) -> bool {
    &&& 0 <= i < ww * wh
    &&& x <= i % ww < x + w
    &&& y <= i / ww < y + h
}

/// Every pixel of a `w` x `h` rectangle at (`x`, `y`) has an address that fits a `usize`.
pub open spec fn rect_addressable(x: int, y: int, w: int, h: int) -> bool {
    w == 0 || h == 0 || (x + w - 1 <= usize::MAX && y + h - 1 <= usize::MAX)
}

/// The pixel (`px`, `py`) of a canvas `ww` wide has index `i`, where `i` lies
/// on the `ww` x `wh` canvas.
pub proof fn lemma_pixel_coords(i: int, ww: int, wh: int)
    requires
        0 <= i < ww * wh,
        0 <= ww,
        0 <= wh,
    ensures
        ww > 0,
        0 <= i % ww < ww,
        0 <= i / ww < wh,
        i == (i / ww) * ww + i % ww,
{
    if ww == 0 {
        assert(ww * wh == 0);
    }
    lemma_fundamental_div_mod(i, ww);
    assert(0 <= i % ww < ww) by (nonlinear_arith)
        requires ww > 0;
    assert(i / ww < wh) by (nonlinear_arith)
        requires ww > 0, i < ww * wh, i == ww * (i / ww) + i % ww, 0 <= i % ww;
    assert(0 <= i / ww) by (nonlinear_arith)
        requires ww > 0, 0 <= i;
}

/// The pixel (`x`, `y`) of a `ww` x `wh` canvas has index `y * ww + x`.
pub proof fn lemma_pixel_index(x: int, y: int, ww: int, wh: int)
    requires
        0 <= x < ww,
        0 <= y < wh,
    ensures
        y * ww + x < ww * wh,
        (y * ww + x) % ww == x,
        (y * ww + x) / ww == y,
{
    assert(y * ww + x < ww * wh) by (nonlinear_arith)
        requires 0 <= x < ww, 0 <= y < wh;
    lemma_fundamental_div_mod_converse(y * ww + x, ww, y, x);
}

/// For `d` >= 0 and `s` > 0: `d` lies in [c * s, c * s + s) exactly when `d / s == c`.
pub proof fn lemma_div_band(d: int, s: int, c: int)
    requires
        0 <= d,
        0 < s,
    ensures
        (c * s <= d < c * s + s) <==> d / s == c,
{
    lemma_fundamental_div_mod(d, s);
    assert(0 <= d % s < s) by (nonlinear_arith)
        requires s > 0;
    if c * s <= d < c * s + s {
        lemma_fundamental_div_mod_converse(d, s, c, d - c * s);
    }
    if d / s == c {
        assert(c * s == s * (d / s)) by (nonlinear_arith)
            requires d / s == c;
    }
}

/// Sets pixel (`x`, `y`) to `c` when it lies on the canvas.
pub fn set_pixel(buf: &mut [u32], ww: usize, wh: usize, x: usize, y: usize, c: u32)
    requires
        ww * wh <= old(buf)@.len(),
    ensures
        final(buf)@ == if x < ww && y < wh { old(buf)@.update(y * ww + x, c) } else { old(buf)@ },
{
    if x < ww && y < wh {
        let n = buf.len();
        proof { lemma_pixel_index(x as int, y as int, ww as int, wh as int); }
        assert(y * ww + x < n);
        buf[y * ww + x] = c;
    }
}

/// `set_pixel` seen pixel by pixel: exactly the pixel at (`x`, `y`), if on the canvas, changes.
proof fn lemma_set_pixel_pointwise(old_buf: Seq<u32>, new_buf: Seq<u32>, ww: usize, wh: usize, x: usize, y: usize, c: u32)
    requires
        ww * wh <= old_buf.len(),
        new_buf == if x < ww && y < wh { old_buf.update(y * ww + x, c) } else { old_buf },
    ensures
        new_buf.len() == old_buf.len(),
        forall|i: int| 0 <= i < old_buf.len() ==> #[trigger] new_buf[i] == if in_rect(i, ww as int, wh as int, x as int, y as int, 1, 1) { c } else { old_buf[i] },
{
    if x < ww && y < wh {
        lemma_pixel_index(x as int, y as int, ww as int, wh as int);
    }
    assert forall|i: int| 0 <= i < old_buf.len() implies #[trigger] new_buf[i] == if in_rect(i, ww as int, wh as int, x as int, y as int, 1, 1) { c } else { old_buf[i] } by {
        if 0 <= i < ww * wh {
            lemma_pixel_coords(i, ww as int, wh as int);
            if x < ww && y < wh {
                lemma_pixel_index(x as int, y as int, ww as int, wh as int);
                if i == y * ww + x {
                } else {
                    assert(!(i % (ww as int) == x && i / (ww as int) == y));
                }
            }
        }
    }
}

/// Fills the `w` x `h` rectangle at (`x`, `y`) with `c`, clipped to the canvas.
pub fn fill_rect(buf: &mut [u32], ww: usize, wh: usize, x: usize, y: usize, w: usize, h: usize, c: u32)
    requires
        ww * wh <= old(buf)@.len(),
        rect_addressable(x as int, y as int, w as int, h as int),
    ensures
        final(buf)@.len() == old(buf)@.len(),
        forall|i: int| 0 <= i < old(buf)@.len() ==> #[trigger] final(buf)@[i]
            == if in_rect(i, ww as int, wh as int, x as int, y as int, w as int, h as int) { c } else { old(buf)@[i] },
{
    let ghost start = buf@;
    let mut dy: usize = 0;
    while dy < h
        invariant
            dy <= h,
            ww * wh <= start.len(),
            rect_addressable(x as int, y as int, w as int, h as int),
            buf@.len() == start.len(),
            forall|i: int| 0 <= i < start.len() ==> #[trigger] buf@[i]
                == if in_rect(i, ww as int, wh as int, x as int, y as int, w as int, dy as int) { c } else { start[i] },
        decreases h - dy,
    {
        let mut dx: usize = 0;
        while dx < w
            invariant
                dy < h,
                dx <= w,
                ww * wh <= start.len(),
                rect_addressable(x as int, y as int, w as int, h as int),
                buf@.len() == start.len(),
                forall|i: int| 0 <= i < start.len() ==> #[trigger] buf@[i]
                    == if in_rect(i, ww as int, wh as int, x as int, y as int, w as int, dy as int)
                        || in_rect(i, ww as int, wh as int, x as int, y + dy, dx as int, 1) { c } else { start[i] },
            decreases w - dx,
        {
            let ghost before = buf@;
            set_pixel(buf, ww, wh, x + dx, y + dy, c);
            proof {
                lemma_set_pixel_pointwise(before, buf@, ww, wh, (x + dx) as usize, (y + dy) as usize, c);
                assert forall|i: int| 0 <= i < start.len() implies #[trigger] buf@[i]
                    == if in_rect(i, ww as int, wh as int, x as int, y as int, w as int, dy as int)
                        || in_rect(i, ww as int, wh as int, x as int, y + dy, dx + 1, 1) { c } else { start[i] } by {
                    assert(before[i] == if in_rect(i, ww as int, wh as int, x as int, y as int, w as int, dy as int)
                        || in_rect(i, ww as int, wh as int, x as int, y + dy, dx as int, 1) { c } else { start[i] });
                }
            }
            dx += 1;
        }
        proof {
            assert forall|i: int| 0 <= i < start.len() implies #[trigger] buf@[i]
                == if in_rect(i, ww as int, wh as int, x as int, y as int, w as int, dy + 1) { c } else { start[i] } by {
                assert(buf@[i] == if in_rect(i, ww as int, wh as int, x as int, y as int, w as int, dy as int)
                        || in_rect(i, ww as int, wh as int, x as int, y + dy, w as int, 1) { c } else { start[i] });
            }
        }
        dy += 1;
    }
}

/// The pixels set by an outline: the top row `y`, the row `y + h - 1`, the
/// column `x` and the column `x + w - 1`, each clipped to the rectangle's
/// extent along it.
pub open spec fn on_outline(i: int, ww: int, wh: int, x: int, y: int, w: int, h: int) -> bool {
    ||| in_rect(i, ww, wh, x, y, w, 1)
    ||| in_rect(i, ww, wh, x, y + h - 1, w, 1)
    ||| in_rect(i, ww, wh, x, y, 1, h)
    ||| in_rect(i, ww, wh, x + w - 1, y, 1, h)
}

/// Draws the one-pixel outline of the `w` x `h` rectangle at (`x`, `y`) in `c`.
pub fn draw_rect_outline(buf: &mut [u32], ww: usize, wh: usize, x: usize, y: usize, w: usize, h: usize, c: u32)
    requires
        ww * wh <= old(buf)@.len(),
        w > 0 ==> x + w - 1 <= usize::MAX && 1 <= y + h <= usize::MAX,
        h > 0 ==> y + h - 1 <= usize::MAX && 1 <= x + w <= usize::MAX,
    ensures
        final(buf)@.len() == old(buf)@.len(),
        forall|i: int| 0 <= i < old(buf)@.len() ==> #[trigger] final(buf)@[i]
            == if on_outline(i, ww as int, wh as int, x as int, y as int, w as int, h as int) { c } else { old(buf)@[i] },
{
    let ghost start = buf@;
    let mut dx: usize = 0;
    while dx < w
        invariant
            dx <= w,
            ww * wh <= start.len(),
            w > 0 ==> x + w - 1 <= usize::MAX && 1 <= y + h <= usize::MAX,
            buf@.len() == start.len(),
            forall|i: int| 0 <= i < start.len() ==> #[trigger] buf@[i]
                == if in_rect(i, ww as int, wh as int, x as int, y as int, dx as int, 1)
                    || in_rect(i, ww as int, wh as int, x as int, y + h - 1, dx as int, 1) { c } else { start[i] },
        decreases w - dx,
    {
        let ghost b0 = buf@;
        set_pixel(buf, ww, wh, x + dx, y, c);
        proof { lemma_set_pixel_pointwise(b0, buf@, ww, wh, (x + dx) as usize, y, c); }
        let ghost b1 = buf@;
        set_pixel(buf, ww, wh, x + dx, y + h - 1, c);
        proof {
            lemma_set_pixel_pointwise(b1, buf@, ww, wh, (x + dx) as usize, (y + h - 1) as usize, c);
            assert forall|i: int| 0 <= i < start.len() implies #[trigger] buf@[i]
                == if in_rect(i, ww as int, wh as int, x as int, y as int, dx + 1, 1)
                    || in_rect(i, ww as int, wh as int, x as int, y + h - 1, dx + 1, 1) { c } else { start[i] } by {
                assert(b0[i] == if in_rect(i, ww as int, wh as int, x as int, y as int, dx as int, 1)
                    || in_rect(i, ww as int, wh as int, x as int, y + h - 1, dx as int, 1) { c } else { start[i] });
                assert(b1[i] == if in_rect(i, ww as int, wh as int, x + dx, y as int, 1, 1) { c } else { b0[i] });
            }
        }
        dx += 1;
    }
    let ghost mid = buf@;
    let mut dy: usize = 0;
    while dy < h
        invariant
            dy <= h,
            ww * wh <= start.len(),
            h > 0 ==> y + h - 1 <= usize::MAX && 1 <= x + w <= usize::MAX,
            buf@.len() == start.len(),
            forall|i: int| 0 <= i < start.len() ==> #[trigger] mid[i]
                == if in_rect(i, ww as int, wh as int, x as int, y as int, w as int, 1)
                    || in_rect(i, ww as int, wh as int, x as int, y + h - 1, w as int, 1) { c } else { start[i] },
            mid.len() == start.len(),
            forall|i: int| 0 <= i < start.len() ==> #[trigger] buf@[i]
                == if in_rect(i, ww as int, wh as int, x as int, y as int, 1, dy as int)
                    || in_rect(i, ww as int, wh as int, x + w - 1, y as int, 1, dy as int) { c } else { mid[i] },
        decreases h - dy,
    {
        let ghost b0 = buf@;
        set_pixel(buf, ww, wh, x, y + dy, c);
        proof { lemma_set_pixel_pointwise(b0, buf@, ww, wh, x, (y + dy) as usize, c); }
        let ghost b1 = buf@;
        set_pixel(buf, ww, wh, x + w - 1, y + dy, c);
        proof {
            lemma_set_pixel_pointwise(b1, buf@, ww, wh, (x + w - 1) as usize, (y + dy) as usize, c);
            assert forall|i: int| 0 <= i < start.len() implies #[trigger] buf@[i]
                == if in_rect(i, ww as int, wh as int, x as int, y as int, 1, dy + 1)
                    || in_rect(i, ww as int, wh as int, x + w - 1, y as int, 1, dy + 1) { c } else { mid[i] } by {
                assert(b0[i] == if in_rect(i, ww as int, wh as int, x as int, y as int, 1, dy as int)
                    || in_rect(i, ww as int, wh as int, x + w - 1, y as int, 1, dy as int) { c } else { mid[i] });
                assert(b1[i] == if in_rect(i, ww as int, wh as int, x as int, y + dy, 1, 1) { c } else { b0[i] });
            }
        }
        dy += 1;
    }
    proof {
        assert forall|i: int| 0 <= i < start.len() implies #[trigger] buf@[i]
            == if on_outline(i, ww as int, wh as int, x as int, y as int, w as int, h as int) { c } else { start[i] } by {
            assert(mid[i] == if in_rect(i, ww as int, wh as int, x as int, y as int, w as int, 1)
                    || in_rect(i, ww as int, wh as int, x as int, y + h - 1, w as int, 1) { c } else { start[i] });
        }
    }
}

/// One colour channel of `c`: 0 for blue, 1 for green, 2 for red.
pub open spec fn channel(c: u32, k: int) -> int {
    if k == 0 { (c % 256) as int } else if k == 1 { ((c / 256) % 256) as int } else { ((c / 65536) % 256) as int }
}

/// `base` and `top` mixed in one channel, `alpha` parts in 255 of `top`, rounded down.
pub open spec fn mix(base: int, top: int, alpha: int) -> int {
    (base * (255 - alpha) + top * alpha) / 255
}

/// The colour whose channels are `top` laid over `base` with opacity `alpha` / 255.
pub open spec fn spec_blend(base: u32, top: u32, alpha: u32) -> int {
    mix(channel(base, 2), channel(top, 2), alpha as int) * 65536
        + mix(channel(base, 1), channel(top, 1), alpha as int) * 256
        + mix(channel(base, 0), channel(top, 0), alpha as int)
}

proof fn lemma_mix_bound(b: int, t: int, a: int)
    requires
        0 <= b < 256,
        0 <= t < 256,
        0 <= a <= 255,
    ensures
        0 <= mix(b, t, a) < 256,
        mix(b, b, a) == b,
        mix(b, t, 0) == b,
        mix(b, t, 255) == t,
{
    assert(0 <= b * (255 - a) + t * a <= 255 * 255) by (nonlinear_arith)
        requires 0 <= b < 256, 0 <= t < 256, 0 <= a <= 255;
    assert(b * (255 - a) + b * a == b * 255) by (nonlinear_arith);
}

/// Lays `top` over `base` with opacity `alpha` / 255, channel by channel.
pub fn blend(base: u32, top: u32, alpha: u32) -> (res: u32)
    requires
        alpha <= 255,
    ensures
        res == spec_blend(base, top, alpha),
        res < 0x1000000,
        alpha == 0 ==> res == base % 0x1000000,
        alpha == 255 ==> res == top % 0x1000000,
        top == base ==> res == base % 0x1000000,
{
    let br = (base >> 16) & 0xFF;
    let bg = (base >> 8) & 0xFF;
    let bb = base & 0xFF;
    let tr = (top >> 16) & 0xFF;
    let tg = (top >> 8) & 0xFF;
    let tb = top & 0xFF;
    proof {
        assert(br == (base / 65536) % 256 && bg == (base / 256) % 256 && bb == base % 256) by (bit_vector)
            requires br == (base >> 16) & 0xFF, bg == (base >> 8) & 0xFF, bb == base & 0xFF;
        assert(tr == (top / 65536) % 256 && tg == (top / 256) % 256 && tb == top % 256) by (bit_vector)
            requires tr == (top >> 16) & 0xFF, tg == (top >> 8) & 0xFF, tb == top & 0xFF;
        assert(br * (255 - alpha) <= 255 * 255) by (nonlinear_arith) requires br <= 255, alpha <= 255;
        assert(tr * alpha <= 255 * 255) by (nonlinear_arith) requires tr <= 255, alpha <= 255;
        assert(bg * (255 - alpha) <= 255 * 255) by (nonlinear_arith) requires bg <= 255, alpha <= 255;
        assert(tg * alpha <= 255 * 255) by (nonlinear_arith) requires tg <= 255, alpha <= 255;
        assert(bb * (255 - alpha) <= 255 * 255) by (nonlinear_arith) requires bb <= 255, alpha <= 255;
        assert(tb * alpha <= 255 * 255) by (nonlinear_arith) requires tb <= 255, alpha <= 255;
        lemma_mix_bound(br as int, tr as int, alpha as int);
        lemma_mix_bound(bg as int, tg as int, alpha as int);
        lemma_mix_bound(bb as int, tb as int, alpha as int);
    }
    let r = (br * (255 - alpha) + tr * alpha) / 255;
    let g = (bg * (255 - alpha) + tg * alpha) / 255;
    let b = (bb * (255 - alpha) + tb * alpha) / 255;
    proof {
        assert((r << 16) | (g << 8) | b == r * 65536 + g * 256 + b) by (bit_vector)
            requires r < 256, g < 256, b < 256;
        assert(base % 0x1000000 == ((base / 65536) % 256) * 65536 + ((base / 256) % 256) * 256 + base % 256) by (bit_vector);
        assert(top % 0x1000000 == ((top / 65536) % 256) * 65536 + ((top / 256) % 256) * 256 + top % 256) by (bit_vector);
    }
    (r << 16) | (g << 8) | b
}

/// The thickness of a block's bevel: a twelfth of its size, at least one pixel.
pub open spec fn block_border(s: int) -> int {
    if s / 12 > 1 { s / 12 } else { 1 }
}

/// The colour at offset (`dx`, `dy`) inside an `s` x `s` block of `piece`:
/// an inner square in the main colour on a highlight ring (blocks of 12
/// pixels and more), a shaded bottom and right bevel, a highlighted top and
/// left bevel, and the main colour elsewhere.
pub open spec fn nes_block_color(dx: int, dy: int, s: int, piece: int) -> int {
    let c = spec_piece_color(piece) as int;
    let cl = spec_piece_color_light(piece) as int;
    let dark = spec_blend(spec_piece_color(piece), 0, 120);
    let b = block_border(s);
    let i = s / 5;
    let j = s / 4;
    if s >= 12 && j <= dx < s - j && j <= dy < s - j {
        c
    } else if s >= 12 && i <= dx < s - i && i <= dy < s - i {
        cl
    } else if dx >= s - b || dy >= s - b {
        dark
    } else if dx < b || dy < b {
        cl
    } else {
        c
    }
}

/// Draws an `s` x `s` block of `piece` with its top-left corner at (`x`, `y`).
pub fn draw_nes_block(buf: &mut [u32], ww: usize, wh: usize, x: usize, y: usize, s: usize, piece: usize)
    requires
        ww * wh <= old(buf)@.len(),
        piece < PIECE_COUNT,
        x + s <= usize::MAX,
        y + s <= usize::MAX,
        x + s >= block_border(s as int),
        y + s >= block_border(s as int),
    ensures
        final(buf)@.len() == old(buf)@.len(),
        forall|i: int| 0 <= i < old(buf)@.len() ==> #[trigger] final(buf)@[i]
            == if in_rect(i, ww as int, wh as int, x as int, y as int, s as int, s as int) {
                nes_block_color(i % ww as int - x, i / ww as int - y, s as int, piece as int)
            } else {
                old(buf)@[i] as int
            },
{
    let c = piece_color(piece);
    let cl = piece_color_light(piece);
    let dark = blend(c, 0x000000, 120);
    let b = if s / 12 > 1 { s / 12 } else { 1 };
    let ghost b0 = buf@;
    fill_rect(buf, ww, wh, x, y, s, s, c);
    let ghost b1 = buf@;
    fill_rect(buf, ww, wh, x, y, s, b, cl);
    let ghost b2 = buf@;
    fill_rect(buf, ww, wh, x, y, b, s, cl);
    let ghost b3 = buf@;
    fill_rect(buf, ww, wh, x, y + s - b, s, b, dark);
    let ghost b4 = buf@;
    fill_rect(buf, ww, wh, x + s - b, y, b, s, dark);
    let ghost b5 = buf@;
    if s >= 12 {
        let i = s / 5;
        let j = s / 4;
        fill_rect(buf, ww, wh, x + i, y + i, s - i * 2, s - i * 2, cl);
        let ghost b6 = buf@;
        fill_rect(buf, ww, wh, x + j, y + j, s - j * 2, s - j * 2, c);
        proof {
            assert forall|k: int| 0 <= k < b0.len() implies #[trigger] buf@[k]
                == if in_rect(k, ww as int, wh as int, x as int, y as int, s as int, s as int) {
                    nes_block_color(k % ww as int - x, k / ww as int - y, s as int, piece as int)
                } else {
                    b0[k] as int
                } by {
                let (wi, hi, xi, yi, si, bi) = (ww as int, wh as int, x as int, y as int, s as int, b as int);
                assert(b1[k] == if in_rect(k, wi, hi, xi, yi, si, si) { c } else { b0[k] });
                assert(b2[k] == if in_rect(k, wi, hi, xi, yi, si, bi) { cl } else { b1[k] });
                assert(b3[k] == if in_rect(k, wi, hi, xi, yi, bi, si) { cl } else { b2[k] });
                assert(b4[k] == if in_rect(k, wi, hi, xi, yi + si - bi, si, bi) { dark } else { b3[k] });
                assert(b5[k] == if in_rect(k, wi, hi, xi + si - bi, yi, bi, si) { dark } else { b4[k] });
                assert(b6[k] == if in_rect(k, wi, hi, xi + i, yi + i, si - i * 2, si - i * 2) { cl } else { b5[k] });
            }
        }
    } else {
        proof {
            assert forall|k: int| 0 <= k < b0.len() implies #[trigger] buf@[k]
                == if in_rect(k, ww as int, wh as int, x as int, y as int, s as int, s as int) {
                    nes_block_color(k % ww as int - x, k / ww as int - y, s as int, piece as int)
                } else {
                    b0[k] as int
                } by {
                let (wi, hi, xi, yi, si, bi) = (ww as int, wh as int, x as int, y as int, s as int, b as int);
                assert(b1[k] == if in_rect(k, wi, hi, xi, yi, si, si) { c } else { b0[k] });
                assert(b2[k] == if in_rect(k, wi, hi, xi, yi, si, bi) { cl } else { b1[k] });
                assert(b3[k] == if in_rect(k, wi, hi, xi, yi, bi, si) { cl } else { b2[k] });
                assert(b4[k] == if in_rect(k, wi, hi, xi, yi + si - bi, si, bi) { dark } else { b3[k] });
                assert(b5[k] == if in_rect(k, wi, hi, xi + si - bi, yi, bi, si) { dark } else { b4[k] });
            }
        }
    }
}

} // verus!
