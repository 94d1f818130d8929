//! Pixel utilities over BGRA byte buffers: alpha blending of single pixels,
//! whole-buffer clears, rectangle fills, and fixed-point (Q8) helpers. All
//! arithmetic reproduces the narrowing that byte-sized channels impose.

use vstd::arithmetic::div_mod::lemma_fundamental_div_mod_converse;
use vstd::prelude::*;

verus! {

/// One color with straight byte channels.
pub struct SageColor {
    pub r: u8,
    pub g: u8,
    pub b: u8,
    pub a: u8,
}

/// One blended channel: source plus destination scaled by the remaining
/// coverage, truncated to a byte exactly as the narrowing cast does.
pub open spec fn blend_channel(s: u8, d: u8, a: u8) -> u8 {
    ((s as int + (d as int * (255 - a as int)) / 255) % 256) as u8
}

/// The four bytes of a BGRA pixel after blending a color over it: opaque
/// source replaces, transparent source leaves alone, anything between mixes
/// channel by channel.
pub open spec fn blended_pixel(dst: Seq<u8>, r: u8, g: u8, b: u8, a: u8) -> Seq<u8>
    recommends
        dst.len() == 4,
{
    if a == 255 {
        seq![b, g, r, 255u8]
    } else if a == 0 {
        dst
    } else {
        seq![
            blend_channel(b, dst[0], a),
            blend_channel(g, dst[1], a),
            blend_channel(r, dst[2], a),
            blend_channel(a, dst[3], a),
        ]
    }
}

fn blend_channel_val(s: u8, d: u8, a: u8) -> (r: u8)
    ensures
        r == blend_channel(s, d, a),
{
    let inv: u32 = 255 - a as u32;
    assert((d as u32) * inv <= 255 * 255) by (nonlinear_arith)
        requires
            d as u32 <= 255,
            inv <= 255,
    ;
    let v: u32 = s as u32 + (d as u32 * inv) / 255;
    (v % 256) as u8
}

/// Blends a color over the 4-byte BGRA pixel at `offset`, leaving every
/// byte outside that pixel unchanged.
pub fn blend_pixel(buf: &mut Vec<u8>, offset: usize, r: u8, g: u8, b: u8, a: u8)
    requires
        offset + 4 <= old(buf)@.len(),
    ensures
        final (buf)@.len() == old(buf)@.len(),
        final (buf)@.subrange(offset as int, offset as int + 4) == blended_pixel(
            old(buf)@.subrange(offset as int, offset as int + 4),
            r,
            g,
            b,
            a,
        ),
        forall|i: int|
            0 <= i < old(buf)@.len() && !(offset <= i < offset + 4) ==> final (buf)@[i] == old(
                buf,
            )@[i],
{
    let _n = buf.len();
    if a == 255 {
        buf[offset] = b;
        buf[offset + 1] = g;
        buf[offset + 2] = r;
        buf[offset + 3] = 255;
    } else if a == 0 {
    } else {
        let d0 = buf[offset];
        let d1 = buf[offset + 1];
        let d2 = buf[offset + 2];
        let d3 = buf[offset + 3];
        buf[offset] = blend_channel_val(b, d0, a);
        buf[offset + 1] = blend_channel_val(g, d1, a);
        buf[offset + 2] = blend_channel_val(r, d2, a);
        buf[offset + 3] = blend_channel_val(a, d3, a);
    }
    proof {
        assert(final (buf)@.subrange(offset as int, offset as int + 4) =~= blended_pixel(
            old(buf)@.subrange(offset as int, offset as int + 4),
            r,
            g,
            b,
            a,
        ));
    }
}

/// The blue channel of a packed 0xAARRGGBB color.
pub open spec fn color_b(c: u32) -> u8 {
    (c & 0xFF) as u8
}

/// The green channel of a packed 0xAARRGGBB color.
pub open spec fn color_g(c: u32) -> u8 {
    ((c >> 8) & 0xFF) as u8
}

/// The red channel of a packed 0xAARRGGBB color.
pub open spec fn color_r(c: u32) -> u8 {
    ((c >> 16) & 0xFF) as u8
}

/// The alpha channel of a packed 0xAARRGGBB color.
pub open spec fn color_a(c: u32) -> u8 {
    ((c >> 24) & 0xFF) as u8
}

/// Blends `color` over every pixel of a `width` by `height` BGRA buffer
/// laid out without row padding; bytes past the pixel area stay untouched.
pub fn sage_clear(buf: &mut Vec<u8>, width: usize, height: usize, color: u32)
    requires
        width * height * 4 <= usize::MAX as int,
        old(buf)@.len() >= width * height * 4,
    ensures
        final (buf)@.len() == old(buf)@.len(),
        forall|p: int|
            0 <= p < width * height ==> #[trigger] final (buf)@.subrange(4 * p, 4 * p + 4)
                == blended_pixel(
                old(buf)@.subrange(4 * p, 4 * p + 4),
                color_r(color),
                color_g(color),
                color_b(color),
                color_a(color),
            ),
        forall|i: int|
            width * height * 4 <= i < old(buf)@.len() ==> final (buf)@[i] == old(buf)@[i],
{
    let b = (color & 0xFF) as u8;
    let g = ((color >> 8) & 0xFF) as u8;
    let r = ((color >> 16) & 0xFF) as u8;
    let a = ((color >> 24) & 0xFF) as u8;
    assert(color & 0xFF <= 255 && (color >> 8) & 0xFF <= 255 && (color >> 16) & 0xFF <= 255 && (
    color >> 24) & 0xFF <= 255) by (bit_vector);
    let count = width * height;
    let mut p: usize = 0;
    while p < count
        invariant
            count == width * height,
            count * 4 <= usize::MAX as int,
            buf@.len() == old(buf)@.len() >= count * 4,
            0 <= p <= count,
            b == color_b(color) && g == color_g(color) && r == color_r(color) && a == color_a(
                color,
            ),
            forall|q: int|
                0 <= q < p ==> #[trigger] buf@.subrange(4 * q, 4 * q + 4) == blended_pixel(
                    old(buf)@.subrange(4 * q, 4 * q + 4),
                    color_r(color),
                    color_g(color),
                    color_b(color),
                    color_a(color),
                ),
            forall|i: int| 4 * p <= i < old(buf)@.len() ==> buf@[i] == old(buf)@[i],
        decreases count - p,
    {
        let ghost pre = buf@;
        let off = p * 4;
        proof {
            assert(4 * (p as int) + 4 <= 4 * (count as int)) by (nonlinear_arith)
                requires
                    (p as int) < (count as int),
            ;
            assert(pre.subrange(4 * (p as int), 4 * (p as int) + 4) =~= old(buf)@.subrange(
                4 * (p as int),
                4 * (p as int) + 4,
            ));
        }
        blend_pixel(buf, off, r, g, b, a);
        proof {
            assert forall|q: int|
                0 <= q < p as int + 1 implies #[trigger] buf@.subrange(4 * q, 4 * q + 4)
                == blended_pixel(
                old(buf)@.subrange(4 * q, 4 * q + 4),
                color_r(color),
                color_g(color),
                color_b(color),
                color_a(color),
            ) by {
                if q < p as int {
                    assert(buf@.subrange(4 * q, 4 * q + 4) =~= pre.subrange(4 * q, 4 * q + 4));
                }
            }
        }
        p = p + 1;
    }
}

/// The first row or column of a rectangle starting at `v`, clipped to the
/// buffer's near edge.
pub open spec fn clip_lo(v: i32) -> int {
    if v < 0 {
        0
    } else {
        v as int
    }
}

/// The row or column just past a rectangle of extent `e` at `v`, clipped to
/// the buffer's far edge at `lim`.
pub open spec fn clip_hi(v: i32, e: i32, lim: int) -> int {
    if v as int + e as int > lim {
        lim
    } else {
        v as int + e as int
    }
}

/// The byte offset of the pixel in row `yy`, column `xx` of a buffer with
/// `pitch` bytes per row.
pub open spec fn pix_off(pitch: int, yy: int, xx: int) -> int {
    yy * pitch + 4 * xx
}

/// Whether byte `i` belongs to some pixel of the given column and row
/// ranges.
pub open spec fn covered(pitch: int, x0: int, x1: int, y0: int, y1: int, i: int) -> bool {
    exists|yy: int, xx: int|
        y0 <= yy < y1 && x0 <= xx < x1 && #[trigger] pix_off(pitch, yy, xx) <= i < pix_off(
            pitch,
            yy,
            xx,
        ) + 4
}

/// Whether byte `i` belongs to some pixel of row `yy` in the given column
/// range.
spec fn covered_row(pitch: int, yy: int, x0: int, x1: int, i: int) -> bool {
    exists|xx: int|
        x0 <= xx < x1 && #[trigger] pix_off(pitch, yy, xx) <= i < pix_off(pitch, yy, xx) + 4
}

proof fn lemma_pix_bounds(pitch: int, width: int, height: int, yy: int, xx: int)
    by (nonlinear_arith)
    requires
        0 <= yy < height,
        0 <= xx < width,
        4 * width <= pitch,
    ensures
        0 <= yy * pitch + 4 * xx,
        yy * pitch + 4 * xx + 4 <= height * pitch,
        yy * pitch + 4 * xx + 4 <= (yy + 1) * pitch,
{
}

proof fn lemma_pix_disjoint(pitch: int, width: int, ry: int, rx: int, yy: int, xx: int)
    by (nonlinear_arith)
    requires
        0 <= ry,
        0 <= rx < width,
        0 <= yy,
        0 <= xx < width,
        4 * width <= pitch,
        ry < yy || (ry == yy && rx < xx),
    ensures
        ry * pitch + 4 * rx + 4 <= yy * pitch + 4 * xx,
{
}

/// Blends `color` over the rectangle at (`x`, `y`) of size `w` by `h`,
/// clipped to a `width` by `height` BGRA buffer with `pitch` bytes per row;
/// every byte outside the clipped rectangle's pixels stays untouched.
pub fn sage_draw_rect(
    buf: &mut Vec<u8>,
    width: usize,
    height: usize,
    pitch: usize,
    x: i32,
    y: i32,
    w: i32,
    h: i32,
    color: u32,
)
    requires
        i32::MIN as int <= x as int + w as int <= i32::MAX as int,
        i32::MIN as int <= y as int + h as int <= i32::MAX as int,
        4 * width <= pitch,
        height * pitch <= old(buf)@.len(),
    ensures
        final (buf)@.len() == old(buf)@.len(),
        forall|yy: int, xx: int|
            clip_lo(y) <= yy < clip_hi(y, h, height as int) && clip_lo(x) <= xx < clip_hi(
                x,
                w,
                width as int,
            ) ==> #[trigger] final (buf)@.subrange(
                pix_off(pitch as int, yy, xx),
                pix_off(pitch as int, yy, xx) + 4,
            ) == blended_pixel(
                old(buf)@.subrange(pix_off(pitch as int, yy, xx), pix_off(pitch as int, yy, xx) + 4),
                color_r(color),
                color_g(color),
                color_b(color),
                color_a(color),
            ),
        forall|i: int|
            0 <= i < old(buf)@.len() && !covered(
                pitch as int,
                clip_lo(x),
                clip_hi(x, w, width as int),
                clip_lo(y),
                clip_hi(y, h, height as int),
                i,
            ) ==> final (buf)@[i] == old(buf)@[i],
{
    let n = buf.len();
    let bb = (color & 0xFF) as u8;
    let gg = ((color >> 8) & 0xFF) as u8;
    let rr = ((color >> 16) & 0xFF) as u8;
    let aa = ((color >> 24) & 0xFF) as u8;
    assert(color & 0xFF <= 255 && (color >> 8) & 0xFF <= 255 && (color >> 16) & 0xFF <= 255 && (
    color >> 24) & 0xFF <= 255) by (bit_vector);
    let x0: usize = if x < 0 {
        0
    } else {
        x as usize
    };
    let y0: usize = if y < 0 {
        0
    } else {
        y as usize
    };
    let xw = x + w;
    let yh = y + h;
    let x1: usize = if xw < 0 {
        0
    } else if xw as usize > width {
        width
    } else {
        xw as usize
    };
    let y1: usize = if yh < 0 {
        0
    } else if yh as usize > height {
        height
    } else {
        yh as usize
    };
    let ghost px0 = clip_lo(x);
    let ghost px1 = clip_hi(x, w, width as int);
    let ghost py0 = clip_lo(y);
    let ghost py1 = clip_hi(y, h, height as int);
    let ghost pp = pitch as int;
    if y0 < y1 && x0 < x1 {
        let mut yy = y0;
        while yy < y1
            invariant
                n == buf@.len() == old(buf)@.len(),
                4 * width <= pitch,
                height * pitch <= n,
                x0 as int == px0,
                x1 as int == px1,
                y0 as int == py0,
                y1 as int == py1,
                x0 < x1 <= width,
                y0 <= yy <= y1,
                y1 <= height,
                pp == pitch as int,
                bb == color_b(color) && gg == color_g(color) && rr == color_r(color) && aa
                    == color_a(color),
                forall|ry: int, rx: int|
                    y0 <= ry < yy && x0 <= rx < x1 ==> #[trigger] buf@.subrange(
                        pix_off(pp, ry, rx),
                        pix_off(pp, ry, rx) + 4,
                    ) == blended_pixel(
                        old(buf)@.subrange(pix_off(pp, ry, rx), pix_off(pp, ry, rx) + 4),
                        color_r(color),
                        color_g(color),
                        color_b(color),
                        color_a(color),
                    ),
                forall|i: int|
                    0 <= i < n && !covered(pp, x0 as int, x1 as int, y0 as int, yy as int, i)
                        ==> buf@[i] == old(buf)@[i],
            decreases y1 - yy,
        {
            let mut xx = x0;
            while xx < x1
                invariant
                    n == buf@.len() == old(buf)@.len(),
                    4 * width <= pitch,
                    height * pitch <= n,
                    x0 < x1 <= width,
                    y0 <= yy < y1,
                    y1 <= height,
                    x0 <= xx <= x1,
                    pp == pitch as int,
                    bb == color_b(color) && gg == color_g(color) && rr == color_r(color) && aa
                        == color_a(color),
                    forall|ry: int, rx: int|
                        y0 <= ry < yy && x0 <= rx < x1 ==> #[trigger] buf@.subrange(
                            pix_off(pp, ry, rx),
                            pix_off(pp, ry, rx) + 4,
                        ) == blended_pixel(
                            old(buf)@.subrange(pix_off(pp, ry, rx), pix_off(pp, ry, rx) + 4),
                            color_r(color),
                            color_g(color),
                            color_b(color),
                            color_a(color),
                        ),
                    forall|rx: int|
                        x0 <= rx < xx ==> #[trigger] buf@.subrange(
                            pix_off(pp, yy as int, rx),
                            pix_off(pp, yy as int, rx) + 4,
                        ) == blended_pixel(
                            old(buf)@.subrange(
                                pix_off(pp, yy as int, rx),
                                pix_off(pp, yy as int, rx) + 4,
                            ),
                            color_r(color),
                            color_g(color),
                            color_b(color),
                            color_a(color),
                        ),
                    forall|i: int|
                        0 <= i < n && !covered(pp, x0 as int, x1 as int, y0 as int, yy as int, i)
                            && !covered_row(pp, yy as int, x0 as int, xx as int, i) ==> buf@[i]
                            == old(buf)@[i],
                decreases x1 - xx,
            {
                proof {
                    lemma_pix_bounds(pp, width as int, height as int, yy as int, xx as int);
                }
                let off = yy * pitch + 4 * xx;
                let ghost pre = buf@;
                proof {
                    assert(pre.subrange(pix_off(pp, yy as int, xx as int), pix_off(pp, yy as int, xx as int) + 4)
                        =~= old(buf)@.subrange(
                        pix_off(pp, yy as int, xx as int),
                        pix_off(pp, yy as int, xx as int) + 4,
                    )) by {
                        assert forall|j: int|
                            pix_off(pp, yy as int, xx as int) <= j < pix_off(pp, yy as int, xx as int) + 4
                            implies pre[j] == old(buf)@[j] by {
                            assert(!covered(pp, x0 as int, x1 as int, y0 as int, yy as int, j)) by {
                                if covered(pp, x0 as int, x1 as int, y0 as int, yy as int, j) {
                                    let (ry, rx) = choose|ry: int, rx: int|
                                        y0 as int <= ry < yy as int && x0 as int <= rx < x1 as int
                                            && #[trigger] pix_off(pp, ry, rx) <= j < pix_off(pp, ry, rx) + 4;
                                    lemma_pix_disjoint(pp, width as int, ry, rx, yy as int, xx as int);
                                }
                            }
                            assert(!covered_row(pp, yy as int, x0 as int, xx as int, j)) by {
                                if covered_row(pp, yy as int, x0 as int, xx as int, j) {
                                    let rx = choose|rx: int|
                                        x0 as int <= rx < xx as int && #[trigger] pix_off(pp, yy as int, rx) <= j
                                            < pix_off(pp, yy as int, rx) + 4;
                                    lemma_pix_disjoint(pp, width as int, yy as int, rx, yy as int, xx as int);
                                }
                            }
                        }
                    }
                }
                blend_pixel(buf, off, rr, gg, bb, aa);
                proof {
                    let cy = yy as int;
                    let cx = xx as int;
                    let o = pix_off(pp, cy, cx);
                    // Earlier pixels keep their blended bytes: their ranges
                    // lie strictly before the one just written.
                    assert forall|ry: int, rx: int|
                        y0 <= ry < cy && x0 <= rx < x1 implies #[trigger] buf@.subrange(
                        pix_off(pp, ry, rx),
                        pix_off(pp, ry, rx) + 4,
                    ) == blended_pixel(
                        old(buf)@.subrange(pix_off(pp, ry, rx), pix_off(pp, ry, rx) + 4),
                        color_r(color),
                        color_g(color),
                        color_b(color),
                        color_a(color),
                    ) by {
                        lemma_pix_disjoint(pp, width as int, ry, rx, cy, cx);
                        assert(buf@.subrange(pix_off(pp, ry, rx), pix_off(pp, ry, rx) + 4)
                            =~= pre.subrange(pix_off(pp, ry, rx), pix_off(pp, ry, rx) + 4));
                    }
                    assert forall|rx: int|
                        x0 <= rx < cx + 1 implies #[trigger] buf@.subrange(
                        pix_off(pp, cy, rx),
                        pix_off(pp, cy, rx) + 4,
                    ) == blended_pixel(
                        old(buf)@.subrange(pix_off(pp, cy, rx), pix_off(pp, cy, rx) + 4),
                        color_r(color),
                        color_g(color),
                        color_b(color),
                        color_a(color),
                    ) by {
                        if rx < cx {
                            lemma_pix_disjoint(pp, width as int, cy, rx, cy, cx);
                            assert(buf@.subrange(pix_off(pp, cy, rx), pix_off(pp, cy, rx) + 4)
                                =~= pre.subrange(pix_off(pp, cy, rx), pix_off(pp, cy, rx) + 4));
                        }
                    }
                    // Bytes outside the processed pixels are untouched.
                    assert forall|i: int|
                        0 <= i < n && !covered(pp, x0 as int, x1 as int, y0 as int, cy, i)
                            && !covered_row(pp, cy, x0 as int, cx + 1, i) implies buf@[i] == old(
                        buf,
                    )@[i] by {
                        assert(!(o <= i < o + 4)) by {
                            if o <= i < o + 4 {
                                assert(covered_row(pp, cy, x0 as int, cx + 1, i));
                            }
                        }
                    }
                }
                xx = xx + 1;
            }
            proof {
                // A fully painted row folds into the block of painted rows.
                assert forall|i: int|
                    0 <= i < n && !covered(pp, x0 as int, x1 as int, y0 as int, yy as int + 1, i)
                    implies !covered(pp, x0 as int, x1 as int, y0 as int, yy as int, i)
                        && !covered_row(pp, yy as int, x0 as int, x1 as int, i) by {
                    if covered(pp, x0 as int, x1 as int, y0 as int, yy as int, i) {
                        let (ry, rx) = choose|ry: int, rx: int|
                            y0 as int <= ry < yy as int && x0 as int <= rx < x1 as int
                                && #[trigger] pix_off(pp, ry, rx) <= i < pix_off(pp, ry, rx) + 4;
                        assert(covered(pp, x0 as int, x1 as int, y0 as int, yy as int + 1, i));
                    }
                    if covered_row(pp, yy as int, x0 as int, x1 as int, i) {
                        let rx = choose|rx: int|
                            x0 as int <= rx < x1 as int && #[trigger] pix_off(pp, yy as int, rx) <= i
                                < pix_off(pp, yy as int, rx) + 4;
                        assert(covered(pp, x0 as int, x1 as int, y0 as int, yy as int + 1, i));
                    }
                }
            }
            yy = yy + 1;
        }
        proof {
            assert forall|i: int|
                0 <= i < n && !covered(pp, px0, px1, py0, py1, i) implies buf@[i] == old(buf)@[i] by {
                if covered(pp, x0 as int, x1 as int, y0 as int, y1 as int, i) {
                    let (ry, rx) = choose|ry: int, rx: int|
                        y0 as int <= ry < y1 as int && x0 as int <= rx < x1 as int
                            && #[trigger] pix_off(pp, ry, rx) <= i < pix_off(pp, ry, rx) + 4;
                    assert(covered(pp, px0, px1, py0, py1, i));
                }
            }
        }
    } else {
        proof {
            assert(py1 <= y1 as int && px1 <= x1 as int);
        }
    }
}

/// Multiplies two Q8 fixed-point numbers: the product scaled down by 256,
/// rounded toward negative infinity as the arithmetic shift does.
pub fn sage_q8_mul(a: i32, b: i32) -> (r: i32)
    requires
        i32::MIN <= a as int * b as int <= i32::MAX,
    ensures
        r as int == (a as int * b as int) / 256,
{
    let p = a * b;
    shr8(p)
}

/// Interpolates between two Q8 fixed-point numbers by `t` out of 255.
pub fn sage_q8_lerp(a: i32, b: i32, t: i32) -> (r: i32)
    requires
        i32::MIN <= 255 - t as int <= i32::MAX,
        i32::MIN <= a as int * (255 - t as int) <= i32::MAX,
        i32::MIN <= b as int * t as int <= i32::MAX,
        i32::MIN <= a as int * (255 - t as int) + b as int * t as int <= i32::MAX,
    ensures
        r as int == (a as int * (255 - t as int) + b as int * t as int) / 256,
{
    let s = a * (255 - t) + b * t;
    shr8(s)
}

/// Scales down by 256, rounding toward negative infinity.
fn shr8(p: i32) -> (r: i32)
    ensures
        r as int == p as int / 256,
{
    if p >= 0 {
        p / 256
    } else {
        let m = -1 - p;
        let q = m / 256;
        proof {
            let k = p as int / 256;
            let s = p as int % 256;
            lemma_fundamental_div_mod_converse(-1 - p as int, 256, -k - 1, 255 - s);
        }
        -1 - q
    }
}

/// Blends one premultiplied 0xAABBGGRR pixel over another, channel by
/// channel; bits that a channel sum pushes past its byte run into the
/// neighboring channel exactly as the word-level combination does.
pub open spec fn pm_blend(dst: u32, src: u32) -> u32 {
    let sa = (src >> 24) & 0xFF;
    let inv = (255 - sa as int) as u32;
    let r = ((src & 0xFF) as int + ((dst & 0xFF) as int * inv as int) / 256) as u32;
    let g = (((src >> 8) & 0xFF) as int + (((dst >> 8) & 0xFF) as int * inv as int) / 256) as u32;
    let b = (((src >> 16) & 0xFF) as int + (((dst >> 16) & 0xFF) as int * inv as int)
        / 256) as u32;
    let a = (sa as int + (((dst >> 24) & 0xFF) as int * inv as int) / 256) as u32;
    (a << 24) | (b << 16) | (g << 8) | r
}

/// Blends one premultiplied pixel over another.
pub fn sage_blend_rgba_pm(dst: u32, src: u32) -> (out: u32)
    ensures
        out == pm_blend(dst, src),
{
    let sa = (src >> 24) & 0xFF;
    assert((src >> 24) & 0xFF <= 255) by (bit_vector);
    assert(src & 0xFF <= 255 && (src >> 8) & 0xFF <= 255 && (src >> 16) & 0xFF <= 255)
        by (bit_vector);
    assert(dst & 0xFF <= 255 && (dst >> 8) & 0xFF <= 255 && (dst >> 16) & 0xFF <= 255 && (dst
        >> 24) & 0xFF <= 255) by (bit_vector);
    let inv = 255 - sa;
    proof {
        mul_le(dst & 0xFF, inv);
        mul_le((dst >> 8) & 0xFF, inv);
        mul_le((dst >> 16) & 0xFF, inv);
        mul_le((dst >> 24) & 0xFF, inv);
    }
    let r = (src & 0xFF) + ((dst & 0xFF) * inv) / 256;
    let g = ((src >> 8) & 0xFF) + (((dst >> 8) & 0xFF) * inv) / 256;
    let b = ((src >> 16) & 0xFF) + (((dst >> 16) & 0xFF) * inv) / 256;
    let a = sa + (((dst >> 24) & 0xFF) * inv) / 256;
    (a << 24) | (b << 16) | (g << 8) | r
}

/// The product of two channel-sized words stays well inside a machine word.
proof fn mul_le(x: u32, y: u32)
    by (nonlinear_arith)
    requires
        x <= 255,
        y <= 255,
    ensures
        x as int * y as int <= 255 * 255,
        0 <= x as int * y as int,
{
}

} // verus!
