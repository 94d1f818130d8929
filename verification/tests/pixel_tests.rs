use feather_core::pixel::{
    blend_pixel, sage_blend_rgba_pm, sage_clear, sage_draw_rect, sage_q8_lerp, sage_q8_mul,
    SageColor,
};

#[test]
fn blend_pixel_opaque_replaces() {
    let mut buf = vec![10u8, 20, 30, 40];
    blend_pixel(&mut buf, 0, 100, 150, 200, 255);
    assert_eq!(buf, vec![200, 150, 100, 255]);
}

#[test]
fn blend_pixel_transparent_leaves() {
    let mut buf = vec![10u8, 20, 30, 40];
    blend_pixel(&mut buf, 0, 100, 150, 200, 0);
    assert_eq!(buf, vec![10, 20, 30, 40]);
}

#[test]
fn blend_pixel_mixes_channels() {
    // channel = src + dst * (255 - a) / 255, truncated to a byte
    let mut buf = vec![0u8, 0, 10, 20, 30, 40, 0, 0];
    blend_pixel(&mut buf, 2, 100, 150, 200, 128);
    assert_eq!(buf, vec![0, 0, 204, 159, 114, 147, 0, 0]);
}

#[test]
fn clear_fills_every_pixel() {
    let mut buf = vec![0u8; 10];
    sage_clear(&mut buf, 2, 1, 0xFF112233);
    assert_eq!(buf, vec![0x33, 0x22, 0x11, 0xFF, 0x33, 0x22, 0x11, 0xFF, 0, 0]);
}

#[test]
fn draw_rect_paints_only_the_clipped_rectangle() {
    let mut buf = vec![0u8; 64];
    // 4x4 grid, 16 bytes per row; opaque red rectangle at (1,1) of size 2x2.
    sage_draw_rect(&mut buf, 4, 4, 16, 1, 1, 2, 2, 0xFFFF0000);
    let mut expect = vec![0u8; 64];
    for yy in 1..3usize {
        for xx in 1..3usize {
            let off = yy * 16 + xx * 4;
            expect[off] = 0; // blue
            expect[off + 1] = 0; // green
            expect[off + 2] = 0xFF; // red
            expect[off + 3] = 0xFF; // alpha
        }
    }
    assert_eq!(buf, expect);
}

#[test]
fn draw_rect_clips_to_the_buffer() {
    let mut buf = vec![0u8; 32];
    // 2x2 grid with pitch 16: a rectangle hanging off every edge paints all
    // four pixels and nothing else.
    sage_draw_rect(&mut buf, 2, 2, 16, -5, -5, 100, 100, 0xFF0000FF);
    for yy in 0..2usize {
        for xx in 0..2usize {
            let off = yy * 16 + xx * 4;
            assert_eq!(&buf[off..off + 4], &[0xFF, 0, 0, 0xFF]);
        }
    }
    assert_eq!(&buf[8..16], &[0u8; 8]);
    assert_eq!(&buf[24..32], &[0u8; 8]);
}

#[test]
fn draw_rect_empty_when_fully_outside() {
    let mut buf = vec![9u8; 32];
    sage_draw_rect(&mut buf, 2, 2, 16, 5, 5, 3, 3, 0xFFFFFFFF);
    assert_eq!(buf, vec![9u8; 32]);
}

#[test]
fn q8_mul_exact() {
    assert_eq!(sage_q8_mul(512, 512), 1024);
    assert_eq!(sage_q8_mul(256, 128), 128);
    assert_eq!(sage_q8_mul(-257, 1), -2);
    assert_eq!(sage_q8_mul(-256, 1), -1);
    assert_eq!(sage_q8_mul(0, 12345), 0);
}

#[test]
fn q8_lerp_exact() {
    // (a * (255 - t) + b * t) scaled down by 256
    assert_eq!(sage_q8_lerp(0, 256, 255), 255);
    assert_eq!(sage_q8_lerp(256, 0, 0), 255);
    assert_eq!(sage_q8_lerp(100, 200, 128), (100 * 127 + 200 * 128) >> 8);
}

#[test]
fn blend_rgba_pm_over_black() {
    assert_eq!(sage_blend_rgba_pm(0, 0x80402010), 0x80402010);
}

#[test]
fn blend_rgba_pm_transparent_source() {
    assert_eq!(sage_blend_rgba_pm(0xFFFFFFFF, 0), 0xFEFEFEFE);
}

#[test]
fn blend_rgba_pm_channel_overflow_bleeds() {
    // 255 + 255 * 255 / 256 = 509 in the green channel: the carry runs into
    // the blue byte, exactly as the word-level combination does.
    assert_eq!(sage_blend_rgba_pm(0x0000FF00, 0x0000FF00), 0x0001FD00);
}

#[test]
fn sage_color_carries_channels() {
    let c = SageColor { r: 1, g: 2, b: 3, a: 4 };
    assert_eq!((c.r, c.g, c.b, c.a), (1, 2, 3, 4));
}
