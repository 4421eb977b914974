use simplan::raster::{draw_label_small, draw_rect, LABEL_COLOUR};

const RED: [u8; 4] = [255, 0, 0, 255];

fn pixel(buf: &[u8], w: u32, x: u32, y: u32) -> [u8; 4] {
    let i = ((y * w + x) * 4) as usize;
    [buf[i], buf[i + 1], buf[i + 2], buf[i + 3]]
}

#[test]
fn rect_inside_image() {
    let mut buf = vec![0u8; 8 * 6 * 4];
    draw_rect(&mut buf, 8, 6, 2, 1, 3, 2, RED);
    let mut painted = 0;
    for y in 0..6 {
        for x in 0..8 {
            let inside = (2..5).contains(&x) && (1..3).contains(&y);
            assert_eq!(pixel(&buf, 8, x, y), if inside { RED } else { [0; 4] });
            if inside {
                painted += 1;
            }
        }
    }
    assert_eq!(painted, 6);
}

#[test]
fn rect_is_clipped_at_every_edge() {
    let mut buf = vec![0u8; 4 * 4 * 4];
    draw_rect(&mut buf, 4, 4, -2, -2, 3, 3, RED);
    assert_eq!(pixel(&buf, 4, 0, 0), RED);
    assert_eq!(pixel(&buf, 4, 1, 0), [0; 4]);
    assert_eq!(pixel(&buf, 4, 0, 1), [0; 4]);
    let mut buf = vec![0u8; 4 * 4 * 4];
    draw_rect(&mut buf, 4, 4, 3, 3, 10, 10, RED);
    assert_eq!(pixel(&buf, 4, 3, 3), RED);
    assert_eq!(buf.iter().filter(|b| **b == 255).count(), 2);
}

#[test]
fn rect_does_not_wrap_to_next_row() {
    let mut buf = vec![0u8; 3 * 2 * 4];
    draw_rect(&mut buf, 3, 2, 2, 0, 2, 1, RED);
    assert_eq!(pixel(&buf, 3, 2, 0), RED);
    assert_eq!(pixel(&buf, 3, 0, 1), [0; 4]);
}

#[test]
fn rect_respects_short_buffer() {
    // The buffer holds only the first row of a 2x2 image.
    let mut buf = vec![0u8; 2 * 4];
    draw_rect(&mut buf, 2, 2, 0, 0, 2, 2, RED);
    assert_eq!(buf, vec![255, 0, 0, 255, 255, 0, 0, 255]);
}

#[test]
fn empty_or_negative_rect_paints_nothing() {
    let mut buf = vec![7u8; 4 * 4 * 4];
    draw_rect(&mut buf, 4, 4, 1, 1, 0, 3, RED);
    draw_rect(&mut buf, 4, 4, 1, 1, 3, -1, RED);
    assert!(buf.iter().all(|b| *b == 7));
}

#[test]
fn label_digit_one() {
    let (w, h) = (32u32, 32u32);
    let mut buf = vec![0u8; (w * h * 4) as usize];
    draw_label_small(&mut buf, w, h, "1");
    // Row 0 of '1' is [0,1,0]: one 4x4 block at x = 6 + 4, y = 6.
    assert_eq!(pixel(&buf, w, 10, 6), LABEL_COLOUR);
    assert_eq!(pixel(&buf, w, 13, 9), LABEL_COLOUR);
    assert_eq!(pixel(&buf, w, 6, 6), [0; 4]);
    // Row 4 is [1,1,1]: x 6..18, y 22..26.
    assert_eq!(pixel(&buf, w, 6, 22), LABEL_COLOUR);
    assert_eq!(pixel(&buf, w, 17, 25), LABEL_COLOUR);
    assert_eq!(pixel(&buf, w, 18, 25), [0; 4]);
    // Lit font cells of '1': 1 + 2 + 1 + 1 + 3 = 8 blocks of 16 pixels.
    let lit = buf.chunks(4).filter(|p| *p == LABEL_COLOUR).count();
    assert_eq!(lit, 8 * 16);
}

#[test]
fn label_separators_and_advance() {
    let (w, h) = (64u32, 32u32);
    let mut buf = vec![0u8; (w * h * 4) as usize];
    draw_label_small(&mut buf, w, h, "/-x8");
    // '/' : 2x12 bar at (6, 10).
    assert_eq!(pixel(&buf, w, 6, 10), LABEL_COLOUR);
    assert_eq!(pixel(&buf, w, 7, 21), LABEL_COLOUR);
    assert_eq!(pixel(&buf, w, 8, 10), [0; 4]);
    // '-' : 2x2 dot at (12, 14).
    assert_eq!(pixel(&buf, w, 12, 14), LABEL_COLOUR);
    assert_eq!(pixel(&buf, w, 13, 15), LABEL_COLOUR);
    assert_eq!(pixel(&buf, w, 12, 16), [0; 4]);
    // 'x' leaves a gap of 6; '8' starts at x = 24 with a full top row.
    assert_eq!(pixel(&buf, w, 24, 6), LABEL_COLOUR);
    assert_eq!(pixel(&buf, w, 35, 6), LABEL_COLOUR);
    assert_eq!(pixel(&buf, w, 23, 6), [0; 4]);
}

#[test]
fn label_is_clipped_by_small_image() {
    let (w, h) = (8u32, 8u32);
    let mut buf = vec![0u8; (w * h * 4) as usize];
    draw_label_small(&mut buf, w, h, "0");
    assert_eq!(pixel(&buf, w, 6, 6), LABEL_COLOUR);
    assert_eq!(pixel(&buf, w, 7, 7), LABEL_COLOUR);
    assert_eq!(pixel(&buf, w, 5, 5), [0; 4]);
}

#[test]
fn label_on_very_wide_image() {
    // 100 000 pixels wide: only the first 30 rows are held in the buffer.
    let (w, h) = (100_000u32, 100_000u32);
    let mut buf = vec![0u8; (w as usize) * 30 * 4];
    draw_label_small(&mut buf, w, h, "1");
    assert_eq!(pixel(&buf, w, 10, 6), LABEL_COLOUR);
    assert_eq!(pixel(&buf, w, 17, 25), LABEL_COLOUR);
    assert_eq!(pixel(&buf, w, 6, 6), [0; 4]);
}

#[test]
fn rect_beyond_short_buffer_is_skipped() {
    let mut buf = vec![0u8; 4];
    draw_rect(&mut buf, 70_000, 70_000, 0, 60_000, 2, 2, RED);
    assert_eq!(buf, vec![0u8; 4]);
}
