//! Painting into RGBA8 image buffers: clipped rectangles and small numeric
//! labels in a 3×5 bitmap font.

use vstd::prelude::*;
use vstd::arithmetic::div_mod::lemma_fundamental_div_mod_converse;

verus! {

/// A rectangle in pixels: left, top, width, height.
pub struct Rect {
    pub x: int,
    pub y: int,
    pub w: int,
    pub h: int,
}

/// Pixel `p` (row-major index) of a `w`×`h` image held in `len` bytes is
/// painted by rectangle `r`: it lies inside both the image and the
/// rectangle, and its four bytes lie inside the buffer.
pub open spec fn covers(w: int, h: int, len: int, r: Rect, p: int) -> bool {
    &&& w > 0
    &&& 0 <= p
    &&& p / w < h
    &&& r.x <= p % w < r.x + r.w
    &&& r.y <= p / w < r.y + r.h
    &&& 4 * p + 3 < len
}

/// The buffer after painting rectangle `r` with `color`.
pub open spec fn paint_rect(buf: Seq<u8>, w: int, h: int, r: Rect, color: Seq<u8>) -> Seq<u8> {
    Seq::new(
        buf.len(),
        |j: int|
            if covers(w, h, buf.len() as int, r, j / 4) {
                color[j % 4]
            } else {
                buf[j]
            },
    )
}

/// The buffer after painting the rectangles `rs` in order.
pub open spec fn paint_all(buf: Seq<u8>, w: int, h: int, rs: Seq<Rect>, color: Seq<u8>) -> Seq<u8>
    decreases rs.len(),
{
    if rs.len() == 0 {
        buf
    } else {
        paint_rect(paint_all(buf, w, h, rs.drop_last(), color), w, h, rs.last(), color)
    }
}

proof fn lemma_pixel_index(px: int, py: int, w: int)
    requires
        0 <= px < w,
        0 <= py,
    ensures
        (py * w + px) / w == py,
        (py * w + px) % w == px,
{
    lemma_fundamental_div_mod_converse(py * w + px, w, py, px);
}

proof fn lemma_pixel_split(p: int, w: int)
    requires
        0 <= p,
        0 < w,
    ensures
        p == w * (p / w) + p % w,
        0 <= p % w < w,
        0 <= p / w,
{
    vstd::arithmetic::div_mod::lemma_fundamental_div_mod(p, w);
    vstd::arithmetic::div_mod::lemma_mod_bound(p, w);
    vstd::arithmetic::div_mod::lemma_div_pos_is_pos(p, w);
}

proof fn lemma_rows_union(w: int, h: int, len: int, x: int, y: int, rw: int, yy: int, p: int)
    requires
        0 <= yy,
    ensures
        covers(w, h, len, Rect { x, y, w: rw, h: yy + 1 }, p) == (covers(
            w,
            h,
            len,
            Rect { x, y, w: rw, h: yy },
            p,
        ) || covers(w, h, len, Rect { x, y: y + yy, w: rw, h: 1 }, p)),
{
}

/// Bytes painted so far by `draw_rect`: the full rows above `yy`, and the
/// first `xx` pixels of row `yy`.
pub open spec fn painted_so_far(
    buf: Seq<u8>,
    orig: Seq<u8>,
    w: int,
    h: int,
    x: int,
    y: int,
    rw: int,
    yy: int,
    xx: int,
    color: Seq<u8>,
) -> bool {
    &&& buf.len() == orig.len()
    &&& forall|j: int|
        0 <= j < orig.len() ==> #[trigger] buf[j] == (if covers(
            w,
            h,
            orig.len() as int,
            Rect { x, y, w: rw, h: yy },
            j / 4,
        ) || covers(w, h, orig.len() as int, Rect { x, y: y + yy, w: xx, h: 1 }, j / 4) {
            color[j % 4]
        } else {
            orig[j]
        })
}

/// Fill the rectangle (x, y, rw, rh) of a `w`×`h` RGBA8 image with `color`,
/// skipping pixels outside the image or whose bytes fall outside `buf`.
pub fn draw_rect(buf: &mut [u8], w: u32, h: u32, x: i32, y: i32, rw: i32, rh: i32, color: [u8; 4])
    requires
        rw <= 0 || x as int + rw as int - 1 <= i32::MAX,
        rh <= 0 || y as int + rh as int - 1 <= i32::MAX,
    ensures
        final(buf)@ == paint_rect(
            old(buf)@,
            w as int,
            h as int,
            Rect { x: x as int, y: y as int, w: rw as int, h: rh as int },
            color@,
        ),
{
    let ghost orig = buf@;
    let ghost len = orig.len() as int;
    let ghost full = Rect { x: x as int, y: y as int, w: rw as int, h: rh as int };
    let mut yy: i32 = 0;
    while yy < rh
        invariant
            0 <= yy,
            rh <= 0 || yy <= rh,
            rh <= 0 ==> yy == 0,
            rw <= 0 || x as int + rw as int - 1 <= i32::MAX,
            rh <= 0 || y as int + rh as int - 1 <= i32::MAX,
            len == orig.len(),
            painted_so_far(buf@, orig, w as int, h as int, x as int, y as int, rw as int, yy as int, 0, color@),
        decreases rh - yy,
    {
        let mut xx: i32 = 0;
        while xx < rw
            invariant
                0 <= yy < rh,
                0 <= xx,
                rw <= 0 || xx <= rw,
                rw <= 0 ==> xx == 0,
                rw <= 0 || x as int + rw as int - 1 <= i32::MAX,
                y as int + rh as int - 1 <= i32::MAX,
                len == orig.len(),
                painted_so_far(buf@, orig, w as int, h as int, x as int, y as int, rw as int, yy as int, xx as int, color@),
            decreases rw - xx,
        {
            let ghost before = buf@;
            let px = x + xx;
            let py = y + yy;
            let ghost row = Rect { x: x as int, y: y + yy, w: xx + 1, h: 1 };
            let ghost above = Rect { x: x as int, y: y as int, w: rw as int, h: yy as int };
            if px >= 0 && py >= 0 && (px as u32) < w && (py as u32) < h {
                let pxu = px as u32;
                let pyu = py as u32;
                assert((pyu as int) * (w as int) < 0x1_0000_0000_0000_0000) by (nonlinear_arith)
                    requires
                        pyu < 0x1_0000_0000,
                        w < 0x1_0000_0000,
                ;
                let ghost p = pyu * w + pxu;
                let pix: u128 = pyu as u128 * w as u128 + pxu as u128;
                let off: u128 = pix * 4;
                proof {
                    lemma_pixel_index(pxu as int, pyu as int, w as int);
                }
                if off + 3 < buf.len() as u128 {
                    let i = off as usize;
                    buf[i] = color[0];
                    buf[i + 1] = color[1];
                    buf[i + 2] = color[2];
                    buf[i + 3] = color[3];
                    assert forall|j: int| 0 <= j < len implies #[trigger] buf@[j] == (if covers(
                        w as int,
                        h as int,
                        len,
                        above,
                        j / 4,
                    ) || covers(w as int, h as int, len, row, j / 4) {
                        color@[j % 4]
                    } else {
                        orig[j]
                    }) by {
                        if i <= j < i + 4 {
                            assert(j / 4 == p);
                            assert(j % 4 == j - i);
                        } else {
                            assert(buf@[j] == before[j]);
                            if covers(w as int, h as int, len, row, j / 4) {
                                lemma_pixel_split(j / 4, w as int);
                                if (j / 4) % (w as int) == px {
                                    vstd::arithmetic::mul::lemma_mul_is_commutative(w as int, (j / 4) / (w as int));
                                    assert(j / 4 == p);
                                }
                            }
                        }
                    }
                } else {
                    assert forall|j: int| 0 <= j < len implies #[trigger] buf@[j] == (if covers(
                        w as int,
                        h as int,
                        len,
                        above,
                        j / 4,
                    ) || covers(w as int, h as int, len, row, j / 4) {
                        color@[j % 4]
                    } else {
                        orig[j]
                    }) by {
                        if covers(w as int, h as int, len, row, j / 4) {
                            lemma_pixel_split(j / 4, w as int);
                            if (j / 4) % (w as int) == px {
                                vstd::arithmetic::mul::lemma_mul_is_commutative(w as int, (j / 4) / (w as int));
                                assert(j / 4 == p);
                            }
                        }
                    }
                }
            } else {
                assert forall|j: int| 0 <= j < len implies #[trigger] buf@[j] == (if covers(
                    w as int,
                    h as int,
                    len,
                    above,
                    j / 4,
                ) || covers(w as int, h as int, len, row, j / 4) {
                    color@[j % 4]
                } else {
                    orig[j]
                }) by {
                    if covers(w as int, h as int, len, row, j / 4) {
                        lemma_pixel_split(j / 4, w as int);
                    }
                }
            }
            xx = xx + 1;
        }
        assert forall|j: int| 0 <= j < len implies #[trigger] buf@[j] == (if covers(
            w as int,
            h as int,
            len,
            Rect { x: x as int, y: y as int, w: rw as int, h: yy + 1 },
            j / 4,
        ) || covers(w as int, h as int, len, Rect { x: x as int, y: y + yy + 1, w: 0, h: 1 }, j / 4) {
            color@[j % 4]
        } else {
            orig[j]
        }) by {
            assert(xx == rw || rw <= 0);
            lemma_rows_union(w as int, h as int, len, x as int, y as int, rw as int, yy as int, j / 4);
            assert(covers(w as int, h as int, len, Rect { x: x as int, y: y + yy, w: xx as int, h: 1 }, j / 4)
                == covers(w as int, h as int, len, Rect { x: x as int, y: y + yy, w: rw as int, h: 1 }, j / 4));
            assert(!covers(w as int, h as int, len, Rect { x: x as int, y: y + yy + 1, w: 0, h: 1 }, j / 4));
            assert(buf@[j] == (if covers(
                w as int,
                h as int,
                len,
                Rect { x: x as int, y: y as int, w: rw as int, h: yy as int },
                j / 4,
            ) || covers(w as int, h as int, len, Rect { x: x as int, y: y + yy, w: xx as int, h: 1 }, j / 4) {
                color@[j % 4]
            } else {
                orig[j]
            }));
        }
        yy = yy + 1;
    }
    assert(buf@ =~= paint_rect(orig, w as int, h as int, full, color@));
}

// ── Labels ───────────────────────────────────────────────────────────────────

/// Side of one font pixel in image pixels.
pub const LABEL_SCALE: i32 = 4;

/// Distance of the label from the top-left corner of the image.
pub const LABEL_PADDING: i32 = 6;

/// Label colour: opaque-ish yellow.
pub const LABEL_COLOUR: [u8; 4] = [255, 255, 0, 200];

/// Row `ry` (0 = top) of the 3×5 glyph of digit `d`, as three bits with
/// the leftmost column in the most significant bit.
pub open spec fn glyph_row(d: int, ry: int) -> int {
    if d == 0 {
        if ry == 0 || ry == 4 { 7 } else { 5 }
    } else if d == 1 {
        if ry == 1 { 6 } else if ry == 4 { 7 } else { 2 }
    } else if d == 2 {
        if ry == 1 { 1 } else if ry == 3 { 4 } else { 7 }
    } else if d == 3 {
        if ry == 1 || ry == 3 { 1 } else { 7 }
    } else if d == 4 {
        if ry <= 1 { 5 } else if ry == 2 { 7 } else { 1 }
    } else if d == 5 {
        if ry == 1 { 4 } else if ry == 3 { 1 } else { 7 }
    } else if d == 6 {
        if ry == 1 { 4 } else if ry == 3 { 5 } else { 7 }
    } else if d == 7 {
        if ry == 0 { 7 } else { 1 }
    } else if d == 8 {
        if ry == 1 || ry == 3 { 5 } else { 7 }
    } else {
        if ry == 1 { 5 } else if ry == 3 { 1 } else { 7 }
    }
}

/// Whether column `rx` (0 = left) of row `ry` of digit `d` is lit.
pub open spec fn glyph_on(d: int, ry: int, rx: int) -> bool {
    if rx == 0 {
        glyph_row(d, ry) >= 4
    } else if rx == 1 {
        (glyph_row(d, ry) / 2) % 2 == 1
    } else {
        glyph_row(d, ry) % 2 == 1
    }
}

/// The rectangles of the first `n` cells (row-major, three per row) of
/// the glyph of digit `d` drawn with its left edge at `cx`.
pub open spec fn glyph_rects(d: int, cx: int, n: int) -> Seq<Rect>
    decreases n,
{
    if n <= 0 {
        Seq::empty()
    } else {
        let k = n - 1;
        let ry = k / 3;
        let rx = k % 3;
        let before = glyph_rects(d, cx, n - 1);
        if glyph_on(d, ry, rx) {
            before.push(
                Rect {
                    x: cx + rx * LABEL_SCALE,
                    y: LABEL_PADDING + ry * LABEL_SCALE,
                    w: LABEL_SCALE as int,
                    h: LABEL_SCALE as int,
                },
            )
        } else {
            before
        }
    }
}

pub open spec fn is_digit(c: char) -> bool {
    48 <= (c as u32) <= 57
}

/// The rectangles drawn for character `c` at cursor `cx`.
pub open spec fn char_rects(c: char, cx: int) -> Seq<Rect> {
    if is_digit(c) {
        glyph_rects((c as u32) - 48, cx, 15)
    } else if c == '/' {
        seq![Rect { x: cx, y: LABEL_PADDING + LABEL_SCALE, w: LABEL_SCALE / 2, h: LABEL_SCALE * 3 }]
    } else if c == ',' || c == '-' {
        seq![
            Rect {
                x: cx,
                y: LABEL_PADDING + LABEL_SCALE * 2,
                w: LABEL_SCALE / 2,
                h: LABEL_SCALE / 2,
            },
        ]
    } else {
        Seq::empty()
    }
}

/// How far the cursor moves after character `c`.
pub open spec fn char_advance(c: char) -> int {
    if is_digit(c) {
        3 * LABEL_SCALE + 2
    } else {
        LABEL_SCALE + 2
    }
}

/// Cursor position after drawing `t`.
pub open spec fn label_cursor(t: Seq<char>) -> int
    decreases t.len(),
{
    if t.len() == 0 {
        LABEL_PADDING as int
    } else {
        label_cursor(t.drop_last()) + char_advance(t.last())
    }
}

/// The rectangles drawn for the text `t`, in order.
pub open spec fn label_rects(t: Seq<char>) -> Seq<Rect>
    decreases t.len(),
{
    if t.len() == 0 {
        Seq::empty()
    } else {
        label_rects(t.drop_last()) + char_rects(t.last(), label_cursor(t.drop_last()))
    }
}

proof fn lemma_cursor_bound(t: Seq<char>)
    ensures
        LABEL_PADDING <= label_cursor(t) <= LABEL_PADDING + 14 * t.len(),
    decreases t.len(),
{
    if t.len() > 0 {
        lemma_cursor_bound(t.drop_last());
    }
}

/// The cursor only moves right: after any prefix of `t` it stands at most
/// where it stands after `t`.
proof fn lemma_cursor_prefix(t: Seq<char>, k: int)
    requires
        0 <= k <= t.len(),
    ensures
        label_cursor(t.take(k)) <= label_cursor(t),
    decreases t.len(),
{
    if k < t.len() {
        lemma_cursor_prefix(t.drop_last(), k);
        assert(t.drop_last().take(k) =~= t.take(k));
    } else {
        assert(t.take(k) =~= t);
    }
}

fn glyph_row_bits(d: u32, ry: u32) -> (bits: u32)
    requires
        d < 10,
        ry < 5,
    ensures
        bits == glyph_row(d as int, ry as int),
{
    if d == 0 {
        if ry == 0 || ry == 4 { 7 } else { 5 }
    } else if d == 1 {
        if ry == 1 { 6 } else if ry == 4 { 7 } else { 2 }
    } else if d == 2 {
        if ry == 1 { 1 } else if ry == 3 { 4 } else { 7 }
    } else if d == 3 {
        if ry == 1 || ry == 3 { 1 } else { 7 }
    } else if d == 4 {
        if ry <= 1 { 5 } else if ry == 2 { 7 } else { 1 }
    } else if d == 5 {
        if ry == 1 { 4 } else if ry == 3 { 1 } else { 7 }
    } else if d == 6 {
        if ry == 1 { 4 } else if ry == 3 { 5 } else { 7 }
    } else if d == 7 {
        if ry == 0 { 7 } else { 1 }
    } else if d == 8 {
        if ry == 1 || ry == 3 { 5 } else { 7 }
    } else {
        if ry == 1 { 5 } else if ry == 3 { 1 } else { 7 }
    }
}

proof fn lemma_paint_push(buf: Seq<u8>, w: int, h: int, rs: Seq<Rect>, r: Rect, color: Seq<u8>)
    ensures
        paint_all(buf, w, h, rs.push(r), color) == paint_rect(paint_all(buf, w, h, rs, color), w, h, r, color),
{
    assert(rs.push(r).drop_last() =~= rs);
}

/// Draw a digit glyph with its left edge at `cx`.
fn draw_glyph(buf: &mut [u8], w: u32, h: u32, cx: i32, d: u32, Ghost(prior): Ghost<Seq<Rect>>, Ghost(orig): Ghost<Seq<u8>>)
    requires
        d < 10,
        0 <= cx <= i32::MAX - 14,
        old(buf)@ == paint_all(orig, w as int, h as int, prior, LABEL_COLOUR@),
    ensures
        final(buf)@ == paint_all(
            orig,
            w as int,
            h as int,
            prior + glyph_rects(d as int, cx as int, 15),
            LABEL_COLOUR@,
        ),
{
    let mut ry: u32 = 0;
    assert(prior + glyph_rects(d as int, cx as int, 0) =~= prior);
    while ry < 5
        invariant
            ry <= 5,
            d < 10,
            0 <= cx <= i32::MAX - 14,
            buf@ == paint_all(
                orig,
                w as int,
                h as int,
                prior + glyph_rects(d as int, cx as int, 3 * ry),
                LABEL_COLOUR@,
            ),
        decreases 5 - ry,
    {
        let bits = glyph_row_bits(d, ry);
        let mut rx: u32 = 0;
        while rx < 3
            invariant
                ry < 5,
                rx <= 3,
                d < 10,
                bits == glyph_row(d as int, ry as int),
                0 <= cx <= i32::MAX - 14,
                buf@ == paint_all(
                    orig,
                    w as int,
                    h as int,
                    prior + glyph_rects(d as int, cx as int, 3 * ry + rx),
                    LABEL_COLOUR@,
                ),
            decreases 3 - rx,
        {
            let on = if rx == 0 {
                bits >= 4
            } else if rx == 1 {
                (bits / 2) % 2 == 1
            } else {
                bits % 2 == 1
            };
            let ghost k = 3 * ry + rx;
            assert(k / 3 == ry && k % 3 == rx);
            if on {
                let ghost r = Rect {
                    x: cx + rx * LABEL_SCALE,
                    y: LABEL_PADDING + ry * LABEL_SCALE,
                    w: LABEL_SCALE as int,
                    h: LABEL_SCALE as int,
                };
                draw_rect(
                    buf,
                    w,
                    h,
                    cx + (rx as i32) * LABEL_SCALE,
                    LABEL_PADDING + (ry as i32) * LABEL_SCALE,
                    LABEL_SCALE,
                    LABEL_SCALE,
                    LABEL_COLOUR,
                );
                proof {
                    lemma_paint_push(
                        orig,
                        w as int,
                        h as int,
                        prior + glyph_rects(d as int, cx as int, k),
                        r,
                        LABEL_COLOUR@,
                    );
                    assert(prior + glyph_rects(d as int, cx as int, k + 1) =~= (prior
                        + glyph_rects(d as int, cx as int, k)).push(r));
                }
            } else {
                assert(prior + glyph_rects(d as int, cx as int, k + 1) =~= prior + glyph_rects(
                    d as int,
                    cx as int,
                    k,
                ));
            }
            rx = rx + 1;
        }
        ry = ry + 1;
    }
}

/// Stamp a short label (digits, '/', ',' and '-') into the top-left corner
/// of a `w`×`h` RGBA8 image, in a 3×5 bitmap font scaled 4×; any other
/// character leaves a gap.
pub fn draw_label_small(buf: &mut [u8], w: u32, h: u32, text: &str)
    requires
        label_cursor(text@) <= i32::MAX,
    ensures
        final(buf)@ == paint_all(old(buf)@, w as int, h as int, label_rects(text@), LABEL_COLOUR@),
{
    let ghost orig = buf@;
    let n = text.unicode_len();
    let mut cursor_x: i32 = LABEL_PADDING;
    assert(text@.take(0) =~= Seq::<char>::empty());
    for k in 0..n
        invariant
            n == text@.len(),
            label_cursor(text@) <= i32::MAX,
            cursor_x == label_cursor(text@.take(k as int)),
            buf@ == paint_all(orig, w as int, h as int, label_rects(text@.take(k as int)), LABEL_COLOUR@),
    {
        let ghost prefix = text@.take(k as int);
        let ghost next = text@.take(k + 1);
        assert(next.drop_last() =~= prefix);
        proof {
            lemma_cursor_bound(prefix);
            lemma_cursor_prefix(text@, k + 1);
        }
        let ch = text.get_char(k);
        assert(next.last() == ch);
        if ch as u32 >= 48 && ch as u32 <= 57 {
            let d = ch as u32 - 48;
            draw_glyph(buf, w, h, cursor_x, d, Ghost(label_rects(prefix)), Ghost(orig));
            cursor_x = cursor_x + 3 * LABEL_SCALE + 2;
        } else if ch == '/' || ch == ',' || ch == '-' {
            let ghost r = char_rects(ch, cursor_x as int)[0];
            if ch == '/' {
                draw_rect(
                    buf,
                    w,
                    h,
                    cursor_x,
                    LABEL_PADDING + LABEL_SCALE,
                    LABEL_SCALE / 2,
                    LABEL_SCALE * 3,
                    LABEL_COLOUR,
                );
            } else {
                draw_rect(
                    buf,
                    w,
                    h,
                    cursor_x,
                    LABEL_PADDING + LABEL_SCALE * 2,
                    LABEL_SCALE / 2,
                    LABEL_SCALE / 2,
                    LABEL_COLOUR,
                );
            }
            proof {
                lemma_paint_push(orig, w as int, h as int, label_rects(prefix), r, LABEL_COLOUR@);
                assert(char_rects(ch, cursor_x as int) =~= seq![r]);
                assert(label_rects(prefix) + seq![r] =~= label_rects(prefix).push(r));
            }
            cursor_x = cursor_x + LABEL_SCALE + 2;
        } else {
            assert(label_rects(next) =~= label_rects(prefix));
            cursor_x = cursor_x + LABEL_SCALE + 2;
        }
    }
    assert(text@.take(n as int) =~= text@);
}

/// Three cells of a font picture row.
pub open spec fn cells(a: char, b: char, c: char) -> Seq<char> {
    seq![a, b, c]
}

/// The digit font drawn as a picture: five rows of three cells, top row
/// first, `#` lit and `.` dark.
pub open spec fn font_picture(d: int) -> Seq<Seq<char>> {
    let h = '#';
    let o = '.';
    if d == 0 {
        seq![cells(h, h, h), cells(h, o, h), cells(h, o, h), cells(h, o, h), cells(h, h, h)]
    } else if d == 1 {
        seq![cells(o, h, o), cells(h, h, o), cells(o, h, o), cells(o, h, o), cells(h, h, h)]
    } else if d == 2 {
        seq![cells(h, h, h), cells(o, o, h), cells(h, h, h), cells(h, o, o), cells(h, h, h)]
    } else if d == 3 {
        seq![cells(h, h, h), cells(o, o, h), cells(h, h, h), cells(o, o, h), cells(h, h, h)]
    } else if d == 4 {
        seq![cells(h, o, h), cells(h, o, h), cells(h, h, h), cells(o, o, h), cells(o, o, h)]
    } else if d == 5 {
        seq![cells(h, h, h), cells(h, o, o), cells(h, h, h), cells(o, o, h), cells(h, h, h)]
    } else if d == 6 {
        seq![cells(h, h, h), cells(h, o, o), cells(h, h, h), cells(h, o, h), cells(h, h, h)]
    } else if d == 7 {
        seq![cells(h, h, h), cells(o, o, h), cells(o, o, h), cells(o, o, h), cells(o, o, h)]
    } else if d == 8 {
        seq![cells(h, h, h), cells(h, o, h), cells(h, h, h), cells(h, o, h), cells(h, h, h)]
    } else {
        seq![cells(h, h, h), cells(h, o, h), cells(h, h, h), cells(o, o, h), cells(h, h, h)]
    }
}

/// Every digit is drawn as its font picture: cell (rx, ry) of digit `d` is
/// painted exactly when the picture shows `#` there.
pub proof fn law_glyphs_follow_font(d: int, ry: int, rx: int)
    requires
        0 <= d < 10,
        0 <= ry < 5,
        0 <= rx < 3,
    ensures
        glyph_on(d, ry, rx) <==> font_picture(d)[ry][rx] == '#',
{
}

proof fn lemma_glyph_row_range(d: int, ry: int)
    ensures
        0 <= glyph_row(d, ry) < 8,
{
}

/// Different digits are drawn differently: some cell is lit in one glyph
/// and dark in the other.
pub proof fn law_glyphs_distinct(d1: int, d2: int)
    requires
        0 <= d1 < 10,
        0 <= d2 < 10,
        d1 != d2,
    ensures
        exists|ry: int, rx: int|
            0 <= ry < 5 && 0 <= rx < 3 && #[trigger] glyph_on(d1, ry, rx) != glyph_on(d2, ry, rx),
{
    if !(exists|ry: int, rx: int|
        0 <= ry < 5 && 0 <= rx < 3 && #[trigger] glyph_on(d1, ry, rx) != glyph_on(d2, ry, rx)) {
        assert forall|ry: int| 0 <= ry < 5 implies glyph_row(d1, ry) == glyph_row(d2, ry) by {
            lemma_glyph_row_range(d1, ry);
            lemma_glyph_row_range(d2, ry);
            assert(glyph_on(d1, ry, 0) == glyph_on(d2, ry, 0));
            assert(glyph_on(d1, ry, 1) == glyph_on(d2, ry, 1));
            assert(glyph_on(d1, ry, 2) == glyph_on(d2, ry, 2));
        }
        assert(glyph_row(d1, 0) == glyph_row(d2, 0));
        assert(glyph_row(d1, 1) == glyph_row(d2, 1));
        assert(glyph_row(d1, 2) == glyph_row(d2, 2));
        assert(glyph_row(d1, 3) == glyph_row(d2, 3));
        assert(glyph_row(d1, 4) == glyph_row(d2, 4));
    }
}

} // verus!
