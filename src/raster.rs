//! Painting into an RGBA buffer: rectangles and glyph coverage bitmaps.
//!
//! A buffer holds 4 bytes per pixel, rows top to bottom, `canvas_width` pixels
//! to a row. Only whole pixels inside the canvas and inside the buffer are
//! painted; every other byte keeps its value.
use vstd::prelude::*;
use crate::settings::{Color, blend_spec};

verus! {

/// Channel `k` (0 red, 1 green, 2 blue, 3 alpha) of a colour.
pub open spec fn channel(c: Color, k: int) -> u8 {
    if k == 0 {
        c.r
    } else if k == 1 {
        c.g
    } else if k == 2 {
        c.b
    } else {
        c.a
    }
}

/// Column and row of the pixel that byte `b` belongs to.
pub open spec fn pixel_x(cw: int, b: int) -> int {
    (b / 4) % cw
}

pub open spec fn pixel_y(cw: int, b: int) -> int {
    (b / 4) / cw
}

/// Whether byte `b` belongs to a whole pixel of a `cw` by `ch` canvas held
/// in `len` bytes.
pub open spec fn on_canvas(cw: int, ch: int, len: int, b: int) -> bool {
    cw > 0 && 0 <= b < len && pixel_y(cw, b) < ch && 4 * (b / 4) + 3 < len
}

/// Whether byte `b` lies in the canvas part of the rectangle
/// `[x0, x1) x [y0, y1)`.
pub open spec fn in_rect(cw: int, ch: int, len: int, x0: int, x1: int, y0: int, y1: int, b: int) -> bool {
    on_canvas(cw, ch, len, b) && x0 <= pixel_x(cw, b) < x1 && y0 <= pixel_y(cw, b) < y1
}

/// Whether `b` lies in the rectangle and in a row before `row`, or in row
/// `row` before column `col`.
pub open spec fn in_rect_before(
    cw: int,
    ch: int,
    len: int,
    x0: int,
    x1: int,
    y0: int,
    y1: int,
    b: int,
    row: int,
    col: int,
) -> bool {
    in_rect(cw, ch, len, x0, x1, y0, y1, b) && (pixel_y(cw, b) < row || (pixel_y(cw, b) == row
        && pixel_x(cw, b) < col))
}

proof fn lemma_byte_of_pixel(cw: int, px: int, py: int, b: int)
    requires
        cw > 0,
        0 <= px < cw,
        0 <= py,
        4 * (py * cw + px) <= b < 4 * (py * cw + px) + 4,
    ensures
        b / 4 == py * cw + px,
        pixel_x(cw, b) == px,
        pixel_y(cw, b) == py,
        b % 4 == b - 4 * (py * cw + px),
{
    let p = py * cw + px;
    assert(py * cw + px >= 0) by (nonlinear_arith)
        requires
            cw > 0,
            0 <= px,
            0 <= py,
    ;
    vstd::arithmetic::div_mod::lemma_fundamental_div_mod_converse(b, 4, p, b - 4 * p);
    vstd::arithmetic::div_mod::lemma_fundamental_div_mod_converse(p, cw, py, px);
}

/// Sets the 4 bytes of pixel `p` to `c`.
fn put_pixel(pixels: &mut Vec<u8>, p: usize, c: Color)
    requires
        4 * p + 3 < old(pixels)@.len(),
    ensures
        final(pixels)@.len() == old(pixels)@.len(),
        forall|b: int|
            0 <= b < old(pixels)@.len() ==> #[trigger] final(pixels)@[b] == if b / 4 == p {
                channel(c, b % 4)
            } else {
                old(pixels)@[b]
            },
{
    let n = pixels.len();
    let i = 4 * p;
    pixels.set(i, c.r);
    pixels.set(i + 1, c.g);
    pixels.set(i + 2, c.b);
    pixels.set(i + 3, c.a);
}

/// Paints the canvas part of the rectangle `[x0, x1) x [y0, y1)` with `c`.
pub fn fill_rect(
    pixels: &mut Vec<u8>,
    canvas_width: u32,
    canvas_height: u32,
    x0: i64,
    x1: i64,
    y0: i64,
    y1: i64,
    c: Color,
)
    ensures
        final(pixels)@.len() == old(pixels)@.len(),
        forall|b: int|
            0 <= b < old(pixels)@.len() ==> #[trigger] final(pixels)@[b] == if in_rect(
                canvas_width as int,
                canvas_height as int,
                old(pixels)@.len() as int,
                x0 as int,
                x1 as int,
                y0 as int,
                y1 as int,
                b,
            ) {
                channel(c, b % 4)
            } else {
                old(pixels)@[b]
            },
{
    let ghost old_px = pixels@;
    let len = pixels.len();
    let cw = canvas_width as i64;
    let ch = canvas_height as i64;
    let ghost (gcw, gch, glen) = (cw as int, ch as int, len as int);
    let xs: i64 = if x0 > 0 { x0 } else { 0 };
    let xe: i64 = if x1 < cw { x1 } else { cw };
    let ys: i64 = if y0 > 0 { y0 } else { 0 };
    let ye: i64 = if y1 < ch { y1 } else { ch };
    if cw == 0 {
        return;
    }
    let mut py: i64 = ys;
    while py < ye
        invariant
            pixels@.len() == glen,
            glen == old_px.len(),
            len == glen,
            gcw == cw,
            gch == ch,
            cw > 0,
            cw <= u32::MAX,
            ch <= u32::MAX,
            0 <= ys <= py,
            ye <= ch,
            xs >= 0,
            xs >= x0,
            xe <= cw,
            xe <= x1,
            xe == x1 || xe == cw,
            xs == x0 || xs == 0,
            ye == y1 || ye == ch,
            ys >= y0,
            ye <= y1,
            py <= ye || py == ys,
            forall|b: int|
                0 <= b < glen ==> #[trigger] pixels@[b] == if in_rect_before(
                    gcw,
                    gch,
                    glen,
                    x0 as int,
                    x1 as int,
                    y0 as int,
                    y1 as int,
                    b,
                    py as int,
                    xs as int,
                ) {
                    channel(c, b % 4)
                } else {
                    old_px[b]
                },
        decreases ye - py,
    {
        let mut px: i64 = xs;
        while px < xe
            invariant
                pixels@.len() == glen,
                glen == old_px.len(),
                len == glen,
                gcw == cw,
                gch == ch,
                cw > 0,
                cw <= u32::MAX,
                0 <= ys <= py < ye,
                ye <= ch,
                ch <= u32::MAX,
                0 <= xs <= px,
                xs >= x0,
                xe <= cw,
                xe <= x1,
                xe == x1 || xe == cw,
                xs == x0 || xs == 0,
                ye == y1 || ye == ch,
                ys >= y0,
                ye <= y1,
                px <= xe || px == xs,
                forall|b: int|
                    0 <= b < glen ==> #[trigger] pixels@[b] == if in_rect_before(
                        gcw,
                        gch,
                        glen,
                        x0 as int,
                        x1 as int,
                        y0 as int,
                        y1 as int,
                        b,
                        py as int,
                        px as int,
                    ) {
                        channel(c, b % 4)
                    } else {
                        old_px[b]
                    },
            decreases xe - px,
        {
            assert(py * cw + px <= u32::MAX * u32::MAX) by (nonlinear_arith)
                requires
                    0 <= py < u32::MAX,
                    0 <= px < cw,
                    cw <= u32::MAX,
            ;
            let p: u64 = (py as u64) * (cw as u64) + px as u64;
            let ghost before = pixels@;
            if p < (len / 4) as u64 {
                let pu = p as usize;
                put_pixel(pixels, pu, c);
            }
            proof {
                assert forall|b: int| 0 <= b < glen implies #[trigger] pixels@[b] == if in_rect_before(
                    gcw,
                    gch,
                    glen,
                    x0 as int,
                    x1 as int,
                    y0 as int,
                    y1 as int,
                    b,
                    py as int,
                    px + 1,
                ) {
                    channel(c, b % 4)
                } else {
                    old_px[b]
                } by {
                    lemma_pixel_bounds(gcw, b);
                    lemma_whole_pixel(b / 4, glen);
                    lemma_whole_pixel(p as int, glen);
                    if b / 4 == p {
                        lemma_byte_of_pixel(gcw, px as int, py as int, b);
                    } else {
                        lemma_pixel_other(gcw, px as int, py as int, b);
                    }
                }
            }
            px = px + 1;
        }
        proof {
            assert forall|b: int| 0 <= b < glen implies #[trigger] pixels@[b] == if in_rect_before(
                gcw,
                gch,
                glen,
                x0 as int,
                x1 as int,
                y0 as int,
                y1 as int,
                b,
                py + 1,
                xs as int,
            ) {
                channel(c, b % 4)
            } else {
                old_px[b]
            } by {
                lemma_pixel_bounds(gcw, b);
                let r = in_rect(gcw, gch, glen, x0 as int, x1 as int, y0 as int, y1 as int, b);
                assert(r ==> pixel_x(gcw, b) < xe && pixel_x(gcw, b) >= xs);
                assert(in_rect_before(gcw, gch, glen, x0 as int, x1 as int, y0 as int, y1 as int, b, py as int, px as int)
                    == in_rect_before(gcw, gch, glen, x0 as int, x1 as int, y0 as int, y1 as int, b, py + 1, xs as int));
            }
        }
        py = py + 1;
    }
    proof {
        assert forall|b: int| 0 <= b < glen implies #[trigger] pixels@[b] == if in_rect(
            gcw,
            gch,
            glen,
            x0 as int,
            x1 as int,
            y0 as int,
            y1 as int,
            b,
        ) {
            channel(c, b % 4)
        } else {
            old_px[b]
        } by {
            lemma_pixel_bounds(gcw, b);
        }
    }
}

/// Pixel `p` lies wholly in a buffer of `len` bytes exactly when `p < len / 4`.
proof fn lemma_whole_pixel(p: int, len: int)
    requires
        p >= 0,
        len >= 0,
    ensures
        (4 * p + 3 < len) == (p < len / 4),
{
    vstd::arithmetic::div_mod::lemma_fundamental_div_mod(len, 4);
    vstd::arithmetic::div_mod::lemma_mod_bound(len, 4);
}

proof fn lemma_pixel_bounds(cw: int, b: int)
    requires
        cw > 0,
        b >= 0,
    ensures
        0 <= pixel_x(cw, b) < cw,
        0 <= pixel_y(cw, b),
{
    vstd::arithmetic::div_mod::lemma_mod_bound(b / 4, cw);
    vstd::arithmetic::div_mod::lemma_div_pos_is_pos(b / 4, cw);
}

/// A byte outside pixel `(px, py)` does not sit at that pixel's position.
proof fn lemma_pixel_other(cw: int, px: int, py: int, b: int)
    requires
        cw > 0,
        0 <= px < cw,
        0 <= py,
        b >= 0,
        b / 4 != py * cw + px,
    ensures
        !(pixel_x(cw, b) == px && pixel_y(cw, b) == py),
{
    lemma_pixel_bounds(cw, b);
    let p = b / 4;
    vstd::arithmetic::div_mod::lemma_fundamental_div_mod(p, cw);
    if pixel_x(cw, b) == px && pixel_y(cw, b) == py {
        assert(p == cw * py + px);
        assert(cw * py == py * cw) by (nonlinear_arith);
    }
}

/// The colour a glyph pixel of coverage `alpha` gets: `color` itself where
/// coverage is full, else `color` at that opacity over `bg`.
pub open spec fn ink(color: Color, bg: Color, alpha: u8) -> Color {
    if alpha == 255 {
        Color { a: 255, ..color }
    } else {
        blend_spec(Color { a: alpha, ..color }, bg)
    }
}

/// Coverage of the glyph pixel over the canvas pixel of byte `b`, for a
/// `gw`-wide bitmap placed at `(x, y)`.
pub open spec fn coverage(bitmap: Seq<u8>, gw: int, x: int, y: int, cw: int, b: int) -> u8 {
    bitmap[(pixel_y(cw, b) - y) * gw + (pixel_x(cw, b) - x)]
}

/// The byte `b` after drawing the glyph pixels before `(row, col)`.
pub open spec fn glyph_byte(
    old: Seq<u8>,
    bitmap: Seq<u8>,
    gw: int,
    gh: int,
    x: int,
    y: int,
    cw: int,
    ch: int,
    color: Color,
    bg: Color,
    b: int,
    row: int,
    col: int,
) -> u8 {
    if in_rect_before(cw, ch, old.len() as int, x, x + gw, y, y + gh, b, row, col) && coverage(
        bitmap,
        gw,
        x,
        y,
        cw,
        b,
    ) != 0 {
        channel(ink(color, bg, coverage(bitmap, gw, x, y, cw, b)), b % 4)
    } else {
        old[b]
    }
}

fn ink_of(color: &Color, bg: &Color, alpha: u8) -> (r: Color)
    ensures
        r == ink(*color, *bg, alpha),
{
    if alpha == 255 {
        Color { r: color.r, g: color.g, b: color.b, a: 255 }
    } else {
        Color::new(color.r, color.g, color.b, alpha).blend_over(bg)
    }
}

/// Paints a glyph's coverage bitmap (`glyph_width` by `glyph_height`, row by
/// row) with its top left at `(x, y)`: pixels of full coverage take `color`,
/// pixels of partial coverage `color` blended over `background`, and pixels of
/// no coverage are left alone.
pub fn draw_glyph(
    pixels: &mut Vec<u8>,
    canvas_width: u32,
    canvas_height: u32,
    bitmap: &Vec<u8>,
    glyph_width: usize,
    glyph_height: usize,
    x: i32,
    y: i32,
    color: &Color,
    background: &Color,
)
    requires
        glyph_width <= u32::MAX,
        glyph_height <= u32::MAX,
        glyph_width * glyph_height <= bitmap@.len(),
    ensures
        final(pixels)@.len() == old(pixels)@.len(),
        forall|b: int|
            0 <= b < old(pixels)@.len() ==> #[trigger] final(pixels)@[b] == glyph_byte(
                old(pixels)@,
                bitmap@,
                glyph_width as int,
                glyph_height as int,
                x as int,
                y as int,
                canvas_width as int,
                canvas_height as int,
                *color,
                *background,
                b,
                y + glyph_height,
                x as int,
            ),
{
    let ghost old_px = pixels@;
    let len = pixels.len();
    let cw = canvas_width as i64;
    let ch = canvas_height as i64;
    let ghost (gcw, gch, glen, gw, gh, gx0, gy0) = (
        cw as int,
        ch as int,
        len as int,
        glyph_width as int,
        glyph_height as int,
        x as int,
        y as int,
    );
    if cw == 0 {
        return;
    }
    let bl = bitmap.len();
    let mut gy: usize = 0;
    while gy < glyph_height
        invariant
            pixels@.len() == glen,
            glen == old_px.len(),
            len == glen,
            gcw == cw,
            gch == ch,
            gw == glyph_width,
            gh == glyph_height,
            gx0 == x,
            gy0 == y,
            cw > 0,
            cw <= u32::MAX,
            ch <= u32::MAX,
            glyph_width <= u32::MAX,
            glyph_height <= u32::MAX,
            glyph_width * glyph_height <= bitmap@.len(),
            bl == bitmap@.len(),
            gy <= glyph_height,
            forall|b: int|
                0 <= b < glen ==> #[trigger] pixels@[b] == glyph_byte(
                    old_px,
                    bitmap@,
                    gw,
                    gh,
                    gx0,
                    gy0,
                    gcw,
                    gch,
                    *color,
                    *background,
                    b,
                    y + gy,
                    x as int,
                ),
        decreases glyph_height - gy,
    {
        let mut gx: usize = 0;
        while gx < glyph_width
            invariant
                pixels@.len() == glen,
                glen == old_px.len(),
                len == glen,
                gcw == cw,
                gch == ch,
                gw == glyph_width,
                gh == glyph_height,
                gx0 == x,
                gy0 == y,
                cw > 0,
                cw <= u32::MAX,
                ch <= u32::MAX,
                glyph_width <= u32::MAX,
                glyph_height <= u32::MAX,
                glyph_width * glyph_height <= bitmap@.len(),
                bl == bitmap@.len(),
                gy < glyph_height,
                gx <= glyph_width,
                forall|b: int|
                    0 <= b < glen ==> #[trigger] pixels@[b] == glyph_byte(
                        old_px,
                        bitmap@,
                        gw,
                        gh,
                        gx0,
                        gy0,
                        gcw,
                        gch,
                        *color,
                        *background,
                        b,
                        y + gy,
                        x + gx,
                    ),
            decreases glyph_width - gx,
        {
            let px: i64 = x as i64 + gx as i64;
            let py: i64 = y as i64 + gy as i64;
            let ghost before = pixels@;
            assert(gy * glyph_width + gx < glyph_width * glyph_height && gy * glyph_width
                <= gy * glyph_width + gx) by (nonlinear_arith)
                requires
                    gy < glyph_height,
                    gx < glyph_width,
            ;
            let ai: usize = gy * glyph_width + gx;
            let alpha = bitmap[ai];
            if 0 <= px && px < cw && 0 <= py && py < ch && alpha != 0 {
                assert(py * cw + px <= u32::MAX * u32::MAX) by (nonlinear_arith)
                    requires
                        0 <= py < u32::MAX,
                        0 <= px < cw,
                        cw <= u32::MAX,
                ;
                let p: u64 = (py as u64) * (cw as u64) + px as u64;
                if p < (len / 4) as u64 {
                    let c = ink_of(color, background, alpha);
                    put_pixel(pixels, p as usize, c);
                }
                proof {
                    assert forall|b: int| 0 <= b < glen implies #[trigger] pixels@[b] == glyph_byte(
                        old_px,
                        bitmap@,
                        gw,
                        gh,
                        gx0,
                        gy0,
                        gcw,
                        gch,
                        *color,
                        *background,
                        b,
                        y + gy,
                        x + gx + 1,
                    ) by {
                        lemma_pixel_bounds(gcw, b);
                        lemma_whole_pixel(b / 4, glen);
                        lemma_whole_pixel(p as int, glen);
                        if b / 4 == p {
                            lemma_byte_of_pixel(gcw, px as int, py as int, b);
                        } else {
                            lemma_pixel_other(gcw, px as int, py as int, b);
                        }
                    }
                }
            } else {
                proof {
                    assert forall|b: int| 0 <= b < glen implies #[trigger] pixels@[b] == glyph_byte(
                        old_px,
                        bitmap@,
                        gw,
                        gh,
                        gx0,
                        gy0,
                        gcw,
                        gch,
                        *color,
                        *background,
                        b,
                        y + gy,
                        x + gx + 1,
                    ) by {
                        lemma_pixel_bounds(gcw, b);
                        if pixel_x(gcw, b) == px && pixel_y(gcw, b) == py {
                            assert(coverage(bitmap@, gw, gx0, gy0, gcw, b) == alpha);
                        }
                    }
                }
            }
            gx = gx + 1;
        }
        proof {
            assert forall|b: int| 0 <= b < glen implies #[trigger] pixels@[b] == glyph_byte(
                old_px,
                bitmap@,
                gw,
                gh,
                gx0,
                gy0,
                gcw,
                gch,
                *color,
                *background,
                b,
                y + gy + 1,
                x as int,
            ) by {
                lemma_pixel_bounds(gcw, b);
            }
        }
        gy = gy + 1;
    }
}

/// The scale, as `numerator / denominator`, that fits an `iw` by `ih` image
/// into `mw` by `mh` keeping its aspect ratio: the smaller of `mw / iw` (where
/// the image is wider) and `mh / ih` (where it is taller), and 1 where it
/// fits.
pub open spec fn fit_scale(iw: int, ih: int, mw: int, mh: int) -> (int, int) {
    let sw = iw > mw;
    let sh = ih > mh;
    if !sw && !sh {
        (1, 1)
    } else if sw && (!sh || mw * ih <= mh * iw) {
        (mw, iw)
    } else {
        (mh, ih)
    }
}

/// Where an image lands: `(left, width, height)` on the canvas, centred in
/// `mw` columns from `x`.
pub open spec fn image_box(iw: int, ih: int, mw: int, mh: int, x: int) -> (int, int, int) {
    let (n, d) = fit_scale(iw, ih, mw, mh);
    let rw = iw * n / d;
    let rh = ih * n / d;
    let off = if mw >= rw {
        (mw - rw) / 2
    } else {
        0
    };
    (x + off, rw, rh)
}

/// The source pixel of canvas byte `b`, as `(column, row)` in the image.
pub open spec fn image_source(iw: int, ih: int, mw: int, mh: int, x: int, y: int, cw: int, b: int) -> (int, int) {
    let (n, d) = fit_scale(iw, ih, mw, mh);
    let (left, _, _) = image_box(iw, ih, mw, mh, x);
    ((pixel_x(cw, b) - left) * d / n, (pixel_y(cw, b) - y) * d / n)
}

/// Canvas byte `b` after copying, nearest neighbour, the image pixels of the
/// rows before `row` and of row `row` before column `col`.
pub open spec fn image_byte(
    old: Seq<u8>,
    img: Seq<u8>,
    iw: int,
    ih: int,
    mw: int,
    mh: int,
    x: int,
    y: int,
    cw: int,
    ch: int,
    b: int,
    row: int,
    col: int,
) -> u8 {
    let (left, rw, rh) = image_box(iw, ih, mw, mh, x);
    let (sx, sy) = image_source(iw, ih, mw, mh, x, y, cw, b);
    if in_rect_before(cw, ch, old.len() as int, left, left + rw, y, y + rh, b, row, col) && sx < iw
        && sy < ih {
        img[4 * (sy * iw + sx) + b % 4]
    } else {
        old[b]
    }
}

/// Copies an `iw` by `ih` RGBA image onto the canvas with its top at row `y`,
/// scaled down (never up) to fit `max_width` by `max_height`, centred in the
/// `max_width` columns from `x`, nearest neighbour.
pub fn draw_image(
    pixels: &mut Vec<u8>,
    canvas_width: u32,
    canvas_height: u32,
    img: &Vec<u8>,
    iw: u32,
    ih: u32,
    x: u32,
    y: u32,
    max_width: u32,
    max_height: u32,
)
    requires
        img@.len() >= 4 * iw * ih,
    ensures
        final(pixels)@.len() == old(pixels)@.len(),
        forall|b: int|
            0 <= b < old(pixels)@.len() ==> #[trigger] final(pixels)@[b] == image_byte(
                old(pixels)@,
                img@,
                iw as int,
                ih as int,
                max_width as int,
                max_height as int,
                x as int,
                y as int,
                canvas_width as int,
                canvas_height as int,
                b,
                y + image_box(iw as int, ih as int, max_width as int, max_height as int, x as int).2,
                image_box(iw as int, ih as int, max_width as int, max_height as int, x as int).0,
            ),
{
    let ghost old_px = pixels@;
    let len = pixels.len();
    let ghost (giw, gih, gmw, gmh, gx, gy, gcw, gch, glen) = (
        iw as int,
        ih as int,
        max_width as int,
        max_height as int,
        x as int,
        y as int,
        canvas_width as int,
        canvas_height as int,
        len as int,
    );
    assert(max_width * ih <= u32::MAX * u32::MAX && max_height * iw <= u32::MAX * u32::MAX)
        by (nonlinear_arith)
        requires
            max_width <= u32::MAX,
            max_height <= u32::MAX,
            iw <= u32::MAX,
            ih <= u32::MAX,
    ;
    let il = img.len();
    let (n, d): (u64, u64) = if !(iw > max_width) && !(ih > max_height) {
        (1, 1)
    } else if iw > max_width && (!(ih > max_height) || (max_width as u128) * (ih as u128) <= (
    max_height as u128) * (iw as u128)) {
        (max_width as u64, iw as u64)
    } else {
        (max_height as u64, ih as u64)
    };
    assert((n as int, d as int) == fit_scale(giw, gih, gmw, gmh));
    assert(d > 0);
    assert(iw * n <= u32::MAX * u32::MAX && ih * n <= u32::MAX * u32::MAX) by (nonlinear_arith)
        requires
            iw <= u32::MAX,
            ih <= u32::MAX,
            n <= u32::MAX,
    ;
    let rw: u64 = (iw as u64) * n / d;
    let rh: u64 = (ih as u64) * n / d;
    let off: u64 = if max_width as u64 >= rw {
        (max_width as u64 - rw) / 2
    } else {
        0
    };
    let left: u64 = x as u64 + off;
    assert((left as int, rw as int, rh as int) == image_box(giw, gih, gmw, gmh, gx));
    let cw = canvas_width as u64;
    let ch = canvas_height as u64;
    if cw == 0 || n == 0 {
        proof {
            assert forall|b: int| 0 <= b < glen implies #[trigger] pixels@[b] == image_byte(
                old_px, img@, giw, gih, gmw, gmh, gx, gy, gcw, gch, b, gy + rh, left as int) by {
                if n == 0 {
                    assert(rw == 0) by (nonlinear_arith)
                        requires
                            n == 0,
                            rw as int == (iw as int) * (n as int) / (d as int),
                            d > 0,
                    ;
                }
            }
        }
        return;
    }
    let mut py: u64 = 0;
    while py < rh
        invariant
            pixels@.len() == glen,
            glen == old_px.len(),
            len == glen,
            gcw == cw,
            gch == ch,
            giw == iw,
            gih == ih,
            gmw == max_width,
            gmh == max_height,
            gx == x,
            gy == y,
            cw > 0,
            cw <= u32::MAX,
            ch <= u32::MAX,
            n > 0,
            d > 0,
            n <= u32::MAX,
            d <= u32::MAX,
            (n as int, d as int) == fit_scale(giw, gih, gmw, gmh),
            (left as int, rw as int, rh as int) == image_box(giw, gih, gmw, gmh, gx),
            left <= 2 * (u32::MAX as int),
            rw <= u32::MAX * u32::MAX,
            rh <= u32::MAX * u32::MAX,
            img@.len() >= 4 * iw * ih,
            il == img@.len(),
            py <= rh,
            forall|b: int|
                0 <= b < glen ==> #[trigger] pixels@[b] == image_byte(
                    old_px, img@, giw, gih, gmw, gmh, gx, gy, gcw, gch, b, y + py, left as int),
        decreases rh - py,
    {
        let mut px: u64 = 0;
        while px < rw
            invariant
                pixels@.len() == glen,
                glen == old_px.len(),
                len == glen,
                gcw == cw,
                gch == ch,
                giw == iw,
                gih == ih,
                gmw == max_width,
                gmh == max_height,
                gx == x,
                gy == y,
                cw > 0,
                cw <= u32::MAX,
                ch <= u32::MAX,
                n > 0,
                d > 0,
                n <= u32::MAX,
                d <= u32::MAX,
                (n as int, d as int) == fit_scale(giw, gih, gmw, gmh),
                (left as int, rw as int, rh as int) == image_box(giw, gih, gmw, gmh, gx),
                left <= 2 * (u32::MAX as int),
                rw <= u32::MAX * u32::MAX,
                rh <= u32::MAX * u32::MAX,
                img@.len() >= 4 * iw * ih,
                il == img@.len(),
                py < rh,
                px <= rw,
                forall|b: int|
                    0 <= b < glen ==> #[trigger] pixels@[b] == image_byte(
                        old_px, img@, giw, gih, gmw, gmh, gx, gy, gcw, gch, b, y + py, left + px),
            decreases rw - px,
        {
            let dx: u128 = left as u128 + px as u128;
            let dy: u128 = y as u128 + py as u128;
            assert(px * d <= u32::MAX * u32::MAX * u32::MAX && py * d <= u32::MAX * u32::MAX * u32::MAX) by (nonlinear_arith)
                requires
                    px < rw,
                    py < rh,
                    rw <= u32::MAX * u32::MAX,
                    rh <= u32::MAX * u32::MAX,
                    d <= u32::MAX,
            ;
            let sx: u128 = (px as u128) * (d as u128) / (n as u128);
            let sy: u128 = (py as u128) * (d as u128) / (n as u128);
            if dx < cw as u128 && dy < ch as u128 && sx < iw as u128 && sy < ih as u128 {
                let dx = dx as u64;
                let dy = dy as u64;
                let sx = sx as u64;
                let sy = sy as u64;
                assert(dy * cw + dx <= u32::MAX * u32::MAX) by (nonlinear_arith)
                    requires
                        dy < ch,
                        ch <= u32::MAX,
                        dx < cw,
                        cw <= u32::MAX,
                ;
                let p: u64 = dy * cw + dx;
                if p < (len / 4) as u64 {
                    assert(4 * (sy * iw + sx) + 3 < 4 * iw * ih && sy * iw + sx >= 0 && sy * iw <= sy * iw + sx) by (nonlinear_arith)
                        requires
                            sy < ih,
                            sx < iw,
                    ;
                    assert(sy * iw <= u32::MAX * u32::MAX) by (nonlinear_arith)
                        requires
                            sy < ih,
                            ih <= u32::MAX,
                            iw <= u32::MAX,
                    ;
                    let si: usize = (4 * ((sy as u128) * (iw as u128) + sx as u128)) as usize;
                    let c = Color { r: img[si], g: img[si + 1], b: img[si + 2], a: img[si + 3] };
                    let ghost before = pixels@;
                    put_pixel(pixels, p as usize, c);
                    proof {
                        assert forall|b: int| 0 <= b < glen implies #[trigger] pixels@[b] == image_byte(
                            old_px, img@, giw, gih, gmw, gmh, gx, gy, gcw, gch, b, y + py, left + px + 1) by {
                            lemma_pixel_bounds(gcw, b);
                            lemma_whole_pixel(b / 4, glen);
                            lemma_whole_pixel(p as int, glen);
                            if b / 4 == p {
                                lemma_byte_of_pixel(gcw, dx as int, dy as int, b);
                            } else {
                                lemma_pixel_other(gcw, dx as int, dy as int, b);
                            }
                        }
                    }
                } else {
                    proof {
                        assert forall|b: int| 0 <= b < glen implies #[trigger] pixels@[b] == image_byte(
                            old_px, img@, giw, gih, gmw, gmh, gx, gy, gcw, gch, b, y + py, left + px + 1) by {
                            lemma_pixel_bounds(gcw, b);
                            lemma_whole_pixel(b / 4, glen);
                            lemma_whole_pixel(p as int, glen);
                            if b / 4 == p {
                                lemma_byte_of_pixel(gcw, dx as int, dy as int, b);
                            } else {
                                lemma_pixel_other(gcw, dx as int, dy as int, b);
                            }
                        }
                    }
                }
            } else {
                proof {
                    assert forall|b: int| 0 <= b < glen implies #[trigger] pixels@[b] == image_byte(
                        old_px, img@, giw, gih, gmw, gmh, gx, gy, gcw, gch, b, y + py, left + px + 1) by {
                        lemma_pixel_bounds(gcw, b);
                        if pixel_x(gcw, b) == dx && pixel_y(gcw, b) == dy {
                            assert(image_source(giw, gih, gmw, gmh, gx, gy, gcw, b) == (sx as int, sy as int));
                        }
                    }
                }
            }
            px = px + 1;
        }
        proof {
            assert forall|b: int| 0 <= b < glen implies #[trigger] pixels@[b] == image_byte(
                old_px, img@, giw, gih, gmw, gmh, gx, gy, gcw, gch, b, y + py + 1, left as int) by {
                lemma_pixel_bounds(gcw, b);
            }
        }
        py = py + 1;
    }
}

} // verus!
