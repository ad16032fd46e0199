//! Glyph boxes laid out on a page, for hit testing and selection by area.
//!
//! Coordinates are whole pixels; a glyph's `y` is its baseline, its box
//! reaching `height` above it.
use vstd::prelude::*;

verus! {

/// A glyph with its box.
#[derive(Debug, Clone, Copy, PartialEq, Eq, Structural)]
pub struct PositionedGlyph {
    pub character: char,
    pub x: i32,
    pub y: i32,
    pub width: i32,
    pub height: i32,
    pub text_index: usize,
}

/// The glyphs of a page, in layout order.
#[derive(Debug, Clone)]
pub struct GlyphPositions {
    pub glyphs: Vec<PositionedGlyph>,
}

/// Whether `(x, y)` lies in the box of `g`.
pub open spec fn glyph_hit(g: PositionedGlyph, x: int, y: int) -> bool {
    g.x <= x < g.x + g.width && g.y - g.height <= y < g.y
}

pub open spec fn min_i(a: int, b: int) -> int {
    if a <= b {
        a
    } else {
        b
    }
}

pub open spec fn max_i(a: int, b: int) -> int {
    if a >= b {
        a
    } else {
        b
    }
}

/// Whether the centre of `g` falls in the selection dragged from `(sx, sy)` to
/// `(ex, ey)`. On one line: within the dragged span and at most a glyph height
/// above it. Across lines: on a line strictly between, on the last line left
/// of the rightmost end, or on the first line right of the leftmost start.
/// All comparisons are on doubled coordinates, so that centres are whole.
pub open spec fn in_selection(g: PositionedGlyph, sx: int, sy: int, ex: int, ey: int) -> bool {
    let cx = 2 * g.x + g.width;
    let cy = 2 * g.y - g.height;
    let h = 2 * g.height;
    let (lo_y, hi_y) = (2 * min_i(sy, ey), 2 * max_i(sy, ey));
    let (lo_x, hi_x) = (2 * min_i(sx, ex), 2 * max_i(sx, ex));
    if sy == ey {
        cy >= lo_y - h && cy <= hi_y && cx >= lo_x && cx <= hi_x
    } else {
        (cy > lo_y && cy < hi_y) || (cy <= hi_y && cy >= hi_y - h && cx >= 0 && cx <= hi_x) || (cy
            >= lo_y && cy <= lo_y + h && cx >= lo_x)
    }
}

/// The least index and one past the greatest among the first `n` glyphs in
/// the selection, as `(usize::MAX, 0)` where there is none.
pub open spec fn selection_span(gs: Seq<PositionedGlyph>, n: int, sx: int, sy: int, ex: int, ey: int) -> (int, int)
    decreases n,
{
    if n <= 0 || n > gs.len() {
        (usize::MAX as int, 0)
    } else {
        let (s, e) = selection_span(gs, n - 1, sx, sy, ex, ey);
        let g = gs[n - 1];
        if in_selection(g, sx, sy, ex, ey) {
            (min_i(s, g.text_index as int), max_i(e, g.text_index + 1))
        } else {
            (s, e)
        }
    }
}

impl GlyphPositions {
    pub fn new() -> (r: GlyphPositions)
        ensures
            r.glyphs@.len() == 0,
    {
        GlyphPositions { glyphs: Vec::new() }
    }

    /// Every glyph's index leaves room for one past it.
    pub open spec fn wf(&self) -> bool {
        forall|i: int| 0 <= i < self.glyphs@.len() ==> #[trigger] self.glyphs@[i].text_index < usize::MAX
    }

    /// The first glyph whose box holds `(x, y)`.
    pub fn glyph_at_position(&self, x: i32, y: i32) -> (r: Option<&PositionedGlyph>)
        ensures
            match r {
                Some(g) => exists|i: int|
                    0 <= i < self.glyphs@.len() && self.glyphs@[i] == *g && glyph_hit(*g, x as int, y as int)
                        && forall|j: int| 0 <= j < i ==> !glyph_hit(#[trigger] self.glyphs@[j], x as int, y as int),
                None => forall|j: int|
                    0 <= j < self.glyphs@.len() ==> !glyph_hit(#[trigger] self.glyphs@[j], x as int, y as int),
            },
    {
        let mut i: usize = 0;
        while i < self.glyphs.len()
            invariant
                i <= self.glyphs@.len(),
                forall|j: int| 0 <= j < i ==> !glyph_hit(#[trigger] self.glyphs@[j], x as int, y as int),
            decreases self.glyphs.len() - i,
        {
            let g = &self.glyphs[i];
            if (g.x as i64) <= x as i64 && (x as i64) < g.x as i64 + g.width as i64 && g.y as i64
                - g.height as i64 <= y as i64 && (y as i64) < g.y as i64 {
                return Some(g);
            }
            i += 1;
        }
        None
    }

    /// The text range of the glyphs that a drag from `(start_x, start_y)` to
    /// `(end_x, end_y)` selects: from the least index to one past the
    /// greatest, or `(0, 0)` where it selects none.
    pub fn selection_indices(&self, start_x: i32, start_y: i32, end_x: i32, end_y: i32) -> (r: (usize, usize))
        requires
            self.wf(),
        ensures
            ({
                let (s, e) = selection_span(
                    self.glyphs@,
                    self.glyphs@.len() as int,
                    start_x as int,
                    start_y as int,
                    end_x as int,
                    end_y as int,
                );
                if s == usize::MAX {
                    r == (0usize, 0usize)
                } else {
                    r == (s as usize, e as usize)
                }
            }),
    {
        let mut start: usize = usize::MAX;
        let mut end: usize = 0;
        let (sx, sy, ex, ey) = (start_x as i64, start_y as i64, end_x as i64, end_y as i64);
        let lo_y = 2 * if sy <= ey { sy } else { ey };
        let hi_y = 2 * if sy >= ey { sy } else { ey };
        let lo_x = 2 * if sx <= ex { sx } else { ex };
        let hi_x = 2 * if sx >= ex { sx } else { ex };
        let mut i: usize = 0;
        while i < self.glyphs.len()
            invariant
                self.wf(),
                i <= self.glyphs@.len(),
                lo_y == 2 * min_i(start_y as int, end_y as int),
                hi_y == 2 * max_i(start_y as int, end_y as int),
                lo_x == 2 * min_i(start_x as int, end_x as int),
                hi_x == 2 * max_i(start_x as int, end_x as int),
                (sx, sy, ex, ey) == (start_x as i64, start_y as i64, end_x as i64, end_y as i64),
                (start as int, end as int) == selection_span(
                    self.glyphs@,
                    i as int,
                    start_x as int,
                    start_y as int,
                    end_x as int,
                    end_y as int,
                ),
            decreases self.glyphs.len() - i,
        {
            let g = &self.glyphs[i];
            let cx = 2 * (g.x as i64) + g.width as i64;
            let cy = 2 * (g.y as i64) - g.height as i64;
            let h = 2 * (g.height as i64);
            let selected = if sy == ey {
                cy >= lo_y - h && cy <= hi_y && cx >= lo_x && cx <= hi_x
            } else {
                (cy > lo_y && cy < hi_y) || (cy <= hi_y && cy >= hi_y - h && cx >= 0 && cx <= hi_x)
                    || (cy >= lo_y && cy <= lo_y + h && cx >= lo_x)
            };
            assert(selected == in_selection(self.glyphs@[i as int], start_x as int, start_y as int, end_x as int, end_y as int));
            if selected {
                assert(self.glyphs@[i as int].text_index < usize::MAX);
                if g.text_index < start {
                    start = g.text_index;
                }
                if g.text_index + 1 > end {
                    end = g.text_index + 1;
                }
            }
            i += 1;
        }
        if start == usize::MAX {
            (0, 0)
        } else {
            (start, end)
        }
    }

    /// Forgets every glyph.
    pub fn clear(&mut self)
        ensures
            final(self).glyphs@.len() == 0,
    {
        self.glyphs = Vec::new();
    }
}

impl Default for GlyphPositions {
    fn default() -> (r: GlyphPositions)
        ensures
            r.glyphs@.len() == 0,
    {
        GlyphPositions::new()
    }
}

/// One character of a run of text: a line break, or a glyph that advances the
/// pen by `advance` centipixels.
#[derive(Debug, Clone, Copy, PartialEq, Eq, Structural)]
pub struct GlyphStep {
    pub newline: bool,
    pub advance: u32,
}

/// The pen after the first `n` steps, with the place of each: a line break
/// returns to `x` one line lower; a glyph that would pass `x + max_width`
/// first moves to a new line; a glyph is placed at the pen, which then moves
/// on by its advance.
pub open spec fn pen_after(steps: Seq<GlyphStep>, n: int, x: int, y: int, max_width: int, line: int) -> (int, int, Seq<(int, int)>)
    decreases n,
{
    if n <= 0 || n > steps.len() {
        (x, y, seq![])
    } else {
        let (cx, cy, placed) = pen_after(steps, n - 1, x, y, max_width, line);
        let st = steps[n - 1];
        if st.newline {
            (x, cy + line, placed.push((x, cy + line)))
        } else if cx + st.advance > x + max_width {
            (x + st.advance, cy + line, placed.push((x, cy + line)))
        } else {
            (cx + st.advance, cy, placed.push((cx, cy)))
        }
    }
}

/// Places the glyphs of a run of text from `(x, y)` in lines `line_height`
/// apart, wrapping at `x + max_width`; all lengths in centipixels.
pub fn place_glyphs(steps: &Vec<GlyphStep>, x: i64, y: i64, max_width: i64, line_height: u32) -> (r: Vec<(i128, i128)>)
    ensures
        r@.len() == steps@.len(),
        forall|i: int|
            0 <= i < r@.len() ==> (#[trigger] r@[i].0 as int, r@[i].1 as int) == pen_after(
                steps@,
                steps@.len() as int,
                x as int,
                y as int,
                max_width as int,
                line_height as int,
            ).2[i],
{
    let mut out: Vec<(i128, i128)> = Vec::new();
    let mut cx: i128 = x as i128;
    let mut cy: i128 = y as i128;
    let mut i: usize = 0;
    let n = steps.len();
    let ghost (gx, gy, gw, gl) = (x as int, y as int, max_width as int, line_height as int);
    while i < steps.len()
        invariant
            i <= steps@.len(),
            n == steps@.len(),
            (gx, gy, gw, gl) == (x as int, y as int, max_width as int, line_height as int),
            ({
                let (px, py, placed) = pen_after(steps@, i as int, gx, gy, gw, gl);
                &&& cx == px
                &&& cy == py
                &&& out@.len() == placed.len()
                &&& forall|k: int| 0 <= k < out@.len() ==> (#[trigger] out@[k].0 as int, out@[k].1 as int) == placed[k]
            }),
            x <= cx <= x + i * 0x1_0000_0000,
            y <= cy <= y + i * 0x1_0000_0000,
            pen_after(steps@, i as int, gx, gy, gw, gl).2.len() == i,
        decreases steps.len() - i,
    {
        let st = steps[i];
        let ghost prev = pen_after(steps@, i as int, gx, gy, gw, gl);
        if st.newline {
            cx = x as i128;
            cy = cy + line_height as i128;
            out.push((cx, cy));
        } else if cx + st.advance as i128 > x as i128 + max_width as i128 {
            cx = x as i128;
            cy = cy + line_height as i128;
            out.push((cx, cy));
            cx = cx + st.advance as i128;
        } else {
            out.push((cx, cy));
            cx = cx + st.advance as i128;
        }
        i += 1;
        proof {
            let now = pen_after(steps@, i as int, gx, gy, gw, gl);
            assert forall|k: int| 0 <= k < out@.len() implies (#[trigger] out@[k].0 as int, out@[k].1 as int) == now.2[k] by {
                if k < prev.2.len() {
                    assert(now.2[k] == prev.2[k]);
                }
            }
        }
    }
    out
}

} // verus!
