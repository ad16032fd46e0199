//! Page rendering: the canvas, the decorations drawn around text, and a
//! bounded cache of rendered pages.
use vstd::prelude::*;
use crate::paginator::PageElement;
use crate::error::ReaderError;
use crate::raster::{channel, draw_glyph, draw_image, fill_rect, glyph_byte, image_box, image_byte, in_rect};
use crate::settings::{Color, ReaderSettings};

verus! {

/// Draws glyph bitmaps and text decorations into a pixel buffer.
#[derive(Debug, Clone, Copy)]
pub struct TextRenderer;

impl TextRenderer {
    pub fn new() -> (r: TextRenderer) {
        TextRenderer
    }

    /// Draws a glyph's coverage bitmap with its top left at `(x, y)`.
    pub fn render_glyph(
        &self,
        pixels: &mut Vec<u8>,
        canvas_width: u32,
        canvas_height: u32,
        bitmap: &Vec<u8>,
        glyph_width: usize,
        glyph_height: usize,
        x: i32,
        y: i32,
        color: &Color,
        background: &Color,
    )
        requires
            glyph_width <= u32::MAX,
            glyph_height <= u32::MAX,
            glyph_width * glyph_height <= bitmap@.len(),
        ensures
            final(pixels)@.len() == old(pixels)@.len(),
            forall|b: int|
                0 <= b < old(pixels)@.len() ==> #[trigger] final(pixels)@[b] == glyph_byte(
                    old(pixels)@,
                    bitmap@,
                    glyph_width as int,
                    glyph_height as int,
                    x as int,
                    y as int,
                    canvas_width as int,
                    canvas_height as int,
                    *color,
                    *background,
                    b,
                    y + glyph_height,
                    x as int,
                ),
    {
        draw_glyph(
            pixels,
            canvas_width,
            canvas_height,
            bitmap,
            glyph_width,
            glyph_height,
            x,
            y,
            color,
            background,
        );
    }

    /// Paints a bar `thickness` rows high from row `y` down, from column
    /// `start_x` (at least 0) to `end_x` (the canvas width where `end_x` is
    /// negative or beyond it). Nothing is drawn for a row `y` off the canvas.
    pub fn render_underline(
        &self,
        pixels: &mut Vec<u8>,
        canvas_width: u32,
        canvas_height: u32,
        start_x: i32,
        end_x: i32,
        y: i32,
        thickness: u32,
        color: &Color,
    )
        ensures
            final(pixels)@.len() == old(pixels)@.len(),
            forall|b: int|
                0 <= b < old(pixels)@.len() ==> #[trigger] final(pixels)@[b] == if 0 <= y
                    < canvas_height && in_rect(
                    canvas_width as int,
                    canvas_height as int,
                    old(pixels)@.len() as int,
                    start_x as int,
                    bar_end(end_x as int, canvas_width as int),
                    y as int,
                    y + thickness,
                    b,
                ) {
                    channel(*color, b % 4)
                } else {
                    old(pixels)@[b]
                },
    {
        if y < 0 || y as u32 >= canvas_height {
            return;
        }
        let xe: i64 = if end_x < 0 {
            canvas_width as i64
        } else {
            end_x as i64
        };
        fill_rect(
            pixels,
            canvas_width,
            canvas_height,
            start_x as i64,
            xe,
            y as i64,
            y as i64 + thickness as i64,
            *color,
        );
    }

    /// The same bar as an underline, drawn where the caller places a
    /// strikethrough.
    pub fn render_strikethrough(
        &self,
        pixels: &mut Vec<u8>,
        canvas_width: u32,
        canvas_height: u32,
        start_x: i32,
        end_x: i32,
        y: i32,
        thickness: u32,
        color: &Color,
    )
        ensures
            final(pixels)@.len() == old(pixels)@.len(),
            forall|b: int|
                0 <= b < old(pixels)@.len() ==> #[trigger] final(pixels)@[b] == if 0 <= y
                    < canvas_height && in_rect(
                    canvas_width as int,
                    canvas_height as int,
                    old(pixels)@.len() as int,
                    start_x as int,
                    bar_end(end_x as int, canvas_width as int),
                    y as int,
                    y + thickness,
                    b,
                ) {
                    channel(*color, b % 4)
                } else {
                    old(pixels)@[b]
                },
    {
        self.render_underline(
            pixels,
            canvas_width,
            canvas_height,
            start_x,
            end_x,
            y,
            thickness,
            color,
        );
    }
}

/// Right end of a bar: a negative end reads as running to the canvas edge.
pub open spec fn bar_end(end_x: int, cw: int) -> int {
    if end_x < 0 {
        cw
    } else {
        end_x
    }
}

impl Default for TextRenderer {
    fn default() -> (r: TextRenderer) {
        TextRenderer
    }
}

/// A rendered page kept for reuse.
#[derive(Debug)]
pub struct CachedPage {
    pub index: usize,
    pub width: u32,
    pub height: u32,
    pub pixels: Vec<u8>,
}

/// The number of rendered pages the cache holds at most.
pub const MAX_CACHED_PAGES: usize = 5;

/// Renders pages and keeps the last few.
#[derive(Debug)]
pub struct Renderer {
    pub text_renderer: TextRenderer,
    pub page_cache: Vec<CachedPage>,
    pub max_cache_size: usize,
}

/// The cache's entries as `(page index, width, height)`, oldest first.
pub type CacheKeys = Seq<(int, int, int)>;

/// The keys of cached pages, in order.
pub open spec fn cache_keys(v: Seq<CachedPage>) -> CacheKeys {
    Seq::new(v.len(), |i: int| (v[i].index as int, v[i].width as int, v[i].height as int))
}

/// Whether a key belongs to a page other than `page`.
pub open spec fn other_page(page: int) -> spec_fn((int, int, int)) -> bool {
    |k: (int, int, int)| k.0 != page
}

/// The cache after storing a page under `key`: where it is full the oldest
/// entry goes first, then any entry for the same page, and the new entry comes
/// last.
pub open spec fn cache_insert(keys: CacheKeys, key: (int, int, int)) -> CacheKeys {
    let k1 = if keys.len() >= MAX_CACHED_PAGES {
        keys.drop_first()
    } else {
        keys
    };
    k1.filter(other_page(key.0)).push(key)
}

/// The cache after storing pages under each of `keys` in turn, from empty.
pub open spec fn cache_after(keys: CacheKeys) -> CacheKeys
    decreases keys.len(),
{
    if keys.len() == 0 {
        seq![]
    } else {
        cache_insert(cache_after(keys.drop_last()), keys.last())
    }
}

/// However many pages are rendered, in whatever order, the cache never holds
/// more than five.
pub proof fn lemma_cache_bounded(keys: CacheKeys)
    ensures
        cache_after(keys).len() <= MAX_CACHED_PAGES,
    decreases keys.len(),
{
    if keys.len() > 0 {
        lemma_cache_bounded(keys.drop_last());
        let prev = cache_after(keys.drop_last());
        let k1 = if prev.len() >= MAX_CACHED_PAGES {
            prev.drop_first()
        } else {
            prev
        };
        let key = keys.last();
        broadcast use vstd::seq_lib::group_filter_ensures;

    }
}

impl Renderer {
    /// The cache's keys, oldest first.
    pub open spec fn keys(&self) -> CacheKeys {
        cache_keys(self.page_cache@)
    }

    /// A well-formed renderer: at most five cached pages.
    pub open spec fn wf(&self) -> bool {
        &&& self.max_cache_size == MAX_CACHED_PAGES
        &&& self.page_cache@.len() <= MAX_CACHED_PAGES
    }

    pub fn new() -> (r: Renderer)
        ensures
            r.wf(),
            r.keys().len() == 0,
    {
        Renderer { text_renderer: TextRenderer, page_cache: Vec::new(), max_cache_size: MAX_CACHED_PAGES }
    }

    /// Drops every cached page.
    pub fn clear_cache(&mut self)
        requires
            old(self).wf(),
        ensures
            final(self).wf(),
            final(self).keys().len() == 0,
    {
        self.page_cache = Vec::new();
    }

    /// New settings make every cached page stale.
    pub fn update_settings(&mut self, _settings: &ReaderSettings)
        requires
            old(self).wf(),
        ensures
            final(self).wf(),
            final(self).keys().len() == 0,
    {
        self.clear_cache();
    }

    /// Fonts are read at draw time, so a change of fonts leaves the renderer
    /// as it is.
    pub fn set_font_manager(&mut self, _font_manager: &crate::fonts::FontManager)
        ensures
            final(self).keys() == old(self).keys(),
            final(self).wf() == old(self).wf(),
    {
    }

    /// How many pages the cache holds.
    pub fn cache_len(&self) -> (r: usize)
        ensures
            r == self.keys().len(),
    {
        self.page_cache.len()
    }

    /// A copy of the cached pixels of page `index` at `width` by `height`, if
    /// the cache holds them.
    pub fn cached_page(&self, index: usize, width: u32, height: u32) -> (r: Option<Vec<u8>>)
        ensures
            r is Some <==> exists|i: int|
                0 <= i < self.keys().len() && #[trigger] self.keys()[i] == (
                    index as int,
                    width as int,
                    height as int,
                ),
            r matches Some(px) ==> exists|i: int|
                0 <= i < self.page_cache@.len() && self.page_cache@[i].index == index
                    && self.page_cache@[i].width == width && self.page_cache@[i].height == height
                    && #[trigger] self.page_cache@[i].pixels@ == px@,
    {
        let mut i: usize = 0;
        while i < self.page_cache.len()
            invariant
                i <= self.page_cache@.len(),
                forall|j: int|
                    0 <= j < i ==> #[trigger] self.keys()[j] != (
                        index as int,
                        width as int,
                        height as int,
                    ),
            decreases self.page_cache.len() - i,
        {
            let e = &self.page_cache[i];
            if e.index == index && e.width == width && e.height == height {
                let px = e.pixels.clone();
                assert(px@ =~= self.page_cache@[i as int].pixels@);
                assert(self.keys()[i as int] == (index as int, width as int, height as int));
                return Some(px);
            }
            i += 1;
        }
        None
    }

    /// Keeps a copy of the pixels of page `index`, making room as
    /// `cache_insert` says.
    pub fn store_page(&mut self, index: usize, width: u32, height: u32, pixels: &Vec<u8>)
        requires
            old(self).wf(),
        ensures
            final(self).wf(),
            final(self).keys() == cache_insert(
                old(self).keys(),
                (index as int, width as int, height as int),
            ),
            final(self).page_cache@.last().pixels@ == pixels@,
    {
        let ghost key = (index as int, width as int, height as int);
        let ghost k0 = self.keys();
        if self.page_cache.len() >= self.max_cache_size {
            self.page_cache.remove(0);
            assert(self.keys() =~= k0.drop_first());
        }
        let ghost k1 = self.keys();
        let mut kept: Vec<CachedPage> = Vec::new();
        let mut rest: Vec<CachedPage> = Vec::new();
        std::mem::swap(&mut rest, &mut self.page_cache);
        let ghost rk = rest@;
        assert(cache_keys(rk) =~= k1);
        let mut j: usize = 0;
        let total = rest.len();
        while rest.len() > 0
            invariant
                j <= rk.len(),
                total == rk.len(),
                rest@ == rk.subrange(j as int, rk.len() as int),
                cache_keys(kept@) == k1.subrange(0, j as int).filter(other_page(key.0)),
                k1 == cache_keys(rk),
                key == (index as int, width as int, height as int),
            decreases rest.len(),
        {
            let e = rest.remove(0);
            let ghost before = kept@;
            let ghost sub = k1.subrange(0, j + 1);
            assert(sub.drop_last() =~= k1.subrange(0, j as int));
            assert(sub.last() == (e.index as int, e.width as int, e.height as int));
            if e.index != index {
                kept.push(e);
                assert(cache_keys(kept@) =~= cache_keys(before).push(sub.last()));
            }
            j += 1;
            proof {
                let prev = k1.subrange(0, j - 1);
                assert(sub =~= prev.push(sub.last()));
                prev.lemma_filter_push(sub.last(), other_page(key.0));
                if e.index == index {
                    assert(kept@ == before);
                }
            }
            assert(rest@ =~= rk.subrange(j as int, rk.len() as int));
        }
        assert(k1.subrange(0, j as int) =~= k1);
        let copy = pixels.clone();
        kept.push(CachedPage { index, width, height, pixels: copy });
        self.page_cache = kept;
        proof {
            broadcast use vstd::seq_lib::group_filter_ensures;

        }
        assert(copy@ =~= pixels@);
        assert(self.keys() =~= cache_insert(k0, key));
    }

    /// Paints every pixel of a `width` by `height` buffer with `color`.
    pub fn fill_background(&self, pixels: &mut Vec<u8>, width: u32, height: u32, color: &Color)
        ensures
            final(pixels)@.len() == old(pixels)@.len(),
            forall|b: int|
                0 <= b < old(pixels)@.len() ==> #[trigger] final(pixels)@[b] == if in_rect(
                    width as int,
                    height as int,
                    old(pixels)@.len() as int,
                    0,
                    width as int,
                    0,
                    height as int,
                    b,
                ) {
                    channel(*color, b % 4)
                } else {
                    old(pixels)@[b]
                },
    {
        fill_rect(pixels, width, height, 0, width as i64, 0, height as i64, *color);
    }

    /// A fresh `width` by `height` canvas in the background colour.
    pub fn blank_canvas(&self, width: u32, height: u32, color: &Color) -> (r: Vec<u8>)
        requires
            4 * width * height <= usize::MAX,
        ensures
            r@.len() == 4 * width * height,
            forall|b: int| 0 <= b < r@.len() ==> #[trigger] r@[b] == channel(*color, b % 4),
    {
        assert(4 * width * height <= usize::MAX);
        let n128: u128 = 4 * (width as u128) * (height as u128);
        let n: usize = n128 as usize;
        let mut pixels: Vec<u8> = Vec::new();
        let mut i: usize = 0;
        while i < n
            invariant
                i <= n,
                pixels@.len() == i,
                forall|b: int| 0 <= b < i ==> #[trigger] pixels@[b] == channel(*color, b % 4),
            decreases n - i,
        {
            let k = i % 4;
            let v = if k == 0 {
                color.r
            } else if k == 1 {
                color.g
            } else if k == 2 {
                color.b
            } else {
                color.a
            };
            pixels.push(v);
            i += 1;
        }
        pixels
    }
}

impl Default for Renderer {
    fn default() -> (r: Renderer)
        ensures
            r.wf(),
            r.keys().len() == 0,
    {
        Renderer::new()
    }
}

/// Where a placed block is drawn: its column's left edge and its top, in
/// centipixels from the canvas's top left.
pub open spec fn element_origin_spec(s: ReaderSettings, pe: PageElement) -> (int, int) {
    let x = if pe.column >= 1 {
        s.column_2_x_spec()
    } else {
        s.column_1_x_spec()
    };
    (x, s.padding_y + pe.y_position)
}

pub fn element_origin(s: &ReaderSettings, pe: &PageElement) -> (r: (i64, u128))
    ensures
        (r.0 as int, r.1 as int) == element_origin_spec(*s, *pe),
{
    let x = if pe.column >= 1 {
        s.column_2_x()
    } else {
        s.column_1_x()
    };
    let y = s.padding_y as u128 + pe.y_position as u128;
    (x, y)
}

/// What `image` decodes a file into: width, height and RGBA bytes, or nothing
/// where the bytes are no image it reads.
pub uninterp spec fn decoded_rgba(data: Seq<u8>) -> Option<(u32, u32, Seq<u8>)>;

/// Relies on `image::load_from_memory` and `DynamicImage::to_rgba8`: the
/// decoded image depends on the bytes alone, and its buffer holds at least
/// four bytes for each of its pixels.
#[verifier::external_body]
fn decode_rgba(data: &Vec<u8>) -> (r: Result<(u32, u32, Vec<u8>), String>)
    ensures
        r matches Ok((w, h, px)) ==> decoded_rgba(data@) == Some((w, h, px@)) && px@.len() >= 4 * w * h,
        r is Err ==> decoded_rgba(data@) is None,
{
    match image::load_from_memory(data.as_slice()) {
        Ok(img) => {
            let rgba = img.to_rgba8();
            let (w, h) = rgba.dimensions();
            Ok((w, h, rgba.into_raw()))
        },
        Err(e) => Err(e.to_string()),
    }
}

impl Renderer {
    /// Decodes an image file and copies it onto the canvas as `draw_image`
    /// does. Where the bytes do not decode, nothing is drawn and the error
    /// says why.
    pub fn render_image(
        &self,
        pixels: &mut Vec<u8>,
        canvas_width: u32,
        canvas_height: u32,
        data: &Vec<u8>,
        x: u32,
        y: u32,
        max_width: u32,
        max_height: u32,
    ) -> (r: Result<(), ReaderError>)
        ensures
            final(pixels)@.len() == old(pixels)@.len(),
            match decoded_rgba(data@) {
                None => r matches Err(e) && e is ImageError && final(pixels)@ == old(pixels)@,
                Some((w, h, img)) => r is Ok && forall|b: int|
                    0 <= b < old(pixels)@.len() ==> #[trigger] final(pixels)@[b] == image_byte(
                        old(pixels)@,
                        img,
                        w as int,
                        h as int,
                        max_width as int,
                        max_height as int,
                        x as int,
                        y as int,
                        canvas_width as int,
                        canvas_height as int,
                        b,
                        y + image_box(w as int, h as int, max_width as int, max_height as int, x as int).2,
                        image_box(w as int, h as int, max_width as int, max_height as int, x as int).0,
                    ),
            },
    {
        match decode_rgba(data) {
            Ok((w, h, img)) => {
                draw_image(pixels, canvas_width, canvas_height, &img, w, h, x, y, max_width, max_height);
                Ok(())
            },
            Err(msg) => Err(ReaderError::ImageError(msg)),
        }
    }
}

/// The pages to render ahead around page `current`: `range` on either side,
/// clipped to the `total` pages of the book; none for an empty book.
pub fn prerender_range(current: usize, range: usize, total: usize) -> (r: Option<(usize, usize)>)
    ensures
        total == 0 ==> r is None,
        total > 0 ==> r == Some((
            (if current >= range { current - range } else { 0 }) as usize,
            (if current + range < total - 1 { current + range } else { total - 1 }) as usize,
        )),
{
    if total == 0 {
        return None;
    }
    let first = if current >= range {
        current - range
    } else {
        0
    };
    let last = if (current as u128) + (range as u128) < (total - 1) as u128 {
        current + range
    } else {
        total - 1
    };
    Some((first, last))
}

/// The face a span is set in: bold where it is bold (italic or not), else
/// italic where it is italic, else regular.
pub fn span_face(style: &crate::document::SpanStyle) -> (r: crate::fonts::FontStyle)
    ensures
        r == (if style.bold {
            crate::fonts::FontStyle::Bold
        } else if style.italic {
            crate::fonts::FontStyle::Italic
        } else {
            crate::fonts::FontStyle::Regular
        }),
{
    if style.bold {
        crate::fonts::FontStyle::Bold
    } else if style.italic {
        crate::fonts::FontStyle::Italic
    } else {
        crate::fonts::FontStyle::Regular
    }
}

/// The colour a span is set in: the link colour for a link, else `default`.
pub fn span_color(settings: &ReaderSettings, style: &crate::document::SpanStyle, default: &Color) -> (r: Color)
    ensures
        r == (if style.link is Some {
            settings.link_color
        } else {
            *default
        }),
{
    if style.link.is_some() {
        settings.link_color
    } else {
        *default
    }
}

} // verus!
