//! Height of each block at given settings, in centipixels.
//!
//! The estimate is conservative: an average glyph is taken as 0.42 of the font
//! size wide, and a line as 0.95 of the column wide. Every height saturates at
//! `u64::MAX`.
use vstd::prelude::*;
use crate::document::{LayoutElement, TextSpan, append_spans_text, chars_of, spans_text};
use crate::settings::ReaderSettings;

verus! {

pub open spec fn cap(x: int) -> int {
    if x > u64::MAX {
        u64::MAX as int
    } else if x < 0 {
        0
    } else {
        x
    }
}

/// `a * b / d`, saturated.
pub open spec fn mul_div(a: int, b: int, d: int) -> int {
    cap(a * b / d)
}

fn exec_mul_div(a: u64, b: u64, d: u64) -> (r: u64)
    requires
        d > 0,
    ensures
        r == mul_div(a as int, b as int, d as int),
        d == 1 ==> r == cap(a * b),
{
    assert((a * b) / 1 == a * b);
    assert(a * b <= u64::MAX * u64::MAX) by (nonlinear_arith)
        requires
            a <= u64::MAX,
            b <= u64::MAX,
    ;
    assert(a * b <= u128::MAX) by (nonlinear_arith)
        requires
            a <= u64::MAX,
            b <= u64::MAX,
    ;
    let p: u128 = a as u128 * b as u128;
    let q: u128 = p / d as u128;
    assert(q >= 0);
    if q > u64::MAX as u128 {
        u64::MAX
    } else {
        q as u64
    }
}

/// Number of bytes that UTF-8 takes for `c`.
pub open spec fn utf8_len(c: char) -> int {
    if (c as u32) < 0x80 {
        1
    } else if (c as u32) < 0x800 {
        2
    } else if (c as u32) < 0x10000 {
        3
    } else {
        4
    }
}

/// UTF-8 length of a character sequence.
pub open spec fn byte_len(s: Seq<char>) -> int
    decreases s.len(),
{
    if s.len() == 0 {
        0
    } else {
        byte_len(s.drop_last()) + utf8_len(s.last())
    }
}

/// Lines that a segment of `len` bytes wraps to, for a column `width` wide
/// and glyphs of font size `size`: `ceil(len / chars_per_line)` where
/// `chars_per_line = max(1, 0.95 * width / (0.42 * size))`.
pub open spec fn wrapped_lines(len: int, width: int, size: int) -> int {
    if len == 0 {
        0
    } else if width <= 0 || 95 * width < 42 * size {
        len
    } else {
        (len * 42 * size + 95 * width - 1) / (95 * width)
    }
}

/// Scans a text left to right: the lines of the segments already ended by a
/// line break, and the byte length of the segment still open.
pub open spec fn line_scan(s: Seq<char>, width: int, size: int) -> (int, int)
    decreases s.len(),
{
    if s.len() == 0 {
        (0, 0)
    } else {
        let (d, a) = line_scan(s.drop_last(), width, size);
        if s.last() == '\n' {
            (d + wrapped_lines(a, width, size), 0)
        } else {
            (d, a + utf8_len(s.last()))
        }
    }
}

/// Lines that a text takes: each line-break-separated segment wraps on its
/// own, and the whole takes at least one line.
pub open spec fn text_lines(s: Seq<char>, width: int, size: int) -> int {
    let (d, a) = line_scan(s, width, size);
    let n = d + wrapped_lines(a, width, size);
    if n < 1 {
        1
    } else {
        n
    }
}

proof fn lemma_wrapped_le(len: int, width: int, size: int)
    requires
        len >= 0,
        size >= 0,
    ensures
        0 <= wrapped_lines(len, width, size) <= len + 1,
{
    if len != 0 && !(width <= 0 || 95 * width < 42 * size) {
        let w = 95 * width;
        assert(len * 42 * size <= len * w) by (nonlinear_arith)
            requires
                len >= 0,
                42 * size <= w,
        ;
        assert(len * 42 * size >= 0) by (nonlinear_arith)
            requires
                len >= 0,
                size >= 0,
        ;
        assert((len * 42 * size + w - 1) / w <= (len * w + w - 1) / w) by {
            vstd::arithmetic::div_mod::lemma_div_is_ordered(
                len * 42 * size + w - 1,
                len * w + w - 1,
                w,
            );
        }
        assert((len * w + w - 1) / w <= len + 1) by {
            assert((len + 1) * w == len * w + w) by (nonlinear_arith);
            vstd::arithmetic::div_mod::lemma_div_is_ordered(len * w + w - 1, (len + 1) * w, w);
            vstd::arithmetic::div_mod::lemma_div_by_multiple(len + 1, w);
        }
        vstd::arithmetic::div_mod::lemma_div_pos_is_pos(len * 42 * size + w - 1, w);
    }
}

/// The largest font size, in centipixels, that measurement takes.
pub const MAX_SIZE: u64 = 0x4_0000_0000;

fn exec_wrapped(len: u128, width: i64, size: u64) -> (r: u128)
    requires
        len <= 0x40_0000_0000_0000_0000,
        size <= MAX_SIZE,
    ensures
        r == wrapped_lines(len as int, width as int, size as int),
        r <= len + 1,
{
    proof {
        lemma_wrapped_le(len as int, width as int, size as int);
    }
    if len == 0 {
        0
    } else if width <= 0 || 95 * (width as i128) < 42 * (size as i128) {
        len
    } else {
        let w: u128 = 95 * (width as u128);
        assert(len * 42 * size <= 0x40_0000_0000_0000_0000 * 42 * 0x4_0000_0000) by (nonlinear_arith)
            requires
                len <= 0x40_0000_0000_0000_0000,
                size <= 0x4_0000_0000,
        ;
        let n: u128 = len * 42 * (size as u128);
        (n + w - 1) / w
    }
}

fn utf8_width(c: char) -> (r: u128)
    ensures
        r == utf8_len(c),
{
    if (c as u32) < 0x80 {
        1
    } else if (c as u32) < 0x800 {
        2
    } else if (c as u32) < 0x10000 {
        3
    } else {
        4
    }
}

/// Lines that the text `t` wraps to.
fn count_lines(t: &Vec<char>, width: i64, size: u64) -> (r: u128)
    requires
        size <= MAX_SIZE,
    ensures
        r == text_lines(t@, width as int, size as int),
        r <= 5 * t@.len() + 1,
{
    let mut d: u128 = 0;
    let mut a: u128 = 0;
    let mut i: usize = 0;
    while i < t.len()
        invariant
            i <= t@.len(),
            line_scan(t@.subrange(0, i as int), width as int, size as int) == (d as int, a as int),
            a <= 4 * i,
            d + a <= 5 * i,
            size <= MAX_SIZE,
        decreases t.len() - i,
    {
        let c = t[i];
        assert(t@.subrange(0, i + 1).drop_last() =~= t@.subrange(0, i as int));
        if c == '\n' {
            let w = exec_wrapped(a, width, size);
            d = d + w;
            a = 0;
        } else {
            a = a + utf8_width(c);
        }
        i += 1;
    }
    assert(t@.subrange(0, t@.len() as int) =~= t@);
    let n = d + exec_wrapped(a, width, size);
    if n < 1 {
        1
    } else {
        n
    }
}

fn cap_u64(x: u128) -> (r: u64)
    ensures
        r == cap(x as int),
{
    if x > u64::MAX as u128 {
        u64::MAX
    } else {
        x as u64
    }
}

impl ReaderSettings {
    /// Height of a run of spans set at font size `size`: the wrapped line
    /// count (at least one line) times the line height.
    pub open spec fn text_block_height(&self, spans: Seq<TextSpan>, size: int) -> int {
        mul_div(
            cap(text_lines(spans_text(spans), self.content_width_spec(), size) * size),
            self.line_height as int,
            100,
        )
    }

    pub fn measure_text_block(&self, spans: &Vec<TextSpan>, size: u64) -> (r: u64)
        requires
            size <= MAX_SIZE,
        ensures
            r == self.text_block_height(spans@, size as int),
    {
        let mut text = String::new();
        append_spans_text(&mut text, spans);
        let t = chars_of(text.as_str());
        let lines = count_lines(&t, self.content_width(), size);
        assert(lines * size <= (5 * t@.len() + 1) * 0x4_0000_0000) by (nonlinear_arith)
            requires
                lines <= 5 * t@.len() + 1,
                size <= 0x4_0000_0000,
        ;
        let h = cap_u64(lines * size as u128);
        exec_mul_div(h, self.line_height as u64, 100)
    }
}

/// Trailing space of a heading, by level: 1.5, 1.2 or 0.8 of the body size.
pub open spec fn heading_extra(s: ReaderSettings, level: u8) -> int {
    if level == 1 {
        s.font_size * 150 / 100
    } else if level == 2 {
        s.font_size * 120 / 100
    } else {
        s.font_size * 80 / 100
    }
}

/// Line breaks in a text.
pub open spec fn newline_count(t: Seq<char>) -> int
    decreases t.len(),
{
    if t.len() == 0 {
        0
    } else {
        newline_count(t.drop_last()) + if t.last() == '\n' {
            1int
        } else {
            0int
        }
    }
}

/// Lines that `str::lines` yields: one per line break, and one more for a
/// last line that no break ends.
pub open spec fn code_line_count(t: Seq<char>) -> int {
    newline_count(t) + if t.len() > 0 && t.last() != '\n' {
        1int
    } else {
        0int
    }
}

/// Height of an image fitted, with its aspect ratio kept, into the column:
/// `height * min(1, width_avail / width, height_avail / height)`, where a
/// missing height counts as 200 px and a missing width as the column width.
pub open spec fn image_height(s: ReaderSettings, width: Option<u32>, height: Option<u32>) -> int {
    let cw = s.content_width_spec();
    let avail = s.content_height_spec();
    let raw_h: int = match height {
        Some(h) => h * 100,
        None => 20000,
    };
    let raw_w: int = match width {
        Some(w) => w * 100,
        None => cw,
    };
    let by_width = if raw_w > cw {
        if cw <= 0 {
            0
        } else {
            raw_h * cw / raw_w
        }
    } else {
        raw_h
    };
    let by_height = if raw_h > avail {
        if avail < 0 {
            0
        } else {
            avail
        }
    } else {
        raw_h
    };
    if by_width < by_height {
        by_width
    } else {
        by_height
    }
}

/// Height of a block at settings `s`, in centipixels.
pub open spec fn element_height(s: ReaderSettings, e: LayoutElement) -> int
    decreases e, 0int,
{
    match e {
        LayoutElement::Paragraph { spans, .. } => s.text_block_height(spans@, s.font_size as int),
        LayoutElement::Heading { level, spans } => cap(
            s.text_block_height(spans@, s.heading_size_spec(level)) + heading_extra(s, level),
        ),
        LayoutElement::BlockQuote { elements } => cap(
            quote_height(s, elements@, elements@.len() as int) + s.font_size / 2,
        ),
        LayoutElement::List { items, .. } => list_height(s, items@, items@.len() as int),
        LayoutElement::Image { width, height, .. } => image_height(s, width, height),
        LayoutElement::Figure { content, caption } => match caption {
            Some(cap_spans) => cap(
                cap(element_height(s, *content) + s.text_block_height(
                    cap_spans@,
                    s.font_size * 90 / 100,
                )) + s.font_size / 2,
            ),
            None => element_height(s, *content),
        },
        LayoutElement::HorizontalRule => 2 * s.font_size,
        LayoutElement::CodeBlock { code, .. } => {
            let n = code_line_count(code@);
            let lines = if n < 1 {
                1
            } else {
                n
            };
            cap(cap(lines * (s.font_size * 140 / 100)) + s.font_size)
        },
        LayoutElement::Table { headers, rows } => cap(
            cap(cap(headers@.len() + rows@.len() as int) * (mul_div(s.line_height_px_spec(), 150, 100)))
                + s.font_size,
        ),
        LayoutElement::RawText { text } => {
            let n = (byte_len(text@) + 59) / 60;
            let lines = if n < 1 {
                1
            } else {
                n
            };
            cap(lines * s.line_height_px_spec())
        },
    }
}

/// Height of the first `n` children of a block quote, each followed by half a
/// paragraph spacing.
pub open spec fn quote_height(s: ReaderSettings, v: Seq<LayoutElement>, n: int) -> int
    decreases v, n,
{
    if n <= 0 || n > v.len() {
        0
    } else {
        cap(quote_height(s, v, n - 1) + cap(element_height(s, v[n - 1]) + s.paragraph_spacing / 2))
    }
}

/// Height of the first `n` blocks of a list item.
pub open spec fn item_height(s: ReaderSettings, v: Seq<LayoutElement>, n: int) -> int
    decreases v, n,
{
    if n <= 0 || n > v.len() {
        0
    } else {
        cap(item_height(s, v, n - 1) + element_height(s, v[n - 1]))
    }
}

/// Height of the first `n` items of a list, each followed by 0.3 of a line.
pub open spec fn list_height(s: ReaderSettings, items: Seq<Vec<LayoutElement>>, n: int) -> int
    decreases items, n,
{
    if n <= 0 || n > items.len() {
        0
    } else {
        cap(list_height(s, items, n - 1) + cap(
            item_height(s, items[n - 1]@, items[n - 1]@.len() as int) + mul_div(
                s.line_height_px_spec(),
                30,
                100,
            ),
        ))
    }
}

fn sat_add(a: u64, b: u64) -> (r: u64)
    ensures
        r == cap(a + b),
{
    a.saturating_add(b)
}

pub(crate) fn count_code_lines_of(t: &Vec<char>) -> (r: u64)
    ensures
        r == code_line_count(t@),
{
    count_code_lines(t)
}

fn count_code_lines(t: &Vec<char>) -> (r: u64)
    ensures
        r == code_line_count(t@),
{
    let mut n: u64 = 0;
    let mut i: usize = 0;
    while i < t.len()
        invariant
            i <= t@.len(),
            n == newline_count(t@.subrange(0, i as int)),
            n + (if i > 0 && t@[i - 1] != '\n' {
                1int
            } else {
                0int
            }) <= i,
        decreases t.len() - i,
    {
        assert(t@.subrange(0, i + 1).drop_last() =~= t@.subrange(0, i as int));
        if t[i] == '\n' {
            n = n + 1;
        }
        i += 1;
    }
    assert(t@.subrange(0, t@.len() as int) =~= t@);
    if t.len() > 0 && t[t.len() - 1] != '\n' {
        n + 1
    } else {
        n
    }
}

fn count_bytes(t: &Vec<char>) -> (r: u128)
    ensures
        r == byte_len(t@),
        r <= 4 * t@.len(),
{
    let mut n: u128 = 0;
    let mut i: usize = 0;
    while i < t.len()
        invariant
            i <= t@.len(),
            n == byte_len(t@.subrange(0, i as int)),
            n <= 4 * i,
        decreases t.len() - i,
    {
        assert(t@.subrange(0, i + 1).drop_last() =~= t@.subrange(0, i as int));
        n = n + utf8_width(t[i]);
        i += 1;
    }
    assert(t@.subrange(0, t@.len() as int) =~= t@);
    n
}

impl ReaderSettings {
    fn measure_image(&self, width: Option<u32>, height: Option<u32>) -> (r: u64)
        ensures
            r == image_height(*self, width, height),
    {
        let cw = self.content_width() as i128;
        let avail = self.content_height() as i128;
        let raw_h: i128 = match height {
            Some(h) => h as i128 * 100,
            None => 20000,
        };
        let raw_w: i128 = match width {
            Some(w) => w as i128 * 100,
            None => cw,
        };
        let by_width: i128 = if raw_w > cw {
            if cw <= 0 {
                0
            } else {
                assert(raw_h * cw <= raw_h * raw_w) by (nonlinear_arith)
                    requires
                        raw_h >= 0,
                        cw < raw_w,
                ;
                assert(raw_h * cw >= 0) by (nonlinear_arith)
                    requires
                        raw_h >= 0,
                        cw > 0,
                ;
                assert(raw_h * cw <= 0x1_0000_0000_00 * 0x1_0000_0000) by (nonlinear_arith)
                    requires
                        0 <= raw_h <= 0x1_0000_0000_00,
                        0 < cw <= 0x1_0000_0000,
                ;
                proof {
                    let (hh, cc, ww) = (raw_h as int, cw as int, raw_w as int);
                    vstd::arithmetic::div_mod::lemma_div_is_ordered(hh * cc, hh * ww, ww);
                    vstd::arithmetic::div_mod::lemma_div_multiples_vanish(hh, ww);
                    vstd::arithmetic::div_mod::lemma_div_pos_is_pos(hh * cc, ww);
                    assert(hh * ww == ww * hh) by (nonlinear_arith);
                }
                raw_h * cw / raw_w
            }
        } else {
            raw_h
        };
        let by_height: i128 = if raw_h > avail {
            if avail < 0 {
                0
            } else {
                avail
            }
        } else {
            raw_h
        };
        if by_width < by_height {
            by_width as u64
        } else {
            by_height as u64
        }
    }

    /// Height of a block, in centipixels.
    pub fn measure_element(&self, element: &LayoutElement) -> (r: u64)
        ensures
            r == element_height(*self, *element),
        decreases element, 2int,
    {
        match element {
            LayoutElement::Paragraph { spans, .. } => {
                self.measure_text_block(spans, self.font_size as u64)
            },
            LayoutElement::Heading { level, spans } => {
                let size = self.heading_size(*level);
                let text = self.measure_text_block(spans, size);
                let fs = self.font_size as u64;
                let extra: u64 = if *level == 1 {
                    fs * 150 / 100
                } else if *level == 2 {
                    fs * 120 / 100
                } else {
                    fs * 80 / 100
                };
                sat_add(text, extra)
            },
            LayoutElement::BlockQuote { elements } => {
                let h = self.measure_quote(elements);
                sat_add(h, self.font_size as u64 / 2)
            },
            LayoutElement::List { items, .. } => self.measure_list(items),
            LayoutElement::Image { width, height, .. } => self.measure_image(*width, *height),
            LayoutElement::Figure { content, caption } => {
                let h = self.measure_element(content);
                match caption {
                    Some(cap_spans) => {
                        let c = self.measure_text_block(cap_spans, self.font_size as u64 * 90 / 100);
                        sat_add(sat_add(h, c), self.font_size as u64 / 2)
                    },
                    None => h,
                }
            },
            LayoutElement::HorizontalRule => 2 * self.font_size as u64,
            LayoutElement::CodeBlock { code, .. } => {
                let t = chars_of(code.as_str());
                let n = count_code_lines(&t);
                let lines: u64 = if n < 1 {
                    1
                } else {
                    n
                };
                let per_line = self.font_size as u64 * 140 / 100;
                let h = exec_mul_div(lines, per_line, 1);
                sat_add(h, self.font_size as u64)
            },
            LayoutElement::Table { headers, rows } => {
                let count = cap_u64(headers.len() as u128 + rows.len() as u128);
                let row_h = exec_mul_div(self.line_height_px(), 150, 100);
                let h = exec_mul_div(count, row_h, 1);
                sat_add(h, self.font_size as u64)
            },
            LayoutElement::RawText { text } => {
                let t = chars_of(text.as_str());
                let b = count_bytes(&t);
                assert(t@.len() == t.len());
                assert(b + 59 <= 4 * 0xFFFF_FFFF_FFFF_FFFFu64 + 59);
                let n = (b + 59) / 60;
                proof {
                    vstd::arithmetic::div_mod::lemma_div_is_ordered(
                        b + 59,
                        4 * 0xFFFF_FFFF_FFFF_FFFFu64 + 59,
                        60,
                    );
                }
                let lines: u64 = if n < 1 {
                    1
                } else {
                    cap_u64(n)
                };
                exec_mul_div(lines, self.line_height_px(), 1)
            },
        }
    }

    fn measure_quote(&self, v: &Vec<LayoutElement>) -> (r: u64)
        ensures
            r == quote_height(*self, v@, v@.len() as int),
        decreases v, 1int,
    {
        let mut h: u64 = 0;
        let mut i: usize = 0;
        while i < v.len()
            invariant
                i <= v@.len(),
                h == quote_height(*self, v@, i as int),
            decreases v.len() - i,
        {
            assert(decreases_to!(v => v[i as int]));
            let e = self.measure_element(&v[i]);
            h = sat_add(h, sat_add(e, self.paragraph_spacing as u64 / 2));
            i += 1;
        }
        h
    }

    fn measure_item(&self, v: &Vec<LayoutElement>) -> (r: u64)
        ensures
            r == item_height(*self, v@, v@.len() as int),
        decreases v, 1int,
    {
        let mut h: u64 = 0;
        let mut i: usize = 0;
        while i < v.len()
            invariant
                i <= v@.len(),
                h == item_height(*self, v@, i as int),
            decreases v.len() - i,
        {
            assert(decreases_to!(v => v[i as int]));
            let e = self.measure_element(&v[i]);
            h = sat_add(h, e);
            i += 1;
        }
        h
    }

    fn measure_list(&self, items: &Vec<Vec<LayoutElement>>) -> (r: u64)
        ensures
            r == list_height(*self, items@, items@.len() as int),
        decreases items, 1int,
    {
        let mut h: u64 = 0;
        let mut i: usize = 0;
        while i < items.len()
            invariant
                i <= items@.len(),
                h == list_height(*self, items@, i as int),
            decreases items.len() - i,
        {
            assert(decreases_to!(items => items[i as int]));
            let e = self.measure_item(&items[i]);
            h = sat_add(h, sat_add(e, exec_mul_div(self.line_height_px(), 30, 100)));
            i += 1;
        }
        h
    }
}

proof fn lemma_image_height_bounds(s: ReaderSettings, width: Option<u32>, height: Option<u32>)
    ensures
        0 <= image_height(s, width, height) <= u64::MAX,
{
    let cw = s.content_width_spec();
    let raw_h: int = match height {
        Some(h) => h * 100,
        None => 20000,
    };
    let raw_w: int = match width {
        Some(w) => w * 100,
        None => cw,
    };
    if raw_w > cw && cw > 0 {
        assert(0 <= raw_h * cw <= raw_h * raw_w) by (nonlinear_arith)
            requires
                raw_h >= 0,
                0 < cw < raw_w,
        ;
        vstd::arithmetic::div_mod::lemma_div_is_ordered(raw_h * cw, raw_h * raw_w, raw_w);
        vstd::arithmetic::div_mod::lemma_div_multiples_vanish(raw_h, raw_w);
        vstd::arithmetic::div_mod::lemma_div_pos_is_pos(raw_h * cw, raw_w);
        assert(raw_h * raw_w == raw_w * raw_h) by (nonlinear_arith);
    }
}

/// Every block height lies between 0 and `u64::MAX`.
pub proof fn lemma_element_height_bounds(s: ReaderSettings, e: LayoutElement)
    ensures
        0 <= element_height(s, e) <= u64::MAX,
    decreases e,
{
    match e {
        LayoutElement::Image { width, height, .. } => lemma_image_height_bounds(s, width, height),
        LayoutElement::Figure { content, .. } => lemma_element_height_bounds(s, *content),
        LayoutElement::List { items, .. } => {
            assert(0 <= list_height(s, items@, items@.len() as int) <= u64::MAX);
        },
        LayoutElement::Paragraph { spans, .. } => {
            assert(0 <= s.text_block_height(spans@, s.font_size as int) <= u64::MAX);
        },
        _ => {},
    }
}

} // verus!
