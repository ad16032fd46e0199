//! What drawing a page consists of: for each block, the rectangles to fill,
//! the runs of text to set and the images to copy, with their places.
//!
//! Places and sizes are centipixels; every coordinate saturates at the
//! bounds of `i64`.
use vstd::prelude::*;
use crate::document::{LayoutElement, TextSpan, push_char};
use crate::paginator::{Page, PageElement};
use crate::render::element_origin_spec;
use crate::settings::{Color, ReaderSettings};

verus! {

/// Where the characters of a run of text come from.
#[derive(Debug)]
pub enum TextSource<'a> {
    /// Styled spans of a block.
    Spans(&'a Vec<TextSpan>),
    /// Unstyled text.
    Plain(&'a String),
    /// A code block: its lines, one after another.
    Lines(&'a String),
    /// Text made for the page, such as a list marker.
    Owned(String),
}

/// One drawing step.
#[derive(Debug)]
pub enum DrawOp<'a> {
    /// Fill `[x0, x1) x [y0, y1)`.
    Fill { x0: i64, x1: i64, y0: i64, y1: i64, color: Color },
    /// Set a run of text from `(x, y)`, wrapping at `x + max_width`, at font
    /// size `size` with lines `line_height` percent of it apart.
    Text {
        source: TextSource<'a>,
        x: i64,
        y: i64,
        max_width: i64,
        size: u64,
        line_height: u32,
        color: Color,
    },
    /// Copy an image file's picture from `(x, y)`, fitted into `max_width` by
    /// `max_height`.
    Image { data: &'a Vec<u8>, x: i64, y: i64, max_width: i64, max_height: i64 },
}

/// `x` held within the bounds of `i64`.
pub open spec fn clamp64(x: int) -> int {
    if x > i64::MAX {
        i64::MAX as int
    } else if x < i64::MIN {
        i64::MIN as int
    } else {
        x
    }
}

fn c64(x: i128) -> (r: i64)
    ensures
        r == clamp64(x as int),
{
    if x > i64::MAX as i128 {
        i64::MAX
    } else if x < i64::MIN as i128 {
        i64::MIN
    } else {
        x as i64
    }
}

/// The decimal digits of `n`.
pub open spec fn decimal(n: nat) -> Seq<char>
    decreases n,
{
    if n < 10 {
        seq![digit_char(n)]
    } else {
        decimal(n / 10).push(digit_char(n % 10))
    }
}

pub open spec fn digit_char(d: nat) -> char {
    if d == 0 {
        '0'
    } else if d == 1 {
        '1'
    } else if d == 2 {
        '2'
    } else if d == 3 {
        '3'
    } else if d == 4 {
        '4'
    } else if d == 5 {
        '5'
    } else if d == 6 {
        '6'
    } else if d == 7 {
        '7'
    } else if d == 8 {
        '8'
    } else {
        '9'
    }
}

fn digit(d: u64) -> (r: char)
    requires
        d < 10,
    ensures
        r == digit_char(d as nat),
{
    if d == 0 {
        '0'
    } else if d == 1 {
        '1'
    } else if d == 2 {
        '2'
    } else if d == 3 {
        '3'
    } else if d == 4 {
        '4'
    } else if d == 5 {
        '5'
    } else if d == 6 {
        '6'
    } else if d == 7 {
        '7'
    } else if d == 8 {
        '8'
    } else {
        '9'
    }
}

fn push_decimal(out: &mut String, n: u64)
    ensures
        final(out)@ == old(out)@ + decimal(n as nat),
    decreases n,
{
    if n >= 10 {
        push_decimal(out, n / 10);
    }
    push_char(out, digit(n % 10));
    proof {
        if n < 10 {
            assert(n % 10 == n);
        }
    }
}

/// The marker of list item `i`: its number and a full stop for an ordered
/// list counting from `start`, a bullet otherwise.
pub open spec fn marker_text(ordered: bool, start: u32, i: int) -> Seq<char> {
    if ordered {
        decimal((start + i) as nat).push('.')
    } else {
        seq!['\u{2022}']
    }
}

fn make_marker(ordered: bool, start: u32, i: usize) -> (r: String)
    ensures
        r@ == marker_text(ordered, start, i as int),
{
    let mut out = String::new();
    if ordered {
        let n: u128 = start as u128 + i as u128;
        if n <= u64::MAX as u128 {
            push_decimal(&mut out, n as u64);
        } else {
            push_decimal(&mut out, (n / 10) as u64);
            push_char(&mut out, digit((n % 10) as u64));
            proof {
                assert(decimal((start + i) as nat) == decimal(((start + i) / 10) as nat).push(
                    digit_char(((start + i) % 10) as nat),
                ));
            }
        }
        push_char(&mut out, '.');
    } else {
        push_char(&mut out, '\u{2022}');
    }
    out
}

/// A text source as plain values.
pub enum SourceView {
    Spans(Seq<TextSpan>),
    Plain(Seq<char>),
    Lines(Seq<char>),
    Owned(Seq<char>),
}

/// A drawing step as plain values.
pub enum OpView {
    Fill { x0: int, x1: int, y0: int, y1: int, color: Color },
    Text {
        source: SourceView,
        x: int,
        y: int,
        max_width: int,
        size: int,
        line_height: int,
        color: Color,
    },
    Image { data: Seq<u8>, x: int, y: int, max_width: int, max_height: int },
}

impl<'a> TextSource<'a> {
    pub open spec fn view(&self) -> SourceView {
        match self {
            TextSource::Spans(v) => SourceView::Spans(v@),
            TextSource::Plain(t) => SourceView::Plain(t@),
            TextSource::Lines(t) => SourceView::Lines(t@),
            TextSource::Owned(t) => SourceView::Owned(t@),
        }
    }
}

impl<'a> DrawOp<'a> {
    pub open spec fn view(&self) -> OpView {
        match self {
            DrawOp::Fill { x0, x1, y0, y1, color } => OpView::Fill {
                x0: *x0 as int,
                x1: *x1 as int,
                y0: *y0 as int,
                y1: *y1 as int,
                color: *color,
            },
            DrawOp::Text { source, x, y, max_width, size, line_height, color } => OpView::Text {
                source: source.view(),
                x: *x as int,
                y: *y as int,
                max_width: *max_width as int,
                size: *size as int,
                line_height: *line_height as int,
                color: *color,
            },
            DrawOp::Image { data, x, y, max_width, max_height } => OpView::Image {
                data: data@,
                x: *x as int,
                y: *y as int,
                max_width: *max_width as int,
                max_height: *max_height as int,
            },
        }
    }
}

/// The views of a list of steps.
pub open spec fn views<'a>(ops: Seq<DrawOp<'a>>) -> Seq<OpView> {
    Seq::new(ops.len(), |i: int| ops[i].view())
}

proof fn lemma_views_push<'a>(ops: Seq<DrawOp<'a>>, op: DrawOp<'a>)
    ensures
        views(ops.push(op)) == views(ops).push(op.view()),
{
    assert(views(ops.push(op)) =~= views(ops).push(op.view()));
}

/// `a / b` rounded towards zero, for `b > 0`.
pub open spec fn div_trunc(a: int, b: int) -> int {
    if a >= 0 {
        a / b
    } else {
        -((-a) / b)
    }
}

pub open spec fn gray(v: u8) -> Color {
    Color { r: v, g: v, b: v, a: 255 }
}

/// The steps that draw a block placed at `(x, y)` in a column `w` wide, on a
/// canvas `ch` high.
pub open spec fn element_ops(s: ReaderSettings, e: LayoutElement, x: int, y: int, w: int, ch: int) -> Seq<OpView>
    decreases e, 0int,
{
    let fs = s.font_size as int;
    let lh = s.line_height as int;
    match e {
        LayoutElement::Paragraph { spans, indent } => {
            let dx: int = if indent {
                s.paragraph_indent as int
            } else {
                0
            };
            seq![
                OpView::Text {
                    source: SourceView::Spans(spans@),
                    x: clamp64(x + dx),
                    y,
                    max_width: clamp64(w - dx),
                    size: fs,
                    line_height: lh,
                    color: s.text_color,
                },
            ]
        },
        LayoutElement::Heading { level, spans } => seq![
            OpView::Text {
                source: SourceView::Spans(spans@),
                x,
                y,
                max_width: w,
                size: s.heading_size_spec(level),
                line_height: lh * 90 / 100,
                color: s.heading_color,
            },
        ],
        LayoutElement::BlockQuote { elements } => seq![
            OpView::Fill {
                x0: x,
                x1: clamp64(x + 300),
                y0: y,
                y1: if y + 10000 < ch {
                    y + 10000
                } else {
                    ch
                },
                color: gray(180),
            },
        ] + quote_ops(s, elements@, elements@.len() as int, x, y, w, ch),
        LayoutElement::List { ordered, start, items } => list_ops(
            s,
            ordered,
            start,
            items@,
            items@.len() as int,
            x,
            y,
            w,
            ch,
        ),
        LayoutElement::HorizontalRule => seq![
            OpView::Fill {
                x0: x,
                x1: clamp64(x + w),
                y0: clamp64(y + fs),
                y1: clamp64(y + fs + 100),
                color: gray(200),
            },
        ],
        LayoutElement::Image { data, .. } => match data {
            Some(d) => seq![
                OpView::Image {
                    data: d@,
                    x,
                    y,
                    max_width: w,
                    max_height: if ch - s.padding_y - y > 100 {
                        clamp64(ch - s.padding_y - y)
                    } else {
                        100
                    },
                },
            ],
            None => seq![],
        },
        LayoutElement::CodeBlock { code, .. } => {
            let size = fs * 90 / 100;
            let bg = clamp64(crate::measure::code_line_count(code@) * size * 140 / 100);
            seq![
                OpView::Fill { x0: x, x1: clamp64(x + w), y0: y, y1: clamp64(y + bg), color: gray(245) },
                OpView::Text {
                    source: SourceView::Lines(code@),
                    x: clamp64(x + fs / 2),
                    y: clamp64(y + fs / 4),
                    max_width: clamp64(w - fs),
                    size,
                    line_height: 140,
                    color: Color { r: 50, g: 50, b: 50, a: 255 },
                },
            ]
        },
        LayoutElement::Figure { content, caption } => element_ops(s, *content, x, y, w, ch) + match caption {
            Some(cap) => seq![
                OpView::Text {
                    source: SourceView::Spans(cap@),
                    x,
                    y: clamp64(y + 2 * fs),
                    max_width: w,
                    size: fs * 85 / 100,
                    line_height: lh,
                    color: gray(100),
                },
            ],
            None => seq![],
        },
        LayoutElement::Table { headers, rows } => {
            let row_h = s.line_height_px_spec() * 150 / 100;
            rows_ops(s, headers@, headers@.len() as int, x, y, w, row_h, s.heading_color) + rows_ops(
                s,
                rows@,
                rows@.len() as int,
                x,
                clamp64(y + headers@.len() * row_h),
                w,
                row_h,
                s.text_color,
            )
        },
        LayoutElement::RawText { text } => seq![
            OpView::Text {
                source: SourceView::Plain(text@),
                x,
                y,
                max_width: w,
                size: fs,
                line_height: lh,
                color: s.text_color,
            },
        ],
    }
}

/// The steps of the first `n` children of a block quote: inset by a font
/// size, one line apart.
pub open spec fn quote_ops(s: ReaderSettings, v: Seq<LayoutElement>, n: int, x: int, y: int, w: int, ch: int) -> Seq<OpView>
    decreases v, n,
{
    if n <= 0 || n > v.len() {
        seq![]
    } else {
        quote_ops(s, v, n - 1, x, y, w, ch) + element_ops(
            s,
            v[n - 1],
            clamp64(x + s.font_size),
            clamp64(y + (n - 1) * s.line_height_px_spec()),
            clamp64(w - 2 * s.font_size),
            ch,
        )
    }
}

/// The steps of the first `n` items of a list, one line apart: each item's
/// marker in a gutter 1.5 font sizes wide, then its blocks beside it.
pub open spec fn list_ops(
    s: ReaderSettings,
    ordered: bool,
    start: u32,
    items: Seq<Vec<LayoutElement>>,
    n: int,
    x: int,
    y: int,
    w: int,
    ch: int,
) -> Seq<OpView>
    decreases items, n,
{
    if n <= 0 || n > items.len() {
        seq![]
    } else {
        let fs = s.font_size as int;
        let mw = fs * 150 / 100;
        let cy = clamp64(y + (n - 1) * s.line_height_px_spec());
        let item = items[n - 1]@;
        list_ops(s, ordered, start, items, n - 1, x, y, w, ch) + seq![
            OpView::Text {
                source: SourceView::Owned(marker_text(ordered, start, n - 1)),
                x,
                y: cy,
                max_width: mw,
                size: fs,
                line_height: s.line_height as int,
                color: s.text_color,
            },
        ] + item_ops(
            s,
            item,
            item.len() as int,
            clamp64(x + mw + fs / 2),
            cy,
            clamp64(w - mw - fs / 2),
            ch,
        )
    }
}

/// The steps of the first `n` blocks of a list item, all from one place.
pub open spec fn item_ops(s: ReaderSettings, v: Seq<LayoutElement>, n: int, x: int, y: int, w: int, ch: int) -> Seq<OpView>
    decreases v, n,
{
    if n <= 0 || n > v.len() {
        seq![]
    } else {
        item_ops(s, v, n - 1, x, y, w, ch) + element_ops(s, v[n - 1], x, y, w, ch)
    }
}

/// The steps of the first `n` table rows, `row_h` apart, each row's cells
/// sharing its width evenly.
pub open spec fn rows_ops(
    s: ReaderSettings,
    rows: Seq<Vec<Vec<TextSpan>>>,
    n: int,
    x: int,
    y: int,
    w: int,
    row_h: int,
    color: Color,
) -> Seq<OpView>
    decreases n,
{
    if n <= 0 || n > rows.len() {
        seq![]
    } else {
        let row = rows[n - 1]@;
        let cw = div_trunc(w, if row.len() > 0 {
            row.len() as int
        } else {
            1
        });
        rows_ops(s, rows, n - 1, x, y, w, row_h, color) + cells_ops(
            s,
            row,
            row.len() as int,
            x,
            clamp64(y + (n - 1) * row_h),
            cw,
            color,
        )
    }
}

pub open spec fn cells_ops(s: ReaderSettings, cells: Seq<Vec<TextSpan>>, n: int, x: int, y: int, cw: int, color: Color) -> Seq<OpView>
    decreases n,
{
    if n <= 0 || n > cells.len() {
        seq![]
    } else {
        cells_ops(s, cells, n - 1, x, y, cw, color) + seq![
            OpView::Text {
                source: SourceView::Spans(cells[n - 1]@),
                x: clamp64(x + (n - 1) * cw),
                y,
                max_width: cw,
                size: s.font_size as int,
                line_height: s.line_height as int,
                color,
            },
        ]
    }
}

/// The steps that draw a page on a canvas `canvas_height` pixels high: each
/// block in its column, below the top padding.
pub open spec fn page_ops_upto(s: ReaderSettings, elems: Seq<PageElement>, n: int, ch: int) -> Seq<OpView>
    decreases n,
{
    if n <= 0 || n > elems.len() {
        seq![]
    } else {
        let (x, y) = element_origin_spec(s, elems[n - 1]);
        page_ops_upto(s, elems, n - 1, ch) + element_ops(
            s,
            elems[n - 1].element,
            clamp64(x),
            clamp64(y),
            s.content_width_spec(),
            ch,
        )
    }
}

fn push_op<'a>(ops: &mut Vec<DrawOp<'a>>, op: DrawOp<'a>)
    ensures
        views(final(ops)@) == views(old(ops)@).push(op.view()),
{
    let ghost before = ops@;
    ops.push(op);
    proof {
        lemma_views_push(before, op);
    }
}

proof fn lemma_line_px_bound(s: ReaderSettings)
    ensures
        0 <= s.line_height_px_spec() <= 0x400_0000_0000_0000,
        0 <= s.line_height_px_spec() * 150 / 100 <= 0x800_0000_0000_0000,
{
    assert(s.font_size * s.line_height <= 0xFFFF_FFFF * 0xFFFF_FFFF) by (nonlinear_arith)
        requires
            s.font_size <= 0xFFFF_FFFF,
            s.line_height <= 0xFFFF_FFFF,
    ;
    assert(s.font_size * s.line_height >= 0) by (nonlinear_arith)
        requires
            s.font_size >= 0,
            s.line_height >= 0,
    ;
}

fn offset_by(base: i64, k: usize, step: u64) -> (r: i64)
    requires
        step <= 0x800_0000_0000_0000,
    ensures
        r == clamp64(base + k * step),
{
    assert(k * step <= 0xFFFF_FFFF_FFFF_FFFF * 0x800_0000_0000_0000) by (nonlinear_arith)
        requires
            k <= 0xFFFF_FFFF_FFFF_FFFF,
            step <= 0x800_0000_0000_0000,
    ;
    assert(k * step >= 0) by (nonlinear_arith)
        requires
            k >= 0,
            step >= 0,
    ;
    c64(base as i128 + (k as i128) * (step as i128))
}

impl ReaderSettings {
    /// Appends the steps that draw `e` at `(x, y)` in a column `w` wide.
    #[verifier::rlimit(100)]
    pub fn plan_element<'a>(&self, e: &'a LayoutElement, x: i64, y: i64, w: i64, ch: i64, ops: &mut Vec<DrawOp<'a>>)
        ensures
            views(final(ops)@) == views(old(ops)@) + element_ops(*self, *e, x as int, y as int, w as int, ch as int),
        decreases e, 2int,
    {
        let ghost before = views(ops@);
        let fs = self.font_size as i128;
        proof {
            lemma_line_px_bound(*self);
        }
        match e {
            LayoutElement::Paragraph { spans, indent } => {
                let dx: i128 = if *indent {
                    self.paragraph_indent as i128
                } else {
                    0
                };
                push_op(ops, DrawOp::Text {
                    source: TextSource::Spans(spans),
                    x: c64(x as i128 + dx),
                    y,
                    max_width: c64(w as i128 - dx),
                    size: self.font_size as u64,
                    line_height: self.line_height,
                    color: self.text_color,
                });
            },
            LayoutElement::Heading { level, spans } => {
                push_op(ops, DrawOp::Text {
                    source: TextSource::Spans(spans),
                    x,
                    y,
                    max_width: w,
                    size: self.heading_size(*level),
                    line_height: ((self.line_height as u64) * 90 / 100) as u32,
                    color: self.heading_color,
                });
            },
            LayoutElement::BlockQuote { elements } => {
                let bottom: i64 = if (y as i128) + 10000 < ch as i128 {
                    y + 10000
                } else {
                    ch
                };
                push_op(ops, DrawOp::Fill {
                    x0: x,
                    x1: c64(x as i128 + 300),
                    y0: y,
                    y1: bottom,
                    color: Color { r: 180, g: 180, b: 180, a: 255 },
                });
                self.plan_quote(elements, x, y, w, ch, ops);
                assert(views(ops@) =~= before + element_ops(*self, *e, x as int, y as int, w as int, ch as int));
            },
            LayoutElement::List { ordered, start, items } => {
                self.plan_list(*ordered, *start, items, x, y, w, ch, ops);
            },
            LayoutElement::HorizontalRule => {
                push_op(ops, DrawOp::Fill {
                    x0: x,
                    x1: c64(x as i128 + w as i128),
                    y0: c64(y as i128 + fs),
                    y1: c64(y as i128 + fs + 100),
                    color: Color { r: 200, g: 200, b: 200, a: 255 },
                });
            },
            LayoutElement::Image { data, .. } => {
                match data {
                    Some(d) => {
                        let room: i128 = ch as i128 - self.padding_y as i128 - y as i128;
                        let max_height: i64 = if room > 100 {
                            c64(room)
                        } else {
                            100
                        };
                        push_op(ops, DrawOp::Image { data: d, x, y, max_width: w, max_height });
                    },
                    None => {
                        assert(views(ops@) =~= before + element_ops(*self, *e, x as int, y as int, w as int, ch as int));
                    },
                }
            },
            LayoutElement::CodeBlock { code, .. } => {
                let size: u64 = (self.font_size as u64) * 90 / 100;
                let t = crate::document::chars_of(code.as_str());
                let lines = crate::measure::count_code_lines_of(&t);
                assert(lines * size * 140 <= 0xFFFF_FFFF_FFFF_FFFF * 0xFFFF_FFFF * 140) by (nonlinear_arith)
                    requires
                        lines <= 0xFFFF_FFFF_FFFF_FFFF,
                        size <= 0xFFFF_FFFF,
                ;
                assert(lines * size * 140 >= 0) by (nonlinear_arith)
                    requires
                        lines >= 0,
                        size >= 0,
                ;
                let bg = c64((lines as i128) * (size as i128) * 140 / 100);
                push_op(ops, DrawOp::Fill {
                    x0: x,
                    x1: c64(x as i128 + w as i128),
                    y0: y,
                    y1: c64(y as i128 + bg as i128),
                    color: Color { r: 245, g: 245, b: 245, a: 255 },
                });
                push_op(ops, DrawOp::Text {
                    source: TextSource::Lines(code),
                    x: c64(x as i128 + fs / 2),
                    y: c64(y as i128 + fs / 4),
                    max_width: c64(w as i128 - fs),
                    size,
                    line_height: 140,
                    color: Color { r: 50, g: 50, b: 50, a: 255 },
                });
                assert(views(ops@) =~= before + element_ops(*self, *e, x as int, y as int, w as int, ch as int));
            },
            LayoutElement::Figure { content, caption } => {
                self.plan_element(content, x, y, w, ch, ops);
                match caption {
                    Some(cap) => {
                        push_op(ops, DrawOp::Text {
                            source: TextSource::Spans(cap),
                            x,
                            y: c64(y as i128 + 2 * fs),
                            max_width: w,
                            size: (self.font_size as u64) * 85 / 100,
                            line_height: self.line_height,
                            color: Color { r: 100, g: 100, b: 100, a: 255 },
                        });
                    },
                    None => {},
                }
                assert(views(ops@) =~= before + element_ops(*self, *e, x as int, y as int, w as int, ch as int));
            },
            LayoutElement::Table { headers, rows } => {
                let lhpx = self.line_height_px();
                let row_h: u64 = ((lhpx as u128) * 150 / 100) as u64;
                self.plan_rows(headers, x, y, w, row_h, self.heading_color, ops);
                let y2 = offset_by(y, headers.len(), row_h);
                self.plan_rows(rows, x, y2, w, row_h, self.text_color, ops);
                assert(views(ops@) =~= before + element_ops(*self, *e, x as int, y as int, w as int, ch as int));
            },
            LayoutElement::RawText { text } => {
                push_op(ops, DrawOp::Text {
                    source: TextSource::Plain(text),
                    x,
                    y,
                    max_width: w,
                    size: self.font_size as u64,
                    line_height: self.line_height,
                    color: self.text_color,
                });
            },
        }
    }

    fn plan_quote<'a>(&self, v: &'a Vec<LayoutElement>, x: i64, y: i64, w: i64, ch: i64, ops: &mut Vec<DrawOp<'a>>)
        ensures
            views(final(ops)@) == views(old(ops)@) + quote_ops(*self, v@, v@.len() as int, x as int, y as int, w as int, ch as int),
        decreases v, 1int,
    {
        proof {
            lemma_line_px_bound(*self);
        }
        let lhpx = self.line_height_px();
        let cx = c64(x as i128 + self.font_size as i128);
        let cw = c64(w as i128 - 2 * (self.font_size as i128));
        let mut i: usize = 0;
        while i < v.len()
            invariant
                i <= v@.len(),
                lhpx == self.line_height_px_spec(),
                lhpx <= 0x400_0000_0000_0000,
                cx == clamp64(x + self.font_size),
                cw == clamp64(w - 2 * self.font_size),
                views(ops@) == views(old(ops)@) + quote_ops(*self, v@, i as int, x as int, y as int, w as int, ch as int),
            decreases v.len() - i,
        {
            assert(decreases_to!(v => v[i as int]));
            let cy = offset_by(y, i, lhpx);
            self.plan_element(&v[i], cx, cy, cw, ch, ops);
            i += 1;
            assert(views(ops@) =~= views(old(ops)@) + quote_ops(*self, v@, i as int, x as int, y as int, w as int, ch as int));
        }
    }

    fn plan_list<'a>(
        &self,
        ordered: bool,
        start: u32,
        items: &'a Vec<Vec<LayoutElement>>,
        x: i64,
        y: i64,
        w: i64,
        ch: i64,
        ops: &mut Vec<DrawOp<'a>>,
    )
        ensures
            views(final(ops)@) == views(old(ops)@) + list_ops(*self, ordered, start, items@, items@.len() as int, x as int, y as int, w as int, ch as int),
        decreases items, 1int,
    {
        proof {
            lemma_line_px_bound(*self);
        }
        let lhpx = self.line_height_px();
        let fs = self.font_size as i128;
        let mw: i64 = (fs * 150 / 100) as i64;
        let ix = c64(x as i128 + mw as i128 + fs / 2);
        let iw = c64(w as i128 - mw as i128 - fs / 2);
        let mut i: usize = 0;
        while i < items.len()
            invariant
                i <= items@.len(),
                lhpx == self.line_height_px_spec(),
                lhpx <= 0x400_0000_0000_0000,
                fs == self.font_size,
                mw == self.font_size * 150 / 100,
                ix == clamp64(x + mw + self.font_size / 2),
                iw == clamp64(w - mw - self.font_size / 2),
                views(ops@) == views(old(ops)@) + list_ops(*self, ordered, start, items@, i as int, x as int, y as int, w as int, ch as int),
            decreases items.len() - i,
        {
            assert(decreases_to!(items => items[i as int]));
            let cy = offset_by(y, i, lhpx);
            let marker = make_marker(ordered, start, i);
            push_op(ops, DrawOp::Text {
                source: TextSource::Owned(marker),
                x,
                y: cy,
                max_width: mw,
                size: self.font_size as u64,
                line_height: self.line_height,
                color: self.text_color,
            });
            self.plan_item(&items[i], ix, cy, iw, ch, ops);
            i += 1;
            assert(views(ops@) =~= views(old(ops)@) + list_ops(*self, ordered, start, items@, i as int, x as int, y as int, w as int, ch as int));
        }
    }

    fn plan_item<'a>(&self, v: &'a Vec<LayoutElement>, x: i64, y: i64, w: i64, ch: i64, ops: &mut Vec<DrawOp<'a>>)
        ensures
            views(final(ops)@) == views(old(ops)@) + item_ops(*self, v@, v@.len() as int, x as int, y as int, w as int, ch as int),
        decreases v, 1int,
    {
        let mut i: usize = 0;
        while i < v.len()
            invariant
                i <= v@.len(),
                views(ops@) == views(old(ops)@) + item_ops(*self, v@, i as int, x as int, y as int, w as int, ch as int),
            decreases v.len() - i,
        {
            assert(decreases_to!(v => v[i as int]));
            self.plan_element(&v[i], x, y, w, ch, ops);
            i += 1;
            assert(views(ops@) =~= views(old(ops)@) + item_ops(*self, v@, i as int, x as int, y as int, w as int, ch as int));
        }
    }

    fn plan_rows<'a>(
        &self,
        rows: &'a Vec<Vec<Vec<TextSpan>>>,
        x: i64,
        y: i64,
        w: i64,
        row_h: u64,
        color: Color,
        ops: &mut Vec<DrawOp<'a>>,
    )
        requires
            row_h <= 0x800_0000_0000_0000,
        ensures
            views(final(ops)@) == views(old(ops)@) + rows_ops(*self, rows@, rows@.len() as int, x as int, y as int, w as int, row_h as int, color),
    {
        let mut i: usize = 0;
        while i < rows.len()
            invariant
                i <= rows@.len(),
                row_h <= 0x800_0000_0000_0000,
                views(ops@) == views(old(ops)@) + rows_ops(*self, rows@, i as int, x as int, y as int, w as int, row_h as int, color),
            decreases rows.len() - i,
        {
            let row = &rows[i];
            let n: i128 = if row.len() > 0 {
                row.len() as i128
            } else {
                1
            };
            let cw: i64 = if w >= 0 {
                (w as i128 / n) as i64
            } else {
                (-((-(w as i128)) / n)) as i64
            };
            assert(cw == div_trunc(w as int, if row@.len() > 0 { row@.len() as int } else { 1 }));
            assert(-0x8000_0000_0000_0000 <= cw <= 0x7FFF_FFFF_FFFF_FFFF);
            let cy = offset_by(y, i, row_h);
            let mut j: usize = 0;
            let ghost base = views(ops@);
            while j < row.len()
                invariant
                    j <= row@.len(),
                    row == rows@[i as int],
                    views(ops@) == base + cells_ops(*self, row@, j as int, x as int, cy as int, cw as int, color),
                decreases row.len() - j,
            {
                assert(-0x8000_0000_0000_0000 * 0xFFFF_FFFF_FFFF_FFFF <= j * cw <= 0x7FFF_FFFF_FFFF_FFFF
                    * 0xFFFF_FFFF_FFFF_FFFF) by (nonlinear_arith)
                    requires
                        0 <= j <= 0xFFFF_FFFF_FFFF_FFFF,
                        -0x8000_0000_0000_0000 <= cw <= 0x7FFF_FFFF_FFFF_FFFF,
                ;
                let cx = c64(x as i128 + (j as i128) * (cw as i128));
                push_op(ops, DrawOp::Text {
                    source: TextSource::Spans(&row[j]),
                    x: cx,
                    y: cy,
                    max_width: cw,
                    size: self.font_size as u64,
                    line_height: self.line_height,
                    color,
                });
                j += 1;
                assert(views(ops@) =~= base + cells_ops(*self, row@, j as int, x as int, cy as int, cw as int, color));
            }
            i += 1;
            assert(views(ops@) =~= views(old(ops)@) + rows_ops(*self, rows@, i as int, x as int, y as int, w as int, row_h as int, color));
        }
    }

    /// The steps that draw `page` on a canvas `canvas_height` pixels high.
    pub fn plan_page<'a>(&self, page: &'a Page, canvas_height: u32) -> (r: Vec<DrawOp<'a>>)
        ensures
            views(r@) == page_ops_upto(*self, page.elements@, page.elements@.len() as int, canvas_height * 100),
    {
        let ch: i64 = canvas_height as i64 * 100;
        let w = self.content_width();
        let mut ops: Vec<DrawOp<'a>> = Vec::new();
        let mut i: usize = 0;
        assert(views(ops@) =~= Seq::<OpView>::empty());
        while i < page.elements.len()
            invariant
                i <= page.elements@.len(),
                ch == canvas_height * 100,
                w == self.content_width_spec(),
                views(ops@) == page_ops_upto(*self, page.elements@, i as int, ch as int),
            decreases page.elements.len() - i,
        {
            let pe = &page.elements[i];
            let (x, y) = crate::render::element_origin(self, pe);
            let yc: i64 = if y > i64::MAX as u128 {
                i64::MAX
            } else {
                y as i64
            };
            self.plan_element(&pe.element, x, yc, w, ch, &mut ops);
            i += 1;
            assert(views(ops@) =~= page_ops_upto(*self, page.elements@, i as int, ch as int));
        }
        ops
    }
}

} // verus!
