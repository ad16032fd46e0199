//! The block model of a book: styled spans, block elements, chapters.
use vstd::prelude::*;
use vstd::string::*;
use vstd::std_specs::iter::IteratorSpec;

verus! {

/// Inline formatting of a run of text.
#[derive(Debug, Clone)]
pub struct SpanStyle {
    pub bold: bool,
    pub italic: bool,
    pub underline: bool,
    pub strikethrough: bool,
    pub link: Option<String>,
    /// Font size in centipixels.
    pub font_size_override: Option<u32>,
    pub color_override: Option<[u8; 4]>,
}

/// A run of text that shares one style.
#[derive(Debug, Clone)]
pub struct TextSpan {
    pub text: String,
    pub style: SpanStyle,
}

/// A block of content with a measurable height.
#[derive(Debug)]
pub enum LayoutElement {
    Paragraph { spans: Vec<TextSpan>, indent: bool },
    Heading { level: u8, spans: Vec<TextSpan> },
    Image {
        src: String,
        alt: String,
        data: Option<Vec<u8>>,
        width: Option<u32>,
        height: Option<u32>,
    },
    BlockQuote { elements: Vec<LayoutElement> },
    List { ordered: bool, start: u32, items: Vec<Vec<LayoutElement>> },
    HorizontalRule,
    CodeBlock { language: Option<String>, code: String },
    /// Each row is a list of cells, each cell a list of spans.
    Table { headers: Vec<Vec<Vec<TextSpan>>>, rows: Vec<Vec<Vec<TextSpan>>> },
    Figure { content: Box<LayoutElement>, caption: Option<Vec<TextSpan>> },
    RawText { text: String },
}

/// A chapter: a stable id, a title and its blocks in reading order.
#[derive(Debug)]
pub struct LayoutChapter {
    pub id: String,
    pub title: String,
    pub elements: Vec<LayoutElement>,
}

/// A whole book: its chapters in reading order.
#[derive(Debug)]
pub struct LayoutDocument {
    pub chapters: Vec<LayoutChapter>,
}

/// The parts joined, with `sep` between each two.
pub open spec fn join(parts: Seq<Seq<char>>, sep: Seq<char>) -> Seq<char>
    decreases parts.len(),
{
    if parts.len() == 0 {
        seq![]
    } else if parts.len() == 1 {
        parts[0]
    } else {
        join(parts.drop_last(), sep) + sep + parts.last()
    }
}

/// The text of the spans, one after another.
pub open spec fn spans_text(spans: Seq<TextSpan>) -> Seq<char>
    decreases spans.len(),
{
    if spans.len() == 0 {
        seq![]
    } else {
        spans_text(spans.drop_last()) + spans.last().text@
    }
}

/// Text of each cell followed by a tab.
pub open spec fn row_text(cells: Seq<Vec<TextSpan>>) -> Seq<char>
    decreases cells.len(),
{
    if cells.len() == 0 {
        seq![]
    } else {
        row_text(cells.drop_last()) + spans_text(cells.last()@) + seq!['\t']
    }
}

/// Text of each row followed by a line break.
pub open spec fn rows_text(rows: Seq<Vec<Vec<TextSpan>>>) -> Seq<char>
    decreases rows.len(),
{
    if rows.len() == 0 {
        seq![]
    } else {
        rows_text(rows.drop_last()) + row_text(rows.last()@) + seq!['\n']
    }
}

/// The plain text of the first `n` elements, joined with `sep`.
pub open spec fn elements_text(v: Seq<LayoutElement>, n: int, sep: Seq<char>) -> Seq<char>
    decreases v, n,
{
    if n <= 0 || n > v.len() {
        seq![]
    } else if n == 1 {
        element_text(v[0])
    } else {
        elements_text(v, n - 1, sep) + sep + element_text(v[n - 1])
    }
}

/// The plain text of the first `n` list items, joined with line breaks.
pub open spec fn items_text(items: Seq<Vec<LayoutElement>>, n: int) -> Seq<char>
    decreases items, n,
{
    if n <= 0 || n > items.len() {
        seq![]
    } else if n == 1 {
        elements_text(items[0]@, items[0]@.len() as int, seq![])
    } else {
        items_text(items, n - 1) + seq!['\n'] + elements_text(
            items[n - 1]@,
            items[n - 1]@.len() as int,
            seq![],
        )
    }
}

/// The plain text of an element, as used by search.
pub open spec fn element_text(e: LayoutElement) -> Seq<char>
    decreases e, 0int,
{
    match e {
        LayoutElement::Paragraph { spans, .. } => spans_text(spans@),
        LayoutElement::Heading { spans, .. } => spans_text(spans@),
        LayoutElement::BlockQuote { elements } => elements_text(
            elements@,
            elements@.len() as int,
            seq!['\n'],
        ),
        LayoutElement::List { items, .. } => items_text(items@, items@.len() as int),
        LayoutElement::CodeBlock { code, .. } => code@,
        LayoutElement::RawText { text } => text@,
        LayoutElement::Figure { content, caption } => match caption {
            Some(cap) => element_text(*content) + seq!['\n'] + spans_text(cap@),
            None => element_text(*content),
        },
        LayoutElement::Table { headers, rows } => rows_text(headers@) + rows_text(rows@),
        _ => seq![],
    }
}

/// Relies on `String::push`: the character is added at the end.
#[verifier::external_body]
pub(crate) fn push_char(s: &mut String, c: char)
    ensures
        final(s)@ == old(s)@.push(c),
{
    s.push(c)
}

/// Whitespace as Unicode's `White_Space` property defines it.
pub open spec fn is_space(c: char) -> bool {
    ('\t' <= c && c <= '\r') || c == ' ' || c == '\u{85}' || c == '\u{a0}' || c == '\u{1680}'
        || ('\u{2000}' <= c && c <= '\u{200a}') || c == '\u{2028}' || c == '\u{2029}'
        || c == '\u{202f}' || c == '\u{205f}' || c == '\u{3000}'
}

pub fn is_space_char(c: char) -> (r: bool)
    ensures
        r == is_space(c),
{
    ('\t' <= c && c <= '\r') || c == ' ' || c == '\u{85}' || c == '\u{a0}' || c == '\u{1680}'
        || ('\u{2000}' <= c && c <= '\u{200a}') || c == '\u{2028}' || c == '\u{2029}'
        || c == '\u{202f}' || c == '\u{205f}' || c == '\u{3000}'
}

/// Whether every character of `s` is whitespace.
pub open spec fn all_space(s: Seq<char>) -> bool {
    forall|i: int| 0 <= i < s.len() ==> is_space(#[trigger] s[i])
}

pub fn is_blank(s: &str) -> (r: bool)
    ensures
        r == all_space(s@),
{
    let n = s.unicode_len();
    let mut i: usize = 0;
    while i < n
        invariant
            n == s@.len(),
            i <= n,
            forall|j: int| 0 <= j < i ==> is_space(#[trigger] s@[j]),
        decreases n - i,
    {
        if !is_space_char(s.get_char(i)) {
            return false;
        }
        i += 1;
    }
    true
}

/// Whether a block holds no text worth a place on a page.
pub open spec fn element_is_empty(e: LayoutElement) -> bool {
    match e {
        LayoutElement::Paragraph { spans, .. } => forall|i: int|
            0 <= i < spans@.len() ==> all_space(#[trigger] spans@[i].text@),
        LayoutElement::Heading { spans, .. } => forall|i: int|
            0 <= i < spans@.len() ==> all_space(#[trigger] spans@[i].text@),
        LayoutElement::BlockQuote { elements } => elements@.len() == 0,
        LayoutElement::List { items, .. } => items@.len() == 0,
        LayoutElement::RawText { text } => all_space(text@),
        _ => false,
    }
}

fn spans_blank(spans: &Vec<TextSpan>) -> (r: bool)
    ensures
        r == forall|i: int| 0 <= i < spans@.len() ==> all_space(#[trigger] spans@[i].text@),
{
    let mut i: usize = 0;
    while i < spans.len()
        invariant
            i <= spans@.len(),
            forall|j: int| 0 <= j < i ==> all_space(#[trigger] spans@[j].text@),
        decreases spans.len() - i,
    {
        if !is_blank(spans[i].text.as_str()) {
            return false;
        }
        i += 1;
    }
    true
}

pub(crate) fn append_spans_text(out: &mut String, spans: &Vec<TextSpan>)
    ensures
        final(out)@ == old(out)@ + spans_text(spans@),
{
    let mut i: usize = 0;
    while i < spans.len()
        invariant
            i <= spans@.len(),
            out@ == old(out)@ + spans_text(spans@.subrange(0, i as int)),
        decreases spans.len() - i,
    {
        assert(spans@.subrange(0, i + 1).drop_last() =~= spans@.subrange(0, i as int));
        out.append(spans[i].text.as_str());
        i += 1;
    }
    assert(spans@.subrange(0, spans@.len() as int) =~= spans@);
}

fn append_rows_text(out: &mut String, rows: &Vec<Vec<Vec<TextSpan>>>)
    ensures
        final(out)@ == old(out)@ + rows_text(rows@),
{
    let mut i: usize = 0;
    while i < rows.len()
        invariant
            i <= rows@.len(),
            out@ == old(out)@ + rows_text(rows@.subrange(0, i as int)),
        decreases rows.len() - i,
    {
        assert(rows@.subrange(0, i + 1).drop_last() =~= rows@.subrange(0, i as int));
        let row = &rows[i];
        let ghost before = out@;
        let mut j: usize = 0;
        while j < row.len()
            invariant
                i < rows@.len(),
                row == rows@[i as int],
                j <= row@.len(),
                out@ == before + row_text(row@.subrange(0, j as int)),
            decreases row.len() - j,
        {
            assert(row@.subrange(0, j + 1).drop_last() =~= row@.subrange(0, j as int));
            append_spans_text(out, &row[j]);
            push_char(out, '\t');
            assert(out@ == before + row_text(row@.subrange(0, j + 1)));
            j += 1;
        }
        assert(row@.subrange(0, row@.len() as int) =~= row@);
        push_char(out, '\n');
        i += 1;
    }
    assert(rows@.subrange(0, rows@.len() as int) =~= rows@);
}

/// The separator `sep` as a sequence: one character or none.
pub open spec fn sep_seq(sep: Option<char>) -> Seq<char> {
    match sep {
        Some(c) => seq![c],
        None => seq![],
    }
}

fn append_elements_text(out: &mut String, v: &Vec<LayoutElement>, sep: Option<char>)
    ensures
        final(out)@ == old(out)@ + elements_text(v@, v@.len() as int, sep_seq(sep)),
    decreases v, 1int,
{
    let mut i: usize = 0;
    while i < v.len()
        invariant
            i <= v@.len(),
            out@ == old(out)@ + elements_text(v@, i as int, sep_seq(sep)),
        decreases v.len() - i,
    {
        if i > 0 {
            match sep {
                Some(c) => push_char(out, c),
                None => {},
            }
            assert(out@ =~= old(out)@ + elements_text(v@, i as int, sep_seq(sep)) + sep_seq(sep));
        }
        assert(decreases_to!(v => v[i as int]));
        v[i].append_text(out);
        i += 1;
    }
}

fn append_items_text(out: &mut String, items: &Vec<Vec<LayoutElement>>)
    ensures
        final(out)@ == old(out)@ + items_text(items@, items@.len() as int),
    decreases items, 1int,
{
    let mut i: usize = 0;
    while i < items.len()
        invariant
            i <= items@.len(),
            out@ == old(out)@ + items_text(items@, i as int),
        decreases items.len() - i,
    {
        if i > 0 {
            push_char(out, '\n');
        }
        assert(decreases_to!(items => items[i as int]));
        let ghost before = out@;
        append_elements_text(out, &items[i], None);
        assert(out@ == before + elements_text(items@[i as int]@, items@[i as int]@.len() as int, seq![]));
        i += 1;
    }
}

impl LayoutElement {
    pub(crate) fn append_text(&self, out: &mut String)
        ensures
            final(out)@ == old(out)@ + element_text(*self),
        decreases self, 2int,
    {
        match self {
            LayoutElement::Paragraph { spans, .. } => append_spans_text(out, spans),
            LayoutElement::Heading { spans, .. } => append_spans_text(out, spans),
            LayoutElement::BlockQuote { elements } => append_elements_text(out, elements, Some('\n')),
            LayoutElement::List { items, .. } => append_items_text(out, items),
            LayoutElement::CodeBlock { code, .. } => out.append(code.as_str()),
            LayoutElement::RawText { text } => out.append(text.as_str()),
            LayoutElement::Figure { content, caption } => {
                content.append_text(out);
                match caption {
                    Some(cap) => {
                        push_char(out, '\n');
                        append_spans_text(out, cap);
                    },
                    None => {},
                }
            },
            LayoutElement::Table { headers, rows } => {
                append_rows_text(out, headers);
                append_rows_text(out, rows);
            },
            _ => {},
        }
    }

    /// The plain text of the block: spans one after another, children on lines
    /// of their own, table cells ended by tabs and rows by line breaks.
    pub fn text_content(&self) -> (r: String)
        ensures
            r@ == element_text(*self),
    {
        let mut out = String::new();
        self.append_text(&mut out);
        out
    }

    /// Whether a page break must not fall right after this block.
    pub fn keep_with_next(&self) -> (r: bool)
        ensures
            r == (self is Heading),
    {
        match self {
            LayoutElement::Heading { .. } => true,
            _ => false,
        }
    }

    /// Whether the block holds nothing but whitespace.
    pub fn is_empty(&self) -> (r: bool)
        ensures
            r == element_is_empty(*self),
    {
        match self {
            LayoutElement::Paragraph { spans, .. } => spans_blank(spans),
            LayoutElement::Heading { spans, .. } => spans_blank(spans),
            LayoutElement::BlockQuote { elements } => elements.len() == 0,
            LayoutElement::List { items, .. } => items.len() == 0,
            LayoutElement::RawText { text } => is_blank(text.as_str()),
            _ => false,
        }
    }
}

fn clone_opt_string(o: &Option<String>) -> (r: Option<String>)
    ensures
        r == *o,
{
    match o {
        Some(s) => Some(s.clone()),
        None => None,
    }
}

impl TextSpan {
    /// A span of plain, unstyled text.
    pub fn new(text: &str) -> (r: TextSpan)
        ensures
            r.text@ == text@,
            r.style == SpanStyle::plain(),
    {
        TextSpan { text: String::from_str(text), style: SpanStyle::default() }
    }

    pub fn with_style(text: &str, style: SpanStyle) -> (r: TextSpan)
        ensures
            r.text@ == text@,
            r.style == style,
    {
        TextSpan { text: String::from_str(text), style }
    }
}

impl SpanStyle {
    /// The style with every flag off and nothing overridden.
    pub open spec fn plain() -> SpanStyle {
        SpanStyle {
            bold: false,
            italic: false,
            underline: false,
            strikethrough: false,
            link: None,
            font_size_override: None,
            color_override: None,
        }
    }

    pub fn bold() -> (r: SpanStyle)
        ensures
            r == (SpanStyle { bold: true, ..SpanStyle::plain() }),
    {
        SpanStyle { bold: true, ..SpanStyle::default() }
    }

    pub fn italic() -> (r: SpanStyle)
        ensures
            r == (SpanStyle { italic: true, ..SpanStyle::plain() }),
    {
        SpanStyle { italic: true, ..SpanStyle::default() }
    }

    pub fn link(href: &str) -> (r: SpanStyle)
        ensures
            r.link is Some,
            r.link->0@ == href@,
            r == (SpanStyle { link: r.link, ..SpanStyle::plain() }),
    {
        SpanStyle { link: Some(String::from_str(href)), ..SpanStyle::default() }
    }

    /// `other` laid over this style: flags are or-ed, and each override of
    /// `other` wins where it is set.
    pub open spec fn merge_spec(self, other: SpanStyle) -> SpanStyle {
        SpanStyle {
            bold: self.bold || other.bold,
            italic: self.italic || other.italic,
            underline: self.underline || other.underline,
            strikethrough: self.strikethrough || other.strikethrough,
            link: if other.link is Some { other.link } else { self.link },
            font_size_override: if other.font_size_override is Some {
                other.font_size_override
            } else {
                self.font_size_override
            },
            color_override: if other.color_override is Some {
                other.color_override
            } else {
                self.color_override
            },
        }
    }

    pub fn merge(&self, other: &SpanStyle) -> (r: SpanStyle)
        ensures
            r == self.merge_spec(*other),
    {
        SpanStyle {
            bold: self.bold || other.bold,
            italic: self.italic || other.italic,
            underline: self.underline || other.underline,
            strikethrough: self.strikethrough || other.strikethrough,
            link: if other.link.is_some() {
                clone_opt_string(&other.link)
            } else {
                clone_opt_string(&self.link)
            },
            font_size_override: if other.font_size_override.is_some() {
                other.font_size_override
            } else {
                self.font_size_override
            },
            color_override: if other.color_override.is_some() {
                other.color_override
            } else {
                self.color_override
            },
        }
    }
}

impl Default for SpanStyle {
    fn default() -> (r: SpanStyle)
        ensures
            r == SpanStyle::plain(),
    {
        SpanStyle {
            bold: false,
            italic: false,
            underline: false,
            strikethrough: false,
            link: None,
            font_size_override: None,
            color_override: None,
        }
    }
}

impl LayoutChapter {
    pub fn new(id: &str, title: &str) -> (r: LayoutChapter)
        ensures
            r.id@ == id@,
            r.title@ == title@,
            r.elements@.len() == 0,
    {
        LayoutChapter { id: String::from_str(id), title: String::from_str(title), elements: Vec::new() }
    }

    /// The text of the chapter's blocks, one per line.
    pub fn text_content(&self) -> (r: String)
        ensures
            r@ == elements_text(self.elements@, self.elements@.len() as int, seq!['\n']),
    {
        let mut out = String::new();
        append_elements_text(&mut out, &self.elements, Some('\n'));
        out
    }
}

/// The text of the first `n` chapters, separated by blank lines.
pub open spec fn chapters_text(chapters: Seq<LayoutChapter>, n: int) -> Seq<char>
    decreases n,
{
    let t = |c: LayoutChapter| elements_text(c.elements@, c.elements@.len() as int, seq!['\n']);
    if n <= 0 || n > chapters.len() {
        seq![]
    } else if n == 1 {
        t(chapters[0])
    } else {
        chapters_text(chapters, n - 1) + seq!['\n', '\n'] + t(chapters[n - 1])
    }
}

impl LayoutDocument {
    pub fn new() -> (r: LayoutDocument)
        ensures
            r.chapters@.len() == 0,
    {
        LayoutDocument { chapters: Vec::new() }
    }

    /// The text of the whole book, chapters separated by blank lines.
    pub fn text_content(&self) -> (r: String)
        ensures
            r@ == chapters_text(self.chapters@, self.chapters@.len() as int),
    {
        let mut out = String::new();
        let mut i: usize = 0;
        while i < self.chapters.len()
            invariant
                i <= self.chapters@.len(),
                out@ == chapters_text(self.chapters@, i as int),
            decreases self.chapters.len() - i,
        {
            if i > 0 {
                push_char(&mut out, '\n');
                push_char(&mut out, '\n');
            }
            let t = self.chapters[i].text_content();
            out.append(t.as_str());
            assert(i == 0 ==> out@ =~= chapters_text(self.chapters@, i + 1));
            assert(i > 0 ==> out@ =~= chapters_text(self.chapters@, i + 1));
            i += 1;
        }
        out
    }
}

impl Default for LayoutDocument {
    fn default() -> (r: LayoutDocument)
        ensures
            r.chapters@.len() == 0,
    {
        LayoutDocument::new()
    }
}

fn copy_elements(v: &Vec<LayoutElement>) -> (r: Vec<LayoutElement>)
    decreases v, 1int,
{
    let mut out: Vec<LayoutElement> = Vec::new();
    let mut i: usize = 0;
    while i < v.len()
        decreases v.len() - i,
    {
        assert(decreases_to!(v => v[i as int]));
        out.push(v[i].deep_clone());
        i += 1;
    }
    out
}

fn copy_items(v: &Vec<Vec<LayoutElement>>) -> (r: Vec<Vec<LayoutElement>>)
    decreases v, 1int,
{
    let mut out: Vec<Vec<LayoutElement>> = Vec::new();
    let mut i: usize = 0;
    while i < v.len()
        decreases v.len() - i,
    {
        assert(decreases_to!(v => v[i as int]));
        out.push(copy_elements(&v[i]));
        i += 1;
    }
    out
}

impl LayoutElement {
    /// A copy of the block and of everything nested in it.
    pub fn deep_clone(&self) -> (r: LayoutElement)
        ensures
            r.kind() == self.kind(),
        decreases self, 2int,
    {
        match self {
            LayoutElement::Paragraph { spans, indent } => LayoutElement::Paragraph {
                spans: spans.clone(),
                indent: *indent,
            },
            LayoutElement::Heading { level, spans } => LayoutElement::Heading {
                level: *level,
                spans: spans.clone(),
            },
            LayoutElement::Image { src, alt, data, width, height } => LayoutElement::Image {
                src: src.clone(),
                alt: alt.clone(),
                data: data.clone(),
                width: *width,
                height: *height,
            },
            LayoutElement::BlockQuote { elements } => LayoutElement::BlockQuote {
                elements: copy_elements(elements),
            },
            LayoutElement::List { ordered, start, items } => LayoutElement::List {
                ordered: *ordered,
                start: *start,
                items: copy_items(items),
            },
            LayoutElement::HorizontalRule => LayoutElement::HorizontalRule,
            LayoutElement::CodeBlock { language, code } => LayoutElement::CodeBlock {
                language: language.clone(),
                code: code.clone(),
            },
            LayoutElement::Table { headers, rows } => LayoutElement::Table {
                headers: headers.clone(),
                rows: rows.clone(),
            },
            LayoutElement::Figure { content, caption } => {
                let c = content.deep_clone();
                LayoutElement::Figure { content: Box::new(c), caption: caption.clone() }
            },
            LayoutElement::RawText { text } => LayoutElement::RawText { text: text.clone() },
        }
    }

    /// Which of the ten kinds of block this is, numbered in declaration order.
    pub open spec fn kind(&self) -> int {
        match self {
            LayoutElement::Paragraph { .. } => 0,
            LayoutElement::Heading { .. } => 1,
            LayoutElement::Image { .. } => 2,
            LayoutElement::BlockQuote { .. } => 3,
            LayoutElement::List { .. } => 4,
            LayoutElement::HorizontalRule => 5,
            LayoutElement::CodeBlock { .. } => 6,
            LayoutElement::Table { .. } => 7,
            LayoutElement::Figure { .. } => 8,
            LayoutElement::RawText { .. } => 9,
        }
    }
}

impl Clone for LayoutElement {
    fn clone(&self) -> (r: LayoutElement) {
        self.deep_clone()
    }
}

impl Clone for LayoutChapter {
    fn clone(&self) -> (r: LayoutChapter) {
        LayoutChapter {
            id: self.id.clone(),
            title: self.title.clone(),
            elements: copy_elements(&self.elements),
        }
    }
}

impl Clone for LayoutDocument {
    fn clone(&self) -> (r: LayoutDocument) {
        let mut chapters: Vec<LayoutChapter> = Vec::new();
        let mut i: usize = 0;
        while i < self.chapters.len()
            decreases self.chapters.len() - i,
        {
            chapters.push(self.chapters[i].clone());
            i += 1;
        }
        LayoutDocument { chapters }
    }
}

/// The characters of `s`, in order.
pub fn chars_of(s: &str) -> (r: Vec<char>)
    ensures
        r@ == s@,
{
    let mut it = s.chars();
    let mut out: Vec<char> = Vec::new();
    proof {
        broadcast use vstd::string::axiom_spec_iter, vstd::string::next_postcondition;
    }
    loop
        invariant
            out@ + it.remaining() == s@,
            it.decrease() is Some,
        ensures
            out@ == s@,
        decreases it.decrease()->0,
    {
        match it.next() {
            Some(c) => {
                out.push(c);
                assert(out@ + it.remaining() =~= s@);
            },
            None => {
                break;
            },
        }
    }
    out
}

} // verus!
