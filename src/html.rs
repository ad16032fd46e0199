//! From HTML fragments to blocks.
//!
//! The fragment is tokenised by `scraper` into a stream of open, text and
//! close events; the tree built from that stream is then read into blocks
//! with their inline styles. The parser recognises a fixed set of tags and
//! reads any other tag as a paragraph of its text.
use vstd::prelude::*;
use crate::document::{LayoutElement, SpanStyle, TextSpan, chars_of, element_is_empty, element_text, is_blank,
    is_space, is_space_char, push_char, spans_text, all_space};

verus! {

/// One step of a walk over a parsed HTML tree.
#[derive(Debug, Clone)]
pub enum HtmlEvent {
    /// An element opens: its tag name and attributes.
    Open(String, Vec<(String, String)>),
    /// A text node opens.
    Text(String),
    /// The node opened last closes.
    Close,
    /// A comment or another node without content opens.
    Other,
}

/// A node of a parsed HTML tree.
#[derive(Debug)]
pub enum HtmlNode {
    Element { tag: String, attrs: Vec<(String, String)>, children: Vec<HtmlNode> },
    Text { text: String },
    Other,
}

/// Relies on `scraper::Html::parse_fragment` to parse the fragment as HTML5
/// does, and on `ego_tree`'s `traverse` to walk the tree from its root
/// element, each node opened before its children and closed after them.
#[verifier::external_body]
fn html_events(html: &str) -> (r: Vec<HtmlEvent>)
    ensures
        r@ == html_events_of(html@),
{
    let doc = scraper::Html::parse_fragment(html);
    doc.root_element().traverse().map(
        |edge| match edge {
            ego_tree::iter::Edge::Open(n) => match n.value() {
                scraper::Node::Element(e) => HtmlEvent::Open(
                    e.name().to_string(),
                    e.attrs().map(|(k, v)| (k.to_string(), v.to_string())).collect(),
                ),
                scraper::Node::Text(t) => HtmlEvent::Text(t.text.to_string()),
                _ => HtmlEvent::Other,
            },
            ego_tree::iter::Edge::Close(_) => HtmlEvent::Close,
        },
    ).collect()
}

/// The walk that `scraper` and `ego_tree` make of a parsed HTML fragment.
pub uninterp spec fn html_events_of(html: Seq<char>) -> Seq<HtmlEvent>;

/// A node of a parsed HTML tree as plain values.
pub enum NodeView {
    Element { tag: String, attrs: Seq<(String, String)>, children: Seq<NodeView> },
    Text { text: String },
    Other,
}

pub open spec fn node_view(n: HtmlNode) -> NodeView
    decreases n, 0int,
{
    match n {
        HtmlNode::Element { tag, attrs, children } => NodeView::Element {
            tag,
            attrs: attrs@,
            children: views_upto(children@, children@.len() as int),
        },
        HtmlNode::Text { text } => NodeView::Text { text },
        HtmlNode::Other => NodeView::Other,
    }
}

/// The views of the first `n` nodes.
pub open spec fn views_upto(v: Seq<HtmlNode>, n: int) -> Seq<NodeView>
    decreases v, n,
{
    if n <= 0 || n > v.len() {
        seq![]
    } else {
        views_upto(v, n - 1).push(node_view(v[n - 1]))
    }
}

proof fn lemma_views_upto_len(v: Seq<HtmlNode>, n: int)
    requires
        0 <= n <= v.len(),
    ensures
        views_upto(v, n).len() == n,
    decreases n,
{
    if n > 0 {
        lemma_views_upto_len(v, n - 1);
    }
}

proof fn lemma_views_upto_push(v: Seq<HtmlNode>, x: HtmlNode, n: int)
    requires
        0 <= n <= v.len(),
    ensures
        views_upto(v.push(x), n) == views_upto(v, n),
    decreases n,
{
    if n > 0 {
        lemma_views_upto_push(v, x, n - 1);
        assert(v.push(x)[n - 1] == v[n - 1]);
    }
}

/// The position after a close event at `q`, if there is one there.
pub open spec fn after_close(ev: Seq<HtmlEvent>, q: int) -> int {
    if 0 <= q < ev.len() && ev[q] is Close {
        q + 1
    } else {
        q
    }
}

/// The nodes that a walk builds from position `p` up to the close event of
/// their parent (or the end), with the position after that event.
pub open spec fn tree_from(ev: Seq<HtmlEvent>, p: int) -> (Seq<NodeView>, int)
    decreases ev.len() - p,
{
    if p < 0 || p >= ev.len() {
        (seq![], if p < 0 { ev.len() as int } else { p })
    } else {
        match ev[p] {
            HtmlEvent::Close => (seq![], p + 1),
            HtmlEvent::Open(tag, attrs) => {
                let (kids, e1) = tree_from(ev, p + 1);
                if p < e1 <= ev.len() {
                    let (rest, e2) = tree_from(ev, e1);
                    (seq![NodeView::Element { tag, attrs: attrs@, children: kids }] + rest, e2)
                } else {
                    (seq![], ev.len() as int)
                }
            },
            HtmlEvent::Text(t) => {
                let (rest, e2) = tree_from(ev, after_close(ev, p + 1));
                (seq![NodeView::Text { text: t }] + rest, e2)
            },
            HtmlEvent::Other => {
                let (rest, e2) = tree_from(ev, after_close(ev, p + 1));
                (seq![NodeView::Other] + rest, e2)
            },
        }
    }
}

/// The top-level nodes of a fragment: the children of the root element the
/// walk starts from.
pub open spec fn fragment_nodes(ev: Seq<HtmlEvent>) -> Seq<NodeView> {
    let top = tree_from(ev, 0).0;
    if top.len() == 1 {
        match top[0] {
            NodeView::Element { children, .. } => children,
            _ => top,
        }
    } else {
        top
    }
}

/// Builds the nodes that start at `pos`, up to the close event of their parent
/// (or the end), and returns them with the position after that event.
fn build_nodes(events: &Vec<HtmlEvent>, pos: usize) -> (r: (Vec<HtmlNode>, usize))
    requires
        pos <= events@.len(),
    ensures
        pos <= r.1 <= events@.len(),
        views_upto(r.0@, r.0@.len() as int) == tree_from(events@, pos as int).0,
        r.1 == tree_from(events@, pos as int).1,
    decreases events@.len() - pos,
{
    let ghost ev = events@;
    let mut nodes: Vec<HtmlNode> = Vec::new();
    let mut p = pos;
    while p < events.len()
        invariant
            ev == events@,
            pos <= p <= events@.len(),
            views_upto(nodes@, nodes@.len() as int) + tree_from(ev, p as int).0 == tree_from(ev, pos as int).0,
            tree_from(ev, p as int).1 == tree_from(ev, pos as int).1,
        decreases events@.len() - p,
    {
        let ghost before = nodes@;
        let ghost p0 = p as int;
        let ghost acc = views_upto(before, before.len() as int);
        match &events[p] {
            HtmlEvent::Close => {
                assert(views_upto(nodes@, nodes@.len() as int) =~= tree_from(ev, pos as int).0);
                return (nodes, p + 1);
            },
            HtmlEvent::Open(tag, attrs) => {
                let (children, next) = build_nodes(events, p + 1);
                let node = HtmlNode::Element { tag: tag.clone(), attrs: copy_attrs(attrs), children };
                nodes.push(node);
                proof {
                    lemma_views_upto_push(before, node, before.len() as int);
                    assert(nodes@ == before.push(node));
                    assert(views_upto(nodes@, nodes@.len() as int) == acc.push(node_view(node)));
                    let (kids, e1) = tree_from(ev, p0 + 1);
                    assert(kids == views_upto(children@, children@.len() as int));
                    assert(node_view(node) == NodeView::Element { tag: *tag, attrs: attrs@, children: kids });
                    assert(tree_from(ev, p0).0 == seq![node_view(node)] + tree_from(ev, next as int).0);
                    assert(tree_from(ev, p0).1 == tree_from(ev, next as int).1);
                }
                p = next;
                assert(views_upto(nodes@, nodes@.len() as int) + tree_from(ev, p as int).0 =~= tree_from(ev, pos as int).0);
            },
            HtmlEvent::Text(t) => {
                let node = HtmlNode::Text { text: t.clone() };
                nodes.push(node);
                p = skip_close(events, p + 1);
                proof {
                    lemma_views_upto_push(before, node, before.len() as int);
                    assert(nodes@ == before.push(node));
                    assert(views_upto(nodes@, nodes@.len() as int) == acc.push(node_view(node)));
                    assert(tree_from(ev, p0).0 == seq![node_view(node)] + tree_from(ev, p as int).0);
                    assert(tree_from(ev, p0).1 == tree_from(ev, p as int).1);
                }
                assert(views_upto(nodes@, nodes@.len() as int) + tree_from(ev, p as int).0 =~= tree_from(ev, pos as int).0);
            },
            HtmlEvent::Other => {
                let node = HtmlNode::Other;
                nodes.push(node);
                p = skip_close(events, p + 1);
                proof {
                    lemma_views_upto_push(before, node, before.len() as int);
                    assert(nodes@ == before.push(node));
                    assert(views_upto(nodes@, nodes@.len() as int) == acc.push(node_view(node)));
                    assert(tree_from(ev, p0).0 == seq![node_view(node)] + tree_from(ev, p as int).0);
                    assert(tree_from(ev, p0).1 == tree_from(ev, p as int).1);
                }
                assert(views_upto(nodes@, nodes@.len() as int) + tree_from(ev, p as int).0 =~= tree_from(ev, pos as int).0);
            },
        }
    }
    assert(views_upto(nodes@, nodes@.len() as int) =~= tree_from(ev, pos as int).0);
    (nodes, p)
}

fn copy_attrs(v: &Vec<(String, String)>) -> (r: Vec<(String, String)>)
    ensures
        r@ == v@,
{
    let mut out: Vec<(String, String)> = Vec::new();
    let mut i: usize = 0;
    while i < v.len()
        invariant
            i <= v@.len(),
            out@ == v@.subrange(0, i as int),
        decreases v.len() - i,
    {
        out.push((v[i].0.clone(), v[i].1.clone()));
        i += 1;
        assert(out@ =~= v@.subrange(0, i as int));
    }
    assert(out@ =~= v@);
    out
}

/// The position after the close event at `p`, if there is one there.
fn skip_close(events: &Vec<HtmlEvent>, p: usize) -> (r: usize)
    requires
        p <= events@.len(),
    ensures
        p <= r <= events@.len(),
        r == after_close(events@, p as int),
{
    if p < events.len() {
        match &events[p] {
            HtmlEvent::Close => p + 1,
            _ => p,
        }
    } else {
        p
    }
}

/// The top-level nodes of an HTML fragment.
pub fn parse_fragment(html: &str) -> (r: Vec<HtmlNode>)
    ensures
        views_upto(r@, r@.len() as int) == fragment_nodes(html_events_of(html@)),
{
    let events = html_events(html);
    let (mut top, _) = build_nodes(&events, 0);
    proof {
        lemma_views_upto_len(top@, top@.len() as int);
    }
    if top.len() == 1 {
        let ghost t0 = top@;
        proof {
            assert(views_upto(t0, 1) == views_upto(t0, 0).push(node_view(t0[0])));
            assert(views_upto(t0, 1)[0] == node_view(t0[0]));
        }
        match top.remove(0) {
            HtmlNode::Element { children, .. } => {
                assert(node_view(t0[0]) matches NodeView::Element { children: c, .. } && c == views_upto(
                    children@,
                    children@.len() as int,
                ));
                children
            },
            other => {
                let mut v: Vec<HtmlNode> = Vec::new();
                v.push(other);
                assert(v@ =~= t0);
                assert(!(node_view(t0[0]) is Element));
                v
            },
        }
    } else {
        top
    }
}

/// Whitespace normalisation as a left-to-right scan: the text so far, and
/// whether it ends in a run of whitespace.
pub open spec fn norm_scan(s: Seq<char>) -> (Seq<char>, bool)
    decreases s.len(),
{
    if s.len() == 0 {
        (seq![], false)
    } else {
        let (out, in_space) = norm_scan(s.drop_last());
        let c = s.last();
        if is_space(c) {
            if in_space {
                (out, true)
            } else {
                (out.push(' '), true)
            }
        } else {
            (out.push(c), false)
        }
    }
}

/// `s` with each run of whitespace made one space.
pub open spec fn normalize(s: Seq<char>) -> Seq<char> {
    norm_scan(s).0
}

/// Whether every whitespace character of `t` is a space that no whitespace
/// follows.
pub open spec fn tidy(t: Seq<char>) -> bool {
    forall|i: int|
        0 <= i < t.len() && is_space(#[trigger] t[i]) ==> t[i] == ' ' && (i + 1 < t.len()
            ==> !is_space(t[i + 1]))
}

proof fn lemma_norm_scan(s: Seq<char>)
    ensures
        tidy(norm_scan(s).0),
        norm_scan(s).1 == (norm_scan(s).0.len() > 0 && norm_scan(s).0.last() == ' '),
        norm_scan(s).0.len() <= s.len(),
        all_space(s) == all_space(norm_scan(s).0),
    decreases s.len(),
{
    if s.len() > 0 {
        lemma_norm_scan(s.drop_last());
        let (out, sp) = norm_scan(s.drop_last());
        let c = s.last();
        let t = norm_scan(s).0;
        if is_space(c) {
            if !sp {
                assert forall|i: int| 0 <= i < t.len() && is_space(#[trigger] t[i]) implies t[i]
                    == ' ' && (i + 1 < t.len() ==> !is_space(t[i + 1])) by {
                    if i < out.len() {
                        assert(t[i] == out[i]);
                    }
                }
            }
        } else {
            assert forall|i: int| 0 <= i < t.len() && is_space(#[trigger] t[i]) implies t[i] == ' '
                && (i + 1 < t.len() ==> !is_space(t[i + 1])) by {
                if i < out.len() {
                    assert(t[i] == out[i]);
                }
            }
        }
        assert(all_space(s) == (all_space(s.drop_last()) && is_space(c))) by {
            if all_space(s.drop_last()) && is_space(c) {
                assert forall|i: int| 0 <= i < s.len() implies is_space(#[trigger] s[i]) by {
                    if i < s.len() - 1 {
                        assert(s[i] == s.drop_last()[i]);
                    }
                }
            }
            if all_space(s) {
                assert forall|i: int| 0 <= i < s.len() - 1 implies is_space(
                    #[trigger] s.drop_last()[i],
                ) by {
                    assert(s[i] == s.drop_last()[i]);
                }
            }
        }
        assert(all_space(t) == (all_space(out) && is_space(t.last()))) by {
            if all_space(out) && is_space(t.last()) {
                assert forall|i: int| 0 <= i < t.len() implies is_space(#[trigger] t[i]) by {
                    if i < t.len() - 1 {
                        assert(t[i] == out[i]);
                    }
                }
            }
            if all_space(t) && t.len() > out.len() {
                assert forall|i: int| 0 <= i < out.len() implies is_space(#[trigger] out[i]) by {
                    assert(t[i] == out[i]);
                }
            }
        }
    }
}

proof fn lemma_tidy_prefix(t: Seq<char>)
    requires
        tidy(t),
        t.len() > 0,
    ensures
        tidy(t.drop_last()),
{
    let u = t.drop_last();
    assert forall|i: int| 0 <= i < u.len() && is_space(#[trigger] u[i]) implies u[i] == ' ' && (i
        + 1 < u.len() ==> !is_space(u[i + 1])) by {
        assert(u[i] == t[i]);
        if i + 1 < u.len() {
            assert(u[i + 1] == t[i + 1]);
        }
    }
}

proof fn lemma_normalize_tidy_fixed(t: Seq<char>)
    requires
        tidy(t),
    ensures
        normalize(t) == t,
    decreases t.len(),
{
    if t.len() > 0 {
        let u = t.drop_last();
        lemma_tidy_prefix(t);
        lemma_normalize_tidy_fixed(u);
        lemma_norm_scan(u);
        if is_space(t.last()) && u.len() > 0 {
            assert(t[t.len() - 2] == u.last());
        }
        assert(normalize(t) =~= t);
    }
}

/// Normalising whitespace twice is normalising it once, and a text that is
/// not blank stays not blank.
pub proof fn lemma_normalize_idempotent(s: Seq<char>)
    ensures
        normalize(normalize(s)) == normalize(s),
        all_space(normalize(s)) == all_space(s),
{
    lemma_norm_scan(s);
    lemma_normalize_tidy_fixed(normalize(s));
}

/// Each run of whitespace made one space.
pub fn normalize_whitespace(text: &str) -> (r: String)
    ensures
        r@ == normalize(text@),
{
    let t = chars_of(text);
    let mut out = String::new();
    let mut in_space = false;
    let mut i: usize = 0;
    while i < t.len()
        invariant
            t@ == text@,
            i <= t@.len(),
            norm_scan(t@.subrange(0, i as int)) == (out@, in_space),
        decreases t.len() - i,
    {
        assert(t@.subrange(0, i + 1).drop_last() =~= t@.subrange(0, i as int));
        let c = t[i];
        if is_space_char(c) {
            if !in_space {
                push_char(&mut out, ' ');
                in_space = true;
            }
        } else {
            push_char(&mut out, c);
            in_space = false;
        }
        i += 1;
    }
    assert(t@.subrange(0, t@.len() as int) =~= t@);
    out
}

/// Whether two spans share flags and link; they then merge into one.
pub open spec fn same_style(a: SpanStyle, b: SpanStyle) -> bool {
    a.bold == b.bold && a.italic == b.italic && a.underline == b.underline && a.strikethrough
        == b.strikethrough && link_text(a.link) == link_text(b.link)
}

/// The text of a link, if there is one.
pub open spec fn link_text(l: Option<String>) -> Option<Seq<char>> {
    match l {
        Some(s) => Some(s@),
        None => None,
    }
}

pub fn spans_same_style(a: &TextSpan, b: &TextSpan) -> (r: bool)
    ensures
        r == same_style(a.style, b.style),
{
    let links_equal = match (&a.style.link, &b.style.link) {
        (Some(x), Some(y)) => crate::fonts::same_text(x.as_str(), y.as_str()),
        (None, None) => true,
        _ => false,
    };
    a.style.bold == b.style.bold && a.style.italic == b.style.italic && a.style.underline
        == b.style.underline && a.style.strikethrough == b.style.strikethrough && links_equal
}

/// Whether `a` equals the lower-case ASCII text `lit`, ignoring ASCII case.
pub open spec fn eq_ci(a: Seq<char>, lit: Seq<char>) -> bool {
    a.len() == lit.len() && forall|i: int|
        0 <= i < a.len() ==> crate::fonts::same_letter(#[trigger] a[i], lit[i])
}

pub fn tag_is(tag: &String, lit: &str) -> (r: bool)
    ensures
        r == eq_ci(tag@, lit@),
{
    let a = chars_of(tag.as_str());
    let b = chars_of(lit);
    if a.len() != b.len() {
        return false;
    }
    let mut i: usize = 0;
    while i < a.len()
        invariant
            a@ == tag@,
            b@ == lit@,
            a@.len() == b@.len(),
            i <= a@.len(),
            forall|j: int| 0 <= j < i ==> crate::fonts::same_letter(#[trigger] a@[j], b@[j]),
        decreases a.len() - i,
    {
        if !crate::fonts::letter_matches(a[i], b[i]) {
            return false;
        }
        i += 1;
    }
    true
}

/// What a text node contributes to inline text: nothing where it is blank,
/// else its whitespace normalised.
pub open spec fn text_inline(t: Seq<char>) -> Seq<char> {
    if all_space(t) {
        seq![]
    } else {
        normalize(t)
    }
}

/// The inline text of the first `n` nodes: text nodes normalised, a `br` as a
/// line break, other elements by their content.
pub open spec fn inline_text(nodes: Seq<HtmlNode>, n: int) -> Seq<char>
    decreases nodes, n,
{
    if n <= 0 || n > nodes.len() {
        seq![]
    } else {
        inline_text(nodes, n - 1) + node_inline(nodes[n - 1])
    }
}

pub open spec fn node_inline(node: HtmlNode) -> Seq<char>
    decreases node, 0int,
{
    match node {
        HtmlNode::Text { text } => text_inline(text@),
        HtmlNode::Element { tag, children, .. } => if eq_ci(tag@, "br"@) {
            seq!['\n']
        } else {
            inline_text(children@, children@.len() as int)
        },
        HtmlNode::Other => seq![],
    }
}

fn copy_style(s: &SpanStyle) -> (r: SpanStyle)
    ensures
        r == *s,
{
    SpanStyle {
        bold: s.bold,
        italic: s.italic,
        underline: s.underline,
        strikethrough: s.strikethrough,
        link: match &s.link {
            Some(l) => Some(l.clone()),
            None => None,
        },
        font_size_override: s.font_size_override,
        color_override: s.color_override,
    }
}

/// The value of the first attribute named `name`.
pub open spec fn attr_value(attrs: Seq<(String, String)>, name: Seq<char>) -> Option<String>
    decreases attrs.len(),
{
    if attrs.len() == 0 {
        None
    } else if attrs[0].0@ == name {
        Some(attrs[0].1)
    } else {
        attr_value(attrs.drop_first(), name)
    }
}

/// The text of an attribute, or nothing where it is missing.
pub open spec fn attr_text(attrs: Seq<(String, String)>, name: Seq<char>) -> Seq<char> {
    match attr_value(attrs, name) {
        Some(v) => v@,
        None => seq![],
    }
}

/// An attribute read as a `u32`, where it is present and numeric.
pub open spec fn attr_number(attrs: Seq<(String, String)>, name: Seq<char>) -> Option<u32> {
    match attr_value(attrs, name) {
        Some(v) => parsed_u32(v@),
        None => None,
    }
}

fn attr<'a>(attrs: &'a Vec<(String, String)>, name: &str) -> (r: Option<&'a String>)
    ensures
        match r {
            Some(v) => attr_value(attrs@, name@) == Some(*v),
            None => attr_value(attrs@, name@) is None,
        },
{
    let mut i: usize = 0;
    assert(attrs@.subrange(0, attrs@.len() as int) =~= attrs@);
    while i < attrs.len()
        invariant
            i <= attrs@.len(),
            attr_value(attrs@, name@) == attr_value(attrs@.subrange(i as int, attrs@.len() as int), name@),
        decreases attrs.len() - i,
    {
        let ghost rest = attrs@.subrange(i as int, attrs@.len() as int);
        assert(rest.drop_first() =~= attrs@.subrange(i + 1, attrs@.len() as int));
        assert(rest[0] == attrs@[i as int]);
        if crate::fonts::same_text(attrs[i].0.as_str(), name) {
            return Some(&attrs[i].1);
        }
        i += 1;
    }
    None
}

/// The style of an inline element's content: bold for `b` and `strong`,
/// italic for `i`, `em` and `cite`, underlined for `u`, struck through for
/// `s`, `del` and `strike`, and a link for an `a` with an `href`.
/// The style of an inline element's content, as `child_style` sets it.
pub open spec fn child_style_spec(tag: Seq<char>, attrs: Seq<(String, String)>, st: SpanStyle) -> SpanStyle {
    if eq_ci(tag, "b"@) || eq_ci(tag, "strong"@) {
        SpanStyle { bold: true, ..st }
    } else if eq_ci(tag, "i"@) || eq_ci(tag, "em"@) || eq_ci(tag, "cite"@) {
        SpanStyle { italic: true, ..st }
    } else if eq_ci(tag, "u"@) {
        SpanStyle { underline: true, ..st }
    } else if eq_ci(tag, "s"@) || eq_ci(tag, "del"@) || eq_ci(tag, "strike"@) {
        SpanStyle { strikethrough: true, ..st }
    } else if eq_ci(tag, "a"@) {
        match attr_value(attrs, "href"@) {
            Some(h) => SpanStyle { link: Some(h), ..st },
            None => st,
        }
    } else {
        st
    }
}

/// A span as its text and style.
pub open spec fn span_views(v: Seq<TextSpan>) -> Seq<(Seq<char>, SpanStyle)> {
    Seq::new(v.len(), |i: int| (v[i].text@, v[i].style))
}

/// The spans of the inline content of the first `n` nodes, in style `st`,
/// before neighbours of one style are merged.
pub open spec fn inline_spans(nodes: Seq<HtmlNode>, n: int, st: SpanStyle) -> Seq<(Seq<char>, SpanStyle)>
    decreases nodes, n,
{
    if n <= 0 || n > nodes.len() {
        seq![]
    } else {
        inline_spans(nodes, n - 1, st) + node_spans(nodes[n - 1], st)
    }
}

pub open spec fn node_spans(node: HtmlNode, st: SpanStyle) -> Seq<(Seq<char>, SpanStyle)>
    decreases node, 0int,
{
    match node {
        HtmlNode::Text { text } => if all_space(text@) {
            seq![]
        } else {
            seq![(normalize(text@), st)]
        },
        HtmlNode::Element { tag, attrs, children } => if eq_ci(tag@, "br"@) {
            seq![(seq!['\n'], st)]
        } else {
            inline_spans(children@, children@.len() as int, child_style_spec(tag@, attrs@, st))
        },
        HtmlNode::Other => seq![],
    }
}

/// Neighbouring spans of one style joined, left to right.
pub open spec fn merged_view(v: Seq<(Seq<char>, SpanStyle)>) -> Seq<(Seq<char>, SpanStyle)>
    decreases v.len(),
{
    if v.len() == 0 {
        seq![]
    } else {
        let m = merged_view(v.drop_last());
        let x = v.last();
        if m.len() > 0 && same_style(m.last().1, x.1) {
            m.update(m.len() - 1, (m.last().0 + x.0, m.last().1))
        } else {
            m.push(x)
        }
    }
}

fn child_style(tag: &String, attrs: &Vec<(String, String)>, style: &SpanStyle) -> (r: SpanStyle)
    ensures
        r == child_style_spec(tag@, attrs@, *style),
{
    let mut st = copy_style(style);
    if tag_is(tag, "b") || tag_is(tag, "strong") {
        st.bold = true;
    } else if tag_is(tag, "i") || tag_is(tag, "em") || tag_is(tag, "cite") {
        st.italic = true;
    } else if tag_is(tag, "u") {
        st.underline = true;
    } else if tag_is(tag, "s") || tag_is(tag, "del") || tag_is(tag, "strike") {
        st.strikethrough = true;
    } else if tag_is(tag, "a") {
        match attr(attrs, "href") {
            Some(h) => {
                st.link = Some(h.clone());
            },
            None => {},
        }
    }
    st
}

/// Appends the spans of the inline content of `nodes` to `out`.
fn collect_spans(nodes: &Vec<HtmlNode>, style: &SpanStyle, out: &mut Vec<TextSpan>)
    requires
        all_filled(old(out)@),
    ensures
        spans_text(final(out)@) == spans_text(old(out)@) + inline_text(nodes@, nodes@.len() as int),
        all_filled(final(out)@),
        span_views(final(out)@) == span_views(old(out)@) + inline_spans(nodes@, nodes@.len() as int, *style),
    decreases nodes, 1int,
{
    let mut i: usize = 0;
    while i < nodes.len()
        invariant
            i <= nodes@.len(),
            all_filled(out@),
            span_views(out@) == span_views(old(out)@) + inline_spans(nodes@, i as int, *style),
            spans_text(out@) == spans_text(old(out)@) + inline_text(nodes@, i as int),
        decreases nodes.len() - i,
    {
        let ghost before = out@;
        assert(decreases_to!(nodes => nodes[i as int]));
        match &nodes[i] {
            HtmlNode::Text { text } => {
                if !is_blank(text.as_str()) {
                    let t = normalize_whitespace(text.as_str());
                    let span = TextSpan { text: t, style: copy_style(style) };
                    proof {
                        lemma_norm_scan(text@);
                        if span.text@.len() == 0 {
                            assert(all_space(span.text@));
                        }
                    }
                    out.push(span);
                    proof {
                        lemma_spans_text_push(before, span);
                        assert(all_filled(out@)) by {
                            assert forall|j: int| 0 <= j < out@.len() implies (#[trigger] out@[j]).text@.len() > 0 by {
                                if j < before.len() {
                                    assert(out@[j] == before[j]);
                                }
                            }
                        }
                    }
                } else {
                    assert(text_inline(text@) =~= Seq::<char>::empty());
                    assert(node_inline(nodes@[i as int]) =~= Seq::<char>::empty());
                    assert(inline_text(nodes@, i + 1) == inline_text(nodes@, i as int) + node_inline(
                        nodes@[i as int],
                    ));
                }
            },
            HtmlNode::Element { tag, attrs, children } => {
                if tag_is(tag, "br") {
                    let mut t = String::new();
                    push_char(&mut t, '\n');
                    let span = TextSpan { text: t, style: copy_style(style) };
                    out.push(span);
                    proof {
                        lemma_spans_text_push(before, span);
                        reveal_strlit("br");
                        assert(all_filled(out@)) by {
                            assert forall|j: int| 0 <= j < out@.len() implies (#[trigger] out@[j]).text@.len() > 0 by {
                                if j < before.len() {
                                    assert(out@[j] == before[j]);
                                }
                            }
                        }
                    }
                } else {
                    let st = child_style(tag, attrs, style);
                    proof {
                        assert(decreases_to!(nodes[i as int] => *children));
                    }
                    collect_spans(children, &st, out);
                }
                proof {
                    reveal_strlit("br");
                }
            },
            HtmlNode::Other => {
                assert(node_inline(nodes@[i as int]) =~= Seq::<char>::empty());
                assert(inline_text(nodes@, i + 1) == inline_text(nodes@, i as int) + node_inline(
                    nodes@[i as int],
                ));
            },
        }
        proof {
            assert(inline_text(nodes@, i + 1) == inline_text(nodes@, i as int) + node_inline(
                nodes@[i as int],
            ));
            assert(spans_text(out@) =~= spans_text(old(out)@) + inline_text(nodes@, i + 1));
            assert(inline_spans(nodes@, i + 1, *style) == inline_spans(nodes@, i as int, *style)
                + node_spans(nodes@[i as int], *style));
            reveal_strlit("br");
            if out@.len() == before.len() + 1 {
                assert(span_views(out@) =~= span_views(before).push((out@.last().text@, out@.last().style)));
            } else if out@ == before {
                assert(span_views(out@) == span_views(before));
            }
            assert(span_views(out@) =~= span_views(old(out)@) + inline_spans(nodes@, i + 1, *style));
        }
        i += 1;
    }
}

proof fn lemma_spans_text_push(v: Seq<TextSpan>, s: TextSpan)
    ensures
        spans_text(v.push(s)) == spans_text(v) + s.text@,
{
    assert(v.push(s).drop_last() =~= v);
}

/// Joins neighbouring spans of the same style into one.
pub fn merge_spans(spans: Vec<TextSpan>) -> (r: Vec<TextSpan>)
    ensures
        spans_text(r@) == spans_text(spans@),
        all_filled(spans@) ==> all_filled(r@),
        r@.len() <= spans@.len(),
        spans@.len() > 0 ==> r@.len() > 0,
        forall|i: int| 0 <= i < r@.len() - 1 ==> !same_style(#[trigger] r@[i].style, r@[i + 1].style),
        span_views(r@) == merged_view(span_views(spans@)),
{
    let ghost all = spans@;
    let mut rest = spans;
    let mut merged: Vec<TextSpan> = Vec::new();
    let total = rest.len();
    let mut k: usize = 0;
    while rest.len() > 0
        invariant
            total == all.len(),
            k <= all.len(),
            rest@ == all.subrange(k as int, all.len() as int),
            spans_text(merged@) == spans_text(all.subrange(0, k as int)),
            forall|i: int|
                0 <= i < merged@.len() - 1 ==> !same_style(#[trigger] merged@[i].style, merged@[i + 1].style),
            k > 0 ==> merged@.len() > 0,
            merged@.len() <= k,
            all_filled(all) ==> all_filled(merged@),
            span_views(merged@) == merged_view(span_views(all.subrange(0, k as int))),
        decreases rest.len(),
    {
        let span = rest.remove(0);
        let ghost mv0 = span_views(merged@);
        assert(all.subrange(0, k + 1) =~= all.subrange(0, k as int).push(span));
        proof {
            let sv = span_views(all.subrange(0, k + 1));
            assert(sv.drop_last() =~= span_views(all.subrange(0, k as int)));
            assert(sv.last() == (span.text@, span.style));
        }
        proof {
            lemma_spans_text_push(all.subrange(0, k as int), span);
        }
        let n = merged.len();
        if n > 0 && spans_same_style(&merged[n - 1], &span) {
            let mut last = merged.pop().unwrap();
            let ghost prefix = merged@;
            let ghost last0 = last;
            last.text.append(span.text.as_str());
            merged.push(last);
            proof {
                lemma_spans_text_push(prefix, last0);
                lemma_spans_text_push(prefix, last);
                assert(merged@.drop_last() =~= prefix);
                assert forall|i: int| 0 <= i < merged@.len() - 1 implies !same_style(
                    #[trigger] merged@[i].style,
                    merged@[i + 1].style,
                ) by {
                    if i + 1 == merged@.len() - 1 {
                        assert(merged@[i + 1].style == last0.style);
                    }
                }
                assert(span_views(merged@) =~= mv0.update(mv0.len() - 1, (mv0.last().0 + span.text@, mv0.last().1)));
            }
        } else {
            let ghost prev = merged@;
            merged.push(span);
            proof {
                lemma_spans_text_push(prev, span);
                assert(span_views(merged@) =~= mv0.push((span.text@, span.style)));
            }
        }
        k += 1;
        assert(rest@ =~= all.subrange(k as int, all.len() as int));
    }
    assert(all.subrange(0, all.len() as int) =~= all);
    merged
}

/// The spans of `nodes` in style `st`, as `collect_text_spans` gives them.
pub open spec fn text_spans_of(nodes: Seq<HtmlNode>, st: SpanStyle) -> Seq<(Seq<char>, SpanStyle)> {
    merged_view(inline_spans(nodes, nodes.len() as int, st))
}

/// The spans of the inline content of `nodes`, neighbours of one style merged.
pub fn collect_text_spans(nodes: &Vec<HtmlNode>, style: &SpanStyle) -> (r: Vec<TextSpan>)
    ensures
        spans_text(r@) == inline_text(nodes@, nodes@.len() as int),
        all_filled(r@),
        r@.len() == 0 <==> inline_text(nodes@, nodes@.len() as int).len() == 0,
        forall|i: int| 0 <= i < r@.len() - 1 ==> !same_style(#[trigger] r@[i].style, r@[i + 1].style),
        span_views(r@) == text_spans_of(nodes@, *style),
{
    let mut spans: Vec<TextSpan> = Vec::new();
    assert(span_views(spans@) =~= Seq::<(Seq<char>, SpanStyle)>::empty());
    collect_spans(nodes, style, &mut spans);
    assert(span_views(spans@) =~= inline_spans(nodes@, nodes@.len() as int, *style));
    let r = merge_spans(spans);
    proof {
        lemma_filled_text_empty(r@);
    }
    r
}

/// Whether every span has some text.
pub open spec fn all_filled(v: Seq<TextSpan>) -> bool {
    forall|i: int| 0 <= i < v.len() ==> (#[trigger] v[i]).text@.len() > 0
}

proof fn lemma_filled_text_empty(v: Seq<TextSpan>)
    requires
        all_filled(v),
    ensures
        (spans_text(v).len() == 0) == (v.len() == 0),
    decreases v.len(),
{
    if v.len() > 0 {
        assert(v.last().text@.len() > 0);
    }
}

/// The characters of `v` from `lo` to `hi`, as a string.
fn slice_string(v: &Vec<char>, lo: usize, hi: usize) -> (r: String)
    requires
        lo <= hi <= v@.len(),
    ensures
        r@ == v@.subrange(lo as int, hi as int),
{
    let mut out = String::new();
    let mut i = lo;
    while i < hi
        invariant
            lo <= i <= hi,
            hi <= v@.len(),
            out@ == v@.subrange(lo as int, i as int),
        decreases hi - i,
    {
        push_char(&mut out, v[i]);
        i += 1;
        assert(out@ =~= v@.subrange(lo as int, i as int));
    }
    out
}

/// `s` without whitespace at either end.
pub open spec fn trimmed(s: Seq<char>, lo: int, hi: int) -> bool {
    &&& 0 <= lo <= hi <= s.len()
    &&& forall|i: int| 0 <= i < lo ==> is_space(#[trigger] s[i])
    &&& forall|i: int| hi <= i < s.len() ==> is_space(#[trigger] s[i])
    &&& lo < hi ==> !is_space(s[lo]) && !is_space(s[hi - 1])
}

/// `text` without leading and trailing whitespace.
pub fn trim_text(text: &str) -> (r: String)
    ensures
        exists|lo: int, hi: int| trimmed(text@, lo, hi) && r@ == text@.subrange(lo, hi),
{
    let t = chars_of(text);
    let mut lo: usize = 0;
    while lo < t.len() && is_space_char(t[lo])
        invariant
            lo <= t@.len(),
            forall|i: int| 0 <= i < lo ==> is_space(#[trigger] t@[i]),
        decreases t.len() - lo,
    {
        lo += 1;
    }
    let mut hi: usize = t.len();
    while hi > lo && is_space_char(t[hi - 1])
        invariant
            lo <= hi <= t@.len(),
            forall|i: int| hi <= i < t@.len() ==> is_space(#[trigger] t@[i]),
        decreases hi,
    {
        hi -= 1;
    }
    let r = slice_string(&t, lo, hi);
    assert(trimmed(text@, lo as int, hi as int));
    r
}

/// The value of a decimal numeral as `u32::from_str` reads it: an optional
/// `+`, then one or more digits, with a value that fits.
pub open spec fn digits_value(s: Seq<char>) -> int
    decreases s.len(),
{
    if s.len() == 0 {
        0
    } else {
        digits_value(s.drop_last()) * 10 + (s.last() as int - '0' as int)
    }
}

pub open spec fn all_digits(s: Seq<char>) -> bool {
    forall|i: int| 0 <= i < s.len() ==> '0' <= #[trigger] s[i] && s[i] <= '9'
}

pub open spec fn parsed_u32(s: Seq<char>) -> Option<u32> {
    let d = if s.len() > 0 && s[0] == '+' {
        s.drop_first()
    } else {
        s
    };
    if d.len() > 0 && all_digits(d) && digits_value(d) <= u32::MAX {
        Some(digits_value(d) as u32)
    } else {
        None
    }
}

proof fn lemma_digits_nonneg(s: Seq<char>)
    requires
        all_digits(s),
    ensures
        digits_value(s) >= 0,
        s.len() > 0 ==> digits_value(s) >= digits_value(s.drop_last()),
    decreases s.len(),
{
    if s.len() > 0 {
        assert(all_digits(s.drop_last())) by {
            assert forall|i: int| 0 <= i < s.len() - 1 implies '0' <= #[trigger] s.drop_last()[i]
                && s.drop_last()[i] <= '9' by {
                assert(s.drop_last()[i] == s[i]);
            }
        }
        lemma_digits_nonneg(s.drop_last());
        assert('0' <= s[s.len() - 1]);
    }
}

/// Reads a decimal `u32`.
pub fn parse_u32(text: &str) -> (r: Option<u32>)
    ensures
        r == parsed_u32(text@),
{
    let t = chars_of(text);
    let start: usize = if t.len() > 0 && t[0] == '+' {
        1
    } else {
        0
    };
    let ghost d = if t@.len() > 0 && t@[0] == '+' {
        t@.drop_first()
    } else {
        t@
    };
    assert(d =~= t@.subrange(start as int, t@.len() as int));
    if start >= t.len() {
        return None;
    }
    let mut v: u64 = 0;
    let mut i = start;
    while i < t.len()
        invariant
            t@ == text@,
            d == (if t@.len() > 0 && t@[0] == '+' {
                t@.drop_first()
            } else {
                t@
            }),
            start <= i <= t@.len(),
            d == t@.subrange(start as int, t@.len() as int),
            all_digits(t@.subrange(start as int, i as int)),
            v == digits_value(t@.subrange(start as int, i as int)),
            v <= u32::MAX,
        decreases t.len() - i,
    {
        let c = t[i];
        let ghost pre = t@.subrange(start as int, i as int);
        let ghost cur = t@.subrange(start as int, i + 1);
        assert(cur.drop_last() =~= pre);
        if c < '0' || c > '9' {
            assert(!all_digits(d)) by {
                assert(d[(i - start) as int] == t@[i as int]);
            }
            return None;
        }
        assert(all_digits(cur)) by {
            assert forall|j: int| 0 <= j < cur.len() implies '0' <= #[trigger] cur[j] && cur[j] <= '9' by {
                if j < pre.len() {
                    assert(cur[j] == pre[j]);
                }
            }
        }
        let nv: u64 = v * 10 + (c as u64 - '0' as u64);
        assert(cur =~= d.subrange(0, (i - start + 1) as int));
        assert(nv == digits_value(cur));
        if nv > u32::MAX as u64 {
            proof {
                lemma_prefix_value_bound(d, (i - start + 1) as int);
            }
            return None;
        }
        v = nv;
        i += 1;
    }
    assert(t@.subrange(start as int, t@.len() as int) =~= d);
    Some(v as u32)
}

/// The value of a digit string is at least that of each of its prefixes.
proof fn lemma_prefix_value_bound(d: Seq<char>, k: int)
    requires
        0 <= k <= d.len(),
        all_digits(d.subrange(0, k)),
        digits_value(d.subrange(0, k)) > u32::MAX,
    ensures
        !(all_digits(d) && digits_value(d) <= u32::MAX),
    decreases d.len() - k,
{
    if all_digits(d) && k < d.len() {
        let a = d.subrange(0, k + 1);
        assert(a.drop_last() =~= d.subrange(0, k));
        assert(all_digits(a)) by {
            assert forall|j: int| 0 <= j < a.len() implies '0' <= #[trigger] a[j] && a[j] <= '9' by {
                assert(a[j] == d[j]);
            }
        }
        lemma_digits_nonneg(a);
        lemma_prefix_value_bound(d, k + 1);
    } else if k == d.len() {
        assert(d.subrange(0, k) =~= d);
    }
}

/// The text of every text node under the first `n` nodes, as it stands.
pub open spec fn raw_text(nodes: Seq<HtmlNode>, n: int) -> Seq<char>
    decreases nodes, n,
{
    if n <= 0 || n > nodes.len() {
        seq![]
    } else {
        raw_text(nodes, n - 1) + node_raw(nodes[n - 1])
    }
}

pub open spec fn node_raw(node: HtmlNode) -> Seq<char>
    decreases node, 0int,
{
    match node {
        HtmlNode::Text { text } => text@,
        HtmlNode::Element { children, .. } => raw_text(children@, children@.len() as int),
        HtmlNode::Other => seq![],
    }
}

/// Appends the text of every text node under `nodes`, as it stands.
fn append_raw_text(nodes: &Vec<HtmlNode>, out: &mut String)
    ensures
        final(out)@ == old(out)@ + raw_text(nodes@, nodes@.len() as int),
    decreases nodes, 1int,
{
    let mut i: usize = 0;
    while i < nodes.len()
        invariant
            i <= nodes@.len(),
            out@ == old(out)@ + raw_text(nodes@, i as int),
        decreases nodes.len() - i,
    {
        assert(decreases_to!(nodes => nodes[i as int]));
        let ghost before = out@;
        match &nodes[i] {
            HtmlNode::Text { text } => out.append(text.as_str()),
            HtmlNode::Element { children, .. } => {
                proof {
                    assert(decreases_to!(nodes[i as int] => *children));
                }
                append_raw_text(children, out);
            },
            HtmlNode::Other => {},
        }
        assert(raw_text(nodes@, i + 1) == raw_text(nodes@, i as int) + node_raw(nodes@[i as int]));
        assert(out@ =~= old(out)@ + raw_text(nodes@, i + 1));
        i += 1;
    }
}

/// The first element tagged `tag` among the first `n` nodes and their
/// descendants, depth first.
pub open spec fn first_tagged(nodes: Seq<HtmlNode>, n: int, tag: Seq<char>) -> Option<HtmlNode>
    decreases nodes, n,
{
    if n <= 0 || n > nodes.len() {
        None
    } else {
        match first_tagged(nodes, n - 1, tag) {
            Some(x) => Some(x),
            None => node_first_tagged(nodes[n - 1], tag),
        }
    }
}

pub open spec fn node_first_tagged(node: HtmlNode, tag: Seq<char>) -> Option<HtmlNode>
    decreases node, 0int,
{
    match node {
        HtmlNode::Element { tag: t, children, .. } => if eq_ci(t@, tag) {
            Some(node)
        } else {
            first_tagged(children@, children@.len() as int, tag)
        },
        _ => None,
    }
}

/// The first element tagged `tag` under `nodes`, depth first.
fn find_tag<'a>(nodes: &'a Vec<HtmlNode>, tag: &str) -> (r: Option<&'a HtmlNode>)
    ensures
        match r {
            Some(n) => first_tagged(nodes@, nodes@.len() as int, tag@) == Some(*n),
            None => first_tagged(nodes@, nodes@.len() as int, tag@) is None,
        },
    decreases nodes, 1int,
{
    let mut i: usize = 0;
    while i < nodes.len()
        invariant
            i <= nodes@.len(),
            first_tagged(nodes@, i as int, tag@) is None,
        decreases nodes.len() - i,
    {
        assert(decreases_to!(nodes => nodes[i as int]));
        proof {
            lemma_first_tagged_prefix(nodes@, i as int, nodes@.len() as int, tag@);
        }
        match &nodes[i] {
            HtmlNode::Element { tag: t, children, .. } => {
                proof {
                    assert(first_tagged(nodes@, i + 1, tag@) == node_first_tagged(nodes@[i as int], tag@));
                }
                if tag_is(t, tag) {
                    proof {
                        assert(first_tagged(nodes@, i + 1, tag@) == Some(nodes@[i as int]));
                        lemma_first_tagged_prefix(nodes@, i + 1, nodes@.len() as int, tag@);
                    }
                    return Some(&nodes[i]);
                }
                proof {
                    assert(decreases_to!(nodes[i as int] => *children));
                }
                match find_tag(children, tag) {
                    Some(n) => {
                        proof {
                            assert(first_tagged(nodes@, i + 1, tag@) == Some(*n));
                            lemma_first_tagged_prefix(nodes@, i + 1, nodes@.len() as int, tag@);
                        }
                        return Some(n);
                    },
                    None => {},
                }
            },
            _ => {},
        }
        i += 1;
    }
    None
}

/// Once found among the first `m` nodes, the first tagged element stays the
/// same among more of them.
proof fn lemma_first_tagged_prefix(nodes: Seq<HtmlNode>, m: int, n: int, tag: Seq<char>)
    requires
        0 <= m <= n <= nodes.len(),
    ensures
        first_tagged(nodes, m, tag) is Some ==> first_tagged(nodes, n, tag) == first_tagged(nodes, m, tag),
    decreases n - m,
{
    if m < n {
        lemma_first_tagged_prefix(nodes, m, n - 1, tag);
    }
}

fn starts_with_at(v: &Vec<char>, lo: usize, hi: usize, p: &Vec<char>) -> (r: bool)
    requires
        lo <= hi <= v@.len(),
    ensures
        r == (p@.len() <= hi - lo && v@.subrange(lo as int, lo + p@.len()) == p@),
{
    if p.len() > hi - lo {
        return false;
    }
    let mut k: usize = 0;
    while k < p.len()
        invariant
            lo <= hi <= v@.len(),
            p@.len() <= hi - lo,
            k <= p@.len(),
            forall|j: int| 0 <= j < k ==> v@[lo + j] == p@[j],
        decreases p.len() - k,
    {
        if v[lo + k] != p[k] {
            assert(v@.subrange(lo as int, lo + p@.len())[k as int] != p@[k as int]);
            return false;
        }
        k += 1;
    }
    assert(v@.subrange(lo as int, lo + p@.len()) =~= p@);
    true
}

/// The position of the first character at or after `i` that is not
/// whitespace.
pub open spec fn skip_spaces(v: Seq<char>, i: int) -> int
    decreases v.len() - i,
{
    if 0 <= i < v.len() && is_space(v[i]) {
        skip_spaces(v, i + 1)
    } else {
        i
    }
}

/// The end of the run of non-whitespace characters from `i`.
pub open spec fn token_end(v: Seq<char>, i: int) -> int
    decreases v.len() - i,
{
    if 0 <= i < v.len() && !is_space(v[i]) {
        token_end(v, i + 1)
    } else {
        i
    }
}

/// Whether `v[lo..hi]` starts with `language-`.
pub open spec fn has_language_prefix(v: Seq<char>, lo: int, hi: int) -> bool {
    0 <= lo && 9 <= hi - lo && hi <= v.len() && v.subrange(lo, lo + 9) == "language-"@
}

/// Where `v[lo..hi]` starts once every leading `language-` is taken off.
pub open spec fn strip_language(v: Seq<char>, lo: int, hi: int) -> int
    decreases hi - lo,
{
    if lo < hi && has_language_prefix(v, lo, hi) {
        strip_language(v, lo + 9, hi)
    } else {
        lo
    }
}

/// The language of a `class` attribute from position `i` on: the first
/// whitespace-separated class that starts with `language-`, with that prefix
/// taken off as often as it repeats.
pub open spec fn language_from(v: Seq<char>, i: int) -> Option<Seq<char>>
    decreases v.len() - i,
{
    if i < 0 || i >= v.len() {
        None
    } else {
        let st = skip_spaces(v, i);
        let e = token_end(v, st);
        if st < e && has_language_prefix(v, st, e) {
            Some(v.subrange(strip_language(v, st, e), e))
        } else if i < e <= v.len() {
            language_from(v, e)
        } else {
            None
        }
    }
}

proof fn lemma_scan_bounds(v: Seq<char>, i: int)
    requires
        0 <= i <= v.len(),
    ensures
        i <= skip_spaces(v, i) <= v.len(),
        skip_spaces(v, i) <= token_end(v, skip_spaces(v, i)) <= v.len(),
    decreases v.len() - i,
{
    if i < v.len() && is_space(v[i]) {
        lemma_scan_bounds(v, i + 1);
    } else {
        lemma_token_bounds(v, i);
    }
}

proof fn lemma_token_bounds(v: Seq<char>, i: int)
    requires
        0 <= i <= v.len(),
    ensures
        i <= token_end(v, i) <= v.len(),
    decreases v.len() - i,
{
    if i < v.len() && !is_space(v[i]) {
        lemma_token_bounds(v, i + 1);
    }
}

proof fn lemma_strip_bounds(v: Seq<char>, lo: int, hi: int)
    requires
        0 <= lo <= hi <= v.len(),
    ensures
        lo <= strip_language(v, lo, hi) <= hi,
    decreases hi - lo,
{
    if lo < hi && has_language_prefix(v, lo, hi) {
        lemma_strip_bounds(v, lo + 9, hi);
    }
}

/// The language of a `class` attribute: the first whitespace-separated class
/// that starts with `language-`, with that prefix taken off as often as it
/// repeats.
fn language_of(class: &str) -> (r: Option<String>)
    ensures
        match r {
            Some(l) => language_from(class@, 0) == Some(l@),
            None => language_from(class@, 0) is None,
        },
{
    let v = chars_of(class);
    let prefix = chars_of("language-");
    proof {
        reveal_strlit("language-");
    }
    let n = v.len();
    let mut i: usize = 0;
    while i < n
        invariant
            n == v@.len(),
            v@ == class@,
            prefix@ == "language-"@,
            i <= n,
            language_from(v@, 0) == language_from(v@, i as int),
        decreases n - i,
    {
        let i0 = i;
        proof {
            lemma_scan_bounds(v@, i as int);
        }
        while i < n && is_space_char(v[i])
            invariant
                n == v@.len(),
                i0 <= i <= n,
                skip_spaces(v@, i0 as int) == skip_spaces(v@, i as int),
            decreases n - i,
        {
            i += 1;
        }
        let start = i;
        assert(start == skip_spaces(v@, i0 as int));
        while i < n && !is_space_char(v[i])
            invariant
                n == v@.len(),
                i0 <= start <= i <= n,
                token_end(v@, start as int) == token_end(v@, i as int),
            decreases n - i,
        {
            i += 1;
        }
        assert(i == token_end(v@, start as int));
        proof {
            reveal_strlit("language-");
            assert(prefix@.len() == 9);
        }
        if start < i && starts_with_at(&v, start, i, &prefix) {
            let mut lo = start;
            proof {
                lemma_strip_bounds(v@, start as int, i as int);
            }
            while lo < i && starts_with_at(&v, lo, i, &prefix)
                invariant
                    n == v@.len(),
                    prefix@ == "language-"@,
                    start <= lo <= i <= n,
                    strip_language(v@, start as int, i as int) == strip_language(v@, lo as int, i as int),
                decreases i - lo,
            {
                proof {
                    reveal_strlit("language-");
                    assert(prefix@.len() == 9);
                    assert(has_language_prefix(v@, lo as int, i as int));
                }
                lo = lo + 9;
            }
            let r = slice_string(&v, lo, i);
            return Some(r);
        }
        if i == i0 {
            return None;
        }
    }
    None
}

/// The spans of a cell, as their texts and styles.
pub type CellView = Seq<(Seq<char>, SpanStyle)>;

pub open spec fn cells_view(v: Seq<Vec<TextSpan>>) -> Seq<CellView> {
    Seq::new(v.len(), |i: int| span_views(v[i]@))
}

pub open spec fn rows_view(v: Seq<Vec<Vec<TextSpan>>>) -> Seq<Seq<CellView>> {
    Seq::new(v.len(), |i: int| cells_view(v[i]@))
}

/// The cells under the first `n` nodes, depth first: `th` cells only for a
/// header row, `td` and `th` cells for a body row.
pub open spec fn table_cells(nodes: Seq<HtmlNode>, n: int, header: bool, st: SpanStyle) -> Seq<CellView>
    decreases nodes, n,
{
    if n <= 0 || n > nodes.len() {
        seq![]
    } else {
        table_cells(nodes, n - 1, header, st) + node_cells(nodes[n - 1], header, st)
    }
}

pub open spec fn node_cells(node: HtmlNode, header: bool, st: SpanStyle) -> Seq<CellView>
    decreases node, 0int,
{
    match node {
        HtmlNode::Element { tag, children, .. } => (if eq_ci(tag@, "th"@) || (!header && eq_ci(
            tag@,
            "td"@,
        )) {
            seq![text_spans_of(children@, st)]
        } else {
            seq![]
        }) + table_cells(children@, children@.len() as int, header, st),
        _ => seq![],
    }
}

/// The rows under the first `n` nodes, depth first, as (header rows, body
/// rows): a `tr` inside a `thead` is a header row, any other a body row, and
/// a row without cells is left out.
pub open spec fn table_rows(nodes: Seq<HtmlNode>, n: int, in_thead: bool, st: SpanStyle) -> (Seq<Seq<CellView>>, Seq<Seq<CellView>>)
    decreases nodes, n,
{
    if n <= 0 || n > nodes.len() {
        (seq![], seq![])
    } else {
        let (h, b) = table_rows(nodes, n - 1, in_thead, st);
        let (h2, b2) = node_rows(nodes[n - 1], in_thead, st);
        (h + h2, b + b2)
    }
}

pub open spec fn node_rows(node: HtmlNode, in_thead: bool, st: SpanStyle) -> (Seq<Seq<CellView>>, Seq<Seq<CellView>>)
    decreases node, 0int,
{
    match node {
        HtmlNode::Element { tag, children, .. } => {
            let c = table_cells(children@, children@.len() as int, in_thead, st);
            let (h1, b1): (Seq<Seq<CellView>>, Seq<Seq<CellView>>) = if eq_ci(tag@, "tr"@) && c.len() > 0 {
                if in_thead {
                    (seq![c], seq![])
                } else {
                    (seq![], seq![c])
                }
            } else {
                (seq![], seq![])
            };
            let (h3, b3) = table_rows(
                children@,
                children@.len() as int,
                in_thead || eq_ci(tag@, "thead"@),
                st,
            );
            (h1 + h3, b1 + b3)
        },
        _ => (seq![], seq![]),
    }
}

/// Appends the cells under `nodes` to `row`: `th` cells only for a header
/// row, `td` and `th` cells for a body row.
fn collect_cells(nodes: &Vec<HtmlNode>, header: bool, style: &SpanStyle, row: &mut Vec<Vec<TextSpan>>)
    ensures
        cells_view(final(row)@) == cells_view(old(row)@) + table_cells(nodes@, nodes@.len() as int, header, *style),
    decreases nodes, 1int,
{
    let mut i: usize = 0;
    while i < nodes.len()
        invariant
            i <= nodes@.len(),
            cells_view(row@) == cells_view(old(row)@) + table_cells(nodes@, i as int, header, *style),
        decreases nodes.len() - i,
    {
        assert(decreases_to!(nodes => nodes[i as int]));
        let ghost before = cells_view(row@);
        match &nodes[i] {
            HtmlNode::Element { tag, children, .. } => {
                proof {
                    assert(decreases_to!(nodes[i as int] => *children));
                    reveal_strlit("th");
                    reveal_strlit("td");
                }
                let ghost pre = row@;
                if tag_is(tag, "th") || (!header && tag_is(tag, "td")) {
                    let cell = collect_text_spans(children, style);
                    row.push(cell);
                    assert(cells_view(row@) =~= cells_view(pre).push(span_views(cell@)));
                }
                collect_cells(children, header, style, row);
                assert(cells_view(row@) =~= before + node_cells(nodes@[i as int], header, *style));
            },
            _ => {
                assert(cells_view(row@) =~= before + node_cells(nodes@[i as int], header, *style));
            },
        }
        assert(table_cells(nodes@, i + 1, header, *style) == table_cells(nodes@, i as int, header, *style)
            + node_cells(nodes@[i as int], header, *style));
        assert(cells_view(row@) =~= cells_view(old(row)@) + table_cells(nodes@, i + 1, header, *style));
        i += 1;
    }
}

/// Appends the rows under `nodes`: those inside a `thead` to `headers`, the
/// others to `rows`; rows without cells are left out.
fn collect_rows(
    nodes: &Vec<HtmlNode>,
    in_thead: bool,
    style: &SpanStyle,
    headers: &mut Vec<Vec<Vec<TextSpan>>>,
    rows: &mut Vec<Vec<Vec<TextSpan>>>,
)
    ensures
        rows_view(final(headers)@) == rows_view(old(headers)@) + table_rows(nodes@, nodes@.len() as int, in_thead, *style).0,
        rows_view(final(rows)@) == rows_view(old(rows)@) + table_rows(nodes@, nodes@.len() as int, in_thead, *style).1,
    decreases nodes, 1int,
{
    let mut i: usize = 0;
    while i < nodes.len()
        invariant
            i <= nodes@.len(),
            rows_view(headers@) == rows_view(old(headers)@) + table_rows(nodes@, i as int, in_thead, *style).0,
            rows_view(rows@) == rows_view(old(rows)@) + table_rows(nodes@, i as int, in_thead, *style).1,
        decreases nodes.len() - i,
    {
        assert(decreases_to!(nodes => nodes[i as int]));
        let ghost hb = rows_view(headers@);
        let ghost rb = rows_view(rows@);
        match &nodes[i] {
            HtmlNode::Element { tag, children, .. } => {
                proof {
                    assert(decreases_to!(nodes[i as int] => *children));
                    reveal_strlit("tr");
                    reveal_strlit("thead");
                }
                let ghost h0 = headers@;
                let ghost r0 = rows@;
                if tag_is(tag, "tr") {
                    let mut row: Vec<Vec<TextSpan>> = Vec::new();
                    assert(cells_view(row@) =~= Seq::<CellView>::empty());
                    collect_cells(children, in_thead, style, &mut row);
                    assert(cells_view(row@) =~= table_cells(children@, children@.len() as int, in_thead, *style));
                    if row.len() > 0 {
                        if in_thead {
                            headers.push(row);
                            assert(rows_view(headers@) =~= rows_view(h0).push(cells_view(row@)));
                        } else {
                            rows.push(row);
                            assert(rows_view(rows@) =~= rows_view(r0).push(cells_view(row@)));
                        }
                    }
                }
                let inner = in_thead || tag_is(tag, "thead");
                collect_rows(children, inner, style, headers, rows);
                let ghost nr = node_rows(nodes@[i as int], in_thead, *style);
                assert(rows_view(headers@) =~= hb + nr.0);
                assert(rows_view(rows@) =~= rb + nr.1);
            },
            _ => {},
        }
        assert(table_rows(nodes@, i + 1, in_thead, *style).0 =~= table_rows(nodes@, i as int, in_thead, *style).0
            + node_rows(nodes@[i as int], in_thead, *style).0);
        assert(table_rows(nodes@, i + 1, in_thead, *style).1 =~= table_rows(nodes@, i as int, in_thead, *style).1
            + node_rows(nodes@[i as int], in_thead, *style).1);
        assert(rows_view(headers@) =~= rows_view(old(headers)@) + table_rows(nodes@, i + 1, in_thead, *style).0);
        assert(rows_view(rows@) =~= rows_view(old(rows)@) + table_rows(nodes@, i + 1, in_thead, *style).1);
        i += 1;
    }
}



/// Whether the spans read a text block's content right: their text is the
/// inline text `it`, none is empty, and no two neighbours share a style.
pub open spec fn spans_read(spans: Seq<TextSpan>, it: Seq<char>, children: Seq<HtmlNode>, style: SpanStyle) -> bool {
    &&& span_views(spans) == text_spans_of(children, style)
    &&& spans_text(spans) == it
    &&& all_filled(spans)
    &&& forall|i: int| 0 <= i < spans.len() - 1 ==> !same_style(#[trigger] spans[i].style, spans[i + 1].style)
}

/// The number of `li` elements among the first `n` nodes.
pub open spec fn li_count(nodes: Seq<HtmlNode>, n: int) -> int
    decreases n,
{
    if n <= 0 || n > nodes.len() {
        0
    } else {
        li_count(nodes, n - 1) + match nodes[n - 1] {
            HtmlNode::Element { tag, .. } => if eq_ci(tag@, "li"@) {
                1int
            } else {
                0int
            },
            _ => 0int,
        }
    }
}

/// Whether `item` is what a list item with children `lc` gives: its blocks
/// where it has some, else one paragraph of its inline text.
pub open spec fn li_item(lc: Seq<HtmlNode>, style: SpanStyle, item: Seq<LayoutElement>) -> bool
    decreases lc, 1int, 1int,
{
    (item.len() > 0 && blocks_of(lc, style, item)) || (blocks_of(lc, style, seq![]) && item.len() == 1
        && (item[0] matches LayoutElement::Paragraph { spans, indent } && !indent && spans_read(
        spans@,
        inline_text(lc, lc.len() as int),
        lc,
        style,
    ) && spans@.len() > 0))
}

/// Whether a list item with children `lc` gives nothing: no blocks and no
/// inline text.
pub open spec fn li_empty(lc: Seq<HtmlNode>, style: SpanStyle) -> bool
    decreases lc, 1int, 1int,
{
    blocks_of(lc, style, seq![]) && inline_text(lc, lc.len() as int).len() == 0
}

/// Whether `items` are the items of the first `n` nodes of a list: one for
/// each `li` element that gives something, in order.
pub open spec fn list_items_rel(nodes: Seq<HtmlNode>, n: int, style: SpanStyle, items: Seq<Vec<LayoutElement>>) -> bool
    decreases nodes, 1int, n,
{
    if n <= 0 || n > nodes.len() {
        items.len() == 0
    } else {
        match nodes[n - 1] {
            HtmlNode::Element { tag, children, .. } => if eq_ci(tag@, "li"@) {
                (items.len() > 0 && li_item(children@, style, items.last()@) && list_items_rel(
                    nodes,
                    n - 1,
                    style,
                    items.drop_last(),
                )) || (li_empty(children@, style) && list_items_rel(nodes, n - 1, style, items))
            } else {
                list_items_rel(nodes, n - 1, style, items)
            },
            _ => list_items_rel(nodes, n - 1, style, items),
        }
    }
}

/// Whether `content` is what the parser makes of one of the elements among
/// `children` other than a `figcaption`.
pub open spec fn figure_content(children: Seq<HtmlNode>, style: SpanStyle, content: LayoutElement) -> bool
    decreases children, 1int, 0int,
{
    exists|j: int|
        0 <= j < children.len() && (#[trigger] children[j] matches HtmlNode::Element { tag, attrs, children: inner }
            && !eq_ci(tag@, "figcaption"@) && element_block(tag@, attrs@, inner@, style, Some(content)))
}

/// Whether `caption` are the spans of a `figcaption` among `children`.
pub open spec fn figure_caption(children: Seq<HtmlNode>, style: SpanStyle, caption: Seq<TextSpan>) -> bool {
    exists|j: int|
        0 <= j < children.len() && (#[trigger] children[j] matches HtmlNode::Element { tag, children: inner, .. }
            && eq_ci(tag@, "figcaption"@) && span_views(caption) == text_spans_of(inner@, style))
}

pub open spec fn language_view(l: Option<String>) -> Option<Seq<char>> {
    match l {
        Some(s) => Some(s@),
        None => None,
    }
}

/// What the parser makes of an element with this tag, these attributes and
/// these children.
pub open spec fn element_block(
    tag: Seq<char>,
    attrs: Seq<(String, String)>,
    children: Seq<HtmlNode>,
    style: SpanStyle,
    r: Option<LayoutElement>,
) -> bool
    decreases children, 2int, 0int,
{
    let it = inline_text(children, children.len() as int);
    match tag_class(tag) {
        TagClass::Para => (r is Some <==> it.len() > 0) && (r matches Some(e) ==> e matches LayoutElement::Paragraph {
            spans,
            indent,
        } && indent && spans_read(spans@, it, children, style)),
        TagClass::Inline => (r is Some <==> it.len() > 0) && (r matches Some(e) ==> e matches LayoutElement::Paragraph {
            spans,
            indent,
        } && !indent && spans_read(spans@, it, children, style)),
        TagClass::Heading(n) => (r is Some <==> it.len() > 0) && (r matches Some(e) ==> e matches LayoutElement::Heading {
            level,
            spans,
        } && level == n && spans_read(spans@, it, children, style)),
        TagClass::Rule => r == Some(LayoutElement::HorizontalRule),
        TagClass::Skip => r is None,
        TagClass::Image => r matches Some(e) && e matches LayoutElement::Image { src, alt, data, width, height }
            && src@ == attr_text(attrs, "src"@) && alt@ == attr_text(attrs, "alt"@) && data is None
            && width == attr_number(attrs, "width"@) && height == attr_number(attrs, "height"@),
        TagClass::Code => r matches Some(e) && e matches LayoutElement::CodeBlock { code, language }
            && language_view(language) == match first_tagged(children, children.len() as int, "code"@) {
            Some(HtmlNode::Element { attrs: ca, .. }) => match attr_value(ca@, "class"@) {
                Some(c) => language_from(c@, 0),
                None => None,
            },
            _ => None,
        } && code@
            == match first_tagged(children, children.len() as int, "code"@) {
            Some(HtmlNode::Element { children: inner, .. }) => raw_text(inner@, inner@.len() as int),
            _ => raw_text(children, children.len() as int),
        },
        TagClass::List(o) => (r is None ==> list_items_rel(children, children.len() as int, style, seq![]))
            && (r matches Some(e) ==> e matches LayoutElement::List { ordered, start, items }
            && list_items_rel(children, children.len() as int, style, items@)
            && ordered == o && start == (if o {
            match attr_number(attrs, "start"@) {
                Some(k) => k,
                None => 1u32,
            }
        } else {
            1u32
        }) && 0 < items@.len() <= li_count(children, children.len() as int) && forall|k: int|
            0 <= k < items@.len() ==> (#[trigger] items@[k])@.len() > 0),
        TagClass::Quote => (r matches Some(e) ==> e matches LayoutElement::BlockQuote { elements }
            && elements@.len() > 0 && blocks_of(children, style, elements@)) && (r is None ==> blocks_of(
            children,
            style,
            seq![],
        )),
        TagClass::Table => {
            let (h, b) = table_rows(children, children.len() as int, false, style);
            (r is Some <==> h.len() + b.len() > 0) && (r matches Some(e) ==> e matches LayoutElement::Table {
                headers,
                rows,
            } && rows_view(headers@) == h && rows_view(rows@) == b)
        },
        TagClass::Figure => r matches Some(e) ==> e matches LayoutElement::Figure { content, caption }
            && figure_content(children, style, *content) && (caption matches Some(c) ==> figure_caption(
            children,
            style,
            c@,
        )),
        TagClass::Container => (r is None ==> blocks_of(children, style, seq![])) && (r matches Some(e)
            ==> blocks_of(children, style, seq![e]) || (e matches LayoutElement::BlockQuote { elements }
            && elements@.len() > 1 && blocks_of(children, style, elements@))),
    }
}

/// What the parser makes of a node.
pub open spec fn node_block(node: HtmlNode, style: SpanStyle, r: Option<LayoutElement>) -> bool
    decreases node, 3int, 0int,
{
    match node {
        HtmlNode::Other => r is None,
        HtmlNode::Text { text } => (r is Some <==> !all_space(text@)) && (r matches Some(e) ==> e matches LayoutElement::Paragraph {
            spans,
            indent,
        } && !indent && spans@.len() == 1 && spans@[0].style == style && exists|lo: int, hi: int|
            trimmed(text@, lo, hi) && spans@[0].text@ == text@.subrange(lo, hi)),
        HtmlNode::Element { tag, attrs, children } => element_block(tag@, attrs@, children@, style, r),
    }
}

/// Whether `opts` holds, node by node, what the parser makes of `nodes`.
pub open spec fn blocks_fit(nodes: Seq<HtmlNode>, style: SpanStyle, opts: Seq<Option<LayoutElement>>) -> bool
    decreases nodes, 0int, 0int,
{
    opts.len() == nodes.len() && forall|i: int| 0 <= i < nodes.len() ==> node_block(#[trigger] nodes[i], style, opts[i])
}

/// The blocks among the first `n` results that are present and not empty.
pub open spec fn kept(opts: Seq<Option<LayoutElement>>, n: int) -> Seq<LayoutElement>
    decreases n,
{
    if n <= 0 || n > opts.len() {
        seq![]
    } else {
        kept(opts, n - 1) + match opts[n - 1] {
            Some(e) => if element_is_empty(e) {
                Seq::<LayoutElement>::empty()
            } else {
                seq![e]
            },
            None => Seq::<LayoutElement>::empty(),
        }
    }
}

/// Whether `out` are the blocks of `nodes`: what the parser makes of each
/// node, in order, the absent and the empty left out.
pub open spec fn blocks_of(nodes: Seq<HtmlNode>, style: SpanStyle, out: Seq<LayoutElement>) -> bool
    decreases nodes, 1int, 0int,
{
    exists|opts: Seq<Option<LayoutElement>>| blocks_fit(nodes, style, opts) && out == #[trigger] kept(opts, opts.len() as int)
}

/// The blocks of `nodes`, those with no text left out.
pub fn parse_children(nodes: &Vec<HtmlNode>, style: &SpanStyle) -> (r: Vec<LayoutElement>)
    ensures
        forall|i: int| 0 <= i < r@.len() ==> !element_is_empty(#[trigger] r@[i]),
        blocks_of(nodes@, *style, r@),
    decreases nodes, 2int,
{
    let mut out: Vec<LayoutElement> = Vec::new();
    let ghost mut opts: Seq<Option<LayoutElement>> = seq![];
    let mut i: usize = 0;
    while i < nodes.len()
        invariant
            i <= nodes@.len(),
            forall|j: int| 0 <= j < out@.len() ==> !element_is_empty(#[trigger] out@[j]),
            opts.len() == i,
            forall|j: int| 0 <= j < i ==> node_block(#[trigger] nodes@[j], *style, opts[j]),
            out@ == kept(opts, i as int),
        decreases nodes.len() - i,
    {
        assert(decreases_to!(nodes => nodes[i as int]));
        let res = parse_node(&nodes[i], style);
        let ghost g = res;
        let ghost old_opts = opts;
        proof {
            opts = opts.push(g);
            assert(opts.drop_last() =~= old_opts);
        }
        let ghost before = out@;
        match res {
            Some(e) => {
                if !e.is_empty() {
                    out.push(e);
                }
            },
            None => {},
        }
        proof {
            lemma_kept_prefix(opts, i as int);
            assert(kept(opts, i as int) == before);
            assert(opts[i as int] == g);
            assert(kept(opts, i + 1) == kept(opts, i as int) + match opts[i as int] {
                Some(e) => if element_is_empty(e) {
                    Seq::<LayoutElement>::empty()
                } else {
                    seq![e]
                },
                None => Seq::<LayoutElement>::empty(),
            });
            assert(out@ =~= kept(opts, i + 1));
        }
        i += 1;
    }
    proof {
        assert(blocks_fit(nodes@, *style, opts));
        assert(out@ == kept(opts, opts.len() as int));
        reveal_with_fuel(blocks_of, 2);
        assert(blocks_fit(nodes@, *style, opts) && out@ == kept(opts, opts.len() as int));
        assert(blocks_of(nodes@, *style, out@));
    }
    out
}

proof fn lemma_kept_prefix(opts: Seq<Option<LayoutElement>>, n: int)
    requires
        0 <= n < opts.len(),
    ensures
        kept(opts, n) == kept(opts.drop_last(), n),
    decreases n,
{
    if n > 0 {
        lemma_kept_prefix(opts, n - 1);
    }
}

/// The items of a list: one per `li` child, each its blocks, or else one
/// paragraph of its text; items with neither are left out.
fn parse_list_items(nodes: &Vec<HtmlNode>, style: &SpanStyle) -> (r: Vec<Vec<LayoutElement>>)
    ensures
        r@.len() <= li_count(nodes@, nodes@.len() as int),
        forall|k: int| 0 <= k < r@.len() ==> (#[trigger] r@[k])@.len() > 0,
        list_items_rel(nodes@, nodes@.len() as int, *style, r@),
    decreases nodes, 2int,
{
    let mut items: Vec<Vec<LayoutElement>> = Vec::new();
    let mut i: usize = 0;
    while i < nodes.len()
        invariant
            i <= nodes@.len(),
            items@.len() <= li_count(nodes@, i as int),
            list_items_rel(nodes@, i as int, *style, items@),
            forall|k: int| 0 <= k < items@.len() ==> (#[trigger] items@[k])@.len() > 0,
        decreases nodes.len() - i,
    {
        proof {
            reveal_strlit("li");
        }
        assert(decreases_to!(nodes => nodes[i as int]));
        match &nodes[i] {
            HtmlNode::Element { tag, children, .. } => {
                if tag_is(tag, "li") {
                    proof {
                        assert(decreases_to!(nodes[i as int] => *children));
                    }
                    let ghost old_items = items@;
                    let blocks = parse_children(children, style);
                    if blocks.len() > 0 {
                        items.push(blocks);
                        proof {
                            assert(items@.drop_last() =~= old_items);
                            assert(li_item(children@, *style, items@.last()@));
                        }
                    } else {
                        assert(blocks@ =~= Seq::<LayoutElement>::empty());
                        let spans = collect_text_spans(children, style);
                        if spans.len() > 0 {
                            let mut one: Vec<LayoutElement> = Vec::new();
                            one.push(LayoutElement::Paragraph { spans, indent: false });
                            items.push(one);
                            proof {
                                assert(items@.drop_last() =~= old_items);
                                assert(li_item(children@, *style, items@.last()@));
                            }
                        } else {
                            assert(li_empty(children@, *style));
                        }
                    }
                    assert(list_items_rel(nodes@, i + 1, *style, items@));
                } else {
                    assert(list_items_rel(nodes@, i + 1, *style, items@));
                }
            },
            _ => {
                assert(list_items_rel(nodes@, i + 1, *style, items@));
            },
        }
        i += 1;
    }
    items
}

/// A node read as a block, if it makes one.
pub fn parse_node(node: &HtmlNode, style: &SpanStyle) -> (r: Option<LayoutElement>)
    ensures
        node_block(*node, *style, r),
    decreases node, 1int,
{
    match node {
        HtmlNode::Element { tag, attrs, children } => {
            proof {
                assert(decreases_to!(node => *children));
            }
            parse_element(tag, attrs, children, style)
        },
        HtmlNode::Text { text } => {
            if is_blank(text.as_str()) {
                None
            } else {
                let t = trim_text(text.as_str());
                let mut spans: Vec<TextSpan> = Vec::new();
                spans.push(TextSpan { text: t, style: copy_style(style) });
                Some(LayoutElement::Paragraph { spans, indent: false })
            }
        },
        HtmlNode::Other => None,
    }
}

/// How the parser reads an element, by its tag: the first group below that
/// holds the tag (in any case) decides.
#[derive(Debug, Clone, Copy, PartialEq, Eq, Structural)]
pub enum TagClass {
    /// `p`, `div`: an indented paragraph.
    Para,
    /// `h1` to `h6`.
    Heading(u8),
    /// `blockquote`.
    Quote,
    /// `ul` (false) or `ol` (true).
    List(bool),
    /// `img`.
    Image,
    /// `figure`.
    Figure,
    /// `hr`.
    Rule,
    /// `pre`.
    Code,
    /// `table`.
    Table,
    /// `section`, `article`, `aside`, `header`, `footer`, `nav`, `main`.
    Container,
    /// `br`, `script`, `style`, `meta`, `link`, `head`, `title`: nothing.
    Skip,
    /// Any other tag: a paragraph of its text, not indented.
    Inline,
}

pub open spec fn tag_class(t: Seq<char>) -> TagClass {
    if eq_ci(t, "p"@) || eq_ci(t, "div"@) {
        TagClass::Para
    } else if eq_ci(t, "h1"@) {
        TagClass::Heading(1)
    } else if eq_ci(t, "h2"@) {
        TagClass::Heading(2)
    } else if eq_ci(t, "h3"@) {
        TagClass::Heading(3)
    } else if eq_ci(t, "h4"@) {
        TagClass::Heading(4)
    } else if eq_ci(t, "h5"@) {
        TagClass::Heading(5)
    } else if eq_ci(t, "h6"@) {
        TagClass::Heading(6)
    } else if eq_ci(t, "blockquote"@) {
        TagClass::Quote
    } else if eq_ci(t, "ul"@) {
        TagClass::List(false)
    } else if eq_ci(t, "ol"@) {
        TagClass::List(true)
    } else if eq_ci(t, "img"@) {
        TagClass::Image
    } else if eq_ci(t, "figure"@) {
        TagClass::Figure
    } else if eq_ci(t, "hr"@) {
        TagClass::Rule
    } else if eq_ci(t, "pre"@) {
        TagClass::Code
    } else if eq_ci(t, "table"@) {
        TagClass::Table
    } else if eq_ci(t, "section"@) || eq_ci(t, "article"@) || eq_ci(t, "aside"@) || eq_ci(
        t,
        "header"@,
    ) || eq_ci(t, "footer"@) || eq_ci(t, "nav"@) || eq_ci(t, "main"@) {
        TagClass::Container
    } else if eq_ci(t, "br"@) || eq_ci(t, "script"@) || eq_ci(t, "style"@) || eq_ci(t, "meta"@)
        || eq_ci(t, "link"@) || eq_ci(t, "head"@) || eq_ci(t, "title"@) {
        TagClass::Skip
    } else {
        TagClass::Inline
    }
}

pub fn classify(tag: &String) -> (r: TagClass)
    ensures
        r == tag_class(tag@),
{
    if tag_is(tag, "p") || tag_is(tag, "div") {
        TagClass::Para
    } else if tag_is(tag, "h1") {
        TagClass::Heading(1)
    } else if tag_is(tag, "h2") {
        TagClass::Heading(2)
    } else if tag_is(tag, "h3") {
        TagClass::Heading(3)
    } else if tag_is(tag, "h4") {
        TagClass::Heading(4)
    } else if tag_is(tag, "h5") {
        TagClass::Heading(5)
    } else if tag_is(tag, "h6") {
        TagClass::Heading(6)
    } else if tag_is(tag, "blockquote") {
        TagClass::Quote
    } else if tag_is(tag, "ul") {
        TagClass::List(false)
    } else if tag_is(tag, "ol") {
        TagClass::List(true)
    } else if tag_is(tag, "img") {
        TagClass::Image
    } else if tag_is(tag, "figure") {
        TagClass::Figure
    } else if tag_is(tag, "hr") {
        TagClass::Rule
    } else if tag_is(tag, "pre") {
        TagClass::Code
    } else if tag_is(tag, "table") {
        TagClass::Table
    } else if tag_is(tag, "section") || tag_is(tag, "article") || tag_is(tag, "aside") || tag_is(
        tag,
        "header",
    ) || tag_is(tag, "footer") || tag_is(tag, "nav") || tag_is(tag, "main") {
        TagClass::Container
    } else if tag_is(tag, "br") || tag_is(tag, "script") || tag_is(tag, "style") || tag_is(
        tag,
        "meta",
    ) || tag_is(tag, "link") || tag_is(tag, "head") || tag_is(tag, "title") {
        TagClass::Skip
    } else {
        TagClass::Inline
    }
}

/// An element read as a block, as its tag's class says.
pub fn parse_element(
    tag: &String,
    attrs: &Vec<(String, String)>,
    children: &Vec<HtmlNode>,
    style: &SpanStyle,
) -> (r: Option<LayoutElement>)
    ensures
        element_block(tag@, attrs@, children@, *style, r),
    decreases children, 3int,
{
    match classify(tag) {
        TagClass::Para => {
            let spans = collect_text_spans(children, style);
            if spans.len() == 0 {
                None
            } else {
                Some(LayoutElement::Paragraph { spans, indent: true })
            }
        },
        TagClass::Heading(level) => {
            let spans = collect_text_spans(children, style);
            if spans.len() == 0 {
                None
            } else {
                Some(LayoutElement::Heading { level, spans })
            }
        },
        TagClass::Quote => {
            let elements = parse_children(children, style);
            if elements.len() == 0 {
                None
            } else {
                Some(LayoutElement::BlockQuote { elements })
            }
        },
        TagClass::List(ordered) => {
            let start: u32 = if ordered {
                match attr(attrs, "start") {
                    Some(s) => match parse_u32(s.as_str()) {
                        Some(n) => n,
                        None => 1,
                    },
                    None => 1,
                }
            } else {
                1
            };
            let items = parse_list_items(children, style);
            if items.len() == 0 {
                assert(items@ =~= Seq::<Vec<LayoutElement>>::empty());
                None
            } else {
                Some(LayoutElement::List { ordered, start, items })
            }
        },
        TagClass::Image => {
            let src = match attr(attrs, "src") {
                Some(s) => s.clone(),
                None => String::new(),
            };
            let alt = match attr(attrs, "alt") {
                Some(s) => s.clone(),
                None => String::new(),
            };
            let width = match attr(attrs, "width") {
                Some(s) => parse_u32(s.as_str()),
                None => None,
            };
            let height = match attr(attrs, "height") {
                Some(s) => parse_u32(s.as_str()),
                None => None,
            };
            Some(LayoutElement::Image { src, alt, data: None, width, height })
        },
        TagClass::Figure => parse_figure(children, style),
        TagClass::Rule => Some(LayoutElement::HorizontalRule),
        TagClass::Code => {
            let (language, code) = match find_tag(children, "code") {
                Some(HtmlNode::Element { attrs: code_attrs, children: code_children, .. }) => {
                    let language = match attr(code_attrs, "class") {
                        Some(c) => language_of(c.as_str()),
                        None => None,
                    };
                    let mut code = String::new();
                    append_raw_text(code_children, &mut code);
                    (language, code)
                },
                _ => {
                    let mut code = String::new();
                    append_raw_text(children, &mut code);
                    (None, code)
                },
            };
            Some(LayoutElement::CodeBlock { language, code })
        },
        TagClass::Table => {
            let mut headers: Vec<Vec<Vec<TextSpan>>> = Vec::new();
            let mut rows: Vec<Vec<Vec<TextSpan>>> = Vec::new();
            assert(rows_view(headers@) =~= Seq::<Seq<CellView>>::empty());
            assert(rows_view(rows@) =~= Seq::<Seq<CellView>>::empty());
            collect_rows(children, false, style, &mut headers, &mut rows);
            assert(rows_view(headers@) =~= table_rows(children@, children@.len() as int, false, *style).0);
            assert(rows_view(rows@) =~= table_rows(children@, children@.len() as int, false, *style).1);
            if headers.len() == 0 && rows.len() == 0 {
                None
            } else {
                Some(LayoutElement::Table { headers, rows })
            }
        },
        TagClass::Container => {
            let mut blocks = parse_children(children, style);
            if blocks.len() == 1 {
                let ghost b0 = blocks@;
                let e = blocks.remove(0);
                assert(b0 =~= seq![e]);
                Some(e)
            } else if blocks.len() == 0 {
                assert(blocks@ =~= Seq::<LayoutElement>::empty());
                None
            } else {
                Some(LayoutElement::BlockQuote { elements: blocks })
            }
        },
        TagClass::Skip => None,
        TagClass::Inline => {
            let spans = collect_text_spans(children, style);
            if spans.len() == 0 {
                None
            } else {
                Some(LayoutElement::Paragraph { spans, indent: false })
            }
        },
    }
}

/// A figure: its first image, or else its first other element, as content,
/// and its `figcaption` text as caption; nothing without content.
fn parse_figure(children: &Vec<HtmlNode>, style: &SpanStyle) -> (r: Option<LayoutElement>)
    ensures
        r matches Some(e) ==> e matches LayoutElement::Figure { content, caption } && figure_content(
            children@,
            *style,
            *content,
        ) && (caption matches Some(c) ==> figure_caption(children@, *style, c@)),
    decreases children, 2int,
{
    let mut content: Option<LayoutElement> = None;
    let mut caption: Option<Vec<TextSpan>> = None;
    let mut i: usize = 0;
    proof {
        reveal_strlit("figcaption");
    }
    while i < children.len()
        invariant
            i <= children@.len(),
            content matches Some(c) ==> figure_content(children@, *style, c),
            caption matches Some(c) ==> figure_caption(children@, *style, c@),
        decreases children.len() - i,
    {
        assert(decreases_to!(children => children[i as int]));
        match &children[i] {
            HtmlNode::Element { tag, attrs, children: inner } => {
                proof {
                    assert(decreases_to!(children[i as int] => *inner));
                }
                if tag_is(tag, "figcaption") {
                    let c = collect_text_spans(inner, style);
                    assert(children@[i as int] matches HtmlNode::Element { tag: t, children: n, .. }
                        && eq_ci(t@, "figcaption"@) && span_views(c@) == text_spans_of(n@, *style));
                    caption = Some(c);
                } else if tag_is(tag, "img") {
                    content = parse_element(tag, attrs, inner, style);
                    proof {
                        if content is Some {
                            assert(children@[i as int] matches HtmlNode::Element { tag: t, attrs: a, children: n }
                                && !eq_ci(t@, "figcaption"@) && element_block(t@, a@, n@, *style, content));
                        }
                    }
                } else if content.is_none() {
                    content = parse_element(tag, attrs, inner, style);
                    proof {
                        if content is Some {
                            assert(children@[i as int] matches HtmlNode::Element { tag: t, attrs: a, children: n }
                                && !eq_ci(t@, "figcaption"@) && element_block(t@, a@, n@, *style, content));
                        }
                    }
                }
            },
            _ => {},
        }
        i += 1;
    }
    match content {
        Some(c) => Some(LayoutElement::Figure { content: Box::new(c), caption }),
        None => None,
    }
}

/// The blocks of the nodes of an HTML fragment, those with no text left out.
pub fn parse_nodes_to_elements(nodes: &Vec<HtmlNode>) -> (r: Vec<LayoutElement>)
    ensures
        forall|i: int| 0 <= i < r@.len() ==> !element_is_empty(#[trigger] r@[i]),
        blocks_of(nodes@, SpanStyle::plain(), r@),
{
    parse_children(nodes, &SpanStyle::default())
}

/// The blocks of an HTML fragment, those with no text left out.
pub fn parse_html_to_elements(html: &str) -> (r: Vec<LayoutElement>)
    ensures
        forall|i: int| 0 <= i < r@.len() ==> !element_is_empty(#[trigger] r@[i]),
        html_blocks(html@, r@),
{
    let nodes = parse_fragment(html);
    let r = parse_nodes_to_elements(&nodes);
    proof {
        assert(fragment_holds(nodes@, html@));
    }
    r
}

/// Whether `nodes` are the top-level nodes of the fragment `html`.
pub open spec fn fragment_holds(nodes: Seq<HtmlNode>, html: Seq<char>) -> bool {
    views_upto(nodes, nodes.len() as int) == fragment_nodes(html_events_of(html))
}

/// Whether `out` are the blocks of the HTML fragment `html`.
pub open spec fn html_blocks(html: Seq<char>, out: Seq<LayoutElement>) -> bool {
    exists|nodes: Seq<HtmlNode>| #[trigger] fragment_holds(nodes, html) && blocks_of(nodes, SpanStyle::plain(), out)
}

/// A paragraph element whose one child is the text node `t` reads as the text
/// `text_inline(t)`: present exactly where `t` is not blank.
pub proof fn lemma_paragraph_reads_its_text(
    tag: Seq<char>,
    attrs: Seq<(String, String)>,
    children: Seq<HtmlNode>,
    style: SpanStyle,
    t: String,
    r: Option<LayoutElement>,
)
    requires
        tag_class(tag) == TagClass::Para,
        children == seq![HtmlNode::Text { text: t }],
        element_block(tag, attrs, children, style, r),
    ensures
        r is Some <==> !all_space(t@),
        r matches Some(e) ==> element_text(e) == text_inline(t@),
{
    assert(inline_text(children, 1) == inline_text(children, 0) + node_inline(children[0]));
    assert(inline_text(children, 1) =~= text_inline(t@));
    lemma_norm_scan(t@);
    if !all_space(t@) {
        if text_inline(t@).len() == 0 {
            assert(all_space(text_inline(t@)));
        }
    }
}

/// Reading a paragraph's text back gives the same text: the inline text of a
/// text node, read again as a text node, is unchanged.
pub proof fn lemma_paragraph_text_round_trip(t: Seq<char>)
    ensures
        text_inline(text_inline(t)) == text_inline(t),
{
    lemma_normalize_idempotent(t);
    if all_space(t) {
        assert(all_space(Seq::<char>::empty()));
    }
}

/// A paragraph whose content is one text node `t` reads as the text
/// `text_inline(t)`; a paragraph made of that text, `u`, reads as the same
/// text again.
pub proof fn lemma_paragraph_reparse(t: String, u: String)
    requires
        u@ == inline_text(seq![HtmlNode::Text { text: t }], 1),
    ensures
        inline_text(seq![HtmlNode::Text { text: u }], 1) == inline_text(
            seq![HtmlNode::Text { text: t }],
            1,
        ),
        inline_text(seq![HtmlNode::Text { text: t }], 1) == text_inline(t@),
{
    let st = seq![HtmlNode::Text { text: t }];
    let su = seq![HtmlNode::Text { text: u }];
    assert(inline_text(st, 1) == inline_text(st, 0) + node_inline(st[0]));
    assert(inline_text(st, 1) =~= text_inline(t@));
    assert(inline_text(su, 1) == inline_text(su, 0) + node_inline(su[0]));
    assert(inline_text(su, 1) =~= text_inline(u@));
    lemma_paragraph_text_round_trip(t@);
}

/// A document of the given chapters, each `(id, title, html)`, its blocks
/// parsed from its HTML.
pub fn document_from_chapters(chapters: Vec<(String, String, String)>) -> (r: crate::document::LayoutDocument)
    ensures
        r.chapters@.len() == chapters@.len(),
        forall|i: int|
            0 <= i < chapters@.len() ==> (#[trigger] r.chapters@[i]).id == chapters@[i].0
                && r.chapters@[i].title == chapters@[i].1,
        forall|i: int, j: int|
            0 <= i < r.chapters@.len() && 0 <= j < r.chapters@[i].elements@.len()
                ==> !element_is_empty(#[trigger] r.chapters@[i].elements@[j]),
        forall|i: int|
            0 <= i < chapters@.len() ==> html_blocks(chapters@[i].2@, (#[trigger] r.chapters@[i]).elements@),
{
    let ghost all = chapters@;
    let mut rest = chapters;
    let mut out: Vec<crate::document::LayoutChapter> = Vec::new();
    let total = rest.len();
    let mut i: usize = 0;
    while rest.len() > 0
        invariant
            total == all.len(),
            i <= all.len(),
            rest@ == all.subrange(i as int, all.len() as int),
            out@.len() == i,
            forall|k: int| 0 <= k < i ==> (#[trigger] out@[k]).id == all[k].0 && out@[k].title == all[k].1
                && html_blocks(all[k].2@, out@[k].elements@),
            forall|k: int, j: int|
                0 <= k < i && 0 <= j < out@[k].elements@.len() ==> !element_is_empty(
                    #[trigger] out@[k].elements@[j],
                ),
        decreases rest.len(),
    {
        let (id, title, html) = rest.remove(0);
        let elements = parse_html_to_elements(html.as_str());
        out.push(crate::document::LayoutChapter { id, title, elements });
        i += 1;
        assert(rest@ =~= all.subrange(i as int, all.len() as int));
    }
    let r = crate::document::LayoutDocument { chapters: out };
    assert forall|k: int, j: int|
        0 <= k < r.chapters@.len() && 0 <= j < r.chapters@[k].elements@.len() implies !element_is_empty(
        #[trigger] r.chapters@[k].elements@[j],
    ) by {
        assert(out@[k].id == all[k].0);
    }
    r
}

} // verus!
