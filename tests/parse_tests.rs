use wasm_reader::document::{LayoutElement, TextSpan};
use wasm_reader::fonts::{find_break_opportunities, parse_font_name, BreakOpportunity, FontStyle};
use wasm_reader::html::{normalize_whitespace, parse_html_to_elements, parse_u32};

#[test]
fn test_parse_font_name() {
    assert_eq!(parse_font_name("Literata"), ("Literata".to_string(), FontStyle::Regular));
    assert_eq!(parse_font_name("Literata-Bold"), ("Literata".to_string(), FontStyle::Bold));
    assert_eq!(parse_font_name("Literata-Italic"), ("Literata".to_string(), FontStyle::Italic));
    assert_eq!(
        parse_font_name("Literata-BoldItalic"),
        ("Literata".to_string(), FontStyle::BoldItalic)
    );
}

#[test]
fn font_name_suffixes_ignore_case() {
    assert_eq!(parse_font_name("Lit-BoldItalic"), ("Lit".to_string(), FontStyle::BoldItalic));
    assert_eq!(parse_font_name("Lit-BOLD"), ("Lit".to_string(), FontStyle::Bold));
    assert_eq!(parse_font_name("Lit-it"), ("Lit".to_string(), FontStyle::Italic));
    assert_eq!(parse_font_name("Lit"), ("Lit".to_string(), FontStyle::Regular));
    assert_eq!(parse_font_name("Lit-Regular"), ("Lit".to_string(), FontStyle::Regular));
    assert_eq!(parse_font_name("Lit-BoldIt"), ("Lit".to_string(), FontStyle::BoldItalic));
    assert_eq!(parse_font_name("Lit-Light"), ("Lit-Light".to_string(), FontStyle::Regular));
}

#[test]
fn style_from_flags() {
    assert_eq!(FontStyle::from_flags(false, false), FontStyle::Regular);
    assert_eq!(FontStyle::from_flags(true, false), FontStyle::Bold);
    assert_eq!(FontStyle::from_flags(false, true), FontStyle::Italic);
    assert_eq!(FontStyle::from_flags(true, true), FontStyle::BoldItalic);
}

#[test]
fn break_opportunities_with_byte_offsets() {
    let v = find_break_opportunities("a b\nc-é d");
    assert_eq!(
        v,
        vec![
            (1, BreakOpportunity::Allowed),
            (3, BreakOpportunity::Required),
            (5, BreakOpportunity::Allowed),
            (8, BreakOpportunity::Allowed),
        ]
    );
}

#[test]
fn test_parse_paragraph() {
    let elements = parse_html_to_elements("<p>Hello world</p>");
    assert_eq!(elements.len(), 1);

    if let LayoutElement::Paragraph { spans, indent } = &elements[0] {
        assert!(indent);
        assert_eq!(spans.len(), 1);
        assert_eq!(spans[0].text, "Hello world");
    } else {
        panic!("Expected paragraph");
    }
}

#[test]
fn test_parse_heading() {
    let elements = parse_html_to_elements("<h2>Chapter One</h2>");
    assert_eq!(elements.len(), 1);

    if let LayoutElement::Heading { level, spans } = &elements[0] {
        assert_eq!(*level, 2);
        assert_eq!(spans[0].text, "Chapter One");
    } else {
        panic!("Expected heading");
    }
}

#[test]
fn test_parse_formatted_text() {
    let elements = parse_html_to_elements("<p>Hello <strong>bold</strong> and <em>italic</em></p>");
    assert_eq!(elements.len(), 1);

    if let LayoutElement::Paragraph { spans, .. } = &elements[0] {
        assert!(spans.len() >= 3);
        let bold_span = spans.iter().find(|s| s.text.contains("bold")).unwrap();
        assert!(bold_span.style.bold);
        let italic_span = spans.iter().find(|s| s.text.contains("italic")).unwrap();
        assert!(italic_span.style.italic);
    } else {
        panic!("Expected paragraph");
    }
}

#[test]
fn test_parse_list() {
    let elements = parse_html_to_elements("<ul><li>Item 1</li><li>Item 2</li></ul>");
    assert_eq!(elements.len(), 1);

    if let LayoutElement::List { ordered, items, .. } = &elements[0] {
        assert!(!ordered);
        assert_eq!(items.len(), 2);
    } else {
        panic!("Expected list");
    }
}

#[test]
fn parse_tag_set() {
    let html = "<blockquote><p>q</p></blockquote><ol start=\"3\"><li>x</li></ol><hr>\
                <img src=\"a.png\" alt=\"A\" width=\"10\" height=\"x\">\
                <pre><code class=\"x language-rust\">fn  main()</code></pre>\
                <table><thead><tr><th>H</th></tr></thead><tbody><tr><td>a</td><td>b</td></tr></tbody></table>\
                <script>var a;</script><section><p>s</p></section><span>inline</span>";
    let e = parse_html_to_elements(html);
    assert_eq!(e.len(), 8);
    assert!(matches!(&e[0], LayoutElement::BlockQuote { elements } if elements.len() == 1));
    assert!(matches!(&e[1], LayoutElement::List { ordered: true, start: 3, items } if items.len() == 1));
    assert!(matches!(&e[2], LayoutElement::HorizontalRule));
    match &e[3] {
        LayoutElement::Image { src, alt, data, width, height } => {
            assert_eq!(src, "a.png");
            assert_eq!(alt, "A");
            assert!(data.is_none());
            assert_eq!(*width, Some(10));
            assert_eq!(*height, None);
        }
        _ => panic!("Expected image"),
    }
    match &e[4] {
        LayoutElement::CodeBlock { language, code } => {
            assert_eq!(language.as_deref(), Some("rust"));
            assert_eq!(code, "fn  main()");
        }
        _ => panic!("Expected code block"),
    }
    match &e[5] {
        LayoutElement::Table { headers, rows } => {
            assert_eq!(headers.len(), 1);
            assert_eq!(rows.len(), 1);
            assert_eq!(rows[0].len(), 2);
            assert_eq!(rows[0][1][0].text, "b");
        }
        _ => panic!("Expected table"),
    }
    assert!(matches!(&e[6], LayoutElement::Paragraph { indent: true, .. }));
    assert!(matches!(&e[7], LayoutElement::Paragraph { indent: false, .. }));
}

#[test]
fn inline_text_and_links() {
    let e = parse_html_to_elements("<p>a <a href=\"u\">link</a><br/>b   c</p><p>   </p>");
    assert_eq!(e.len(), 1);
    assert_eq!(e[0].text_content(), "a link\nb c");
    if let LayoutElement::Paragraph { spans, .. } = &e[0] {
        let l = spans.iter().find(|s| s.text == "link").unwrap();
        assert_eq!(l.style.link.as_deref(), Some("u"));
    } else {
        panic!("Expected paragraph");
    }
}

#[test]
fn paragraph_text_round_trip() {
    let first = parse_html_to_elements("<p>  Some\n\t text   here </p>");
    let text = first[0].text_content();
    assert_eq!(text, " Some text here ");
    let again = parse_html_to_elements(&format!("<p>{}</p>", text));
    assert_eq!(again[0].text_content(), text);
}

#[test]
fn whitespace_and_numbers() {
    assert_eq!(normalize_whitespace("a \t\n b  "), "a b ");
    assert_eq!(parse_u32("+42"), Some(42));
    assert_eq!(parse_u32("4294967295"), Some(4294967295));
    assert_eq!(parse_u32("4294967296"), None);
    assert_eq!(parse_u32(""), None);
    assert_eq!(parse_u32("-1"), None);
    assert_eq!(parse_u32("1x"), None);
}

#[test]
fn figure_with_caption() {
    let e = parse_html_to_elements("<figure><img src=\"p.png\"><figcaption>Cap</figcaption></figure>");
    assert_eq!(e.len(), 1);
    match &e[0] {
        LayoutElement::Figure { content, caption } => {
            assert!(matches!(**content, LayoutElement::Image { .. }));
            assert_eq!(caption.as_ref().unwrap()[0].text, "Cap");
        }
        _ => panic!("Expected figure"),
    }
    assert_eq!(TextSpan::new("x").text, "x");
}
