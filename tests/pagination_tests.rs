use wasm_reader::document::{LayoutChapter, LayoutDocument, LayoutElement, SpanStyle, TextSpan};
use wasm_reader::html::document_from_chapters;
use wasm_reader::paginator::{Page, PageElement, PaginatedBook, Paginator};
use wasm_reader::settings::ReaderSettings;

fn test_settings() -> ReaderSettings {
    let mut settings = ReaderSettings::default();
    settings.container_width = 80000;
    settings.container_height = 60000;
    settings
}

fn para(text: &str) -> LayoutElement {
    LayoutElement::Paragraph { spans: vec![TextSpan::new(text)], indent: true }
}

fn chapter(id: &str, title: &str, elements: Vec<LayoutElement>) -> LayoutChapter {
    let mut c = LayoutChapter::new(id, title);
    c.elements = elements;
    c
}

#[test]
fn test_paginate_empty_document() {
    let settings = test_settings();
    let paginator = Paginator::new(&settings);

    let document = LayoutDocument::new();
    let result = paginator.paginate(document);

    assert_eq!(result.total_pages, 0);
}

#[test]
fn test_search() {
    let book = PaginatedBook {
        pages: vec![Page {
            index: 0,
            chapter_id: "ch1".to_string(),
            chapter_title: "Chapter 1".to_string(),
            elements: vec![PageElement {
                element: LayoutElement::Paragraph {
                    spans: vec![TextSpan::new("Hello world, this is a test")],
                    indent: true,
                },
                y_position: 0,
                height: 2000,
                column: 0,
            }],
            content_height: 2000,
        }],
        total_pages: 1,
    };

    let results = book.search("world");
    assert_eq!(results.len(), 1);
    assert_eq!(results[0].page_index, 0);
    assert!(results[0].snippet.contains("world"));
}

#[test]
fn single_paragraph_one_page() {
    let settings = test_settings();
    let doc = document_from_chapters(vec![(
        "ch1".to_string(),
        "T".to_string(),
        "<p>Hello world</p>".to_string(),
    )]);
    let book = Paginator::new(&settings).paginate(doc);
    assert_eq!(book.total_pages, 1);
    assert_eq!(book.pages[0].index, 0);
    assert_eq!(book.pages[0].chapter_id, "ch1");
    assert_eq!(book.pages[0].chapter_title, "T");
    assert_eq!(book.pages[0].elements[0].height, 3240);
    assert_eq!(book.pages[0].content_height, 3240 + 2250);
}

#[test]
fn empty_chapter_still_gets_a_page() {
    let settings = test_settings();
    let doc = LayoutDocument { chapters: vec![chapter("a", "A", vec![]), chapter("b", "B", vec![para("x")])] };
    let book = Paginator::new(&settings).paginate(doc);
    assert_eq!(book.total_pages, 2);
    assert!(book.pages[0].elements.is_empty());
    assert_eq!(book.pages[1].chapter_id, "b");
    assert_eq!(book.pages[1].index, 1);
}

#[test]
fn nine_short_paragraphs_fill_a_page() {
    let settings = test_settings();
    let elems: Vec<LayoutElement> = (0..20).map(|_| para("Hello world")).collect();
    let book = Paginator::new(&settings).paginate(LayoutDocument { chapters: vec![chapter("c", "C", elems)] });
    assert_eq!(book.total_pages, 3);
    assert_eq!(book.pages[0].elements.len(), 9);
    assert_eq!(book.pages[1].elements.len(), 9);
    assert_eq!(book.pages[2].elements.len(), 2);
    for (i, p) in book.pages.iter().enumerate() {
        assert_eq!(p.index, i);
        for e in &p.elements {
            assert!(e.y_position == 0 || e.y_position + e.height <= 52000);
        }
    }
    assert_eq!(book.pages[0].elements[8].y_position, 8 * 5490);
}

#[test]
fn heading_moves_with_its_paragraph() {
    let settings = test_settings();
    let mut elems: Vec<LayoutElement> = (0..7).map(|_| para("Hello world")).collect();
    elems.push(LayoutElement::Heading { level: 1, spans: vec![TextSpan::new("Title")] });
    elems.push(para(&"x".repeat(100)));
    elems.push(para("Hello world"));
    let book = Paginator::new(&settings).paginate(LayoutDocument { chapters: vec![chapter("c", "C", elems)] });
    assert_eq!(book.total_pages, 2);
    assert_eq!(book.pages[0].elements.len(), 7);
    assert!(matches!(book.pages[1].elements[0].element, LayoutElement::Heading { .. }));
    assert_eq!(book.pages[1].elements[0].y_position, 0);
    assert_eq!(book.pages[1].elements[1].y_position, 9180);
}

#[test]
fn two_columns_pair_column_pages() {
    let mut settings = test_settings();
    settings.columns = 2;
    let chapters: Vec<LayoutChapter> =
        (0..7).map(|i| chapter(&format!("c{}", i), "T", vec![para("Hello")])).collect();
    let book = Paginator::new(&settings).paginate(LayoutDocument { chapters });
    assert_eq!(book.total_pages, 4);
    assert_eq!(book.pages[0].elements.len(), 2);
    assert_eq!(book.pages[0].elements[1].column, 1);
    assert_eq!(book.pages[0].chapter_id, "c0");
    assert_eq!(book.pages[3].elements.len(), 1);
    assert_eq!(book.pages[3].elements[0].column, 0);
    assert_eq!(book.pages[3].chapter_id, "c6");
}

#[test]
fn repagination_matches_fresh_pagination() {
    let html = "<h1>T</h1><p>Some text</p><p>More text</p>";
    let make = || document_from_chapters(vec![("c".to_string(), "C".to_string(), html.to_string())]);
    let mut a = test_settings();
    a.font_size = 4000;
    let b = test_settings();
    let _first = Paginator::new(&a).paginate(make());
    let after = Paginator::new(&b).paginate(make());
    let fresh = Paginator::new(&b).paginate(make());
    assert_eq!(after.total_pages, fresh.total_pages);
    for (p, q) in after.pages.iter().zip(fresh.pages.iter()) {
        assert_eq!(p.elements.len(), q.elements.len());
        for (x, y) in p.elements.iter().zip(q.elements.iter()) {
            assert_eq!(x.y_position, y.y_position);
            assert_eq!(x.height, y.height);
        }
    }
}

#[test]
fn element_heights() {
    let s = test_settings();
    assert_eq!(s.measure_element(&LayoutElement::HorizontalRule), 3600);
    assert_eq!(s.measure_element(&para("")), 3240);
    assert_eq!(
        s.measure_element(&LayoutElement::CodeBlock { language: None, code: "a\nb\n".to_string() }),
        2 * 2520 + 1800
    );
    assert_eq!(s.measure_element(&LayoutElement::RawText { text: "x".repeat(61) }), 2 * 3240);
    assert_eq!(
        s.measure_element(&LayoutElement::Image {
            src: String::new(),
            alt: String::new(),
            data: None,
            width: Some(1344),
            height: Some(100),
        }),
        5000
    );
    assert_eq!(
        s.measure_element(&LayoutElement::Table { headers: vec![vec![vec![]]], rows: vec![] }),
        4860 + 1800
    );
    let quote = LayoutElement::BlockQuote { elements: vec![para("a")] };
    assert_eq!(s.measure_element(&quote), 3240 + 1125 + 900);
    let text = LayoutElement::Paragraph {
        spans: vec![TextSpan::with_style("a\n\nb", SpanStyle::bold())],
        indent: false,
    };
    assert_eq!(s.measure_element(&text), 2 * 3240);
}

#[test]
fn search_finds_every_occurrence() {
    let settings = test_settings();
    let doc = document_from_chapters(vec![(
        "ch1".to_string(),
        "T".to_string(),
        "<p>Hello world. WORLD!</p>".to_string(),
    )]);
    let book = Paginator::new(&settings).paginate(doc);
    let r = book.search("world");
    assert_eq!(r.len(), 2);
    assert_eq!(r[0].page_index, 0);
    assert_eq!(r[1].page_index, 0);
    assert_eq!((r[0].match_start, r[0].match_end), (6, 11));
    assert_eq!((r[1].match_start, r[1].match_end), (13, 18));
    assert!(r[1].snippet.contains("world"));
    assert_eq!(r[1].snippet, "hello world. world!");
    assert!(book.search("").is_empty());
    assert!(book.search("absent").is_empty());
}

#[test]
fn long_snippets_are_cut() {
    let text = format!("{}needle{}", "a".repeat(50), "b".repeat(50));
    let book = PaginatedBook {
        pages: vec![Page {
            index: 0,
            chapter_id: "c".to_string(),
            chapter_title: "C".to_string(),
            elements: vec![PageElement { element: para(&text), y_position: 0, height: 1, column: 0 }],
            content_height: 1,
        }],
        total_pages: 1,
    };
    let r = book.search("NEEDLE");
    assert_eq!(r.len(), 1);
    assert_eq!(r[0].snippet, format!("\u{2026}{}needle{}\u{2026}", "a".repeat(40), "b".repeat(40)));
}

#[test]
fn search_finds_overlapping_occurrences() {
    let settings = test_settings();
    let doc = document_from_chapters(vec![("c".to_string(), "C".to_string(), "<p>aaa</p>".to_string())]);
    let book = Paginator::new(&settings).paginate(doc);
    let r = book.search("AA");
    assert_eq!(r.len(), 2);
    assert_eq!((r[0].match_start, r[1].match_start), (0, 1));
}
