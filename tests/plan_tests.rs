use wasm_reader::document::{LayoutElement, TextSpan};
use wasm_reader::paginator::{Page, PageElement};
use wasm_reader::plan::{DrawOp, TextSource};
use wasm_reader::settings::{Color, ReaderSettings};

fn settings() -> ReaderSettings {
    let mut s = ReaderSettings::default();
    s.container_width = 80000;
    s.container_height = 60000;
    s
}

fn page(elements: Vec<LayoutElement>) -> Page {
    Page {
        index: 0,
        chapter_id: "c".to_string(),
        chapter_title: "C".to_string(),
        elements: elements
            .into_iter()
            .map(|e| PageElement { element: e, y_position: 1000, height: 0, column: 0 })
            .collect(),
        content_height: 0,
    }
}

#[test]
fn paragraph_and_rule_steps() {
    let s = settings();
    let p = page(vec![
        LayoutElement::Paragraph { spans: vec![TextSpan::new("a")], indent: true },
        LayoutElement::HorizontalRule,
    ]);
    let ops = s.plan_page(&p, 600);
    assert_eq!(ops.len(), 2);
    match &ops[0] {
        DrawOp::Text { source: TextSource::Spans(v), x, y, max_width, size, line_height, color } => {
            assert_eq!(v.len(), 1);
            assert_eq!((*x, *y, *max_width), (4800 + 2700, 5000, 67200 - 2700));
            assert_eq!((*size, *line_height), (1800, 180));
            assert_eq!(*color, s.text_color);
        }
        _ => panic!("Expected text"),
    }
    match &ops[1] {
        DrawOp::Fill { x0, x1, y0, y1, color } => {
            assert_eq!((*x0, *x1, *y0, *y1), (4800, 4800 + 67200, 6800, 6900));
            assert_eq!(*color, Color::rgb(200, 200, 200));
        }
        _ => panic!("Expected fill"),
    }
}

#[test]
fn list_markers_and_quote_bar() {
    let s = settings();
    let item = |t: &str| vec![LayoutElement::Paragraph { spans: vec![TextSpan::new(t)], indent: false }];
    let p = page(vec![
        LayoutElement::List { ordered: true, start: 9, items: vec![item("a"), item("b")] },
        LayoutElement::BlockQuote { elements: item("q") },
    ]);
    let ops = s.plan_page(&p, 600);
    assert_eq!(ops.len(), 6);
    match &ops[2] {
        DrawOp::Text { source: TextSource::Owned(m), y, .. } => {
            assert_eq!(m, "10.");
            assert_eq!(*y, 5000 + 3240);
        }
        _ => panic!("Expected marker"),
    }
    match &ops[4] {
        DrawOp::Fill { x0, x1, y0, y1, .. } => assert_eq!((*x0, *x1, *y0, *y1), (4800, 5100, 5000, 15000)),
        _ => panic!("Expected bar"),
    }
    match &ops[5] {
        DrawOp::Text { x, max_width, .. } => assert_eq!((*x, *max_width), (4800 + 1800, 67200 - 3600)),
        _ => panic!("Expected text"),
    }
}
