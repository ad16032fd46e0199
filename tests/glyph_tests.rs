use wasm_reader::glyphs::{place_glyphs, GlyphPositions, GlyphStep, PositionedGlyph};

fn g(x: i32, y: i32, i: usize) -> PositionedGlyph {
    PositionedGlyph { character: 'x', x, y, width: 10, height: 20, text_index: i }
}

#[test]
fn glyph_hit_testing() {
    let mut p = GlyphPositions::new();
    p.glyphs.push(g(0, 20, 0));
    p.glyphs.push(g(10, 20, 1));
    assert_eq!(p.glyph_at_position(15, 5).map(|g| g.text_index), Some(1));
    assert!(p.glyph_at_position(15, 20).is_none());
    p.clear();
    assert!(p.glyphs.is_empty());
}

#[test]
fn selection_indices_by_area() {
    let mut p = GlyphPositions::new();
    for i in 0..4 {
        p.glyphs.push(g(10 * i as i32, 20, i));
    }
    for i in 0..4 {
        p.glyphs.push(g(10 * i as i32, 40, 4 + i));
    }
    assert_eq!(p.selection_indices(8, 10, 26, 10), (1, 3));
    assert_eq!(p.selection_indices(100, 100, 200, 100), (0, 0));
    assert_eq!(p.selection_indices(12, 10, 16, 30), (0, 8));
    assert_eq!(p.selection_indices(12, 10, 16, 50), (1, 8));
}

#[test]
fn glyphs_wrap_at_the_edge() {
    let steps = vec![
        GlyphStep { newline: false, advance: 600 },
        GlyphStep { newline: false, advance: 600 },
        GlyphStep { newline: false, advance: 600 },
        GlyphStep { newline: true, advance: 0 },
        GlyphStep { newline: false, advance: 600 },
    ];
    let places = place_glyphs(&steps, 100, 50, 1300, 2000);
    assert_eq!(places, vec![(100, 50), (700, 50), (100, 2050), (100, 4050), (100, 4050)]);
}
