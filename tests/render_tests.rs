use wasm_reader::error::ReaderError;
use wasm_reader::fonts::{FontManager, FontStyle};
use wasm_reader::raster::{draw_image, fill_rect};
use wasm_reader::render::{prerender_range, Renderer, TextRenderer};
use wasm_reader::selection::{PositionedChar, SelectionRect, SelectionState};
use wasm_reader::settings::Color;

fn pc(c: char, x: i32, y: i32, i: usize) -> PositionedChar {
    PositionedChar { char: c, x, y, width: 10, height: 20, text_index: i, chapter_id: "ch".to_string() }
}

fn line_state() -> SelectionState {
    let mut s = SelectionState::new();
    for (i, c) in "abc".chars().enumerate() {
        s.add_char(pc(c, 10 * i as i32, 0, i));
    }
    for (i, c) in "de".chars().enumerate() {
        s.add_char(pc(c, 10 * i as i32, 20, 3 + i));
    }
    s
}

#[test]
fn nearest_character_rules() {
    let s = line_state();
    assert_eq!(s.nearest_char(14, 5), Some(1));
    assert_eq!(s.nearest_char(100, 25), Some(4));
    assert_eq!(s.nearest_char(0, 500), Some(3));
    assert_eq!(s.char_at_position(25, 19), Some(2));
    assert_eq!(s.char_at_position(25, 40), None);
    assert_eq!(SelectionState::new().nearest_char(0, 0), None);
}

#[test]
fn selection_drag_and_rects() {
    let mut s = line_state();
    s.update_selection(0, 0);
    assert!(s.selection.is_none());
    s.start_selection(12, 25);
    s.update_selection(14, 5);
    let sel = s.selection.clone().unwrap();
    assert_eq!((sel.start_index, sel.end_index), (1, 5));
    assert_eq!(sel.text, "bcde");
    assert_eq!(sel.chapter_id, "ch");
    let rects = s.get_selection_rects();
    assert_eq!(
        rects,
        vec![
            SelectionRect { x: 10, y: 0, width: 20, height: 20 },
            SelectionRect { x: 0, y: 20, width: 20, height: 20 },
        ]
    );
    assert!(rects[0].y < rects[1].y);
    let ended = s.end_selection().unwrap();
    assert_eq!(ended.text, "bcde");
    assert!(!s.is_selecting);
    s.clear_selection();
    assert!(s.get_selection_rects().is_empty());
    s.clear();
    assert!(s.chars.is_empty());
}

#[test]
fn cache_holds_at_most_five_pages() {
    let mut r = Renderer::new();
    let px = vec![1u8; 16];
    for i in 0..12usize {
        r.store_page(i % 7, 2, 2, &px);
        assert!(r.cache_len() <= 5);
    }
    assert_eq!(r.cache_len(), 5);
    assert!(r.cached_page(4, 2, 2).is_some());
    assert!(r.cached_page(4, 3, 2).is_none());
    assert!(r.cached_page(0, 2, 2).is_some());
    assert!(r.cached_page(5, 2, 2).is_none());
    r.store_page(4, 3, 3, &px);
    assert_eq!(r.cache_len(), 4);
    assert!(r.cached_page(4, 2, 2).is_none());
    assert_eq!(r.cached_page(4, 3, 3).unwrap(), px);
    r.clear_cache();
    assert_eq!(r.cache_len(), 0);
}

#[test]
fn background_and_bars() {
    let r = Renderer::new();
    let bg = Color::rgb(1, 2, 3);
    let mut px = r.blank_canvas(3, 2, &bg);
    assert_eq!(px.len(), 24);
    assert_eq!(&px[20..24], &[1, 2, 3, 255]);
    let red = Color::rgb(255, 0, 0);
    TextRenderer::new().render_underline(&mut px, 3, 2, 1, -1, 1, 5, &red);
    assert_eq!(&px[0..12], &[1, 2, 3, 255, 1, 2, 3, 255, 1, 2, 3, 255]);
    assert_eq!(&px[12..16], &[1, 2, 3, 255]);
    assert_eq!(&px[16..24], &[255, 0, 0, 255, 255, 0, 0, 255]);
    let mut px2 = vec![0u8; 24];
    r.fill_background(&mut px2, 3, 2, &bg);
    assert_eq!(px2, r.blank_canvas(3, 2, &bg));
    fill_rect(&mut px2, 3, 2, -5, 1, 0, 1, red);
    assert_eq!(&px2[0..8], &[255, 0, 0, 255, 1, 2, 3, 255]);
}

#[test]
fn glyph_coverage_blends() {
    let bg = Color::rgb(0, 0, 0);
    let r = Renderer::new();
    let mut px = r.blank_canvas(2, 2, &bg);
    let bitmap = vec![255u8, 0, 128, 0];
    TextRenderer::new().render_glyph(&mut px, 2, 2, &bitmap, 2, 2, 0, 0, &Color::rgb(200, 100, 0), &bg);
    assert_eq!(&px[0..4], &[200, 100, 0, 255]);
    assert_eq!(&px[4..8], &[0, 0, 0, 255]);
    assert_eq!(&px[8..12], &[100, 50, 0, 255]);
    TextRenderer::new().render_strikethrough(&mut px, 2, 2, 0, 2, 1, 1, &Color::rgb(9, 9, 9));
    assert_eq!(&px[8..16], &[9, 9, 9, 255, 9, 9, 9, 255]);
}

#[test]
fn image_scaled_and_centred() {
    let mut img: Vec<u8> = Vec::new();
    for v in [10u8, 20, 30, 40, 50, 60, 70, 80] {
        img.extend_from_slice(&[v, v, v, 255]);
    }
    let mut px = vec![0u8; 4 * 4 * 2];
    draw_image(&mut px, 4, 2, &img, 4, 2, 0, 0, 4, 1);
    assert_eq!(&px[0..4], &[0, 0, 0, 0]);
    assert_eq!(&px[4..8], &[10, 10, 10, 255]);
    assert_eq!(&px[8..12], &[30, 30, 30, 255]);
    assert_eq!(&px[12..16], &[0, 0, 0, 0]);
    assert_eq!(&px[16..32], &[0u8; 16]);
}

#[test]
fn decoded_image_is_drawn() {
    let mut buf: Vec<u8> = Vec::new();
    image::RgbaImage::from_pixel(2, 2, image::Rgba([7, 8, 9, 255]))
        .write_to(&mut std::io::Cursor::new(&mut buf), image::ImageFormat::Png)
        .unwrap();
    let r = Renderer::new();
    let mut px = vec![0u8; 4 * 2 * 2];
    assert!(r.render_image(&mut px, 2, 2, &buf, 0, 0, 2, 2).is_ok());
    assert_eq!(&px[12..16], &[7, 8, 9, 255]);
    let mut px2 = vec![0u8; 16];
    let e = r.render_image(&mut px2, 2, 2, &vec![1, 2, 3], 0, 0, 2, 2);
    assert!(matches!(e, Err(ReaderError::ImageError(_))));
    assert_eq!(px2, vec![0u8; 16]);
}

#[test]
fn bad_font_data_is_a_font_error() {
    let mut fm = FontManager::new();
    let e = fm.load_font("Lit-Bold", &vec![0u8, 1, 2, 3]);
    assert!(matches!(e, Err(ReaderError::FontError(_))));
    assert!(!fm.has_family("Lit"));
    assert!(fm.get_font("Lit", FontStyle::Bold).is_none());
    assert!(fm.list_families().is_empty());
}

#[test]
fn prerender_window_is_clipped() {
    assert_eq!(prerender_range(0, 2, 10), Some((0, 2)));
    assert_eq!(prerender_range(9, 2, 10), Some((7, 9)));
    assert_eq!(prerender_range(3, 1, 0), None);
}
