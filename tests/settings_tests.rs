use wasm_reader::settings::{Color, ReaderSettings, TextAlign};

#[test]
fn test_color_blend() {
    let fg = Color::new(255, 0, 0, 128);
    let bg = Color::rgb(0, 0, 255);
    let blended = fg.blend_over(&bg);

    assert!(blended.r > 100);
    assert!(blended.b > 100);
}

#[test]
fn test_content_width() {
    let mut settings = ReaderSettings::default();
    settings.container_width = 80000;
    settings.padding_x = 5000;
    settings.max_content_width = 60000;

    assert_eq!(settings.content_width(), 60000);

    settings.max_content_width = 80000;
    assert_eq!(settings.content_width(), 70000);
}

#[test]
fn blend_exact_values() {
    let fg = Color::new(255, 0, 0, 128);
    let bg = Color::rgb(0, 0, 255);
    let c = fg.blend_over(&bg);
    assert_eq!(c, Color::new(128, 0, 127, 255));
}

#[test]
fn blend_opaque_and_transparent() {
    let bg = Color::rgb(10, 20, 30);
    let opaque = Color::new(200, 100, 50, 255);
    assert_eq!(opaque.blend_over(&bg), opaque);
    let clear = Color::new(200, 100, 50, 0);
    assert_eq!(clear.blend_over(&bg), bg);
}

#[test]
fn blend_moves_towards_foreground() {
    let bg = Color::rgb(0, 0, 0);
    let mut last = 0u8;
    for a in 0..=255u8 {
        let c = Color::new(200, 0, 0, a).blend_over(&bg);
        assert!(c.r >= last);
        last = c.r;
    }
    assert_eq!(last, 200);
}

#[test]
fn color_helpers() {
    assert_eq!(Color::rgb(1, 2, 3).to_rgba_array(), [1, 2, 3, 255]);
    assert_eq!(Color::default(), Color::rgb(0, 0, 0));
    assert_eq!(TextAlign::default(), TextAlign::Justify);
}

#[test]
fn derived_geometry() {
    let mut s = ReaderSettings::default();
    s.container_width = 80000;
    s.container_height = 60000;
    assert_eq!(s.total_content_width(), 67200);
    assert_eq!(s.content_height(), 52000);
    assert_eq!(s.line_height_px(), 3240);
    assert_eq!(s.heading_size(1), 3600);
    assert_eq!(s.heading_size(5), 1575);
    assert_eq!(s.heading_size(9), 1350);
    assert_eq!(s.column_1_x(), 4800);
    assert_eq!(s.column_2_x(), 4800);
    s.columns = 2;
    assert_eq!(s.total_content_width(), 70400);
    assert_eq!(s.content_width(), 32800);
    assert_eq!(s.column_2_x(), 4800 + 32800 + 4800);
}

#[test]
fn narrow_container_gives_negative_width() {
    let mut s = ReaderSettings::default();
    s.container_width = 1000;
    s.columns = 2;
    assert_eq!(s.total_content_width(), 1000 - 9600);
    assert_eq!(s.content_width(), -(9600 - 1000 + 4800) / 2);
}
