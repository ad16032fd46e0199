//! Reader configuration and the colour model.
//!
//! Every length is held in centipixels (hundredths of a pixel) as an integer, so
//! that pagination is exact and reproducible on every machine. The line-height
//! multiplier is held in percent (`180` means 1.8).
use vstd::prelude::*;
use vstd::string::*;

verus! {

/// Horizontal alignment of body text.
#[derive(Debug, Clone, Copy, PartialEq, Eq, Structural)]
pub enum TextAlign {
    Left,
    Right,
    Center,
    Justify,
}

impl Default for TextAlign {
    fn default() -> (r: TextAlign)
        ensures
            r == TextAlign::Justify,
    {
        TextAlign::Justify
    }
}

/// An RGBA colour, one byte per channel.
#[derive(Debug, Clone, Copy, PartialEq, Eq, Structural)]
pub struct Color {
    pub r: u8,
    pub g: u8,
    pub b: u8,
    pub a: u8,
}

/// One channel of `fg` laid with opacity `a` (0..=255) over `bg`, rounded down.
pub open spec fn blend_channel(fg: int, bg: int, a: int) -> int {
    (fg * a + bg * (255 - a)) / 255
}

/// The colour seen when `fg` is laid over the opaque background `bg`.
pub open spec fn blend_spec(fg: Color, bg: Color) -> Color {
    if fg.a == 255 {
        fg
    } else if fg.a == 0 {
        bg
    } else {
        Color {
            r: blend_channel(fg.r as int, bg.r as int, fg.a as int) as u8,
            g: blend_channel(fg.g as int, bg.g as int, fg.a as int) as u8,
            b: blend_channel(fg.b as int, bg.b as int, fg.a as int) as u8,
            a: 255,
        }
    }
}

proof fn lemma_blend_channel_bounds(fg: int, bg: int, a: int)
    requires
        0 <= fg <= 255,
        0 <= bg <= 255,
        0 <= a <= 255,
    ensures
        0 <= blend_channel(fg, bg, a) <= 255,
        (fg <= bg ==> fg <= blend_channel(fg, bg, a) <= bg),
        (bg <= fg ==> bg <= blend_channel(fg, bg, a) <= fg),
{
    assert(0 <= fg * a + bg * (255 - a) <= 255 * 255) by (nonlinear_arith)
        requires
            0 <= fg <= 255,
            0 <= bg <= 255,
            0 <= a <= 255,
    ;
    if fg <= bg {
        assert(fg * 255 <= fg * a + bg * (255 - a) <= bg * 255) by (nonlinear_arith)
            requires
                0 <= fg <= bg,
                0 <= a <= 255,
        ;
    } else {
        assert(bg * 255 <= fg * a + bg * (255 - a) <= fg * 255) by (nonlinear_arith)
            requires
                0 <= bg <= fg,
                0 <= a <= 255,
        ;
    }
}

/// One channel of the blend moves towards the foreground as the opacity grows.
pub proof fn lemma_blend_channel_monotonic(fg: int, bg: int, a1: int, a2: int)
    requires
        0 <= fg <= 255,
        0 <= bg <= 255,
        0 <= a1 <= a2 <= 255,
    ensures
        bg <= fg ==> blend_channel(fg, bg, a1) <= blend_channel(fg, bg, a2),
        fg <= bg ==> blend_channel(fg, bg, a1) >= blend_channel(fg, bg, a2),
{
    let n1 = fg * a1 + bg * (255 - a1);
    let n2 = fg * a2 + bg * (255 - a2);
    assert(fg * a2 + bg * (255 - a2) - (fg * a1 + bg * (255 - a1)) == (fg - bg) * (a2 - a1))
        by (nonlinear_arith);
    if bg <= fg {
        assert((fg - bg) * (a2 - a1) >= 0) by (nonlinear_arith)
            requires
                bg <= fg,
                a1 <= a2,
        ;
        lemma_div_monotonic(n1, n2);
    }
    if fg <= bg {
        assert((fg - bg) * (a2 - a1) <= 0) by (nonlinear_arith)
            requires
                fg <= bg,
                a1 <= a2,
        ;
        lemma_div_monotonic(n2, n1);
    }
}

proof fn lemma_div_monotonic(x: int, y: int)
    requires
        x <= y,
    ensures
        x / 255 <= y / 255,
{
    vstd::arithmetic::div_mod::lemma_div_is_ordered(x, y, 255);
}

/// Blending with full opacity gives the foreground, with none the background, and
/// between the two each channel moves monotonically from background towards
/// foreground as the opacity grows.
pub proof fn lemma_blend_laws(fg: Color, bg: Color, a1: u8, a2: u8)
    requires
        bg.a == 255,
        a1 <= a2,
    ensures
        fg.a == 255 ==> blend_spec(fg, bg) == fg,
        fg.a == 0 ==> blend_spec(fg, bg).r == bg.r && blend_spec(fg, bg).g == bg.g
            && blend_spec(fg, bg).b == bg.b,
        ({
            let c1 = blend_spec(Color { a: a1, ..fg }, bg);
            let c2 = blend_spec(Color { a: a2, ..fg }, bg);
            &&& (bg.r <= fg.r ==> c1.r <= c2.r)
            &&& (fg.r <= bg.r ==> c1.r >= c2.r)
            &&& (bg.g <= fg.g ==> c1.g <= c2.g)
            &&& (fg.g <= bg.g ==> c1.g >= c2.g)
            &&& (bg.b <= fg.b ==> c1.b <= c2.b)
            &&& (fg.b <= bg.b ==> c1.b >= c2.b)
        }),
{
    lemma_blend_edges(fg.r as int, bg.r as int);
    lemma_blend_edges(fg.g as int, bg.g as int);
    lemma_blend_edges(fg.b as int, bg.b as int);
    lemma_blend_channel_monotonic(fg.r as int, bg.r as int, a1 as int, a2 as int);
    lemma_blend_channel_monotonic(fg.g as int, bg.g as int, a1 as int, a2 as int);
    lemma_blend_channel_monotonic(fg.b as int, bg.b as int, a1 as int, a2 as int);
    lemma_blend_channel_bounds(fg.r as int, bg.r as int, a1 as int);
    lemma_blend_channel_bounds(fg.g as int, bg.g as int, a1 as int);
    lemma_blend_channel_bounds(fg.b as int, bg.b as int, a1 as int);
    lemma_blend_channel_bounds(fg.r as int, bg.r as int, a2 as int);
    lemma_blend_channel_bounds(fg.g as int, bg.g as int, a2 as int);
    lemma_blend_channel_bounds(fg.b as int, bg.b as int, a2 as int);
}

/// The blend formula already yields the background at opacity 0 and the
/// foreground at opacity 255.
proof fn lemma_blend_edges(fg: int, bg: int)
    requires
        0 <= fg <= 255,
        0 <= bg <= 255,
    ensures
        blend_channel(fg, bg, 0) == bg,
        blend_channel(fg, bg, 255) == fg,
{
    assert(fg * 0 + bg * (255 - 0) == bg * 255) by (nonlinear_arith);
    assert(fg * 255 + bg * (255 - 255) == fg * 255) by (nonlinear_arith);
    vstd::arithmetic::div_mod::lemma_div_by_multiple(bg, 255);
    vstd::arithmetic::div_mod::lemma_div_by_multiple(fg, 255);
}

impl Color {
    pub fn new(r: u8, g: u8, b: u8, a: u8) -> (c: Color)
        ensures
            c == (Color { r, g, b, a }),
    {
        Color { r, g, b, a }
    }

    /// An opaque colour.
    pub fn rgb(r: u8, g: u8, b: u8) -> (c: Color)
        ensures
            c == (Color { r, g, b, a: 255 }),
    {
        Color { r, g, b, a: 255 }
    }

    pub fn to_rgba_array(&self) -> (arr: [u8; 4])
        ensures
            arr@ == seq![self.r, self.g, self.b, self.a],
    {
        let arr = [self.r, self.g, self.b, self.a];
        assert(arr@ =~= seq![self.r, self.g, self.b, self.a]);
        arr
    }

    /// Lays this colour over the background `bg` and returns the opaque result.
    pub fn blend_over(&self, bg: &Color) -> (c: Color)
        ensures
            c == blend_spec(*self, *bg),
    {
        if self.a == 255 {
            return *self;
        }
        if self.a == 0 {
            return *bg;
        }
        Color {
            r: blend_byte(self.r, bg.r, self.a),
            g: blend_byte(self.g, bg.g, self.a),
            b: blend_byte(self.b, bg.b, self.a),
            a: 255,
        }
    }
}

fn blend_byte(fg: u8, bg: u8, a: u8) -> (r: u8)
    ensures
        r as int == blend_channel(fg as int, bg as int, a as int),
{
    proof {
        lemma_blend_channel_bounds(fg as int, bg as int, a as int);
    }
    let fa: u32 = fg as u32 * a as u32;
    let ba: u32 = bg as u32 * (255 - a as u32);
    assert(fa == fg as int * a as int);
    assert(ba == bg as int * (255 - a as int));
    ((fa + ba) / 255) as u8
}

impl Default for Color {
    fn default() -> (c: Color)
        ensures
            c == (Color { r: 0, g: 0, b: 0, a: 255 }),
    {
        Color::rgb(0, 0, 0)
    }
}

/// Reader settings. Lengths are centipixels, `line_height` is percent.
#[derive(Debug, Clone)]
pub struct ReaderSettings {
    pub font_family: String,
    pub font_size: u32,
    pub line_height: u32,
    pub letter_spacing: i32,
    pub padding_x: u32,
    pub padding_y: u32,
    pub text_align: TextAlign,
    pub paragraph_indent: u32,
    pub paragraph_spacing: u32,
    /// Upper bound on the width of a single column; 0 means no bound.
    pub max_content_width: u32,
    /// 1 or 2; any value of 2 or more lays out two columns.
    pub columns: u8,
    pub column_gap: u32,
    pub container_width: u32,
    pub container_height: u32,
    pub background_color: Color,
    pub text_color: Color,
    pub link_color: Color,
    pub heading_color: Color,
    pub hyphenation: bool,
}

/// The column count used where none is given.
pub fn default_columns() -> (r: u8)
    ensures
        r == 1,
{
    1
}

/// The column gap used where none is given: 48 px.
pub fn default_column_gap() -> (r: u32)
    ensures
        r == 4800,
{
    4800
}

/// Scale of a heading level in thousandths of the body size.
pub open spec fn heading_scale(level: u8) -> int {
    if level == 1 {
        2000
    } else if level == 2 {
        1500
    } else if level == 3 {
        1250
    } else if level == 4 {
        1000
    } else if level == 5 {
        875
    } else {
        750
    }
}

/// Half of `x`, rounded towards zero.
pub open spec fn half_toward_zero(x: int) -> int {
    if x >= 0 {
        x / 2
    } else {
        -((-x) / 2)
    }
}

impl ReaderSettings {
    pub open spec fn total_content_width_spec(&self) -> int {
        let available = self.container_width - 2 * self.padding_x;
        if self.max_content_width > 0 && self.columns == 1 && self.max_content_width < available {
            self.max_content_width as int
        } else {
            available
        }
    }

    pub open spec fn content_width_spec(&self) -> int {
        if self.columns >= 2 {
            half_toward_zero(self.total_content_width_spec() - self.column_gap)
        } else {
            self.total_content_width_spec()
        }
    }

    pub open spec fn content_height_spec(&self) -> int {
        self.container_height - 2 * self.padding_y
    }

    pub open spec fn line_height_px_spec(&self) -> int {
        self.font_size * self.line_height / 100
    }

    pub open spec fn heading_size_spec(&self, level: u8) -> int {
        self.font_size * heading_scale(level) / 1000
    }

    pub open spec fn column_1_x_spec(&self) -> int {
        let total = self.total_content_width_spec();
        let used = if self.columns >= 2 {
            total
        } else if self.max_content_width > 0 && self.max_content_width < total {
            self.max_content_width as int
        } else {
            total
        };
        self.padding_x + (total - used) / 2
    }

    pub open spec fn column_2_x_spec(&self) -> int {
        if self.columns >= 2 {
            self.column_1_x_spec() + self.content_width_spec() + self.column_gap
        } else {
            self.column_1_x_spec()
        }
    }

    /// Width of both columns together, before the gap is taken out.
    pub fn total_content_width(&self) -> (r: i64)
        ensures
            r == self.total_content_width_spec(),
    {
        let available: i64 = self.container_width as i64 - 2 * (self.padding_x as i64);
        if self.max_content_width > 0 && self.columns == 1 && (self.max_content_width as i64)
            < available {
            self.max_content_width as i64
        } else {
            available
        }
    }

    /// Width of one column.
    pub fn content_width(&self) -> (r: i64)
        ensures
            r == self.content_width_spec(),
    {
        let total = self.total_content_width();
        if self.columns >= 2 {
            let d = total - self.column_gap as i64;
            if d >= 0 {
                d / 2
            } else {
                -((-d) / 2)
            }
        } else {
            total
        }
    }

    /// Height of a column: the container less the padding above and below.
    pub fn content_height(&self) -> (r: i64)
        ensures
            r == self.content_height_spec(),
    {
        self.container_height as i64 - 2 * (self.padding_y as i64)
    }

    /// Height of one line of body text.
    pub fn line_height_px(&self) -> (r: u64)
        ensures
            r == self.line_height_px_spec(),
    {
        assert(self.font_size * self.line_height <= u32::MAX * u32::MAX) by (nonlinear_arith)
            requires
                self.font_size <= u32::MAX,
                self.line_height <= u32::MAX,
        ;
        (self.font_size as u64 * self.line_height as u64) / 100
    }

    /// Font size of a heading of the given level (1 to 6; any other level is
    /// sized as level 6).
    pub fn heading_size(&self, level: u8) -> (r: u64)
        ensures
            r == self.heading_size_spec(level),
    {
        let scale: u64 = if level == 1 {
            2000
        } else if level == 2 {
            1500
        } else if level == 3 {
            1250
        } else if level == 4 {
            1000
        } else if level == 5 {
            875
        } else {
            750
        };
        assert(self.font_size * scale <= u32::MAX * 2000) by (nonlinear_arith)
            requires
                self.font_size <= u32::MAX,
                scale <= 2000,
        ;
        (self.font_size as u64 * scale) / 1000
    }

    /// Left edge of the first column.
    pub fn column_1_x(&self) -> (r: i64)
        ensures
            r == self.column_1_x_spec(),
    {
        let total = self.total_content_width();
        let used = if self.columns >= 2 {
            total
        } else if self.max_content_width > 0 && (self.max_content_width as i64) < total {
            self.max_content_width as i64
        } else {
            total
        };
        self.padding_x as i64 + (total - used) / 2
    }

    /// Left edge of the second column (the first column's where there is one).
    pub fn column_2_x(&self) -> (r: i64)
        ensures
            r == self.column_2_x_spec(),
    {
        if self.columns >= 2 {
            self.column_1_x() + self.content_width() + self.column_gap as i64
        } else {
            self.column_1_x()
        }
    }
}

impl Default for ReaderSettings {
    fn default() -> (s: ReaderSettings)
        ensures
            s.font_family@ == "Literata"@,
            s.font_size == 1800,
            s.line_height == 180,
            s.letter_spacing == 0,
            s.padding_x == 4800,
            s.padding_y == 4000,
            s.text_align == TextAlign::Justify,
            s.paragraph_indent == 2700,
            s.paragraph_spacing == 2250,
            s.max_content_width == 67200,
            s.columns == 1,
            s.column_gap == 4800,
            s.container_width == 0,
            s.container_height == 0,
            s.background_color == (Color { r: 253, g: 251, b: 247, a: 255 }),
            s.text_color == (Color { r: 45, g: 42, b: 38, a: 255 }),
            s.link_color == (Color { r: 59, g: 130, b: 246, a: 255 }),
            s.heading_color == (Color { r: 30, g: 28, b: 25, a: 255 }),
            s.hyphenation,
    {
        ReaderSettings {
            font_family: String::from_str("Literata"),
            font_size: 1800,
            line_height: 180,
            letter_spacing: 0,
            padding_x: 4800,
            padding_y: 4000,
            text_align: TextAlign::Justify,
            paragraph_indent: 2700,
            paragraph_spacing: 2250,
            max_content_width: 67200,
            columns: default_columns(),
            column_gap: default_column_gap(),
            container_width: 0,
            container_height: 0,
            background_color: Color::rgb(253, 251, 247),
            text_color: Color::rgb(45, 42, 38),
            link_color: Color::rgb(59, 130, 246),
            heading_color: Color::rgb(30, 28, 25),
            hyphenation: true,
        }
    }
}

} // verus!
