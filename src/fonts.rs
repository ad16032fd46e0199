//! Font faces by family and style, and the rules that name them.
use vstd::prelude::*;
use crate::error::ReaderError;
use crate::measure::{byte_len, utf8_len};
use crate::search::clip;

verus! {

/// A parsed font face of `fontdue`, carried through unopened.
#[verifier::external_type_specification]
#[verifier::external_body]
pub struct ExFont(fontdue::Font);

/// Whether `fontdue` reads the bytes as a font file.
pub uninterp spec fn font_parses(data: Seq<u8>) -> bool;

/// Relies on `fontdue::Font::from_bytes` with default settings: parses a font
/// file, or says why it could not; which of the two depends on the bytes
/// alone.
#[verifier::external_body]
fn parse_font(data: &Vec<u8>) -> (r: Result<fontdue::Font, String>)
    ensures
        r is Ok == font_parses(data@),
{
    fontdue::Font::from_bytes(data.as_slice(), fontdue::FontSettings::default()).map_err(
        |e| format!("Failed to load font: {}", e),
    )
}

/// The style of a font face.
#[derive(Debug, Clone, Copy, PartialEq, Eq, Hash, Structural)]
pub enum FontStyle {
    Regular,
    Bold,
    Italic,
    BoldItalic,
}

impl FontStyle {
    /// The style with the given weight and slant.
    pub fn from_flags(bold: bool, italic: bool) -> (r: FontStyle)
        ensures
            r == (if bold && italic {
                FontStyle::BoldItalic
            } else if bold {
                FontStyle::Bold
            } else if italic {
                FontStyle::Italic
            } else {
                FontStyle::Regular
            }),
    {
        match (bold, italic) {
            (false, false) => FontStyle::Regular,
            (true, false) => FontStyle::Bold,
            (false, true) => FontStyle::Italic,
            (true, true) => FontStyle::BoldItalic,
        }
    }
}

/// Whether `c` is the lower-case letter `s`, or its ASCII capital.
pub open spec fn same_letter(c: char, s: char) -> bool {
    c == s || ('a' <= s && s <= 'z' && (c as u32) + 32 == (s as u32))
}

/// Whether `name` ends with the lower-case ASCII `suffix`, ignoring ASCII case.
pub open spec fn ends_with_ci(name: Seq<char>, suffix: Seq<char>) -> bool {
    suffix.len() <= name.len() && forall|i: int|
        0 <= i < suffix.len() ==> same_letter(
            #[trigger] name[name.len() - suffix.len() + i],
            suffix[i],
        )
}

/// How a font's name splits into family and style: the first of the suffixes
/// `-bolditalic`, `-boldit`, `-bold`, `-italic`, `-it`, `-regular` that ends
/// the name (in any case) is cut off and gives the style; with none the whole
/// name is the family and the style is regular.
pub open spec fn font_name_parts(name: Seq<char>) -> (Seq<char>, FontStyle) {
    let cut = |n: int| name.subrange(0, name.len() - n);
    if ends_with_ci(name, "-bolditalic"@) {
        (cut(11), FontStyle::BoldItalic)
    } else if ends_with_ci(name, "-boldit"@) {
        (cut(7), FontStyle::BoldItalic)
    } else if ends_with_ci(name, "-bold"@) {
        (cut(5), FontStyle::Bold)
    } else if ends_with_ci(name, "-italic"@) {
        (cut(7), FontStyle::Italic)
    } else if ends_with_ci(name, "-it"@) {
        (cut(3), FontStyle::Italic)
    } else if ends_with_ci(name, "-regular"@) {
        (cut(8), FontStyle::Regular)
    } else {
        (name, FontStyle::Regular)
    }
}

pub(crate) fn letter_matches(c: char, s: char) -> (r: bool)
    ensures
        r == same_letter(c, s),
{
    c == s || ('a' <= s && s <= 'z' && (c as u32) + 32 == (s as u32))
}

fn ends_with_suffix(name: &Vec<char>, suffix: &str) -> (r: bool)
    ensures
        r == ends_with_ci(name@, suffix@),
{
    let sfx = crate::document::chars_of(suffix);
    if sfx.len() > name.len() {
        return false;
    }
    let nl = name.len();
    let off = nl - sfx.len();
    let mut i: usize = 0;
    while i < sfx.len()
        invariant
            nl == name@.len(),
            sfx@ == suffix@,
            sfx@.len() <= name@.len(),
            off == name@.len() - sfx@.len(),
            i <= sfx@.len(),
            forall|j: int|
                0 <= j < i ==> same_letter(#[trigger] name@[name@.len() - sfx@.len() + j], sfx@[j]),
        decreases sfx.len() - i,
    {
        if !letter_matches(name[off + i], sfx[i]) {
            return false;
        }
        i += 1;
    }
    true
}

fn prefix_string(v: &Vec<char>, n: usize) -> (r: String)
    requires
        n <= v@.len(),
    ensures
        r@ == v@.subrange(0, n as int),
{
    let mut out = String::new();
    let mut i: usize = 0;
    while i < n
        invariant
            i <= n,
            n <= v@.len(),
            out@ == v@.subrange(0, i as int),
        decreases n - i,
    {
        crate::document::push_char(&mut out, v[i]);
        i += 1;
        assert(out@ =~= v@.subrange(0, i as int));
    }
    out
}

/// Splits a font's name into family and style.
pub fn parse_font_name(name: &str) -> (r: (String, FontStyle))
    ensures
        (r.0@, r.1) == font_name_parts(name@),
{
    let v = crate::document::chars_of(name);
    let n = v.len();
    let (cut, style): (usize, FontStyle) = if ends_with_suffix(&v, "-bolditalic") {
        (11, FontStyle::BoldItalic)
    } else if ends_with_suffix(&v, "-boldit") {
        (7, FontStyle::BoldItalic)
    } else if ends_with_suffix(&v, "-bold") {
        (5, FontStyle::Bold)
    } else if ends_with_suffix(&v, "-italic") {
        (7, FontStyle::Italic)
    } else if ends_with_suffix(&v, "-it") {
        (3, FontStyle::Italic)
    } else if ends_with_suffix(&v, "-regular") {
        (8, FontStyle::Regular)
    } else {
        (0, FontStyle::Regular)
    };
    proof {
        reveal_strlit("-bolditalic");
        reveal_strlit("-boldit");
        reveal_strlit("-bold");
        reveal_strlit("-italic");
        reveal_strlit("-it");
        reveal_strlit("-regular");
    }
    let family = prefix_string(&v, n - cut);
    assert(cut == 0 ==> v@.subrange(0, n as int) =~= v@);
    (family, style)
}

/// Where a line may break after a character.
#[derive(Debug, Clone, Copy, PartialEq, Eq, Structural)]
pub enum BreakOpportunity {
    NoBreak,
    Allowed,
    Required,
}

/// The break kind of a character: required after a line break, allowed after
/// a space, tab or hyphen.
pub open spec fn break_kind(c: char) -> BreakOpportunity {
    if c == '\n' || c == '\r' {
        BreakOpportunity::Required
    } else if c == ' ' || c == '\t' || c == '-' {
        BreakOpportunity::Allowed
    } else {
        BreakOpportunity::NoBreak
    }
}

/// The break opportunities among the first `n` characters of `t`, each with
/// its character's byte offset.
pub open spec fn breaks_upto(t: Seq<char>, n: int) -> Seq<(usize, BreakOpportunity)>
    decreases n,
{
    if n <= 0 || n > t.len() {
        seq![]
    } else {
        let prev = breaks_upto(t, n - 1);
        let k = break_kind(t[n - 1]);
        if k == BreakOpportunity::NoBreak {
            prev
        } else {
            prev.push((clip(byte_len(t.subrange(0, n - 1))) as usize, k))
        }
    }
}

/// Every place where a line may or must break, with the byte offset of the
/// character there, in text order.
pub fn find_break_opportunities(text: &str) -> (r: Vec<(usize, BreakOpportunity)>)
    ensures
        r@ == breaks_upto(text@, text@.len() as int),
{
    let t = crate::document::chars_of(text);
    let mut out: Vec<(usize, BreakOpportunity)> = Vec::new();
    let mut offset: u128 = 0;
    let mut i: usize = 0;
    while i < t.len()
        invariant
            t@ == text@,
            i <= t@.len(),
            offset == byte_len(t@.subrange(0, i as int)),
            offset <= 4 * i,
            out@ == breaks_upto(t@, i as int),
        decreases t.len() - i,
    {
        let c = t[i];
        let kind = if c == '\n' || c == '\r' {
            BreakOpportunity::Required
        } else if c == ' ' || c == '\t' || c == '-' {
            BreakOpportunity::Allowed
        } else {
            BreakOpportunity::NoBreak
        };
        if kind != BreakOpportunity::NoBreak {
            let o: usize = if offset > usize::MAX as u128 {
                usize::MAX
            } else {
                offset as usize
            };
            out.push((o, kind));
        }
        assert(t@.subrange(0, i + 1).drop_last() =~= t@.subrange(0, i as int));
        let w: u128 = if (c as u32) < 0x80 {
            1
        } else if (c as u32) < 0x800 {
            2
        } else if (c as u32) < 0x10000 {
            3
        } else {
            4
        };
        assert(w == utf8_len(c));
        offset = offset + w;
        i += 1;
    }
    out
}

/// Whether two texts are equal.
pub fn same_text(a: &str, b: &str) -> (r: bool)
    ensures
        r == (a@ == b@),
{
    let x = crate::document::chars_of(a);
    let y = crate::document::chars_of(b);
    if x.len() != y.len() {
        return false;
    }
    let mut i: usize = 0;
    while i < x.len()
        invariant
            x@ == a@,
            y@ == b@,
            x@.len() == y@.len(),
            i <= x@.len(),
            forall|j: int| 0 <= j < i ==> x@[j] == y@[j],
        decreases x.len() - i,
    {
        if x[i] != y[i] {
            assert(x@[i as int] != y@[i as int]);
            return false;
        }
        i += 1;
    }
    assert(x@ =~= y@);
    true
}

/// The first entry of `v` with style `st`.
pub open spec fn style_slot(v: Seq<(FontStyle, fontdue::Font)>, st: FontStyle) -> Option<int>
    decreases v.len(),
{
    if v.len() == 0 {
        None
    } else {
        match style_slot(v.drop_last(), st) {
            Some(i) => Some(i),
            None => if v.last().0 == st {
                Some(v.len() - 1)
            } else {
                None
            },
        }
    }
}

/// The face a family uses for `st`: its own, or else its regular one.
pub open spec fn face_for(v: Seq<(FontStyle, fontdue::Font)>, st: FontStyle) -> Option<fontdue::Font> {
    match style_slot(v, st) {
        Some(i) => Some(v[i].1),
        None => if st != FontStyle::Regular {
            match style_slot(v, FontStyle::Regular) {
                Some(i) => Some(v[i].1),
                None => None,
            }
        } else {
            None
        },
    }
}

proof fn lemma_style_slot(v: Seq<(FontStyle, fontdue::Font)>, st: FontStyle)
    ensures
        match style_slot(v, st) {
            Some(i) => 0 <= i < v.len() && v[i].0 == st && forall|j: int| 0 <= j < i ==> v[j].0 != st,
            None => forall|j: int| 0 <= j < v.len() ==> v[j].0 != st,
        },
    decreases v.len(),
{
    if v.len() > 0 {
        lemma_style_slot(v.drop_last(), st);
        assert(forall|j: int| 0 <= j < v.len() - 1 ==> v.drop_last()[j] == v[j]);
    }
}

proof fn lemma_style_slot_same(v0: Seq<(FontStyle, fontdue::Font)>, v1: Seq<(FontStyle, fontdue::Font)>, st: FontStyle)
    requires
        v0.len() == v1.len(),
        forall|j: int| 0 <= j < v0.len() ==> (v0[j].0 == st) == (v1[j].0 == st),
    ensures
        style_slot(v0, st) == style_slot(v1, st),
    decreases v0.len(),
{
    if v0.len() > 0 {
        lemma_style_slot_same(v0.drop_last(), v1.drop_last(), st);
    }
}

/// A font family's faces, one per style.
#[derive(Debug)]
pub struct FontFamily {
    pub name: String,
    pub variants: Vec<(FontStyle, fontdue::Font)>,
}

fn find_style(v: &Vec<(FontStyle, fontdue::Font)>, st: FontStyle) -> (r: Option<usize>)
    ensures
        r matches Some(i) ==> i < v@.len(),
        match r {
            Some(i) => style_slot(v@, st) == Some(i as int),
            None => style_slot(v@, st) is None,
        },
{
    proof {
        lemma_style_slot(v@, st);
    }
    let mut i: usize = 0;
    while i < v.len()
        invariant
            i <= v@.len(),
            forall|j: int| 0 <= j < i ==> v@[j].0 != st,
            match style_slot(v@, st) {
                Some(k) => 0 <= k < v@.len() && v@[k].0 == st && forall|j: int| 0 <= j < k ==> v@[j].0 != st,
                None => forall|j: int| 0 <= j < v@.len() ==> v@[j].0 != st,
            },
        decreases v.len() - i,
    {
        if v[i].0 == st {
            return Some(i);
        }
        i += 1;
    }
    None
}

impl FontFamily {
    pub fn new(name: &str) -> (r: FontFamily)
        ensures
            r.name@ == name@,
            r.variants@.len() == 0,
    {
        FontFamily { name: String::from_str(name), variants: Vec::new() }
    }

    /// The face for `style`, falling back to the regular face.
    pub fn get(&self, style: FontStyle) -> (r: Option<&fontdue::Font>)
        ensures
            match r {
                Some(f) => face_for(self.variants@, style) == Some(*f),
                None => face_for(self.variants@, style) is None,
            },
    {
        match find_style(&self.variants, style) {
            Some(i) => Some(&self.variants[i].1),
            None => {
                if style != FontStyle::Regular {
                    match find_style(&self.variants, FontStyle::Regular) {
                        Some(i) => Some(&self.variants[i].1),
                        None => None,
                    }
                } else {
                    None
                }
            },
        }
    }

    /// Sets the face for `style`, replacing any face it had.
    pub fn insert(&mut self, style: FontStyle, font: fontdue::Font)
        ensures
            final(self).name == old(self).name,
            face_for(final(self).variants@, style) == Some(font),
            forall|st: FontStyle|
                st != style && style_slot(old(self).variants@, st) is Some ==> #[trigger] style_slot(
                    final(self).variants@,
                    st,
                ) is Some && final(self).variants@[style_slot(final(self).variants@, st)->0].1
                    == old(self).variants@[style_slot(old(self).variants@, st)->0].1,
    {
        let ghost v0 = self.variants@;
        match find_style(&self.variants, style) {
            Some(i) => {
                self.variants.set(i, (style, font));
                proof {
                    let v1 = self.variants@;
                    assert(v1 =~= v0.update(i as int, (style, font)));
                    lemma_style_slot(v0, style);
                    lemma_style_slot(v1, style);
                    lemma_style_slot_same(v0, v1, style);
                    assert forall|st: FontStyle|
                        st != style && style_slot(v0, st) is Some implies #[trigger] style_slot(
                            v1,
                            st,
                        ) is Some && v1[style_slot(v1, st)->0].1 == v0[style_slot(v0, st)->0].1 by {
                        lemma_style_slot_same(v0, v1, st);
                        lemma_style_slot(v0, st);
                    }
                }
            },
            None => {
                self.variants.push((style, font));
                proof {
                    let v1 = self.variants@;
                    assert(v1.drop_last() =~= v0);
                    lemma_style_slot(v0, style);
                    lemma_style_slot(v1, style);
                    assert forall|st: FontStyle|
                        st != style && style_slot(v0, st) is Some implies #[trigger] style_slot(
                            v1,
                            st,
                        ) is Some && v1[style_slot(v1, st)->0].1 == v0[style_slot(v0, st)->0].1 by {
                        lemma_style_slot(v0, st);
                        lemma_style_slot(v1, st);
                    }
                }
            },
        }
    }
}

proof fn lemma_family_slot_same(v0: Seq<FontFamily>, v1: Seq<FontFamily>, name: Seq<char>)
    requires
        v0.len() == v1.len(),
        forall|j: int| 0 <= j < v0.len() ==> (v0[j].name@ == name) == (v1[j].name@ == name),
    ensures
        family_slot(v0, name) == family_slot(v1, name),
    decreases v0.len(),
{
    if v0.len() > 0 {
        lemma_family_slot_same(v0.drop_last(), v1.drop_last(), name);
    }
}

/// The loaded fonts, by family, and the files they came from.
#[derive(Debug)]
pub struct FontManager {
    pub fonts: Vec<FontFamily>,
    pub font_data: Vec<Vec<u8>>,
}

/// The first family named `name`.
pub open spec fn family_slot(v: Seq<FontFamily>, name: Seq<char>) -> Option<int>
    decreases v.len(),
{
    if v.len() == 0 {
        None
    } else {
        match family_slot(v.drop_last(), name) {
            Some(i) => Some(i),
            None => if v.last().name@ == name {
                Some(v.len() - 1)
            } else {
                None
            },
        }
    }
}

proof fn lemma_family_slot(v: Seq<FontFamily>, name: Seq<char>)
    ensures
        match family_slot(v, name) {
            Some(i) => 0 <= i < v.len() && v[i].name@ == name && forall|j: int|
                0 <= j < i ==> v[j].name@ != name,
            None => forall|j: int| 0 <= j < v.len() ==> v[j].name@ != name,
        },
    decreases v.len(),
{
    if v.len() > 0 {
        lemma_family_slot(v.drop_last(), name);
        assert(forall|j: int| 0 <= j < v.len() - 1 ==> v.drop_last()[j] == v[j]);
    }
}

fn find_family(v: &Vec<FontFamily>, name: &str) -> (r: Option<usize>)
    ensures
        r matches Some(i) ==> i < v@.len(),
        match r {
            Some(i) => family_slot(v@, name@) == Some(i as int),
            None => family_slot(v@, name@) is None,
        },
{
    proof {
        lemma_family_slot(v@, name@);
    }
    let mut i: usize = 0;
    while i < v.len()
        invariant
            i <= v@.len(),
            forall|j: int| 0 <= j < i ==> v@[j].name@ != name@,
            match family_slot(v@, name@) {
                Some(k) => 0 <= k < v@.len() && v@[k].name@ == name@ && forall|j: int|
                    0 <= j < k ==> v@[j].name@ != name@,
                None => forall|j: int| 0 <= j < v@.len() ==> v@[j].name@ != name@,
            },
        decreases v.len() - i,
    {
        if same_text(v[i].name.as_str(), name) {
            return Some(i);
        }
        i += 1;
    }
    None
}

impl FontManager {
    pub fn new() -> (r: FontManager)
        ensures
            r.fonts@.len() == 0,
            r.font_data@.len() == 0,
    {
        FontManager { fonts: Vec::new(), font_data: Vec::new() }
    }

    /// The face that `family` uses for `style`.
    pub open spec fn face(&self, family: Seq<char>, style: FontStyle) -> Option<fontdue::Font> {
        match family_slot(self.fonts@, family) {
            Some(i) => face_for(self.fonts@[i].variants@, style),
            None => None,
        }
    }

    /// Loads a font file under the family and style that its name gives.
    /// Where the file cannot be parsed nothing changes and the error says why.
    pub fn load_font(&mut self, font_name: &str, data: &Vec<u8>) -> (r: Result<(), ReaderError>)
        ensures
            r is Ok <==> font_parses(data@),
            r is Err ==> *final(self) == *old(self),
            r matches Err(e) ==> e is FontError,
            r is Ok ==> ({
                let (fam, st) = font_name_parts(font_name@);
                final(self).face(fam, st) is Some
            }),
            r is Ok ==> final(self).font_data@.len() == old(self).font_data@.len() + 1,
    {
        let (family_name, style) = parse_font_name(font_name);
        let font = match parse_font(data) {
            Ok(f) => f,
            Err(msg) => {
                return Err(ReaderError::FontError(msg));
            },
        };
        self.font_data.push(data.clone());
        match find_family(&self.fonts, family_name.as_str()) {
            Some(i) => {
                let ghost f0 = self.fonts@;
                let mut fam = self.fonts.remove(i);
                fam.insert(style, font);
                self.fonts.insert(i, fam);
                proof {
                    assert(self.fonts@ =~= f0.update(i as int, self.fonts@[i as int]));
                    lemma_family_slot_same(f0, self.fonts@, family_name@);
                }
            },
            None => {
                let mut fam = FontFamily::new(family_name.as_str());
                fam.insert(style, font);
                let ghost f0 = self.fonts@;
                self.fonts.push(fam);
                proof {
                    assert(self.fonts@.drop_last() =~= f0);
                }
            },
        }
        Ok(())
    }

    /// The family named `name`.
    pub fn get_family(&self, name: &str) -> (r: Option<&FontFamily>)
        ensures
            match r {
                Some(f) => family_slot(self.fonts@, name@) matches Some(i) && *f == self.fonts@[i],
                None => family_slot(self.fonts@, name@) is None,
            },
    {
        match find_family(&self.fonts, name) {
            Some(i) => Some(&self.fonts[i]),
            None => None,
        }
    }

    /// The face of `family_name` for `style`, or its regular face.
    pub fn get_font(&self, family_name: &str, style: FontStyle) -> (r: Option<&fontdue::Font>)
        ensures
            match r {
                Some(f) => self.face(family_name@, style) == Some(*f),
                None => self.face(family_name@, style) is None,
            },
    {
        match self.get_family(family_name) {
            Some(f) => f.get(style),
            None => None,
        }
    }

    pub fn has_family(&self, name: &str) -> (r: bool)
        ensures
            r == (family_slot(self.fonts@, name@) is Some),
    {
        find_family(&self.fonts, name).is_some()
    }

    /// The names of the loaded families, in loading order.
    pub fn list_families(&self) -> (r: Vec<String>)
        ensures
            r@.len() == self.fonts@.len(),
            forall|i: int| 0 <= i < r@.len() ==> #[trigger] r@[i]@ == self.fonts@[i].name@,
    {
        let mut out: Vec<String> = Vec::new();
        let mut i: usize = 0;
        while i < self.fonts.len()
            invariant
                i <= self.fonts@.len(),
                out@.len() == i,
                forall|j: int| 0 <= j < i ==> #[trigger] out@[j]@ == self.fonts@[j].name@,
            decreases self.fonts.len() - i,
        {
            out.push(self.fonts[i].name.clone());
            i += 1;
        }
        out
    }
}

impl Default for FontManager {
    fn default() -> (r: FontManager)
        ensures
            r.fonts@.len() == 0,
            r.font_data@.len() == 0,
    {
        FontManager::new()
    }
}

} // verus!
