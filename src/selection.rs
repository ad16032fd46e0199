//! Text selection over the characters laid out on a page.
//!
//! Coordinates are whole pixels.
use vstd::prelude::*;
use crate::document::push_char;

verus! {

/// A character with the box it occupies on the page.
#[derive(Debug, Clone)]
pub struct PositionedChar {
    pub char: char,
    /// Left edge.
    pub x: i32,
    /// Top of the line.
    pub y: i32,
    pub width: i32,
    /// Height of the line.
    pub height: i32,
    /// Position of the character in the page's text.
    pub text_index: usize,
    pub chapter_id: String,
}

/// A selected range of the page's text.
#[derive(Debug, Clone)]
pub struct TextSelection {
    pub start_index: usize,
    /// One past the last selected index.
    pub end_index: usize,
    pub text: String,
    pub chapter_id: String,
}

/// A highlight rectangle.
#[derive(Debug, Clone, Copy, PartialEq, Eq, Structural)]
pub struct SelectionRect {
    pub x: i64,
    pub y: i64,
    pub width: i64,
    pub height: i64,
}

/// The characters of a page, the current selection, and the drag in progress.
#[derive(Debug)]
pub struct SelectionState {
    pub chars: Vec<PositionedChar>,
    pub selection: Option<TextSelection>,
    pub is_selecting: bool,
    pub drag_start: Option<(i32, i32)>,
}

/// Whether the line of `c` spans the height `y`.
pub open spec fn in_band(c: PositionedChar, y: int) -> bool {
    c.y <= y < c.y + c.height
}

/// Twice the horizontal distance from the centre of `c` to `x`.
pub open spec fn x_dist(c: PositionedChar, x: int) -> int {
    let d = 2 * c.x + c.width - 2 * x;
    if d < 0 {
        -d
    } else {
        d
    }
}

/// Distance from the top of the line of `c` to `y`.
pub open spec fn y_dist(c: PositionedChar, y: int) -> int {
    if c.y < y {
        y - c.y
    } else {
        c.y - y
    }
}

/// Among the first `n` characters that `pick` admits, the first one of least
/// `key`.
pub open spec fn first_min(
    v: Seq<PositionedChar>,
    n: int,
    pick: spec_fn(PositionedChar) -> bool,
    key: spec_fn(PositionedChar) -> int,
) -> Option<int>
    decreases n,
{
    if n <= 0 || n > v.len() {
        None
    } else {
        let prev = first_min(v, n - 1, pick, key);
        if !pick(v[n - 1]) {
            prev
        } else {
            match prev {
                None => Some(n - 1),
                Some(j) => if key(v[n - 1]) < key(v[j]) {
                    Some(n - 1)
                } else {
                    prev
                },
            }
        }
    }
}

pub open spec fn band_pick(y: int) -> spec_fn(PositionedChar) -> bool {
    |c: PositionedChar| in_band(c, y)
}

pub open spec fn any_pick() -> spec_fn(PositionedChar) -> bool {
    |c: PositionedChar| true
}

pub open spec fn row_pick(row: int) -> spec_fn(PositionedChar) -> bool {
    |c: PositionedChar| c.y == row
}

pub open spec fn x_key(x: int) -> spec_fn(PositionedChar) -> int {
    |c: PositionedChar| x_dist(c, x)
}

pub open spec fn y_key(y: int) -> spec_fn(PositionedChar) -> int {
    |c: PositionedChar| y_dist(c, y)
}

/// The character nearest to `(x, y)`: on the line that spans `y`, or else on
/// the line whose top is nearest to `y`, the one whose centre is nearest to `x`.
pub open spec fn nearest_spec(v: Seq<PositionedChar>, x: int, y: int) -> Option<int> {
    let n = v.len() as int;
    let on_line = first_min(v, n, band_pick(y), x_key(x));
    if on_line is Some {
        on_line
    } else {
        match first_min(v, n, any_pick(), y_key(y)) {
            None => None,
            Some(j) => first_min(v, n, row_pick(v[j].y as int), x_key(x)),
        }
    }
}

/// The characters whose index lies in `[s, e)`, in page order.
pub open spec fn selected(v: Seq<PositionedChar>, s: int, e: int) -> Seq<PositionedChar>
    decreases v.len(),
{
    if v.len() == 0 {
        seq![]
    } else if s <= v.last().text_index < e {
        selected(v.drop_last(), s, e).push(v.last())
    } else {
        selected(v.drop_last(), s, e)
    }
}

/// The characters of `v`, as text.
pub open spec fn chars_text(v: Seq<PositionedChar>) -> Seq<char> {
    v.map_values(|c: PositionedChar| c.char)
}

/// The runs of characters on one line: `(first, one past last)`, in order.
pub open spec fn runs(v: Seq<PositionedChar>) -> Seq<(int, int)>
    decreases v.len(),
{
    if v.len() == 0 {
        seq![]
    } else {
        let r = runs(v.drop_last());
        let n = v.len() as int;
        if r.len() > 0 && v[n - 2].y == v[n - 1].y {
            r.update(r.len() - 1, (r.last().0, n))
        } else {
            r.push((n - 1, n))
        }
    }
}

/// The rectangle over run `(a, b)` of `v`.
pub open spec fn run_rect(v: Seq<PositionedChar>, a: int, b: int) -> SelectionRect {
    SelectionRect {
        x: v[a].x as i64,
        y: v[a].y as i64,
        width: (v[b - 1].x + v[b - 1].width - v[a].x) as i64,
        height: v[a].height as i64,
    }
}

pub open spec fn rects_of(v: Seq<PositionedChar>) -> Seq<SelectionRect> {
    let r = runs(v);
    Seq::new(r.len(), |k: int| run_rect(v, r[k].0, r[k].1))
}

fn x_distance(c: &PositionedChar, x: i32) -> (r: i64)
    ensures
        r == x_dist(*c, x as int),
{
    let d: i64 = 2 * (c.x as i64) + c.width as i64 - 2 * (x as i64);
    if d < 0 {
        -d
    } else {
        d
    }
}

fn y_distance(c: &PositionedChar, y: i32) -> (r: i64)
    ensures
        r == y_dist(*c, y as int),
{
    if (c.y as i64) < y as i64 {
        y as i64 - c.y as i64
    } else {
        c.y as i64 - y as i64
    }
}

/// Which of three searches to run: on the band that spans a height, over all
/// characters by line distance, or on the line with a given top.
pub enum Probe {
    Band(i32, i32),
    Lines(i32),
    Row(i32, i32),
}

pub open spec fn probe_pick(p: Probe) -> spec_fn(PositionedChar) -> bool {
    match p {
        Probe::Band(_, y) => band_pick(y as int),
        Probe::Lines(_) => any_pick(),
        Probe::Row(row, _) => row_pick(row as int),
    }
}

pub open spec fn probe_key(p: Probe) -> spec_fn(PositionedChar) -> int {
    match p {
        Probe::Band(x, _) => x_key(x as int),
        Probe::Lines(y) => y_key(y as int),
        Probe::Row(_, x) => x_key(x as int),
    }
}

fn run_probe(v: &Vec<PositionedChar>, p: Probe) -> (r: Option<usize>)
    ensures
        r matches Some(i) ==> i < v@.len(),
        match r {
            Some(i) => first_min(v@, v@.len() as int, probe_pick(p), probe_key(p)) == Some(i as int),
            None => first_min(v@, v@.len() as int, probe_pick(p), probe_key(p)) is None,
        },
{
    let mut best: Option<usize> = None;
    let mut best_key: i64 = 0;
    let mut i: usize = 0;
    while i < v.len()
        invariant
            i <= v@.len(),
            best matches Some(j) ==> j < i,
            match best {
                Some(j) => first_min(v@, i as int, probe_pick(p), probe_key(p)) == Some(j as int)
                    && best_key == (probe_key(p))(v@[j as int]),
                None => first_min(v@, i as int, probe_pick(p), probe_key(p)) is None,
            },
        decreases v.len() - i,
    {
        let c = &v[i];
        let (picked, key) = match p {
            Probe::Band(x, y) => (c.y <= y && (y as i64) < c.y as i64 + c.height as i64, x_distance(c, x)),
            Probe::Lines(y) => (true, y_distance(c, y)),
            Probe::Row(row, x) => (c.y == row, x_distance(c, x)),
        };
        assert(picked == (probe_pick(p))(v@[i as int]));
        assert(key == (probe_key(p))(v@[i as int]));
        if picked {
            match best {
                None => {
                    best = Some(i);
                    best_key = key;
                },
                Some(_) => {
                    if key < best_key {
                        best = Some(i);
                        best_key = key;
                    }
                },
            }
        }
        i += 1;
    }
    best
}

/// The selection's rectangles: one per run of selected characters that share
/// a line top, from the first one's left edge to the last one's right edge.
pub open spec fn selection_rects_spec(chars: Seq<PositionedChar>, sel: Option<TextSelection>) -> Seq<SelectionRect> {
    match sel {
        None => seq![],
        Some(t) => rects_of(selected(chars, t.start_index as int, t.end_index as int)),
    }
}

impl SelectionState {
    pub fn new() -> (r: SelectionState)
        ensures
            r.chars@.len() == 0,
            r.selection is None,
            !r.is_selecting,
            r.drag_start is None,
    {
        SelectionState { chars: Vec::new(), selection: None, is_selecting: false, drag_start: None }
    }

    /// Forgets the characters, the selection and any drag.
    pub fn clear(&mut self)
        ensures
            final(self).chars@.len() == 0,
            final(self).selection is None,
            !final(self).is_selecting,
            final(self).drag_start is None,
    {
        self.chars = Vec::new();
        self.selection = None;
        self.is_selecting = false;
        self.drag_start = None;
    }

    pub fn add_char(&mut self, c: PositionedChar)
        ensures
            final(self).chars@ == old(self).chars@.push(c),
            final(self).selection == old(self).selection,
            final(self).is_selecting == old(self).is_selecting,
            final(self).drag_start == old(self).drag_start,
    {
        self.chars.push(c);
    }

    /// The character whose box holds `(x, y)`, the first one if several do.
    pub fn char_at_position(&self, x: i32, y: i32) -> (r: Option<usize>)
        ensures
            match r {
                Some(i) => i < self.chars@.len() && in_box(self.chars@[i as int], x as int, y as int)
                    && forall|j: int| 0 <= j < i ==> !in_box(#[trigger] self.chars@[j], x as int, y as int),
                None => forall|j: int|
                    0 <= j < self.chars@.len() ==> !in_box(#[trigger] self.chars@[j], x as int, y as int),
            },
    {
        let mut i: usize = 0;
        while i < self.chars.len()
            invariant
                i <= self.chars@.len(),
                forall|j: int| 0 <= j < i ==> !in_box(#[trigger] self.chars@[j], x as int, y as int),
            decreases self.chars.len() - i,
        {
            let c = &self.chars[i];
            if c.x <= x && (x as i64) < c.x as i64 + c.width as i64 && c.y <= y && (y as i64)
                < c.y as i64 + c.height as i64 {
                return Some(i);
            }
            i += 1;
        }
        None
    }

    /// The position in `chars` of the character nearest to `(x, y)`.
    pub fn nearest_char(&self, x: i32, y: i32) -> (r: Option<usize>)
        ensures
            r matches Some(i) ==> i < self.chars@.len(),
            match r {
                Some(i) => nearest_spec(self.chars@, x as int, y as int) == Some(i as int),
                None => nearest_spec(self.chars@, x as int, y as int) is None,
            },
    {
        let on_line = run_probe(&self.chars, Probe::Band(x, y));
        if on_line.is_some() {
            return on_line;
        }
        match run_probe(&self.chars, Probe::Lines(y)) {
            None => None,
            Some(j) => run_probe(&self.chars, Probe::Row(self.chars[j].y, x)),
        }
    }
}

/// Whether `(x, y)` lies in the box of `c`.
pub open spec fn in_box(c: PositionedChar, x: int, y: int) -> bool {
    c.x <= x < c.x + c.width && c.y <= y < c.y + c.height
}

impl SelectionState {
    /// Whether every character's index leaves room for one past it.
    pub open spec fn wf(&self) -> bool {
        forall|i: int| 0 <= i < self.chars@.len() ==> #[trigger] self.chars@[i].text_index < usize::MAX
    }

    /// Begins a drag at `(x, y)` and drops the selection.
    pub fn start_selection(&mut self, x: i32, y: i32)
        ensures
            final(self).is_selecting,
            final(self).drag_start == Some((x, y)),
            final(self).selection is None,
            final(self).chars == old(self).chars,
    {
        self.is_selecting = true;
        self.drag_start = Some((x, y));
        self.selection = None;
    }

    /// While dragging, selects from the character nearest to where the drag
    /// began to the one nearest to `(x, y)`, both included, whichever comes
    /// first in the text. Otherwise does nothing.
    pub fn update_selection(&mut self, x: i32, y: i32)
        requires
            old(self).wf(),
        ensures
            final(self).chars == old(self).chars,
            final(self).is_selecting == old(self).is_selecting,
            final(self).drag_start == old(self).drag_start,
            ({
                let v = old(self).chars@;
                if old(self).is_selecting && old(self).drag_start is Some {
                    let (sx, sy) = old(self).drag_start->0;
                    match (nearest_spec(v, sx as int, sy as int), nearest_spec(v, x as int, y as int)) {
                        (Some(a), Some(b)) => {
                            let ta = v[a].text_index as int;
                            let tb = v[b].text_index as int;
                            let lo = if ta <= tb { ta } else { tb };
                            let hi = if ta <= tb { tb + 1 } else { ta + 1 };
                            &&& final(self).selection is Some
                            &&& final(self).selection->0.start_index == lo
                            &&& final(self).selection->0.end_index == hi
                            &&& final(self).selection->0.text@ == ordered_text(v, lo, hi)
                            &&& final(self).selection->0.chapter_id@ == v[a].chapter_id@
                        },
                        _ => final(self).selection == old(self).selection,
                    }
                } else {
                    final(self).selection == old(self).selection
                }
            }),
    {
        if !self.is_selecting {
            return;
        }
        let (sx, sy) = match self.drag_start {
            Some(p) => p,
            None => {
                return;
            },
        };
        let a = self.nearest_char(sx, sy);
        let b = self.nearest_char(x, y);
        match (a, b) {
            (Some(a), Some(b)) => {
                let ta = self.chars[a].text_index;
                let tb = self.chars[b].text_index;
                let (lo, hi) = if ta <= tb {
                    (ta, tb + 1)
                } else {
                    (tb, ta + 1)
                };
                let text = collect_in_order(&self.chars, lo, hi);
                let chapter_id = self.chars[a].chapter_id.clone();
                self.selection = Some(TextSelection { start_index: lo, end_index: hi, text, chapter_id });
            },
            _ => {},
        }
    }

    /// Ends the drag and returns the selection.
    pub fn end_selection(&mut self) -> (r: Option<TextSelection>)
        ensures
            !final(self).is_selecting,
            final(self).drag_start is None,
            final(self).selection == old(self).selection,
            final(self).chars == old(self).chars,
            r matches Some(t) ==> old(self).selection matches Some(u) && t.start_index
                == u.start_index && t.end_index == u.end_index && t.text@ == u.text@
                && t.chapter_id@ == u.chapter_id@,
            r is None <==> old(self).selection is None,
    {
        self.is_selecting = false;
        self.drag_start = None;
        match &self.selection {
            Some(t) => Some(
                TextSelection {
                    start_index: t.start_index,
                    end_index: t.end_index,
                    text: t.text.clone(),
                    chapter_id: t.chapter_id.clone(),
                },
            ),
            None => None,
        }
    }

    /// Drops the selection; a drag in progress goes on.
    pub fn clear_selection(&mut self)
        ensures
            final(self).selection is None,
            final(self).is_selecting == old(self).is_selecting,
            final(self).drag_start == old(self).drag_start,
            final(self).chars == old(self).chars,
    {
        self.selection = None;
    }

    /// The highlight rectangles of the selection, top to bottom as the
    /// characters come.
    pub fn get_selection_rects(&self) -> (r: Vec<SelectionRect>)
        ensures
            r@ == selection_rects_spec(self.chars@, self.selection),
    {
        match &self.selection {
            None => Vec::new(),
            Some(t) => rects_in(&self.chars, t.start_index, t.end_index),
        }
    }
}

fn collect_selected(v: &Vec<PositionedChar>, lo: usize, hi: usize) -> (r: String)
    ensures
        r@ == chars_text(selected(v@, lo as int, hi as int)),
{
    let mut out = String::new();
    let mut i: usize = 0;
    while i < v.len()
        invariant
            i <= v@.len(),
            out@ == chars_text(selected(v@.subrange(0, i as int), lo as int, hi as int)),
        decreases v.len() - i,
    {
        let ghost sub = v@.subrange(0, i + 1);
        assert(sub.drop_last() =~= v@.subrange(0, i as int));
        if lo <= v[i].text_index && v[i].text_index < hi {
            push_char(&mut out, v[i].char);
            assert(out@ =~= chars_text(selected(sub, lo as int, hi as int)));
        }
        i += 1;
    }
    assert(v@.subrange(0, v@.len() as int) =~= v@);
    out
}

fn rects_in(v: &Vec<PositionedChar>, lo: usize, hi: usize) -> (r: Vec<SelectionRect>)
    ensures
        r@ == rects_of(selected(v@, lo as int, hi as int)),
{
    let mut out: Vec<SelectionRect> = Vec::new();
    let mut pending: Option<(i32, i32, i64, i32)> = None;
    let ghost mut a: int = 0;
    let mut i: usize = 0;
    while i < v.len()
        invariant
            i <= v@.len(),
            ({
                let sel = selected(v@.subrange(0, i as int), lo as int, hi as int);
                let rs = runs(sel);
                &&& rs.len() == out@.len() + if pending is Some {
                    1int
                } else {
                    0int
                }
                &&& (pending is None <==> sel.len() == 0)
                &&& forall|k: int| 0 <= k < out@.len() ==> #[trigger] out@[k] == run_rect(sel, rs[k].0, rs[k].1)
                &&& pending matches Some((px, py, pend, ph)) ==> {
                    &&& 0 <= a < sel.len()
                    &&& rs.last() == (a, sel.len() as int)
                    &&& px == sel[a].x && py == sel[a].y && ph == sel[a].height
                    &&& pend == sel.last().x + sel.last().width
                    &&& sel.last().y == py
                }
            }),
        decreases v.len() - i,
    {
        let ghost sub = v@.subrange(0, i + 1);
        assert(sub.drop_last() =~= v@.subrange(0, i as int));
        let c = &v[i];
        if lo <= c.text_index && c.text_index < hi {
            let end_x: i64 = c.x as i64 + c.width as i64;
            match pending {
                None => {
                    pending = Some((c.x, c.y, end_x, c.height));
                    proof {
                        a = 0;
                    }
                },
                Some((px, py, pend, ph)) => {
                    if c.y == py {
                        pending = Some((px, py, end_x, ph));
                    } else {
                        out.push(
                            SelectionRect {
                                x: px as i64,
                                y: py as i64,
                                width: pend - px as i64,
                                height: ph as i64,
                            },
                        );
                        pending = Some((c.x, c.y, end_x, c.height));
                        proof {
                            a = selected(v@.subrange(0, i as int), lo as int, hi as int).len() as int;
                        }
                    }
                },
            }
            proof {
                let sel0 = selected(v@.subrange(0, i as int), lo as int, hi as int);
                let sel = selected(sub, lo as int, hi as int);
                assert(sel == sel0.push(v@[i as int]));
                assert(sel.drop_last() =~= sel0);
                let rs = runs(sel);
                assert forall|k: int| 0 <= k < out@.len() implies #[trigger] out@[k] == run_rect(
                    sel,
                    rs[k].0,
                    rs[k].1,
                ) by {
                    let rs0 = runs(sel0);
                    lemma_runs_shape(sel0);
                    assert(rs[k] == rs0[k]);
                    assert(sel[rs0[k].0] == sel0[rs0[k].0]);
                    assert(sel[rs0[k].1 - 1] == sel0[rs0[k].1 - 1]);
                }
            }
        }
        i += 1;
    }
    assert(v@.subrange(0, v@.len() as int) =~= v@);
    match pending {
        Some((px, py, pend, ph)) => {
            out.push(
                SelectionRect { x: px as i64, y: py as i64, width: pend - px as i64, height: ph as i64 },
            );
        },
        None => {},
    }
    proof {
        let sel = selected(v@, lo as int, hi as int);
        assert(out@ =~= rects_of(sel));
    }
    out
}

/// The runs of `v` cut it into consecutive, non-empty stretches, each on one
/// line, with neighbouring stretches on different lines.
#[verifier::rlimit(100)]
pub proof fn lemma_runs_shape(v: Seq<PositionedChar>)
    ensures
        ({
            let rs = runs(v);
            &&& v.len() == 0 <==> rs.len() == 0
            &&& rs.len() > 0 ==> rs[0].0 == 0 && rs.last().1 == v.len()
            &&& forall|k: int| 0 <= k < rs.len() ==> 0 <= #[trigger] rs[k].0 < rs[k].1 <= v.len()
            &&& forall|k: int| 0 <= k < rs.len() - 1 ==> #[trigger] rs[k].1 == rs[k + 1].0
            &&& forall|k: int, i: int|
                0 <= k < rs.len() && rs[k].0 <= i < rs[k].1 ==> #[trigger] v[i].y == #[trigger] v[rs[k].0].y
            &&& forall|k: int| 0 <= k < rs.len() - 1 ==> #[trigger] v[rs[k].0].y != v[rs[k + 1].0].y
        }),
    decreases v.len(),
{
    if v.len() > 0 {
        let w = v.drop_last();
        lemma_runs_shape(w);
        let r = runs(w);
        let rs = runs(v);
        let n = v.len() as int;
        if r.len() > 0 && v[n - 2].y == v[n - 1].y {
            assert forall|k: int, i: int|
                0 <= k < rs.len() && rs[k].0 <= i < rs[k].1 implies #[trigger] v[i].y
                == #[trigger] v[rs[k].0].y by {
                if i < n - 1 {
                    assert(v[i] == w[i]);
                    assert(v[rs[k].0] == w[rs[k].0]);
                    if k == rs.len() - 1 {
                        assert(w[i].y == w[r[k].0].y);
                    }
                } else {
                    assert(w[n - 2].y == w[r.last().0].y);
                }
            }
            assert forall|k: int| 0 <= k < rs.len() - 1 implies #[trigger] v[rs[k].0].y
                != v[rs[k + 1].0].y by {
                assert(v[rs[k].0] == w[r[k].0]);
                assert(v[rs[k + 1].0] == w[r[k + 1].0]);
            }
        } else {
            assert forall|k: int, i: int|
                0 <= k < rs.len() && rs[k].0 <= i < rs[k].1 implies #[trigger] v[i].y
                == #[trigger] v[rs[k].0].y by {
                if k < r.len() {
                    assert(v[i] == w[i]);
                    assert(v[rs[k].0] == w[rs[k].0]);
                }
            }
            assert forall|k: int| 0 <= k < rs.len() - 1 implies #[trigger] v[rs[k].0].y
                != v[rs[k + 1].0].y by {
                if k < r.len() - 1 {
                    assert(v[rs[k].0] == w[r[k].0]);
                    assert(v[rs[k + 1].0] == w[r[k + 1].0]);
                } else {
                    assert(w[n - 2].y == w[r.last().0].y);
                }
            }
        }
    }
}

/// Whether position `i` lies in one of the runs.
pub open spec fn in_some_run(rs: Seq<(int, int)>, i: int) -> bool {
    exists|k: int| 0 <= k < rs.len() && #[trigger] rs[k].0 <= i < rs[k].1
}

/// Each selected character lies in exactly one rectangle's run (the runs are
/// non-empty, in order and do not overlap, and together cover every
/// character), and where the
/// characters come top to bottom the rectangles do too, each strictly lower
/// than the one before.
pub proof fn lemma_selection_rects(v: Seq<PositionedChar>)
    ensures
        forall|i: int| 0 <= i < v.len() ==> #[trigger] in_some_run(runs(v), i),
        forall|k1: int, k2: int|
            0 <= k1 < k2 < runs(v).len() ==> #[trigger] runs(v)[k1].1 <= #[trigger] runs(v)[k2].0,
        forall|k: int| 0 <= k < runs(v).len() ==> #[trigger] runs(v)[k].0 < runs(v)[k].1,
        (forall|i: int, j: int| 0 <= i < j < v.len() ==> #[trigger] v[i].y <= #[trigger] v[j].y) ==> forall|k: int|
            0 <= k < rects_of(v).len() - 1 ==> #[trigger] rects_of(v)[k].y < rects_of(v)[k + 1].y,
{
    lemma_runs_shape(v);
    let rs = runs(v);
    lemma_runs_ordered(rs, v.len() as int);
    assert forall|i: int| 0 <= i < v.len() implies #[trigger] in_some_run(rs, i) by {
        lemma_runs_find(rs, v.len() as int, i);
    }
    if forall|i: int, j: int| 0 <= i < j < v.len() ==> #[trigger] v[i].y <= #[trigger] v[j].y {
        assert forall|k: int| 0 <= k < rects_of(v).len() - 1 implies #[trigger] rects_of(v)[k].y
            < rects_of(v)[k + 1].y by {
            assert(v[rs[k].0].y <= v[rs[k + 1].0].y);
        }
    }
}

proof fn lemma_runs_ordered(rs: Seq<(int, int)>, n: int)
    requires
        forall|k: int| 0 <= k < rs.len() ==> 0 <= #[trigger] rs[k].0 < rs[k].1 <= n,
        forall|k: int| 0 <= k < rs.len() - 1 ==> #[trigger] rs[k].1 == rs[k + 1].0,
    ensures
        forall|k1: int, k2: int| 0 <= k1 < k2 < rs.len() ==> #[trigger] rs[k1].1 <= #[trigger] rs[k2].0,
    decreases rs.len(),
{
    if rs.len() > 0 {
        let r = rs.drop_last();
        lemma_runs_ordered(r, n);
        assert forall|k1: int, k2: int| 0 <= k1 < k2 < rs.len() implies #[trigger] rs[k1].1
            <= #[trigger] rs[k2].0 by {
            if k2 < rs.len() - 1 {
                assert(rs[k1] == r[k1] && rs[k2] == r[k2]);
            } else if k1 < k2 - 1 {
                assert(rs[k1] == r[k1] && rs[k2 - 1] == r[k2 - 1]);
                assert(r[k1].1 <= r[k2 - 1].0);
            }
        }
    }
}

proof fn lemma_runs_find(rs: Seq<(int, int)>, n: int, i: int)
    requires
        rs.len() > 0,
        rs[0].0 == 0,
        rs.last().1 == n,
        0 <= i < n,
        forall|k: int| 0 <= k < rs.len() ==> 0 <= #[trigger] rs[k].0 < rs[k].1 <= n,
        forall|k: int| 0 <= k < rs.len() - 1 ==> #[trigger] rs[k].1 == rs[k + 1].0,
        forall|k1: int, k2: int| 0 <= k1 < k2 < rs.len() ==> #[trigger] rs[k1].1 <= #[trigger] rs[k2].0,
    ensures
        exists|k: int| 0 <= k < rs.len() && #[trigger] rs[k].0 <= i < rs[k].1,
    decreases rs.len(),
{
    if i >= rs.last().0 {
        assert(rs[rs.len() - 1].0 <= i < rs[rs.len() - 1].1);
    } else {
        let r = rs.drop_last();
        assert(r.last().1 == rs.last().0);
        assert forall|k: int| 0 <= k < r.len() implies 0 <= #[trigger] r[k].0 < r[k].1 <= rs.last().0 by {
            assert(rs[k].1 <= rs[rs.len() - 1].0);
        }
        lemma_runs_find(r, rs.last().0, i);
        let k = choose|k: int| 0 <= k < r.len() && #[trigger] r[k].0 <= i < r[k].1;
        assert(rs[k] == r[k]);
    }
}

/// The characters whose index lies in `[lo, hi)`, by increasing index (those
/// of one index in page order).
pub open spec fn ordered_text(v: Seq<PositionedChar>, lo: int, hi: int) -> Seq<char>
    decreases hi - lo,
{
    if lo >= hi {
        seq![]
    } else {
        chars_text(selected(v, lo, lo + 1)) + ordered_text(v, lo + 1, hi)
    }
}

proof fn lemma_selected_none(v: Seq<PositionedChar>, j: int)
    requires
        forall|i: int| 0 <= i < v.len() ==> #[trigger] v[i].text_index != j,
    ensures
        selected(v, j, j + 1).len() == 0,
    decreases v.len(),
{
    if v.len() > 0 {
        assert(v.last().text_index != j);
        lemma_selected_none(v.drop_last(), j);
    }
}

proof fn lemma_ordered_skip(v: Seq<PositionedChar>, k: int, m: int, hi: int)
    requires
        k <= m <= hi,
        forall|i: int| 0 <= i < v.len() ==> !(k <= #[trigger] v[i].text_index < m),
    ensures
        ordered_text(v, k, hi) == ordered_text(v, m, hi),
    decreases m - k,
{
    if k < m {
        lemma_selected_none(v, k);
        assert(chars_text(selected(v, k, k + 1)) =~= Seq::<char>::empty());
        lemma_ordered_skip(v, k + 1, m, hi);
        assert(ordered_text(v, k, hi) =~= ordered_text(v, k + 1, hi));
    }
}

/// The least character index in `[k, hi)`, if any character has one.
fn next_index(v: &Vec<PositionedChar>, k: usize, hi: usize) -> (r: Option<usize>)
    ensures
        match r {
            Some(m) => k <= m < hi && forall|i: int|
                0 <= i < v@.len() ==> !(k <= #[trigger] v@[i].text_index < m),
            None => forall|i: int| 0 <= i < v@.len() ==> !(k <= #[trigger] v@[i].text_index < hi),
        },
{
    let mut best: Option<usize> = None;
    let mut i: usize = 0;
    while i < v.len()
        invariant
            i <= v@.len(),
            match best {
                Some(m) => k <= m < hi && forall|j: int|
                    0 <= j < i ==> !(k <= #[trigger] v@[j].text_index < m),
                None => forall|j: int| 0 <= j < i ==> !(k <= #[trigger] v@[j].text_index < hi),
            },
        decreases v.len() - i,
    {
        let t = v[i].text_index;
        if k <= t && t < hi {
            match best {
                Some(m) => {
                    if t < m {
                        best = Some(t);
                    }
                },
                None => {
                    best = Some(t);
                },
            }
        }
        i += 1;
    }
    best
}

/// The characters whose index lies in `[lo, hi)`, by increasing index.
fn collect_in_order(v: &Vec<PositionedChar>, lo: usize, hi: usize) -> (r: String)
    ensures
        r@ == ordered_text(v@, lo as int, hi as int),
{
    let mut out = String::new();
    let mut k = lo;
    if k >= hi {
        return out;
    }
    while k < hi
        invariant
            lo <= k <= hi,
            out@ + ordered_text(v@, k as int, hi as int) == ordered_text(v@, lo as int, hi as int),
        decreases hi - k,
    {
        match next_index(v, k, hi) {
            None => {
                proof {
                    lemma_ordered_skip(v@, k as int, hi as int, hi as int);
                    assert(out@ =~= out@ + ordered_text(v@, hi as int, hi as int));
                }
                k = hi;
            },
            Some(m) => {
                proof {
                    lemma_ordered_skip(v@, k as int, m as int, hi as int);
                }
                let part = collect_selected(v, m, m + 1);
                let ghost before = out@;
                out.append(part.as_str());
                k = m + 1;
                assert(out@ + ordered_text(v@, k as int, hi as int) =~= before + ordered_text(v@, m as int, hi as int));
            },
        }
    }
    assert(ordered_text(v@, k as int, hi as int) =~= Seq::<char>::empty());
    assert(out@ =~= out@ + ordered_text(v@, k as int, hi as int));
    out
}

} // verus!
