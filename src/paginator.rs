//! Splitting a book into fixed-size pages.
//!
//! Pagination runs in one column first, giving "column pages". In two-column
//! mode column pages `2i` and `2i + 1` then make up page `i`; the second of
//! the two has its elements marked with `column == 1`.
use vstd::prelude::*;
use crate::document::{LayoutChapter, LayoutDocument, LayoutElement};
use crate::measure::{cap, element_height, lemma_element_height_bounds};
use crate::settings::ReaderSettings;

verus! {

/// A block placed on a page.
#[derive(Debug)]
pub struct PageElement {
    pub element: LayoutElement,
    /// Distance from the top of the column, in centipixels.
    pub y_position: u64,
    /// Measured height, in centipixels.
    pub height: u64,
    /// 0 for the left (or only) column, 1 for the right one.
    pub column: u8,
}

/// One page of the book.
#[derive(Debug)]
pub struct Page {
    pub index: usize,
    pub chapter_id: String,
    pub chapter_title: String,
    pub elements: Vec<PageElement>,
    /// How far down the (left) column the content reaches, in centipixels.
    pub content_height: u64,
}

/// The book cut into pages.
#[derive(Debug)]
pub struct PaginatedBook {
    pub pages: Vec<Page>,
    pub total_pages: usize,
}

/// What a page holds, as plain values.
pub struct PageView {
    pub index: int,
    pub chapter_id: Seq<char>,
    pub chapter_title: Seq<char>,
    pub elements: Seq<PageElement>,
    pub content_height: int,
}

impl Page {
    pub open spec fn view(&self) -> PageView {
        PageView {
            index: self.index as int,
            chapter_id: self.chapter_id@,
            chapter_title: self.chapter_title@,
            elements: self.elements@,
            content_height: self.content_height as int,
        }
    }
}

impl PaginatedBook {
    pub open spec fn view(&self) -> Seq<PageView> {
        Seq::new(self.pages@.len(), |k: int| self.pages@[k].view())
    }
}

/// The state of pagination within a chapter: the column pages already closed
/// (with the height their content reached), the blocks of the open one, and
/// the height at which the next block would go.
pub struct Flow {
    pub done: Seq<Seq<PageElement>>,
    pub heights: Seq<int>,
    pub current: Seq<PageElement>,
    pub y: int,
}

pub open spec fn flow_start() -> Flow {
    Flow { done: seq![], heights: seq![], current: seq![], y: 0 }
}

/// Closes the open column page.
pub open spec fn flush(f: Flow) -> Flow {
    Flow { done: f.done.push(f.current), heights: f.heights.push(f.y), current: seq![], y: 0 }
}

/// Places block `i` of `elems`. A block that would run past the column's
/// height goes to a new column page, unless the open one is empty; a heading
/// that fits but would leave its successor no room goes to a new one too.
pub open spec fn place(s: ReaderSettings, elems: Seq<LayoutElement>, i: int, f: Flow) -> Flow {
    let e = elems[i];
    let h = element_height(s, e);
    let avail = s.content_height_spec();
    let f1 = if f.y + h > avail && f.current.len() > 0 {
        flush(f)
    } else {
        f
    };
    let f2 = if e is Heading && i + 1 < elems.len() && f1.y + h + element_height(s, elems[i + 1])
        > avail && f1.current.len() > 0 {
        flush(f1)
    } else {
        f1
    };
    let placed = PageElement { element: e, y_position: f2.y as u64, height: h as u64, column: 0 };
    let spacing: int = if e is Heading {
        0
    } else {
        s.paragraph_spacing as int
    };
    Flow { current: f2.current.push(placed), y: f2.y + h + spacing, ..f2 }
}

/// The state after the first `n` blocks.
pub open spec fn flow(s: ReaderSettings, elems: Seq<LayoutElement>, n: int) -> Flow
    decreases n,
{
    if n <= 0 || n > elems.len() {
        flow_start()
    } else {
        place(s, elems, n - 1, flow(s, elems, n - 1))
    }
}

/// The column pages of a chapter's blocks, with their content heights: at
/// least one, empty for a chapter without blocks.
pub open spec fn chapter_columns(s: ReaderSettings, elems: Seq<LayoutElement>) -> (Seq<Seq<PageElement>>, Seq<int>) {
    let f = flow(s, elems, elems.len() as int);
    let g = if f.current.len() > 0 {
        flush(f)
    } else {
        f
    };
    if g.done.len() == 0 {
        (seq![seq![]], seq![0])
    } else {
        (g.done, g.heights)
    }
}

/// The column pages of a chapter, numbered from `start`.
pub open spec fn chapter_pages(s: ReaderSettings, c: LayoutChapter, start: int) -> Seq<PageView> {
    let (cols, hs) = chapter_columns(s, c.elements@);
    Seq::new(
        cols.len(),
        |k: int|
            PageView {
                index: start + k,
                chapter_id: c.id@,
                chapter_title: c.title@,
                elements: cols[k],
                content_height: cap(hs[k]),
            },
    )
}

/// The column pages of the first `n` chapters, numbered from 0.
pub open spec fn book_columns(s: ReaderSettings, chapters: Seq<LayoutChapter>, n: int) -> Seq<PageView>
    decreases n,
{
    if n <= 0 || n > chapters.len() {
        seq![]
    } else {
        let before = book_columns(s, chapters, n - 1);
        before + chapter_pages(s, chapters[n - 1], before.len() as int)
    }
}

/// A block moved to the right column.
pub open spec fn to_right(pe: PageElement) -> PageElement {
    PageElement { column: 1, ..pe }
}

/// Page `i` of a two-column layout: column pages `2i` and, where there is one,
/// `2i + 1`.
pub open spec fn spread(cols: Seq<PageView>, i: int) -> PageView {
    let left = cols[2 * i];
    let right: Seq<PageElement> = if 2 * i + 1 < cols.len() {
        cols[2 * i + 1].elements.map_values(|pe: PageElement| to_right(pe))
    } else {
        seq![]
    };
    PageView { index: i, elements: left.elements + right, ..left }
}

pub open spec fn spreads(cols: Seq<PageView>) -> Seq<PageView> {
    Seq::new((cols.len() + 1) / 2, |i: int| spread(cols, i))
}

/// The pages of a book at settings `s`.
pub open spec fn book_pages(s: ReaderSettings, chapters: Seq<LayoutChapter>) -> Seq<PageView> {
    let cols = book_columns(s, chapters, chapters.len() as int);
    if s.columns >= 2 {
        spreads(cols)
    } else {
        cols
    }
}

/// What holds of every pagination state: a height that is never negative and
/// that is 0 while the open column page is empty.
pub open spec fn flow_ok(f: Flow) -> bool {
    &&& 0 <= f.y <= 0x4_0000_0000_0000_0000
    &&& f.current.len() == 0 ==> f.y == 0
    &&& f.done.len() == f.heights.len()
}

proof fn lemma_place_ok(s: ReaderSettings, elems: Seq<LayoutElement>, i: int, f: Flow)
    requires
        flow_ok(f),
        0 <= i < elems.len(),
    ensures
        flow_ok(place(s, elems, i, f)),
{
    lemma_element_height_bounds(s, elems[i]);
}

proof fn lemma_flow_ok(s: ReaderSettings, elems: Seq<LayoutElement>, n: int)
    ensures
        flow_ok(flow(s, elems, n)),
    decreases n,
{
    if n > 0 && n <= elems.len() {
        lemma_flow_ok(s, elems, n - 1);
        lemma_place_ok(s, elems, n - 1, flow(s, elems, n - 1));
    }
}

/// Appends a page holding `elements` to `pages`, numbered by its position.
fn close_page(
    pages: &mut Vec<Page>,
    elements: Vec<PageElement>,
    y: u128,
    id: &String,
    title: &String,
)
    ensures
        final(pages)@.len() == old(pages)@.len() + 1,
        forall|k: int| 0 <= k < old(pages)@.len() ==> final(pages)@[k] == old(pages)@[k],
        final(pages)@.last().view() == (PageView {
            index: old(pages)@.len() as int,
            chapter_id: id@,
            chapter_title: title@,
            elements: elements@,
            content_height: cap(y as int),
        }),
{
    let h: u64 = if y > u64::MAX as u128 {
        u64::MAX
    } else {
        y as u64
    };
    let index = pages.len();
    pages.push(
        Page {
            index,
            chapter_id: id.clone(),
            chapter_title: title.clone(),
            elements,
            content_height: h,
        },
    );
}

/// Lays out the settings' pages with a shared, read-only view of them.
pub struct Paginator<'a> {
    pub settings: &'a ReaderSettings,
}

impl<'a> Paginator<'a> {
    pub fn new(settings: &'a ReaderSettings) -> (r: Paginator<'a>)
        ensures
            r.settings == settings,
    {
        Paginator { settings }
    }

    /// Appends the column pages of `chapter` to `pages`.
    fn paginate_chapter(&self, chapter: LayoutChapter, pages: &mut Vec<Page>)
        ensures
            ({
                let cp = chapter_pages(*self.settings, chapter, old(pages)@.len() as int);
                &&& final(pages)@.len() == old(pages)@.len() + cp.len()
                &&& forall|k: int|
                    0 <= k < old(pages)@.len() ==> final(pages)@[k] == old(pages)@[k]
                &&& forall|k: int|
                    0 <= k < cp.len() ==> #[trigger] final(pages)@[old(pages)@.len() + k].view()
                        == cp[k]
            }),
    {
        let ghost s = *self.settings;
        let ghost chap = chapter;
        let ghost elems = chapter.elements@;
        let start_len = pages.len();
        let ghost start = start_len as int;
        let LayoutChapter { id, title, elements } = chapter;
        let mut rest = elements;
        let total = rest.len();
        let mut current: Vec<PageElement> = Vec::new();
        let mut y: u128 = 0;
        let avail: i64 = self.settings.content_height();
        let mut i: usize = 0;
        proof {
            lemma_flow_ok(s, elems, 0);
        }
        while rest.len() > 0
            invariant
                s == *self.settings,
                start == start_len,
                elems == chap.elements@,
                elems.len() == total,
                id == chap.id,
                title == chap.title,
                avail == s.content_height_spec(),
                i <= elems.len(),
                rest@ == elems.subrange(i as int, elems.len() as int),
                flow_ok(flow(s, elems, i as int)),
                pages@.len() == start + flow(s, elems, i as int).done.len(),
                flow(s, elems, i as int).done.len() <= i,
                forall|k: int| 0 <= k < start ==> pages@[k] == old(pages)@[k],
                forall|k: int|
                    0 <= k < flow(s, elems, i as int).done.len() ==> #[trigger] pages@[start
                        + k].view() == (PageView {
                        index: start + k,
                        chapter_id: id@,
                        chapter_title: title@,
                        elements: flow(s, elems, i as int).done[k],
                        content_height: cap(flow(s, elems, i as int).heights[k]),
                    }),
                current@ == flow(s, elems, i as int).current,
                y == flow(s, elems, i as int).y,
            decreases rest.len(),
        {
            let ghost f = flow(s, elems, i as int);
            proof {
                lemma_place_ok(s, elems, i as int, f);
                lemma_flow_ok(s, elems, i as int + 1);
            }
            let element = rest.remove(0);
            assert(element == elems[i as int]);
            let h = self.settings.measure_element(&element);
            if (y + h as u128) as i128 > avail as i128 && current.len() > 0 {
                let cur = current;
                current = Vec::new();
                close_page(pages, cur, y, &id, &title);
                y = 0;
            }
            let ghost f1 = if f.y + h > avail && f.current.len() > 0 {
                flush(f)
            } else {
                f
            };
            assert(current@ == f1.current && y == f1.y);
            if element.keep_with_next() && rest.len() > 0 {
                let next_h = self.settings.measure_element(&rest[0]);
                assert(rest@[0] == elems[i + 1]);
                if (y + h as u128 + next_h as u128) as i128 > avail as i128 && current.len() > 0 {
                    let cur = current;
                    current = Vec::new();
                    close_page(pages, cur, y, &id, &title);
                    y = 0;
                }
            }
            assert(y <= u64::MAX);
            let is_heading = element.keep_with_next();
            current.push(PageElement { element, y_position: y as u64, height: h, column: 0 });
            y = y + h as u128;
            if !is_heading {
                y = y + self.settings.paragraph_spacing as u128;
            }
            i += 1;
            assert(flow(s, elems, i as int) == place(s, elems, i - 1, f));
            assert(rest@ =~= elems.subrange(i as int, elems.len() as int));
        }
        assert(i == elems.len());
        if current.len() > 0 {
            close_page(pages, current, y, &id, &title);
        }
        if pages.len() == start_len {
            close_page(pages, Vec::new(), 0, &id, &title);
        }
        proof {
            let f = flow(s, elems, elems.len() as int);
            let cp = chapter_pages(s, chap, start);
            assert forall|k: int| 0 <= k < cp.len() implies #[trigger] pages@[start + k].view()
                == cp[k] by {
                if f.current.len() > 0 {
                    assert(flush(f).done[k] == if k < f.done.len() { f.done[k] } else { f.current });
                }
            }
        }
    }

    /// The column pages of the whole book, numbered from 0.
    fn paginate_columns(&self, document: LayoutDocument) -> (r: Vec<Page>)
        ensures
            r@.len() == book_columns(*self.settings, document.chapters@, document.chapters@.len() as int).len(),
            forall|k: int|
                0 <= k < r@.len() ==> #[trigger] r@[k].view() == book_columns(
                    *self.settings,
                    document.chapters@,
                    document.chapters@.len() as int,
                )[k],
    {
        let ghost s = *self.settings;
        let ghost chs = document.chapters@;
        let mut rest = document.chapters;
        let total = rest.len();
        let mut pages: Vec<Page> = Vec::new();
        let mut i: usize = 0;
        while rest.len() > 0
            invariant
                s == *self.settings,
                chs.len() == total,
                i <= chs.len(),
                rest@ == chs.subrange(i as int, chs.len() as int),
                pages@.len() == book_columns(s, chs, i as int).len(),
                forall|k: int|
                    0 <= k < pages@.len() ==> #[trigger] pages@[k].view() == book_columns(
                        s,
                        chs,
                        i as int,
                    )[k],
            decreases rest.len(),
        {
            let chapter = rest.remove(0);
            assert(chapter == chs[i as int]);
            let ghost before = pages@;
            self.paginate_chapter(chapter, &mut pages);
            i += 1;
            proof {
                let prev = book_columns(s, chs, i - 1);
                let cp = chapter_pages(s, chs[i - 1], prev.len() as int);
                assert(book_columns(s, chs, i as int) == prev + cp);
                assert forall|k: int| 0 <= k < pages@.len() implies #[trigger] pages@[k].view()
                    == book_columns(s, chs, i as int)[k] by {
                    if k >= prev.len() {
                        assert(pages@[before.len() + (k - before.len())] == pages@[k]);
                    }
                }
            }
            assert(rest@ =~= chs.subrange(i as int, chs.len() as int));
        }
        pages
    }

    /// Cuts the book into pages: one column's worth each, or, with two
    /// columns, two column pages side by side.
    pub fn paginate(&self, document: LayoutDocument) -> (r: PaginatedBook)
        ensures
            r@ == book_pages(*self.settings, document.chapters@),
            r.total_pages == r.pages@.len(),
    {
        let ghost chs = document.chapters@;
        let cols = self.paginate_columns(document);
        let pages = if self.settings.columns >= 2 {
            pair_columns(cols)
        } else {
            cols
        };
        let total_pages = pages.len();
        let r = PaginatedBook { pages, total_pages };
        assert(r@ =~= book_pages(*self.settings, chs));
        r
    }
}

/// Pairs column pages into two-column pages.
fn pair_columns(cols: Vec<Page>) -> (r: Vec<Page>)
    ensures
        r@.len() == spreads(Seq::new(cols@.len(), |k: int| cols@[k].view())).len(),
        forall|k: int|
            0 <= k < r@.len() ==> #[trigger] r@[k].view() == spreads(
                Seq::new(cols@.len(), |k: int| cols@[k].view()),
            )[k],
{
    let ghost cv = Seq::new(cols@.len(), |k: int| cols@[k].view());
    let ghost n = cols@.len();
    let mut rest = cols;
    let total = rest.len();
    let mut out: Vec<Page> = Vec::new();
    let mut taken: usize = 0;
    while rest.len() > 0
        invariant
            taken <= n,
            n == total,
            taken == 2 * out@.len() || (taken == n && taken == 2 * out@.len() - 1),
            rest@.len() == n - taken,
            forall|k: int| 0 <= k < rest@.len() ==> #[trigger] rest@[k].view() == cv[taken + k],
            cv.len() == n,
            forall|k: int| 0 <= k < out@.len() ==> #[trigger] out@[k].view() == spread(cv, k),
        decreases rest.len(),
    {
        let left = rest.remove(0);
        assert(left.view() == cv[taken as int]);
        let Page { index: _, chapter_id, chapter_title, elements, content_height } = left;
        let mut elements = elements;
        let ghost left_elems = elements@;
        taken += 1;
        if rest.len() > 0 {
            let right = rest.remove(0);
            assert(right.view() == cv[taken as int]);
            let mut right_elems = right.elements;
            let rtotal = right_elems.len();
            let ghost re = right_elems@;
            let mut j: usize = 0;
            while right_elems.len() > 0
                invariant
                    j <= re.len(),
                    re.len() == rtotal,
                    right_elems@ == re.subrange(j as int, re.len() as int),
                    elements@ == left_elems + re.subrange(0, j as int).map_values(
                        |pe: PageElement| to_right(pe),
                    ),
                decreases right_elems.len(),
            {
                let pe = right_elems.remove(0);
                let PageElement { element, y_position, height, column: _ } = pe;
                elements.push(PageElement { element, y_position, height, column: 1 });
                j += 1;
                assert(elements@ =~= left_elems + re.subrange(0, j as int).map_values(
                    |pe: PageElement| to_right(pe),
                ));
                assert(right_elems@ =~= re.subrange(j as int, re.len() as int));
            }
            assert(re.subrange(0, j as int) =~= re);
            taken += 1;
        } else {
            assert(elements@ =~= left_elems + seq![]);
        }
        let index = out.len();
        out.push(Page { index, chapter_id, chapter_title, elements, content_height });
        assert(out@.last().view() == spread(cv, index as int));
    }
    assert(out@.len() == (n + 1) / 2);
    out
}

/// A placed block either starts its column or ends within the column's height.
pub open spec fn fits_column(s: ReaderSettings, pe: PageElement) -> bool {
    pe.y_position == 0 || pe.y_position + pe.height <= s.content_height_spec()
}

pub open spec fn all_fit(s: ReaderSettings, v: Seq<PageElement>) -> bool {
    forall|j: int| 0 <= j < v.len() ==> fits_column(s, #[trigger] v[j])
}

pub open spec fn flow_fits(s: ReaderSettings, f: Flow) -> bool {
    &&& all_fit(s, f.current)
    &&& forall|k: int| 0 <= k < f.done.len() ==> all_fit(s, #[trigger] f.done[k])
}

proof fn lemma_flow_fits(s: ReaderSettings, elems: Seq<LayoutElement>, n: int)
    ensures
        flow_fits(s, flow(s, elems, n)),
        flow_ok(flow(s, elems, n)),
    decreases n,
{
    lemma_flow_ok(s, elems, n);
    if n > 0 && n <= elems.len() {
        lemma_flow_fits(s, elems, n - 1);
        let f = flow(s, elems, n - 1);
        lemma_element_height_bounds(s, elems[n - 1]);
        let g = place(s, elems, n - 1, f);
        assert forall|k: int| 0 <= k < g.done.len() implies all_fit(s, #[trigger] g.done[k]) by {
            if k < f.done.len() {
                assert(g.done[k] == f.done[k]);
            }
        }
        assert(all_fit(s, g.current));
    }
}

proof fn lemma_columns_fit(s: ReaderSettings, chapters: Seq<LayoutChapter>, n: int)
    ensures
        forall|k: int|
            0 <= k < book_columns(s, chapters, n).len() ==> all_fit(
                s,
                #[trigger] book_columns(s, chapters, n)[k].elements,
            ),
        forall|k: int|
            0 <= k < book_columns(s, chapters, n).len() ==> #[trigger] book_columns(
                s,
                chapters,
                n,
            )[k].index == k,
    decreases n,
{
    if n > 0 && n <= chapters.len() {
        lemma_columns_fit(s, chapters, n - 1);
        let elems = chapters[n - 1].elements@;
        lemma_flow_fits(s, elems, elems.len() as int);
        let prev = book_columns(s, chapters, n - 1);
        let cp = chapter_pages(s, chapters[n - 1], prev.len() as int);
        let f = flow(s, elems, elems.len() as int);
        assert forall|k: int| 0 <= k < cp.len() implies all_fit(s, #[trigger] cp[k].elements) by {
            if f.current.len() > 0 {
                assert(flush(f).done[k] == if k < f.done.len() { f.done[k] } else { f.current });
            }
        }
        let all = book_columns(s, chapters, n);
        assert forall|k: int| 0 <= k < all.len() implies all_fit(s, #[trigger] all[k].elements) by {
            if k >= prev.len() {
                assert(all[k] == cp[k - prev.len()]);
            }
        }
        assert forall|k: int| 0 <= k < all.len() implies #[trigger] all[k].index == k by {
            if k >= prev.len() {
                assert(all[k] == cp[k - prev.len()]);
            }
        }
    }
}

/// Pages are numbered 0, 1, 2, ... in order, and every placed block either
/// starts its column or ends within the column's height. (A block taller than
/// the column is the one case of the first kind that does not fit: it gets a
/// column of its own, undivided.)
pub proof fn lemma_pages_numbered_and_fit(s: ReaderSettings, chapters: Seq<LayoutChapter>)
    ensures
        forall|k: int|
            0 <= k < book_pages(s, chapters).len() ==> #[trigger] book_pages(s, chapters)[k].index
                == k,
        forall|k: int, j: int|
            0 <= k < book_pages(s, chapters).len() && 0 <= j < book_pages(
                s,
                chapters,
            )[k].elements.len() ==> fits_column(s, #[trigger] book_pages(s, chapters)[k].elements[j]),
{
    lemma_columns_fit(s, chapters, chapters.len() as int);
    let cols = book_columns(s, chapters, chapters.len() as int);
    if s.columns >= 2 {
        let sp = spreads(cols);
        assert forall|k: int, j: int|
            0 <= k < sp.len() && 0 <= j < sp[k].elements.len() implies fits_column(
            s,
            #[trigger] sp[k].elements[j],
        ) by {
            assert(all_fit(s, cols[2 * k].elements));
            if j >= cols[2 * k].elements.len() {
                assert(all_fit(s, cols[2 * k + 1].elements));
                let jj = j - cols[2 * k].elements.len();
                assert(sp[k].elements[j] == to_right(cols[2 * k + 1].elements[jj]));
            }
        }
    } else {
        assert forall|k: int, j: int|
            0 <= k < cols.len() && 0 <= j < cols[k].elements.len() implies fits_column(
            s,
            #[trigger] cols[k].elements[j],
        ) by {
            assert(all_fit(s, cols[k].elements));
        }
    }
}

/// A chapter with no blocks still gets one page, and an empty book none.
pub proof fn lemma_empty_cases(s: ReaderSettings, c: LayoutChapter)
    ensures
        book_pages(s, seq![]).len() == 0,
        c.elements@.len() == 0 ==> chapter_pages(s, c, 0).len() == 1,
{
    assert(book_columns(s, seq![], 0) == Seq::<PageView>::empty());
}

} // verus!
