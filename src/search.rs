//! Case-insensitive full-text search over a paginated book.
use vstd::prelude::*;
use vstd::string::*;
use crate::document::{chars_of, element_text, push_char};
use crate::measure::{byte_len, utf8_len};
use crate::paginator::{Page, PageElement, PaginatedBook};

verus! {

/// What `str::to_lowercase` makes of a text.
pub uninterp spec fn lower_of(s: Seq<char>) -> Seq<char>;

/// Relies on `str::to_lowercase`: the result depends on the text alone, and an
/// empty text stays empty.
#[verifier::external_body]
fn lowercase(s: &str) -> (r: String)
    ensures
        r@ == lower_of(s@),
        s@.len() == 0 ==> r@.len() == 0,
{
    s.to_lowercase()
}

/// One hit of a search.
#[derive(Debug, Clone)]
pub struct SearchResult {
    pub page_index: usize,
    pub chapter_id: String,
    pub chapter_title: String,
    /// The match with up to 40 characters of context on each side; `…` marks
    /// a side where the page's text goes on.
    pub snippet: String,
    /// Byte offset of the match in the lower-cased page text.
    pub match_start: usize,
    /// `match_start` plus the byte length of the lower-cased query.
    pub match_end: usize,
}

/// The text of a page: its blocks' texts, one per line.
pub open spec fn page_text(elems: Seq<PageElement>) -> Seq<char>
    decreases elems.len(),
{
    if elems.len() == 0 {
        seq![]
    } else if elems.len() == 1 {
        element_text(elems[0].element)
    } else {
        page_text(elems.drop_last()) + seq!['\n'] + element_text(elems.last().element)
    }
}

impl Page {
    /// The page's text, block by block, one per line.
    pub fn text_content(&self) -> (r: String)
        ensures
            r@ == page_text(self.elements@),
    {
        let mut out = String::new();
        let mut i: usize = 0;
        while i < self.elements.len()
            invariant
                i <= self.elements@.len(),
                out@ == page_text(self.elements@.subrange(0, i as int)),
            decreases self.elements.len() - i,
        {
            let ghost before = out@;
            if i > 0 {
                push_char(&mut out, '\n');
            }
            self.elements[i].element.append_text(&mut out);
            let ghost sub = self.elements@.subrange(0, i + 1);
            assert(sub.drop_last() =~= self.elements@.subrange(0, i as int));
            i += 1;
        }
        assert(self.elements@.subrange(0, self.elements@.len() as int) =~= self.elements@);
        out
    }
}

/// Whether `q` occurs in `t` at position `i`.
#[verifier::opaque]
pub open spec fn occurs_at(t: Seq<char>, q: Seq<char>, i: int) -> bool {
    0 <= i && i + q.len() <= t.len() && t.subrange(i, i + q.len()) == q
}

/// The first position at or after `from` where `q` occurs in `t`.
pub open spec fn next_match(t: Seq<char>, q: Seq<char>, from: int) -> Option<int>
    decreases t.len() - from,
{
    if from < 0 || from + q.len() > t.len() || from >= t.len() {
        None
    } else if occurs_at(t, q, from) {
        Some(from)
    } else {
        next_match(t, q, from + 1)
    }
}

/// The positions of every occurrence of a non-empty `q` in `t` from `from`
/// on, overlapping ones included, left to right.
pub open spec fn matches_from(t: Seq<char>, q: Seq<char>, from: int) -> Seq<int>
    decreases t.len() - from,
{
    if q.len() == 0 || from < 0 {
        seq![]
    } else {
        match next_match(t, q, from) {
            None => seq![],
            Some(i) => if i >= from && i + q.len() <= t.len() {
                seq![i] + matches_from(t, q, i + 1)
            } else {
                seq![]
            },
        }
    }
}

pub open spec fn ellipsis() -> Seq<char> {
    seq!['\u{2026}']
}

/// The snippet for a match of `n` characters at `i` of the lower-cased page
/// text `t`.
pub open spec fn snippet_of(t: Seq<char>, i: int, n: int) -> Seq<char> {
    let hi = if i + n + 40 < t.len() {
        i + n + 40
    } else {
        t.len() as int
    };
    let lo0 = if i > 40 {
        i - 40
    } else {
        0
    };
    let lo = if lo0 < hi {
        lo0
    } else {
        hi
    };
    (if lo > 0 {
        ellipsis()
    } else {
        seq![]
    }) + t.subrange(lo, hi) + (if hi < t.len() {
        ellipsis()
    } else {
        seq![]
    })
}

/// A search hit as plain values.
pub struct HitView {
    pub page_index: int,
    pub chapter_id: Seq<char>,
    pub chapter_title: Seq<char>,
    pub snippet: Seq<char>,
    pub match_start: int,
    pub match_end: int,
}

impl SearchResult {
    pub open spec fn view(&self) -> HitView {
        HitView {
            page_index: self.page_index as int,
            chapter_id: self.chapter_id@,
            chapter_title: self.chapter_title@,
            snippet: self.snippet@,
            match_start: self.match_start as int,
            match_end: self.match_end as int,
        }
    }
}

/// The hits on one page, for the lower-cased query `lq`.
pub open spec fn page_hits(p: Page, lq: Seq<char>) -> Seq<HitView> {
    let t = page_text(p.elements@);
    let lt = lower_of(t);
    let ms = matches_from(lt, lq, 0);
    Seq::new(
        ms.len(),
        |k: int|
            HitView {
                page_index: p.index as int,
                chapter_id: p.chapter_id@,
                chapter_title: p.chapter_title@,
                snippet: snippet_of(lt, ms[k], lq.len() as int),
                match_start: clip(byte_len(lt.subrange(0, ms[k]))),
                match_end: clip(byte_len(lt.subrange(0, ms[k])) + byte_len(lq)),
            },
    )
}

/// The hits on the first `n` pages, page after page.
pub open spec fn book_hits(pages: Seq<Page>, lq: Seq<char>, n: int) -> Seq<HitView>
    decreases n,
{
    if n <= 0 || n > pages.len() {
        seq![]
    } else {
        book_hits(pages, lq, n - 1) + page_hits(pages[n - 1], lq)
    }
}

/// `x`, or `usize::MAX` where it is larger.
pub open spec fn clip(x: int) -> int {
    if x > usize::MAX {
        usize::MAX as int
    } else {
        x
    }
}

proof fn lemma_next_match(t: Seq<char>, q: Seq<char>, from: int)
    requires
        from >= 0,
        q.len() > 0,
    ensures
        match next_match(t, q, from) {
            Some(j) => from <= j && occurs_at(t, q, j) && forall|k: int|
                from <= k < j ==> !occurs_at(t, q, k),
            None => forall|k: int| from <= k ==> !occurs_at(t, q, k),
        },
    decreases t.len() - from,
{
    reveal(occurs_at);
    if from + q.len() > t.len() || from >= t.len() {
    } else if occurs_at(t, q, from) {
    } else {
        lemma_next_match(t, q, from + 1);
    }
}

proof fn lemma_skip(t: Seq<char>, q: Seq<char>, i: int)
    requires
        i >= 0,
        q.len() > 0,
        !occurs_at(t, q, i),
    ensures
        matches_from(t, q, i) == matches_from(t, q, i + 1),
{
    lemma_next_match(t, q, i);
    lemma_next_match(t, q, i + 1);
    if i + q.len() > t.len() {
        assert(next_match(t, q, i + 1) is None);
    }
}

fn occurs_here(t: &Vec<char>, q: &Vec<char>, i: usize) -> (r: bool)
    requires
        i + q@.len() <= t@.len(),
    ensures
        r == occurs_at(t@, q@, i as int),
{
    reveal(occurs_at);
    let tl = t.len();
    let mut k: usize = 0;
    while k < q.len()
        invariant
            tl == t@.len(),
            i + q@.len() <= t@.len(),
            k <= q@.len(),
            forall|m: int| 0 <= m < k ==> t@[i + m] == q@[m],
        decreases q.len() - k,
    {
        if t[i + k] != q[k] {
            assert(t@.subrange(i as int, i + q@.len())[k as int] != q@[k as int]);
            reveal(occurs_at);
            return false;
        }
        k += 1;
    }
    assert(t@.subrange(i as int, i + q@.len()) =~= q@);
    reveal(occurs_at);
    true
}

fn char_width(c: char) -> (r: u128)
    ensures
        r == utf8_len(c),
        1 <= r <= 4,
{
    if (c as u32) < 0x80 {
        1
    } else if (c as u32) < 0x800 {
        2
    } else if (c as u32) < 0x10000 {
        3
    } else {
        4
    }
}

fn clip_usize(x: u128) -> (r: usize)
    ensures
        r == clip(x as int),
{
    if x > usize::MAX as u128 {
        usize::MAX
    } else {
        x as usize
    }
}

fn make_snippet(t: &Vec<char>, i: usize, n: usize) -> (r: String)
    ensures
        r@ == snippet_of(t@, i as int, n as int),
{
    let hi: usize = if i as u128 + n as u128 + 40 < t.len() as u128 {
        i + n + 40
    } else {
        t.len()
    };
    let lo0: usize = if i > 40 {
        i - 40
    } else {
        0
    };
    let lo = if lo0 < hi {
        lo0
    } else {
        hi
    };
    let mut out = String::new();
    if lo > 0 {
        push_char(&mut out, '\u{2026}');
    }
    let ghost head = out@;
    let mut k = lo;
    while k < hi
        invariant
            lo <= k <= hi,
            hi <= t@.len(),
            out@ == head + t@.subrange(lo as int, k as int),
        decreases hi - k,
    {
        push_char(&mut out, t[k]);
        k += 1;
        assert(out@ =~= head + t@.subrange(lo as int, k as int));
    }
    if hi < t.len() {
        push_char(&mut out, '\u{2026}');
    }
    assert(out@ =~= snippet_of(t@, i as int, n as int));
    out
}

impl PaginatedBook {
    /// Every non-overlapping occurrence of the query, ignoring case, page after
    /// page and left to right within a page. An empty query finds nothing.
    pub fn search(&self, query: &str) -> (r: Vec<SearchResult>)
        ensures
            r@.len() == book_hits(self.pages@, lower_of(query@), self.pages@.len() as int).len(),
            forall|k: int|
                0 <= k < r@.len() ==> #[trigger] r@[k].view() == book_hits(
                    self.pages@,
                    lower_of(query@),
                    self.pages@.len() as int,
                )[k],
    {
        let lq_s = lowercase(query);
        let lq = chars_of(lq_s.as_str());
        let mut qb: u128 = 0;
        let mut m: usize = 0;
        while m < lq.len()
            invariant
                m <= lq@.len(),
                qb == byte_len(lq@.subrange(0, m as int)),
                qb <= 4 * m,
            decreases lq.len() - m,
        {
            assert(lq@.subrange(0, m + 1).drop_last() =~= lq@.subrange(0, m as int));
            qb = qb + char_width(lq[m]);
            m += 1;
        }
        assert(lq@.subrange(0, lq@.len() as int) =~= lq@);
        let mut out: Vec<SearchResult> = Vec::new();
        let mut p: usize = 0;
        while p < self.pages.len()
            invariant
                p <= self.pages@.len(),
                lq@ == lower_of(query@),
                qb == byte_len(lq@),
                qb <= 4 * lq@.len(),
                out@.len() == book_hits(self.pages@, lq@, p as int).len(),
                forall|k: int|
                    0 <= k < out@.len() ==> #[trigger] out@[k].view() == book_hits(
                        self.pages@,
                        lq@,
                        p as int,
                    )[k],
            decreases self.pages.len() - p,
        {
            let ghost before = out@;
            page_search(&self.pages[p], &lq, qb, &mut out);
            p += 1;
            proof {
                let prev = book_hits(self.pages@, lq@, p - 1);
                assert(book_hits(self.pages@, lq@, p as int) == prev + page_hits(
                    self.pages@[p - 1],
                    lq@,
                ));
                assert forall|k: int| 0 <= k < out@.len() implies #[trigger] out@[k].view()
                    == book_hits(self.pages@, lq@, p as int)[k] by {
                    if k >= prev.len() {
                        assert(out@[before.len() + (k - before.len())] == out@[k]);
                    }
                }
            }
        }
        out
    }
}

/// Appends the hits on page `p` to `out`.
fn page_search(p: &Page, lq: &Vec<char>, qb: u128, out: &mut Vec<SearchResult>)
    requires
        qb == byte_len(lq@),
        qb <= 4 * lq@.len(),
    ensures
        final(out)@.len() == old(out)@.len() + page_hits(*p, lq@).len(),
        forall|k: int| 0 <= k < old(out)@.len() ==> final(out)@[k] == old(out)@[k],
        forall|k: int|
            0 <= k < page_hits(*p, lq@).len() ==> #[trigger] final(out)@[old(out)@.len()
                + k].view() == page_hits(*p, lq@)[k],
{
    let text = p.text_content();
    let t = chars_of(text.as_str());
    let lower = lowercase(text.as_str());
    let lt = chars_of(lower.as_str());
    let ghost all = matches_from(lt@, lq@, 0);
    let ghost start = out@.len();
    if lq.len() == 0 {
        return;
    }
    let qn = lq.len();
    let ltl = lt.len();
    let mut i: usize = 0;
    let mut b: u128 = 0;
    let ghost mut found: Seq<int> = seq![];
    while i as u128 + qn as u128 <= lt.len() as u128
        invariant
            qn == lq@.len(),
            qn > 0,
            qb == byte_len(lq@),
            qb <= 4 * lq@.len(),
            t@ == page_text(p.elements@),
            lt@ == lower_of(t@),
            ltl == lt@.len(),
            i <= lt@.len(),
            b == byte_len(lt@.subrange(0, i as int)),
            b <= 4 * i,
            found + matches_from(lt@, lq@, i as int) == all,
            all == matches_from(lt@, lq@, 0),
            out@.len() == start + found.len(),
            forall|k: int| 0 <= k < start ==> out@[k] == old(out)@[k],
            forall|k: int|
                0 <= k < found.len() ==> #[trigger] out@[start + k].view() == page_hits(
                    *p,
                    lq@,
                )[k],
        decreases lt@.len() - i,
    {
        if occurs_here(&lt, lq, i) {
            proof {
                lemma_next_match(lt@, lq@, i as int);
                assert(matches_from(lt@, lq@, i as int) == seq![i as int] + matches_from(
                    lt@,
                    lq@,
                    i + 1,
                ));
            }
            let snippet = make_snippet(&lt, i, qn);
            let r = SearchResult {
                page_index: p.index,
                chapter_id: p.chapter_id.clone(),
                chapter_title: p.chapter_title.clone(),
                snippet,
                match_start: clip_usize(b),
                match_end: clip_usize(b + qb),
            };
            out.push(r);
            proof {
                assert(all[found.len() as int] == i as int);
                found = found.push(i as int);
                assert(found + matches_from(lt@, lq@, i + 1) =~= all);
            }
            assert(lt@.subrange(0, i + 1).drop_last() =~= lt@.subrange(0, i as int));
            b = b + char_width(lt[i]);
            i += 1;
        } else {
            proof {
                lemma_skip(lt@, lq@, i as int);
            }
            assert(lt@.subrange(0, i + 1).drop_last() =~= lt@.subrange(0, i as int));
            b = b + char_width(lt[i]);
            i += 1;
        }
    }
    proof {
        lemma_next_match(lt@, lq@, i as int);
        assert(matches_from(lt@, lq@, i as int) == Seq::<int>::empty());
        assert(found =~= all);
    }
}

proof fn lemma_occurs_bounds(t: Seq<char>, q: Seq<char>, i: int)
    requires
        occurs_at(t, q, i),
    ensures
        0 <= i,
        i + q.len() <= t.len(),
{
    reveal(occurs_at);
}

/// The hits that a scan finds are exactly the occurrences from `from` on, in
/// increasing order.
#[verifier::rlimit(40)]
pub proof fn lemma_matches_complete(t: Seq<char>, q: Seq<char>, from: int)
    requires
        q.len() > 0,
        from >= 0,
    ensures
        ({
            let ms = matches_from(t, q, from);
            &&& forall|k: int| 0 <= k < ms.len() ==> from <= #[trigger] ms[k] && occurs_at(t, q, ms[k])
            &&& forall|k: int| 0 <= k < ms.len() - 1 ==> #[trigger] ms[k] < ms[k + 1]
            &&& forall|p: int|
                from <= p && #[trigger] occurs_at(t, q, p) ==> exists|k: int|
                    0 <= k < ms.len() && #[trigger] ms[k] == p
        }),
    decreases t.len() - from,
{
    lemma_next_match(t, q, from);
    let ms = matches_from(t, q, from);
    match next_match(t, q, from) {
        None => {},
        Some(i) => {
            lemma_occurs_bounds(t, q, i);
            let nxt = i + 1;
            lemma_matches_complete(t, q, nxt);
            let rest = matches_from(t, q, nxt);
            assert(ms == seq![i] + rest);
            assert forall|k: int| 0 <= k < ms.len() - 1 implies #[trigger] ms[k] < ms[k + 1] by {
                if k > 0 {
                    assert(ms[k] == rest[k - 1]);
                    assert(ms[k + 1] == rest[k]);
                } else {
                    assert(ms[1] == rest[0]);
                }
            }
            assert forall|p: int| from <= p && #[trigger] occurs_at(t, q, p) implies exists|k: int|
                0 <= k < ms.len() && #[trigger] ms[k] == p by {
                if p < nxt {
                    assert(ms[0] == i);
                } else {
                    let k2 = choose|k: int| 0 <= k < rest.len() && #[trigger] rest[k] == p;
                    assert(ms[k2 + 1] == rest[k2]);
                }
            }
        },
    }
}

/// The snippet of a match holds the matched characters.
pub proof fn lemma_snippet_holds_match(t: Seq<char>, i: int, n: int)
    requires
        0 <= i,
        0 <= n,
        i + n <= t.len(),
    ensures
        exists|off: int|
            0 <= off && off + n <= snippet_of(t, i, n).len() && #[trigger] snippet_of(
                t,
                i,
                n,
            ).subrange(off, off + n) == t.subrange(i, i + n),
{
    let hi = if i + n + 40 < t.len() {
        i + n + 40
    } else {
        t.len() as int
    };
    let lo0 = if i > 40 {
        i - 40
    } else {
        0
    };
    let lo = if lo0 < hi {
        lo0
    } else {
        hi
    };
    let pre: int = if lo > 0 {
        1
    } else {
        0
    };
    let off = pre + (i - lo);
    let sn = snippet_of(t, i, n);
    assert(sn.subrange(off, off + n) =~= t.subrange(i, i + n));
}

/// Whether `q` appears in `s`.
pub open spec fn shows(s: Seq<char>, q: Seq<char>) -> bool {
    exists|off: int| 0 <= off && off + q.len() <= s.len() && #[trigger] s.subrange(off, off + q.len()) == q
}

/// Every hit on a page is an occurrence of the lower-cased query in the
/// lower-cased page text, the hits come in increasing offset order, and every
/// snippet shows the query.
pub proof fn lemma_page_hits_show_query(p: Page, lq: Seq<char>)
    requires
        lq.len() > 0,
    ensures
        forall|k: int|
            0 <= k < page_hits(p, lq).len() ==> shows(#[trigger] page_hits(p, lq)[k].snippet, lq),
        forall|k: int|
            0 <= k < page_hits(p, lq).len() - 1 ==> #[trigger] page_hits(p, lq)[k].match_start
                <= page_hits(p, lq)[k + 1].match_start,
{
    let lt = lower_of(page_text(p.elements@));
    let ms = matches_from(lt, lq, 0);
    lemma_matches_complete(lt, lq, 0);
    assert forall|k: int| 0 <= k < page_hits(p, lq).len() implies shows(
        #[trigger] page_hits(p, lq)[k].snippet,
        lq,
    ) by {
        lemma_occurs_bounds(lt, lq, ms[k]);
        reveal(occurs_at);
        lemma_snippet_holds_match(lt, ms[k], lq.len() as int);
    }
    assert forall|k: int| 0 <= k < page_hits(p, lq).len() - 1 implies #[trigger] page_hits(
        p,
        lq,
    )[k].match_start <= page_hits(p, lq)[k + 1].match_start by {
        lemma_occurs_bounds(lt, lq, ms[k + 1]);
        lemma_byte_len_prefix_mono(lt, ms[k], ms[k + 1]);
    }
}

proof fn lemma_byte_len_prefix_mono(t: Seq<char>, i: int, j: int)
    requires
        0 <= i <= j <= t.len(),
    ensures
        byte_len(t.subrange(0, i)) <= byte_len(t.subrange(0, j)),
    decreases j - i,
{
    if i < j {
        lemma_byte_len_prefix_mono(t, i, j - 1);
        assert(t.subrange(0, j).drop_last() =~= t.subrange(0, j - 1));
    }
}

} // verus!
