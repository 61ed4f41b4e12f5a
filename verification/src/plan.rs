//! The planner: turns per-page token counts and outline boundaries into chunks of pages.

use crate::guarantees;
use crate::laws;
use crate::model::{self, Layout, Span};
use std::ops::Range;
use vstd::prelude::*;

pub use crate::level::{Boundary, SplitAt};

verus! {

/// Something about the document that the plan could not make good.
#[derive(Debug, Clone, Copy, PartialEq, Eq, Structural)]
pub enum Diagnostic {
    /// The page exceeds the budget by itself, so it is a chunk of its own.
    OversizedPage { page: u32, tokens: usize },
}

/// Consecutive pages, counted from 1, that go into one output document.
#[derive(Debug, Clone, PartialEq, Eq)]
pub struct PlannedChunk {
    pub pages: Vec<u32>,
    /// The level at which the cuts next to this chunk were taken: the level that was asked for,
    /// or a finer one where the chunk comes out of a unit that exceeded the budget.
    pub effective_level: SplitAt,
}

/// The chunks of a document, in order, and what is to be said about them.
#[derive(Debug, Clone, PartialEq, Eq)]
pub struct PlanResult {
    pub chunks: Vec<PlannedChunk>,
    pub diagnostics: Vec<Diagnostic>,
}

/// The document that the planner's arguments describe.
pub open spec fn layout(tokens: &[usize], boundaries: &[Boundary], budget: usize) -> Layout {
    Layout { tokens: tokens@, boundaries: boundaries@, budget: budget as nat }
}

/// The numbers, counted from 1, of the pages `a..b` counted from 0.
pub open spec fn page_run(a: int, b: int) -> Seq<u32> {
    Seq::new((b - a) as nat, |i: int| (a + i + 1) as u32)
}

/// The chunk holds the pages of the span and was cut at the span's level.
pub open spec fn chunk_is(chunk: PlannedChunk, span: Span) -> bool {
    chunk.pages@ == page_run(span.start, span.end) && chunk.effective_level == span.level
}

/// The chunks are the spans, one for one.
pub open spec fn chunks_are(chunks: Seq<PlannedChunk>, spans: Seq<Span>) -> bool {
    &&& chunks.len() == spans.len()
    &&& forall|i: int| 0 <= i < spans.len() ==> chunk_is(#[trigger] chunks[i], spans[i])
}

/// The pages that a chunk holds, as a span.
pub open spec fn span_of(chunk: PlannedChunk) -> Span {
    Span {
        start: chunk.pages@[0] - 1,
        end: chunk.pages@[0] - 1 + chunk.pages@.len(),
        level: chunk.effective_level,
    }
}

/// The pages that each chunk holds, as spans.
pub open spec fn spans_of(chunks: Seq<PlannedChunk>) -> Seq<Span> {
    chunks.map_values(|chunk: PlannedChunk| span_of(chunk))
}

/// The pages are consecutive pages of a document of `n` pages.
pub open spec fn is_run(pages: Seq<u32>, n: nat) -> bool {
    &&& pages.len() > 0
    &&& pages[0] >= 1
    &&& pages[0] - 1 + pages.len() <= n
    &&& pages == page_run(pages[0] - 1, pages[0] - 1 + pages.len())
}

/// Neither chunk is empty, and the second one's pages follow the first one's without a gap, in a
/// document of `n` pages.
pub open spec fn are_neighbours(left: PlannedChunk, right: PlannedChunk, n: nat) -> bool {
    &&& left.pages@.len() > 0
    &&& right.pages@.len() > 0
    &&& is_run(left.pages@ + right.pages@, n)
}

/// No chunk is empty, and their pages, one chunk after the other, are consecutive pages of a
/// document of `n` pages.
pub open spec fn consecutive(chunks: Seq<PlannedChunk>, n: nat) -> bool {
    &&& forall|i: int| 0 <= i < chunks.len() ==> is_run((#[trigger] chunks[i]).pages@, n)
    &&& forall|i: int, j: int|
        0 <= i < chunks.len() && j == i + 1 && j < chunks.len() ==> span_of(
            #[trigger] chunks[i],
        ).end == span_of(#[trigger] chunks[j]).start
}

proof fn lemma_neighbours(left: PlannedChunk, right: PlannedChunk, n: nat)
    requires
        n <= u32::MAX,
    ensures
        are_neighbours(left, right, n) <==> is_run(left.pages@, n) && is_run(right.pages@, n)
            && span_of(left).end == span_of(right).start,
{
    let l = left.pages@;
    let r = right.pages@;
    let both = l + r;
    if are_neighbours(left, right, n) {
        let lo = both[0] - 1;
        let mid = lo + l.len();
        let hi = mid + r.len();
        assert(both[0] == l[0]);
        assert forall|k: int| 0 <= k < l.len() implies l[k] == page_run(lo, mid)[k] by {
            assert(both[k] == l[k]);
        }
        assert(l =~= page_run(lo, mid));
        assert forall|k: int| 0 <= k < r.len() implies r[k] == page_run(mid, hi)[k] by {
            assert(both[l.len() + k] == r[k]);
        }
        assert(r =~= page_run(mid, hi));
        assert(r[0] == mid + 1);
    }
    if is_run(l, n) && is_run(r, n) && span_of(left).end == span_of(right).start {
        assert(both[0] == l[0]);
        assert(both =~= page_run(l[0] - 1, r[0] - 1 + r.len()));
    }
}

proof fn lemma_spans(chunks: Seq<PlannedChunk>, spans: Seq<Span>, a: int, b: int)
    requires
        chunks_are(chunks, spans),
        laws::tiles(spans, a, b),
        0 <= a,
        b <= u32::MAX,
    ensures
        spans_of(chunks) == spans,
        consecutive(chunks, b as nat),
{
    assert forall|i: int| 0 <= i < chunks.len() implies span_of(#[trigger] chunks[i]) == spans[i]
        && is_run(chunks[i].pages@, b as nat) by {
        laws::lemma_tiles_within(spans, a, b, i);
        assert(chunk_is(chunks[i], spans[i]));
    }
    assert(spans_of(chunks) =~= spans);
    assert forall|i: int, j: int|
        0 <= i < chunks.len() && j == i + 1 && j < chunks.len() implies span_of(
        #[trigger] chunks[i],
    ).end == span_of(#[trigger] chunks[j]).start by {
        assert(spans[i].end == spans[j].start);
    }
}

proof fn lemma_consecutive(chunks: Seq<PlannedChunk>, n: nat)
    requires
        consecutive(chunks, n),
    ensures
        chunks_are(chunks, spans_of(chunks)),
{
    assert forall|i: int| 0 <= i < chunks.len() implies chunk_is(
        #[trigger] chunks[i],
        spans_of(chunks)[i],
    ) by {
        assert(is_run(chunks[i].pages@, n));
    }
}

proof fn lemma_wider(chunks: Seq<PlannedChunk>, m: nat, n: nat)
    requires
        consecutive(chunks, m),
        m <= n,
    ensures
        consecutive(chunks, n),
{
    assert forall|i: int| 0 <= i < chunks.len() implies is_run(
        (#[trigger] chunks[i]).pages@,
        n,
    ) by {
        assert(is_run(chunks[i].pages@, m));
    }
}

/// One diagnostic for each page of `a..b` that exceeds the budget by itself, in page order.
pub open spec fn oversized_pages(doc: Layout, a: int, b: int) -> Seq<Diagnostic> {
    doc.oversized(a, b).map_values(
        |i: int| Diagnostic::OversizedPage { page: (i + 1) as u32, tokens: doc.tokens[i] },
    )
}

/// The starts and ends of the ranges.
pub open spec fn range_ends(ranges: Seq<Range<usize>>) -> Seq<(int, int)> {
    ranges.map_values(|r: Range<usize>| (r.start as int, r.end as int))
}

/// Segments `page_range` into unit ranges at `split_at`. A unit starts at `page_range.start` and
/// at every interior page whose boundary qualifies under `split_at`; at page level every page is
/// its own unit.
pub fn segment_units(
    boundaries: &[Boundary],
    page_range: Range<usize>,
    split_at: SplitAt,
) -> (segments: Vec<Range<usize>>)
    ensures
        range_ends(segments@) == model::units(
            boundaries@,
            split_at,
            page_range.start as int,
            page_range.end as int,
        ),
{
    let mut segments: Vec<Range<usize>> = Vec::new();
    let start: usize = page_range.start;
    let end: usize = page_range.end;
    if start >= end {
        return segments;
    }
    let ghost marks = boundaries@;
    let mut cur_start: usize = start;
    let mut i: usize = start + 1;
    while i < end
        invariant
            start <= cur_start < i <= end,
            marks == boundaries@,
            model::next_cut(marks, split_at, cur_start as int, end as int) == model::next_cut(
                marks,
                split_at,
                i - 1,
                end as int,
            ),
            model::units(marks, split_at, start as int, end as int) == range_ends(segments@)
                + model::units(marks, split_at, cur_start as int, end as int),
        decreases end - i,
    {
        if split_at == SplitAt::Page || (i < boundaries.len() && split_at.matches(&boundaries[i])) {
            let ghost before = range_ends(segments@);
            segments.push(cur_start..i);
            proof {
                assert(range_ends(segments@) == before + seq![(cur_start as int, i as int)]);
            }
            cur_start = i;
        }
        i = i + 1;
    }
    let ghost before = range_ends(segments@);
    segments.push(cur_start..end);
    proof {
        assert(range_ends(segments@) == before + seq![(cur_start as int, end as int)]);
        assert(model::units(marks, split_at, end as int, end as int) == Seq::<(int, int)>::empty());
    }
    segments
}

/// Finds the coarsest level strictly finer than `current` that has at least one boundary inside
/// `page_range`, the start page aside, which is the unit's own boundary. Falls through to page
/// level when nothing finer has an interior split point.
pub fn next_effective_level(
    boundaries: &[Boundary],
    page_range: Range<usize>,
    current: SplitAt,
) -> (level: SplitAt)
    requires
        current is Depth ==> page_range.start < usize::MAX && (page_range.start + 1
            < page_range.end ==> page_range.end <= boundaries@.len()),
    ensures
        level == model::finer(
            boundaries@,
            page_range.start as int,
            page_range.end as int,
            current,
        ),
        current matches SplitAt::Depth(n) ==> forall|d: u32| #[trigger]
            model::is_next_depth(
                boundaries@,
                page_range.start as int,
                page_range.end as int,
                n,
                d,
            ) ==> level == SplitAt::Depth(d),
{
    let start_depth: u32 = match current {
        SplitAt::Page | SplitAt::AnyBookmark => {
            return SplitAt::Page;
        },
        SplitAt::Depth(n) => n,
    };
    let ghost marks = boundaries@;
    let start: usize = page_range.start;
    let end: usize = page_range.end;
    let mut shallowest: Option<u32> = None;
    let mut i: usize = start + 1;
    while i < end
        invariant
            start < i,
            i <= end || i == start + 1,
            start + 1 < end ==> end <= boundaries@.len(),
            marks == boundaries@,
            forall|d: u32| #[trigger]
                model::marked_within(marks, start as int, i as int, d) <==> (shallowest matches Some(
                    least,
                ) && least <= d),
        decreases end - i,
    {
        let ghost before = shallowest;
        match boundaries[i] {
            Boundary::Bookmark { depth } => {
                match shallowest {
                    Some(least) => {
                        if depth < least {
                            shallowest = Some(depth);
                        }
                    },
                    None => {
                        shallowest = Some(depth);
                    },
                }
            },
            Boundary::Page => {},
        }
        proof {
            assert forall|d: u32| #[trigger]
                model::marked_within(marks, start as int, i + 1, d) <==> (shallowest matches Some(
                    least,
                ) && least <= d) by {
                lemma_marked_step(marks, start as int, i as int, d);
                assert(model::marked_within(marks, start as int, i as int, d) <==> (
                before matches Some(least) && least <= d));
            }
        }
        i = i + 1;
    }
    proof {
        if end <= start + 1 {
            assert forall|d: u32| #[trigger]
                model::marked_within(marks, start as int, end as int, d) <==> (
                shallowest matches Some(least) && least <= d) by {
                assert(!model::marked_within(marks, start as int, end as int, d));
                assert(!model::marked_within(marks, start as int, start + 1, d));
            }
        }
    }
    match shallowest {
        Some(least) => {
            proof {
                assert(model::marked_within(marks, start as int, end as int, u32::MAX));
            }
            if least > start_depth {
                assert(model::is_next_depth(marks, start as int, end as int, start_depth, least));
                SplitAt::Depth(least)
            } else if start_depth < u32::MAX {
                let next: u32 = start_depth + 1;
                assert(model::is_next_depth(marks, start as int, end as int, start_depth, next));
                SplitAt::Depth(next)
            } else {
                SplitAt::Page
            }
        },
        None => {
            proof {
                assert forall|d: u32| !model::is_next_depth(
                    marks,
                    start as int,
                    end as int,
                    start_depth,
                    d,
                ) by {
                    assert(!model::marked_within(marks, start as int, end as int, d));
                }
            }
            SplitAt::Page
        },
    }
}

proof fn lemma_marked_step(marks: Seq<Boundary>, start: int, i: int, d: u32)
    requires
        start < i,
    ensures
        model::marked_within(marks, start, i + 1, d) <==> model::marked_within(marks, start, i, d)
            || (match marks[i] {
            Boundary::Bookmark { depth } => depth <= d,
            Boundary::Page => false,
        }),
{
    if model::marked_within(marks, start, i, d) {
        let k = choose|k: int|
            start < k < i && (match #[trigger] marks[k] {
                Boundary::Bookmark { depth } => depth <= d,
                Boundary::Page => false,
            });
        assert(start < k < i + 1);
    }
    if model::marked_within(marks, start, i + 1, d) {
        let k = choose|k: int|
            start < k < i + 1 && (match #[trigger] marks[k] {
                Boundary::Bookmark { depth } => depth <= d,
                Boundary::Page => false,
            });
        assert(k < i || k == i);
    }
}

/// Tokens on the pages of `range`.
fn sum_tokens(tokens: &[usize], range: &Range<usize>) -> (total: u128)
    requires
        range.start <= range.end <= tokens@.len(),
    ensures
        total == model::token_sum(tokens@, range.start as int, range.end as int),
{
    let mut total: u128 = 0;
    let mut i: usize = range.start;
    while i < range.end
        invariant
            range.start <= i <= range.end <= tokens@.len(),
            total == model::token_sum(tokens@, range.start as int, i as int),
        decreases range.end - i,
    {
        proof {
            model::lemma_token_sum_bound(tokens@, range.start as int, i + 1);
        }
        total = total + tokens[i] as u128;
        i = i + 1;
    }
    total
}

/// Closes the chunk that holds the pages `open..pos`, if there are any.
fn flush_units(
    chunks: &mut Vec<PlannedChunk>,
    open: usize,
    pos: usize,
    level: SplitAt,
    Ghost(done): Ghost<Seq<Span>>,
)
    requires
        pos <= u32::MAX,
        chunks_are(old(chunks)@, done),
    ensures
        chunks_are(final(chunks)@, done + model::flush(level, open as int, pos as int)),
{
    if open >= pos {
        return;
    }
    let mut pages: Vec<u32> = Vec::new();
    let mut i: usize = open;
    while i < pos
        invariant
            open <= i <= pos <= u32::MAX,
            pages@ == page_run(open as int, i as int),
        decreases pos - i,
    {
        pages.push((i + 1) as u32);
        i = i + 1;
    }
    chunks.push(PlannedChunk { pages, effective_level: level });
}

/// The numbers are those of pages of a document of `n` pages.
pub open spec fn are_pages(pages: Seq<u32>, n: nat) -> bool {
    forall|i: int| 0 <= i < pages.len() ==> 1 <= #[trigger] pages[i] <= n
}

/// Tokens on the pages of a list.
fn sum_pages(tokens: &[usize], pages: &[u32]) -> (total: u128)
    requires
        are_pages(pages@, tokens@.len()),
    ensures
        total == model::list_sum(tokens@, pages@),
{
    let mut total: u128 = 0;
    let mut i: usize = 0;
    while i < pages.len()
        invariant
            i <= pages@.len(),
            are_pages(pages@, tokens@.len()),
            total == model::list_sum(tokens@, pages@.take(i as int)),
        decreases pages@.len() - i,
    {
        proof {
            assert(pages@.take(i + 1).drop_last() =~= pages@.take(i as int));
            model::lemma_list_sum_bound(tokens@, pages@.take(i + 1));
            lemma_words((i + 1) as nat);
        }
        total = total + tokens[(pages[i] - 1) as usize] as u128;
        i = i + 1;
    }
    assert(pages@.take(i as int) =~= pages@);
    total
}

proof fn lemma_words(n: nat)
    requires
        n <= usize::MAX,
    ensures
        n * 0xffff_ffff_ffff_ffff <= u128::MAX,
{
    assert(n * 0xffff_ffff_ffff_ffff <= 0xffff_ffff_ffff_ffff * 0xffff_ffff_ffff_ffff)
        by (nonlinear_arith)
        requires
            n <= 0xffff_ffff_ffff_ffff,
    ;
}

/// Searches all positions in `combined` where a cut is allowed at `split_at` and both halves stay
/// within `budget`; returns the index, of the last page on the left, with the smallest token
/// difference between the halves, or `None` if no cut is feasible.
fn best_balanced_cut(
    combined: &[u32],
    tokens: &[usize],
    boundaries: &[Boundary],
    split_at: SplitAt,
    budget: usize,
) -> (best: Option<usize>)
    requires
        are_pages(combined@, tokens@.len()),
        tokens@.len() == boundaries@.len(),
    ensures
        layout(tokens, boundaries, budget).best_place(split_at, combined@) == (match best {
            Some(k) => Some(k as int),
            None => None,
        }),
{
    let ghost doc = layout(tokens, boundaries, budget);
    let len: usize = combined.len();
    let total: u128 = sum_pages(tokens, combined);
    let mut best: Option<usize> = None;
    let mut best_diff: u128 = 0;
    let mut left_sum: u128 = 0;
    let mut k: usize = 0;
    assert(combined@.take(0) =~= Seq::empty());
    while len > 0 && k < len - 1
        invariant
            len == combined@.len(),
            len > 0 ==> k < len,
            doc == layout(tokens, boundaries, budget),
            tokens@.len() == boundaries@.len(),
            are_pages(combined@, tokens@.len()),
            total == model::list_sum(tokens@, combined@),
            left_sum == model::list_sum(tokens@, combined@.take(k as int)),
            match best {
                Some(b) => b < k && doc.place_fits(split_at, combined@, b as int) && best_diff
                    == doc.place_gap(combined@, b as int) && (forall|j: int|
                    j < k && #[trigger] doc.place_fits(split_at, combined@, j) ==> best_diff
                        < doc.place_gap(combined@, j) || (best_diff == doc.place_gap(combined@, j)
                        && b <= j)),
                None => forall|j: int|
                    j < k ==> !#[trigger] doc.place_fits(split_at, combined@, j),
            },
        decreases len - k,
    {
        let page: usize = combined[k] as usize;
        proof {
            let left = combined@.take(k + 1);
            assert(left.drop_last() =~= combined@.take(k as int));
            assert(combined@ =~= left + combined@.skip(k + 1));
            model::lemma_list_sum_split(tokens@, left, combined@.skip(k + 1));
        }
        left_sum = left_sum + tokens[page - 1] as u128;
        let right_sum: u128 = total - left_sum;
        let allowed: bool = page == tokens.len() || split_at.matches(&boundaries[page]);
        if allowed && left_sum <= budget as u128 && right_sum <= budget as u128 {
            assert(doc.place_fits(split_at, combined@, k as int));
            let diff: u128 = if left_sum >= right_sum {
                left_sum - right_sum
            } else {
                right_sum - left_sum
            };
            let better: bool = match best {
                Some(_) => diff < best_diff,
                None => true,
            };
            if better {
                best_diff = diff;
                best = Some(k);
            }
        }
        k = k + 1;
    }
    proof {
        match best {
            Some(b) => {
                assert(doc.is_best_place(split_at, combined@, b as int));
            },
            None => {},
        }
    }
    best
}

proof fn lemma_run_sum(tokens: Seq<usize>, a: int, b: int)
    requires
        0 <= a <= b <= u32::MAX,
    ensures
        model::list_sum(tokens, page_run(a, b)) == model::token_sum(tokens, a, b),
    decreases b - a,
{
    if a < b {
        assert(page_run(a, b).drop_last() =~= page_run(a, b - 1));
        lemma_run_sum(tokens, a, b - 1);
    }
}

proof fn lemma_run_place(doc: Layout, level: SplitAt, a: int, b: int, k: int)
    requires
        0 <= a <= b <= doc.tokens.len() <= u32::MAX,
        doc.tokens.len() == doc.boundaries.len(),
    ensures
        doc.place_fits(level, page_run(a, b), k) <==> doc.feasible(level, a, b, a + k + 1),
        0 <= k < b - a ==> doc.place_gap(page_run(a, b), k) == doc.gap(a, b, a + k + 1),
{
    let pages = page_run(a, b);
    if 0 <= k < b - a {
        assert(pages.take(k + 1) =~= page_run(a, a + k + 1));
        assert(pages.skip(k + 1) =~= page_run(a + k + 1, b));
        lemma_run_sum(doc.tokens, a, a + k + 1);
        lemma_run_sum(doc.tokens, a + k + 1, b);
        assert(pages[k] == a + k + 1);
    }
}

/// Where the pages of a list are consecutive, the best place to cut it is the best cut.
proof fn lemma_run_best(doc: Layout, level: SplitAt, a: int, b: int)
    requires
        0 <= a <= b <= doc.tokens.len() <= u32::MAX,
        doc.tokens.len() == doc.boundaries.len(),
    ensures
        doc.best_cut(level, a, b) == (match doc.best_place(level, page_run(a, b)) {
            Some(k) => Some(a + k + 1),
            None => None,
        }),
        doc.best_place(level, page_run(a, b)) matches Some(k) ==> doc.feasible(
            level,
            a,
            b,
            a + k + 1,
        ),
{
    let pages = page_run(a, b);
    assert forall|k: int|
        #![trigger doc.is_best_place(level, pages, k)]
        #![trigger doc.is_best_cut(level, a, b, a + k + 1)]
        doc.is_best_place(level, pages, k) <==> doc.is_best_cut(level, a, b, a + k + 1) by {
        lemma_run_place(doc, level, a, b, k);
        if doc.is_best_place(level, pages, k) {
            assert forall|j: int| #[trigger] doc.feasible(level, a, b, j) implies doc.gap(
                a,
                b,
                a + k + 1,
            ) < doc.gap(a, b, j) || (doc.gap(a, b, a + k + 1) == doc.gap(a, b, j) && a + k + 1
                <= j) by {
                lemma_run_place(doc, level, a, b, j - a - 1);
                assert(doc.place_fits(level, pages, j - a - 1));
            }
        }
        if doc.is_best_cut(level, a, b, a + k + 1) {
            assert forall|j: int| #[trigger] doc.place_fits(
                level,
                pages,
                j,
            ) implies doc.place_gap(pages, k) < doc.place_gap(pages, j) || (doc.place_gap(pages, k)
                == doc.place_gap(pages, j) && k <= j) by {
                lemma_run_place(doc, level, a, b, j);
                assert(doc.feasible(level, a, b, a + j + 1));
            }
        }
    }
    match doc.best_place(level, pages) {
        Some(k) => {
            assert(doc.is_best_place(level, pages, k));
            lemma_run_place(doc, level, a, b, k);
            assert(doc.is_best_cut(level, a, b, a + k + 1));
            let c = doc.best_cut(level, a, b)->0;
            assert(doc.is_best_cut(level, a, b, c));
            assert(doc.feasible(level, a, b, c) && doc.feasible(level, a, b, a + k + 1));
        },
        None => {
            if doc.best_cut(level, a, b) is Some {
                let c = doc.best_cut(level, a, b)->0;
                assert(doc.is_best_cut(level, a, b, a + (c - a - 1) + 1));
                assert(doc.is_best_place(level, pages, c - a - 1));
            }
        },
    }
}

/// Copies the pages `from..to` of `pages`.
fn page_slice(pages: &Vec<u32>, from: usize, to: usize) -> (part: Vec<u32>)
    requires
        from <= to <= pages@.len(),
    ensures
        part@ == pages@.subrange(from as int, to as int),
{
    let mut part: Vec<u32> = Vec::new();
    let mut i: usize = from;
    while i < to
        invariant
            from <= i <= to <= pages@.len(),
            part@ == pages@.subrange(from as int, i as int),
        decreases to - i,
    {
        part.push(pages[i]);
        i = i + 1;
    }
    part
}

/// Moves the cut between chunks `i` and `i + 1` to its best place, and says whether it moved.
pub fn try_rebalance_pair(
    chunks: &mut Vec<PlannedChunk>,
    i: usize,
    tokens: &[usize],
    boundaries: &[Boundary],
    split_at: SplitAt,
    budget: usize,
) -> (changed: bool)
    requires
        i + 1 < old(chunks)@.len(),
        old(chunks)@[i as int].pages@.len() > 0,
        are_pages(old(chunks)@[i as int].pages@, tokens@.len()),
        are_pages(old(chunks)@[i + 1].pages@, tokens@.len()),
        tokens@.len() == boundaries@.len() <= u32::MAX,
    ensures
        final(chunks)@.len() == old(chunks)@.len(),
        forall|j: int|
            0 <= j < old(chunks)@.len() && j != i && j != i + 1 ==> #[trigger] final(chunks)@[j]
                == old(chunks)@[j],
        (final(chunks)@[i as int].pages@, final(chunks)@[i + 1].pages@) == layout(
            tokens,
            boundaries,
            budget,
        ).parted(split_at, old(chunks)@[i as int].pages@, old(chunks)@[i + 1].pages@),
        final(chunks)@[i as int].effective_level == old(chunks)@[i as int].effective_level,
        final(chunks)@[i + 1].effective_level == old(chunks)@[i + 1].effective_level,
        changed <==> final(chunks)@ != old(chunks)@,
        changed <==> final(chunks)@[i as int].pages@ != old(chunks)@[i as int].pages@,
{
    let ghost doc = layout(tokens, boundaries, budget);
    let ghost both = chunks@[i as int].pages@ + chunks@[i + 1].pages@;
    assert(i + 1 < chunks.len());
    let mut combined: Vec<u32> = page_slice(&chunks[i].pages, 0, chunks[i].pages.len());
    let mut tail: Vec<u32> = page_slice(&chunks[i + 1].pages, 0, chunks[i + 1].pages.len());
    let original_cut: usize = combined.len() - 1;
    combined.append(&mut tail);
    assert(combined@ =~= both);
    let pick: usize = match best_balanced_cut(
        combined.as_slice(),
        tokens,
        boundaries,
        split_at,
        budget,
    ) {
        Some(p) => p,
        None => {
            return false;
        },
    };
    assert(doc.is_best_place(split_at, both, pick as int));
    if pick == original_cut {
        assert(both.take(pick + 1) =~= chunks@[i as int].pages@);
        assert(both.skip(pick + 1) =~= chunks@[i + 1].pages@);
        return false;
    }
    let left: Vec<u32> = page_slice(&combined, 0, pick + 1);
    let right: Vec<u32> = page_slice(&combined, pick + 1, combined.len());
    let left_level: SplitAt = chunks[i].effective_level;
    let right_level: SplitAt = chunks[i + 1].effective_level;
    chunks.set(i, PlannedChunk { pages: left, effective_level: left_level });
    chunks.set(i + 1, PlannedChunk { pages: right, effective_level: right_level });
    proof {
        assert(left@ =~= both.take(pick + 1));
        assert(right@ =~= both.skip(pick + 1));
        assert(chunks@[i as int].pages@.len() != old(chunks)@[i as int].pages@.len());
    }
    true
}

/// Where two chunks hold consecutive pages, moving the cut between them to its best place is
/// shifting the pair of spans.
proof fn lemma_pair_shifted(
    before: Seq<PlannedChunk>,
    now: Seq<PlannedChunk>,
    i: int,
    tokens: &[usize],
    boundaries: &[Boundary],
    split_at: SplitAt,
    budget: usize,
)
    requires
        0 <= i,
        i + 1 < before.len(),
        now.len() == before.len(),
        are_neighbours(before[i], before[i + 1], tokens@.len()),
        tokens@.len() == boundaries@.len() <= u32::MAX,
        forall|j: int|
            0 <= j < before.len() && j != i && j != i + 1 ==> #[trigger] now[j] == before[j],
        (now[i].pages@, now[i + 1].pages@) == layout(tokens, boundaries, budget).parted(
            split_at,
            before[i].pages@,
            before[i + 1].pages@,
        ),
        now[i].effective_level == before[i].effective_level,
        now[i + 1].effective_level == before[i + 1].effective_level,
    ensures
        are_neighbours(now[i], now[i + 1], tokens@.len()),
        now[i].pages@ + now[i + 1].pages@ == before[i].pages@ + before[i + 1].pages@,
        spans_of(now) == layout(tokens, boundaries, budget).shift_pair(
            split_at,
            spans_of(before),
            i,
        ),
        now[i].pages@ == before[i].pages@ <==> spans_of(now) == spans_of(before),
{
    let doc = layout(tokens, boundaries, budget);
    let spans = spans_of(before);
    let lo = spans[i].start;
    let hi = spans[i + 1].end;
    let both = before[i].pages@ + before[i + 1].pages@;
    lemma_neighbours(before[i], before[i + 1], tokens@.len());
    assert(both[0] == before[i].pages@[0]);
    assert(both == page_run(lo, hi));
    lemma_run_best(doc, split_at, lo, hi);
    let moved = doc.shift_pair(split_at, spans, i);
    match doc.best_place(split_at, both) {
        Some(k) => {
            assert(now[i].pages@ + now[i + 1].pages@ =~= both);
            assert(now[i].pages@ =~= page_run(lo, lo + k + 1));
            assert(now[i + 1].pages@ =~= page_run(lo + k + 1, hi));
            assert(spans_of(now) =~= moved);
            assert(spans_of(now)[i].end == lo + k + 1);
            if k + 1 == before[i].pages@.len() {
                assert(now[i].pages@ =~= before[i].pages@);
                assert(spans_of(now) =~= spans);
            }
        },
        None => {
            assert forall|j: int| 0 <= j < now.len() implies #[trigger] spans_of(now)[j]
                == spans[j] by {
                if j != i && j != i + 1 {
                    assert(now[j] == before[j]);
                }
            }
            assert(spans_of(now) =~= spans);
        },
    }
}

/// Rebalances the last two chunks.
fn rebalance_last_two(
    chunks: &mut Vec<PlannedChunk>,
    tokens: &[usize],
    boundaries: &[Boundary],
    split_at: SplitAt,
    budget: usize,
)
    requires
        consecutive(old(chunks)@, tokens@.len()),
        tokens@.len() == boundaries@.len() <= u32::MAX,
    ensures
        consecutive(final(chunks)@, tokens@.len()),
        spans_of(final(chunks)@) == (if old(chunks)@.len() < 2 {
            spans_of(old(chunks)@)
        } else {
            layout(tokens, boundaries, budget).shift_pair(
                split_at,
                spans_of(old(chunks)@),
                old(chunks)@.len() - 2,
            )
        }),
{
    if chunks.len() < 2 {
        return;
    }
    let i: usize = chunks.len() - 2;
    proof {
        lemma_neighbours(chunks@[i as int], chunks@[i + 1], tokens@.len());
    }
    try_rebalance_pair(chunks, i, tokens, boundaries, split_at, budget);
    proof {
        lemma_pair_shifted(
            old(chunks)@,
            chunks@,
            i as int,
            tokens,
            boundaries,
            split_at,
            budget,
        );
        lemma_still_consecutive(old(chunks)@, chunks@, i as int, tokens@.len());
    }
}

proof fn lemma_still_consecutive(
    before: Seq<PlannedChunk>,
    now: Seq<PlannedChunk>,
    i: int,
    n: nat,
)
    requires
        n <= u32::MAX,
        consecutive(before, n),
        0 <= i,
        i + 1 < before.len(),
        now.len() == before.len(),
        forall|j: int|
            0 <= j < before.len() && j != i && j != i + 1 ==> #[trigger] now[j] == before[j],
        are_neighbours(now[i], now[i + 1], n),
        now[i].pages@ + now[i + 1].pages@ == before[i].pages@ + before[i + 1].pages@,
    ensures
        consecutive(now, n),
{
    lemma_neighbours(now[i], now[i + 1], n);
    lemma_neighbours(before[i], before[i + 1], n);
    let joined = now[i].pages@ + now[i + 1].pages@;
    assert(joined[0] == now[i].pages@[0] && joined[0] == before[i].pages@[0]);
    assert(joined.len() == now[i].pages@.len() + now[i + 1].pages@.len());
    assert(span_of(now[i]).start == span_of(before[i]).start);
    assert(span_of(now[i + 1]).end == span_of(before[i + 1]).end);
    assert forall|x: int, y: int|
        0 <= x < now.len() && y == x + 1 && y < now.len() implies span_of(#[trigger] now[x]).end
        == span_of(#[trigger] now[y]).start by {
        assert(span_of(before[x]).end == span_of(before[y]).start);
    }
    assert forall|x: int| 0 <= x < now.len() implies is_run((#[trigger] now[x]).pages@, n) by {
        assert(is_run(before[x].pages@, n));
    }
}

/// One sweep over all adjacent pairs of chunks that were cut at `split_at`; says whether any cut
/// moved.
fn sweep_pairs(
    chunks: &mut Vec<PlannedChunk>,
    tokens: &[usize],
    boundaries: &[Boundary],
    split_at: SplitAt,
    budget: usize,
) -> (changed: bool)
    requires
        consecutive(old(chunks)@, tokens@.len()),
        tokens@.len() == boundaries@.len() <= u32::MAX,
    ensures
        consecutive(final(chunks)@, tokens@.len()),
        spans_of(final(chunks)@) == layout(tokens, boundaries, budget).sweep(
            split_at,
            spans_of(old(chunks)@),
            0,
        ),
        !changed ==> spans_of(final(chunks)@) == spans_of(old(chunks)@),
{
    let ghost doc = layout(tokens, boundaries, budget);
    let ghost spans = spans_of(chunks@);
    let mut changed: bool = false;
    let mut i: usize = 0;
    let pairs: usize = if chunks.len() == 0 {
        0
    } else {
        chunks.len() - 1
    };
    while i < pairs
        invariant
            pairs == (if chunks@.len() == 0 {
                0
            } else {
                chunks@.len() - 1
            }),
            i <= pairs,
            doc == layout(tokens, boundaries, budget),
            consecutive(chunks@, tokens@.len()),
            tokens@.len() == boundaries@.len() <= u32::MAX,
            doc.sweep(split_at, spans, 0) == doc.sweep(split_at, spans_of(chunks@), i as nat),
            !changed ==> spans_of(chunks@) == spans,
        decreases pairs - i,
    {
        let ghost before = chunks@;
        if chunks[i].effective_level == split_at && chunks[i + 1].effective_level == split_at {
            proof {
                lemma_neighbours(chunks@[i as int], chunks@[i + 1], tokens@.len());
            }
            if try_rebalance_pair(chunks, i, tokens, boundaries, split_at, budget) {
                changed = true;
            }
            proof {
                lemma_pair_shifted(
                    before,
                    chunks@,
                    i as int,
                    tokens,
                    boundaries,
                    split_at,
                    budget,
                );
                lemma_still_consecutive(before, chunks@, i as int, tokens@.len());
            }
        }
        assert(spans_of(chunks@) == doc.shift_own_pair(split_at, spans_of(before), i as int));
        i = i + 1;
    }
    changed
}

/// Rebalances all adjacent pairs of chunks, sweep by sweep: until a full sweep moves nothing, but
/// three times at most. Only moves cuts between chunks that were cut at `split_at`, to places that
/// are allowed at `split_at`, so regions that were planned at a deeper level stay intact.
fn pairwise_rebalance(
    chunks: &mut Vec<PlannedChunk>,
    tokens: &[usize],
    boundaries: &[Boundary],
    split_at: SplitAt,
    budget: usize,
)
    requires
        consecutive(old(chunks)@, tokens@.len()),
        tokens@.len() == boundaries@.len() <= u32::MAX,
    ensures
        consecutive(final(chunks)@, tokens@.len()),
        spans_of(final(chunks)@) == layout(tokens, boundaries, budget).balance(
            split_at,
            spans_of(old(chunks)@),
        ),
{
    if !sweep_pairs(chunks, tokens, boundaries, split_at, budget) {
        return;
    }
    if !sweep_pairs(chunks, tokens, boundaries, split_at, budget) {
        return;
    }
    sweep_pairs(chunks, tokens, boundaries, split_at, budget);
}

/// Budget-greedy packing of single pages, followed by the pairwise rebalance. A page that exceeds
/// the budget by itself becomes its own chunk, with a diagnostic.
fn pack_pages_balanced(
    tokens: &[usize],
    boundaries: &[Boundary],
    range: Range<usize>,
    budget: usize,
    diagnostics: &mut Vec<Diagnostic>,
) -> (chunks: Vec<PlannedChunk>)
    requires
        range.start <= range.end <= tokens@.len() <= u32::MAX,
        tokens@.len() == boundaries@.len(),
    ensures
        chunks_are(
            chunks@,
            layout(tokens, boundaries, budget).overrun(
                SplitAt::Page,
                range.start as int,
                range.end as int,
            ),
        ),
        final(diagnostics)@ == old(diagnostics)@ + oversized_pages(
            layout(tokens, boundaries, budget),
            range.start as int,
            range.end as int,
        ),
{
    let ghost doc = layout(tokens, boundaries, budget);
    let ghost earlier = diagnostics@;
    let ghost mut done: Seq<Span> = Seq::empty();
    let start: usize = range.start;
    let end: usize = range.end;
    let mut chunks: Vec<PlannedChunk> = Vec::new();
    let mut open: usize = start;
    let mut cur_tokens: u128 = 0;
    let mut i: usize = start;
    proof {
        assert(done + doc.pack(SplitAt::Page, start as int, start as int, end as int) =~= doc.pack(
            SplitAt::Page,
            start as int,
            start as int,
            end as int,
        ));
        assert(oversized_pages(doc, start as int, start as int) =~= Seq::empty());
    }
    while i < end
        invariant
            start <= open <= i <= end <= tokens@.len() <= u32::MAX,
            tokens@.len() == boundaries@.len(),
            doc == layout(tokens, boundaries, budget),
            chunks_are(chunks@, done),
            done + doc.pack(SplitAt::Page, open as int, i as int, end as int) == doc.pack(
                SplitAt::Page,
                start as int,
                start as int,
                end as int,
            ),
            cur_tokens == doc.sum(open as int, i as int) <= budget,
            diagnostics@ == earlier + oversized_pages(doc, start as int, i as int),
        decreases end - i,
    {
        let t: usize = tokens[i];
        let ghost before = done;
        let ghost flushed = model::flush(SplitAt::Page, open as int, i as int);
        let ghost single = seq![Span { start: i as int, end: i + 1, level: SplitAt::Page }];
        proof {
            assert(doc.sum(i as int, i as int) == 0);
            assert(doc.sum(i as int, i + 1) == t);
            assert(model::next_cut(doc.boundaries, SplitAt::Page, i as int, end as int) == i + 1);
        }
        if t > budget {
            flush_units(&mut chunks, open, i, SplitAt::Page, Ghost(before));
            flush_units(&mut chunks, i, i + 1, SplitAt::Page, Ghost(before + flushed));
            proof {
                done = before + flushed + single;
                let rest = doc.pack(SplitAt::Page, i + 1, i + 1, end as int);
                assert(done + rest =~= before + (flushed + single + rest));
            }
            diagnostics.push(Diagnostic::OversizedPage { page: (i + 1) as u32, tokens: t });
            open = i + 1;
            cur_tokens = 0;
        } else if cur_tokens + t as u128 > budget as u128 {
            flush_units(&mut chunks, open, i, SplitAt::Page, Ghost(before));
            proof {
                done = before + flushed;
                let rest = doc.pack(SplitAt::Page, i as int, i + 1, end as int);
                assert(done + rest =~= before + (flushed + rest));
            }
            open = i;
            cur_tokens = t as u128;
        } else {
            cur_tokens = cur_tokens + t as u128;
        }
        proof {
            assert(oversized_pages(doc, start as int, i + 1) =~= oversized_pages(
                doc,
                start as int,
                i as int,
            ) + oversized_pages(doc, i as int, i + 1)) by {
                doc.lemma_oversized_split(start as int, i as int, i + 1);
            }
        }
        i = i + 1;
    }
    flush_units(&mut chunks, open, end, SplitAt::Page, Ghost(done));
    let ghost packed = doc.pack(SplitAt::Page, start as int, start as int, end as int);
    proof {
        assert(chunks_are(chunks@, packed));
        assert(doc.sum(start as int, start as int) == 0);
        doc.lemma_sound_pack(SplitAt::Page, start as int, start as int, end as int);
        lemma_spans(chunks@, packed, start as int, end as int);
        lemma_wider(chunks@, end as nat, tokens@.len());
    }
    pairwise_rebalance(&mut chunks, tokens, boundaries, SplitAt::Page, budget);
    proof {
        lemma_consecutive(chunks@, tokens@.len());
    }
    chunks
}

/// Budget-greedy packing of the units of `range` at `split_at`. A unit that exceeds the budget is
/// handed to `plan_overrun`, which plans it again at the next finer level.
fn greedy_pack(
    tokens: &[usize],
    boundaries: &[Boundary],
    range: Range<usize>,
    split_at: SplitAt,
    budget: usize,
    diagnostics: &mut Vec<Diagnostic>,
) -> (chunks: Vec<PlannedChunk>)
    requires
        range.start <= range.end <= tokens@.len() <= u32::MAX,
        tokens@.len() == boundaries@.len(),
    ensures
        chunks_are(
            chunks@,
            layout(tokens, boundaries, budget).pack(
                split_at,
                range.start as int,
                range.start as int,
                range.end as int,
            ),
        ),
        final(diagnostics)@ == old(diagnostics)@ + oversized_pages(
            layout(tokens, boundaries, budget),
            range.start as int,
            range.end as int,
        ),
    decreases 2 * split_at.finer_levels() + 1,
{
    let ghost doc = layout(tokens, boundaries, budget);
    let ghost earlier = diagnostics@;
    let ghost mut done: Seq<Span> = Seq::empty();
    let start: usize = range.start;
    let end: usize = range.end;
    let segments: Vec<Range<usize>> = segment_units(boundaries, range, split_at);
    let ghost all = model::units(doc.boundaries, split_at, start as int, end as int);
    let mut chunks: Vec<PlannedChunk> = Vec::new();
    let mut open: usize = start;
    let mut pos: usize = start;
    let mut cur_tokens: u128 = 0;
    let mut k: usize = 0;
    proof {
        assert(done + doc.pack(split_at, start as int, start as int, end as int) =~= doc.pack(
            split_at,
            start as int,
            start as int,
            end as int,
        ));
        assert(oversized_pages(doc, start as int, start as int) =~= Seq::empty());
        assert(all.skip(0) =~= all);
    }
    while k < segments.len()
        invariant
            start <= open <= pos <= end <= tokens@.len() <= u32::MAX,
            tokens@.len() == boundaries@.len(),
            doc == layout(tokens, boundaries, budget),
            range_ends(segments@) == all,
            k <= segments@.len(),
            model::units(doc.boundaries, split_at, pos as int, end as int) == all.skip(k as int),
            chunks_are(chunks@, done),
            done + doc.pack(split_at, open as int, pos as int, end as int) == doc.pack(
                split_at,
                start as int,
                start as int,
                end as int,
            ),
            cur_tokens == doc.sum(open as int, pos as int) <= budget,
            diagnostics@ == earlier + oversized_pages(doc, start as int, pos as int),
        decreases segments@.len() - k,
    {
        let ghost before = done;
        let ghost flushed = model::flush(split_at, open as int, pos as int);
        proof {
            assert(all.skip(k as int).len() > 0);
            assert(all.skip(k as int)[0] == all[k as int]);
            assert(all[k as int] == range_ends(segments@)[k as int]);
            model::lemma_next_cut(doc.boundaries, split_at, pos as int, end as int);
        }
        let unit: Range<usize> = segments[k].start..segments[k].end;
        let e: usize = unit.end;
        proof {
            assert(unit.start == pos);
            assert(e == model::next_cut(doc.boundaries, split_at, pos as int, end as int));
            let rest = model::units(doc.boundaries, split_at, e as int, end as int);
            assert((seq![(pos as int, e as int)] + rest).skip(1) =~= rest);
            assert(all.skip(k as int).skip(1) =~= all.skip(k + 1));
            doc.lemma_sum_split(open as int, pos as int, e as int);
            assert(doc.sum(e as int, e as int) == 0);
            assert(oversized_pages(doc, start as int, e as int) =~= oversized_pages(
                doc,
                start as int,
                pos as int,
            ) + oversized_pages(doc, pos as int, e as int)) by {
                doc.lemma_oversized_split(start as int, pos as int, e as int);
            }
        }
        let unit_tokens: u128 = sum_tokens(tokens, &unit);
        if unit_tokens > budget as u128 {
            flush_units(&mut chunks, open, pos, split_at, Ghost(before));
            let finer: SplitAt = next_effective_level(boundaries, pos..e, split_at);
            let ghost below = doc.overrun(finer, pos as int, e as int);
            proof {
                model::lemma_finer(doc.boundaries, pos as int, e as int, split_at);
            }
            let mut sub: Vec<PlannedChunk> = plan_overrun(
                tokens,
                boundaries,
                unit,
                finer,
                budget,
                diagnostics,
            );
            chunks.append(&mut sub);
            proof {
                done = before + flushed + below;
                assert(chunks_are(chunks@, done));
                if split_at is Page {
                    assert(e == pos + 1);
                    assert(doc.sum(pos as int, pos as int) == 0);
                    assert(doc.sum(pos as int, e as int) == doc.tokens[pos as int]);
                    doc.lemma_overrun_page(pos as int);
                }
                let rest = doc.pack(split_at, e as int, e as int, end as int);
                assert(done + rest =~= before + (flushed + below + rest));
            }
            open = e;
            cur_tokens = 0;
        } else {
            proof {
                doc.lemma_none_oversized(pos as int, e as int);
                assert(oversized_pages(doc, pos as int, e as int) =~= Seq::empty());
            }
            if cur_tokens + unit_tokens > budget as u128 {
                flush_units(&mut chunks, open, pos, split_at, Ghost(before));
                proof {
                    done = before + flushed;
                    let rest = doc.pack(split_at, pos as int, e as int, end as int);
                    assert(done + rest =~= before + (flushed + rest));
                }
                open = pos;
                cur_tokens = unit_tokens;
            } else {
                cur_tokens = cur_tokens + unit_tokens;
            }
        }
        pos = e;
        k = k + 1;
    }
    proof {
        assert(all.skip(k as int).len() == 0);
        assert(pos == end);
    }
    flush_units(&mut chunks, open, pos, split_at, Ghost(done));
    chunks
}

/// Plans an over-budget unit again at a finer level: the same packing, followed by the pairwise
/// rebalance, so that the siblings of a divided unit come out of about equal size.
fn plan_overrun(
    tokens: &[usize],
    boundaries: &[Boundary],
    range: Range<usize>,
    split_at: SplitAt,
    budget: usize,
    diagnostics: &mut Vec<Diagnostic>,
) -> (chunks: Vec<PlannedChunk>)
    requires
        range.start <= range.end <= tokens@.len() <= u32::MAX,
        tokens@.len() == boundaries@.len(),
    ensures
        chunks_are(
            chunks@,
            layout(tokens, boundaries, budget).overrun(
                split_at,
                range.start as int,
                range.end as int,
            ),
        ),
        final(diagnostics)@ == old(diagnostics)@ + oversized_pages(
            layout(tokens, boundaries, budget),
            range.start as int,
            range.end as int,
        ),
    decreases
            if split_at is Page {
                0
            } else {
                2 * split_at.finer_levels() + 2
            },
{
    if split_at == SplitAt::Page {
        return pack_pages_balanced(tokens, boundaries, range, budget, diagnostics);
    }
    let start: usize = range.start;
    let end: usize = range.end;
    let mut chunks: Vec<PlannedChunk> = greedy_pack(
        tokens,
        boundaries,
        range,
        split_at,
        budget,
        diagnostics,
    );
    let ghost doc = layout(tokens, boundaries, budget);
    let ghost packed = doc.pack(split_at, start as int, start as int, end as int);
    proof {
        assert(doc.sum(start as int, start as int) == 0);
        doc.lemma_sound_pack(split_at, start as int, start as int, end as int);
        lemma_spans(chunks@, packed, start as int, end as int);
        lemma_wider(chunks@, end as nat, tokens@.len());
    }
    pairwise_rebalance(&mut chunks, tokens, boundaries, split_at, budget);
    proof {
        lemma_consecutive(chunks@, tokens@.len());
    }
    chunks
}

/// Plans the chunks of a document: packs its units at `split_at` under `budget`, planning a unit
/// that exceeds the budget again at the next finer level, and rebalances the last two chunks.
pub fn plan_chunks(
    tokens: &[usize],
    boundaries: &[Boundary],
    split_at: SplitAt,
    budget: usize,
) -> (result: PlanResult)
    requires
        tokens@.len() == boundaries@.len(),
        tokens@.len() <= u32::MAX,
    ensures
        chunks_are(result.chunks@, layout(tokens, boundaries, budget).plan(split_at)),
        result.diagnostics@ == oversized_pages(
            layout(tokens, boundaries, budget),
            0,
            tokens@.len() as int,
        ),
{
    let mut diagnostics: Vec<Diagnostic> = Vec::new();
    let mut chunks: Vec<PlannedChunk> = greedy_pack(
        tokens,
        boundaries,
        0..tokens.len(),
        split_at,
        budget,
        &mut diagnostics,
    );
    let ghost doc = layout(tokens, boundaries, budget);
    let ghost packed = doc.pack(split_at, 0, 0, tokens@.len() as int);
    proof {
        assert(doc.sum(0, 0) == 0);
        doc.lemma_sound_pack(split_at, 0, 0, tokens@.len() as int);
        lemma_spans(chunks@, packed, 0, tokens@.len() as int);
    }
    rebalance_last_two(&mut chunks, tokens, boundaries, split_at, budget);
    proof {
        lemma_consecutive(chunks@, tokens@.len());
    }
    PlanResult { chunks, diagnostics }
}

/// The pages of the first `n` chunks, one chunk after the other.
pub open spec fn pages_of(chunks: Seq<PlannedChunk>, n: nat) -> Seq<u32>
    decreases n,
{
    if n == 0 {
        Seq::empty()
    } else {
        pages_of(chunks, (n - 1) as nat) + chunks[n - 1].pages@
    }
}

proof fn lemma_pages_of(chunks: Seq<PlannedChunk>, spans: Seq<Span>, end: int, n: nat)
    requires
        chunks_are(chunks, spans),
        laws::tiles(spans, 0, end),
        n <= spans.len(),
    ensures
        pages_of(chunks, n) == page_run(
            0,
            if n == 0 {
                0
            } else {
                spans[n - 1].end
            },
        ),
    decreases n,
{
    if n > 0 {
        lemma_pages_of(chunks, spans, end, (n - 1) as nat);
        assert(chunk_is(chunks[n - 1], spans[n - 1]));
        laws::lemma_tiles_within(spans, 0, end, n - 1);
        if n > 1 {
            assert(spans[n - 2].end == spans[n - 1].start);
        }
        assert(pages_of(chunks, n) =~= page_run(0, spans[n - 1].end));
    } else {
        assert(pages_of(chunks, n) =~= page_run(0, 0));
    }
}

/// The chunks of a plan, one after the other, hold every page of the document once and in order.
pub proof fn chunks_hold_every_page_in_order(
    doc: Layout,
    split_at: SplitAt,
    chunks: Seq<PlannedChunk>,
)
    requires
        chunks_are(chunks, doc.plan(split_at)),
    ensures
        pages_of(chunks, chunks.len()) == page_run(0, doc.tokens.len() as int),
{
    doc.plan_is_sound(split_at);
    lemma_pages_of(chunks, doc.plan(split_at), doc.tokens.len() as int, chunks.len());
}

/// The planner looks at exactly what it is given: the token counts, the boundaries and the budget.
pub proof fn layout_is_what_is_given(tokens: &[usize], boundaries: &[Boundary], budget: usize)
    ensures
        layout(tokens, boundaries, budget).tokens == tokens@,
        layout(tokens, boundaries, budget).boundaries == boundaries@,
        layout(tokens, boundaries, budget).budget == budget,
{
}

/// The units that are handed out are ranges with the starts and ends of the units.
pub proof fn ranges_have_the_ends_of_units(ranges: Seq<Range<usize>>, i: int)
    requires
        0 <= i < ranges.len(),
    ensures
        range_ends(ranges).len() == ranges.len(),
        range_ends(ranges)[i].0 == ranges[i].start,
        range_ends(ranges)[i].1 == ranges[i].end,
{
}

/// Rebalancing two lists of pages keeps the pages and their order. If their pages may be parted behind
/// some page, then they are parted where they may be, and as evenly as behind that page or more so,
/// and as early as there if as evenly; otherwise they stay as they were.
pub proof fn parted_lists_are_even(
    doc: Layout,
    level: SplitAt,
    left: Seq<u32>,
    right: Seq<u32>,
    k: int,
)
    ensures
        ({
            let both = left + right;
            let (a, b) = doc.parted(level, left, right);
            let here = guarantees::tokens_of(doc.tokens, a) - guarantees::tokens_of(doc.tokens, b);
            let there = guarantees::tokens_of(doc.tokens, both.take(k + 1))
                - guarantees::tokens_of(doc.tokens, both.skip(k + 1));
            &&& a + b == both
            &&& list_parts(doc, level, both, k) ==> {
                &&& list_parts(doc, level, both, a.len() - 1)
                &&& -there <= here <= there || there <= here <= -there
                &&& here == there || here == -there ==> a.len() - 1 <= k
            }
            &&& (forall|j: int| !#[trigger] list_parts(doc, level, both, j)) ==> a == left && b
                == right
        }),
{
    let both = left + right;
    let (a, b) = doc.parted(level, left, right);
    doc.parting_twice_changes_nothing(level, left, right);
    assert forall|j: int| #[trigger] list_parts(doc, level, both, j) implies doc.place_fits(
        level,
        both,
        j,
    ) by {
        laws::list_sum_adds_up_the_pages(doc.tokens, both.take(j + 1));
        laws::list_sum_adds_up_the_pages(doc.tokens, both.skip(j + 1));
    }
    if let Some(c) = doc.best_place(level, both) {
        assert(doc.is_best_place(level, both, c));
        laws::list_sum_adds_up_the_pages(doc.tokens, both.take(c + 1));
        laws::list_sum_adds_up_the_pages(doc.tokens, both.skip(c + 1));
        laws::list_sum_adds_up_the_pages(doc.tokens, both.take(k + 1));
        laws::list_sum_adds_up_the_pages(doc.tokens, both.skip(k + 1));
        assert(list_parts(doc, level, both, c));
        assert(a.len() - 1 == c);
    } else if list_parts(doc, level, both, k) {
        lemma_some_best_place(doc, level, both, k);
    }
}

/// A list of pages may be parted behind the page at `k`: the page is the document's last, or the page
/// after it may start a chunk at `level`, and both parts are within the budget.
pub open spec fn list_parts(doc: Layout, level: SplitAt, pages: Seq<u32>, k: int) -> bool {
    &&& 0 <= k < pages.len() - 1
    &&& pages[k] == doc.tokens.len() || model::cut_here(doc.boundaries, level, pages[k] as int)
    &&& guarantees::tokens_of(doc.tokens, pages.take(k + 1)) <= doc.budget
    &&& guarantees::tokens_of(doc.tokens, pages.skip(k + 1)) <= doc.budget
}

proof fn lemma_some_best_place(doc: Layout, level: SplitAt, pages: Seq<u32>, k: int)
    requires
        doc.place_fits(level, pages, k),
    ensures
        doc.best_place(level, pages) is Some,
    decreases doc.place_gap(pages, k), k,
{
    if !doc.is_best_place(level, pages, k) {
        let j = choose|j: int| #[trigger]
            doc.place_fits(level, pages, j) && !(doc.place_gap(pages, k) < doc.place_gap(pages, j)
                || (doc.place_gap(pages, k) == doc.place_gap(pages, j) && k <= j));
        lemma_some_best_place(doc, level, pages, j);
    }
}

} // verus!
