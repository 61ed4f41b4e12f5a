//! What holds of the chunks that the planner returns, said of the pages that they list, the token
//! counts of these pages and the bookmarks that they carry.

use crate::laws;
use crate::level::{Boundary, SplitAt};
use crate::model;
use crate::model::Layout;
use crate::plan;
use crate::plan::{Diagnostic, PlannedChunk};
use vstd::prelude::*;

verus! {

/// The token counts of the listed pages, added up.
pub open spec fn tokens_of(tokens: Seq<usize>, pages: Seq<u32>) -> int {
    pages.fold_left(0int, |sum: int, page: u32| sum + tokens[page - 1])
}

/// A chunk may start with the page at a level: at page level any page, at any bookmark a page that
/// carries one, at a depth a page that carries one of that depth or less.
pub open spec fn may_start(boundaries: Seq<Boundary>, level: SplitAt, page: int) -> bool {
    match level {
        SplitAt::Page => true,
        SplitAt::AnyBookmark => boundaries[page - 1] is Bookmark,
        SplitAt::Depth(n) => boundaries[page - 1] matches Boundary::Bookmark { depth } && depth
            <= n,
    }
}

/// The first level is the second one, or one further down: greater depths are further down than
/// smaller ones, any bookmark is further down than every depth, and page level than all others.
pub open spec fn as_fine_as(fine: SplitAt, coarse: SplitAt) -> bool {
    match (coarse, fine) {
        (SplitAt::Depth(n), SplitAt::Depth(m)) => n <= m,
        (SplitAt::Depth(_), _) => true,
        (SplitAt::AnyBookmark, SplitAt::Depth(_)) => false,
        (SplitAt::AnyBookmark, _) => true,
        (SplitAt::Page, _) => fine is Page,
    }
}

/// The pages of two chunks, which are `first` to `last`, may be parted before page `k`: a chunk may
/// start there at `level`, and both parts are within the budget.
pub open spec fn parts(doc: Layout, level: SplitAt, first: int, last: int, k: int) -> bool {
    &&& first < k <= last
    &&& may_start(doc.boundaries, level, k)
    &&& tokens_of(doc.tokens, listing(first, k - 1)) <= doc.budget
    &&& tokens_of(doc.tokens, listing(k, last)) <= doc.budget
}

/// The pages from `first` to `last`.
pub open spec fn listing(first: int, last: int) -> Seq<u32> {
    Seq::new((last + 1 - first) as nat, |i: int| (first + i) as u32)
}

/// The chunks are a plan of the document at `level`: what `plan_chunks` returns.
pub open spec fn is_plan(doc: Layout, level: SplitAt, chunks: Seq<PlannedChunk>) -> bool {
    &&& doc.tokens.len() == doc.boundaries.len() <= u32::MAX
    &&& plan::chunks_are(chunks, doc.plan(level))
}

proof fn lemma_listing(doc: Layout, a: int, b: int)
    requires
        0 <= a <= b <= doc.tokens.len() <= u32::MAX,
    ensures
        tokens_of(doc.tokens, listing(a + 1, b)) == doc.sum(a, b),
        plan::page_run(a, b) == listing(a + 1, b),
    decreases b - a,
{
    let pages = listing(a + 1, b);
    assert(plan::page_run(a, b) =~= pages);
    if a < b {
        lemma_listing(doc, a, b - 1);
        assert(pages.drop_last() =~= listing(a + 1, b - 1));
        assert(pages.last() == b);
    }
}

proof fn lemma_may_start(doc: Layout, level: SplitAt, i: int)
    requires
        0 <= i < doc.boundaries.len(),
    ensures
        model::cut_here(doc.boundaries, level, i) == may_start(doc.boundaries, level, i + 1),
{
    laws::cuts_are_allowed_by_bookmarks(doc.boundaries, level, i);
}

proof fn lemma_fine(a: SplitAt, b: SplitAt)
    ensures
        a.fineness() <= b.fineness() <==> as_fine_as(b, a),
{
}

proof fn lemma_chunk(doc: Layout, level: SplitAt, chunks: Seq<PlannedChunk>, i: int)
    requires
        is_plan(doc, level, chunks),
        0 <= i < chunks.len(),
    ensures
        ({
            let span = doc.plan(level)[i];
            &&& chunks.len() == doc.plan(level).len()
            &&& 0 <= span.start < span.end <= doc.tokens.len()
            &&& chunks[i].pages@ == listing(span.start + 1, span.end)
            &&& chunks[i].effective_level == span.level
            &&& tokens_of(doc.tokens, chunks[i].pages@) == doc.sum(span.start, span.end)
        }),
{
    doc.plan_is_sound(level);
    let span = doc.plan(level)[i];
    laws::lemma_tiles_within(doc.plan(level), 0, doc.tokens.len() as int, i);
    assert(plan::chunk_is(chunks[i], span));
    lemma_listing(doc, span.start, span.end);
}

/// A chunk lists the pages of its span, and its tokens are those of the span.
pub proof fn chunk_lists_its_span(
    doc: Layout,
    level: SplitAt,
    chunks: Seq<PlannedChunk>,
    i: int,
)
    requires
        is_plan(doc, level, chunks),
        0 <= i < chunks.len(),
    ensures
        chunks.len() == doc.plan(level).len(),
        doc.plan(level)[i].start < doc.plan(level)[i].end,
        chunks[i].pages@.len() == doc.plan(level)[i].end - doc.plan(level)[i].start,
        chunks[i].pages@[0] == doc.plan(level)[i].start + 1,
        chunks[i].pages@.last() == doc.plan(level)[i].end,
        chunks[i].effective_level == doc.plan(level)[i].level,
        tokens_of(doc.tokens, chunks[i].pages@) == doc.sum(
            doc.plan(level)[i].start,
            doc.plan(level)[i].end,
        ),
{
    lemma_chunk(doc, level, chunks, i);
}

/// The chunks hold the pages of the document, each once and in order, and none of them is empty.
pub proof fn chunks_are_the_document(doc: Layout, level: SplitAt, chunks: Seq<PlannedChunk>)
    requires
        is_plan(doc, level, chunks),
    ensures
        chunks.map_values(|chunk: PlannedChunk| chunk.pages@).flatten() == Seq::new(
            doc.tokens.len(),
            |i: int| (i + 1) as u32,
        ),
        forall|i: int| 0 <= i < chunks.len() ==> (#[trigger] chunks[i]).pages@.len() > 0,
{
    plan::chunks_hold_every_page_in_order(doc, level, chunks);
    lemma_flatten(chunks, chunks.len());
    assert(chunks.take(chunks.len() as int) =~= chunks);
    assert(plan::page_run(0, doc.tokens.len() as int) =~= Seq::new(
        doc.tokens.len(),
        |i: int| (i + 1) as u32,
    ));
    assert forall|i: int| 0 <= i < chunks.len() implies (#[trigger] chunks[i]).pages@.len() > 0 by {
        lemma_chunk(doc, level, chunks, i);
    }
}

proof fn lemma_flatten(chunks: Seq<PlannedChunk>, n: nat)
    requires
        n <= chunks.len(),
    ensures
        plan::pages_of(chunks, n) == chunks.take(n as int).map_values(
            |chunk: PlannedChunk| chunk.pages@,
        ).flatten(),
    decreases n,
{
    let lists = chunks.take(n as int).map_values(|chunk: PlannedChunk| chunk.pages@);
    lists.lemma_flatten_and_flatten_alt_are_equivalent();
    if n > 0 {
        let before = chunks.take(n - 1).map_values(|chunk: PlannedChunk| chunk.pages@);
        lemma_flatten(chunks, (n - 1) as nat);
        before.lemma_flatten_and_flatten_alt_are_equivalent();
        assert(lists.drop_last() =~= before);
        assert(lists.last() == chunks[n - 1].pages@);
    } else {
        assert(lists.flatten_alt() =~= Seq::empty());
    }
}

/// A chunk is within the budget, or it is a single page that exceeds it, cut at page level.
pub proof fn chunks_are_within_the_budget(
    doc: Layout,
    level: SplitAt,
    chunks: Seq<PlannedChunk>,
    i: int,
)
    requires
        is_plan(doc, level, chunks),
        0 <= i < chunks.len(),
    ensures
        tokens_of(doc.tokens, chunks[i].pages@) <= doc.budget || (chunks[i].pages@.len() == 1
            && doc.tokens[chunks[i].pages@[0] - 1] > doc.budget && chunks[i].effective_level is Page),
        as_fine_as(chunks[i].effective_level, level),
{
    lemma_chunk(doc, level, chunks, i);
    doc.plan_is_sound(level);
    assert(doc.within_budget(doc.plan(level)[i]));
    lemma_fine(level, chunks[i].effective_level);
}

/// A page that exceeds the budget is a chunk of its own, cut at page level.
pub proof fn large_pages_stand_alone(
    doc: Layout,
    level: SplitAt,
    chunks: Seq<PlannedChunk>,
    page: u32,
) -> (i: int)
    requires
        is_plan(doc, level, chunks),
        1 <= page <= doc.tokens.len(),
        doc.tokens[page - 1] > doc.budget,
    ensures
        0 <= i < chunks.len(),
        chunks[i].pages@ == seq![page],
        chunks[i].effective_level is Page,
{
    let i = doc.oversized_page_stands_alone(level, page - 1);
    lemma_chunk(doc, level, chunks, i);
    assert(chunks[i].pages@ =~= seq![page]);
    i
}

/// Between two chunks a chunk may start, at the level of the one and of the other.
pub proof fn chunks_start_where_they_may(
    doc: Layout,
    level: SplitAt,
    chunks: Seq<PlannedChunk>,
    i: int,
)
    requires
        is_plan(doc, level, chunks),
        0 < i < chunks.len(),
    ensures
        may_start(doc.boundaries, chunks[i].effective_level, chunks[i].pages@[0] as int),
        may_start(doc.boundaries, chunks[i - 1].effective_level, chunks[i].pages@[0] as int),
{
    lemma_chunk(doc, level, chunks, i);
    lemma_chunk(doc, level, chunks, i - 1);
    doc.plan_is_sound(level);
    let spans = doc.plan(level);
    assert(model::cut_here(doc.boundaries, spans[i - 1].level, spans[i].start));
    lemma_may_start(doc, spans[i].level, spans[i].start);
    lemma_may_start(doc, spans[i - 1].level, spans[i].start);
}

/// Two neighbours that were both cut at the level that was asked for do not fit the budget together.
pub proof fn neighbours_do_not_fit_together(
    doc: Layout,
    level: SplitAt,
    chunks: Seq<PlannedChunk>,
    i: int,
)
    requires
        is_plan(doc, level, chunks),
        0 < i < chunks.len(),
        chunks[i - 1].effective_level == level,
        chunks[i].effective_level == level,
    ensures
        tokens_of(doc.tokens, chunks[i - 1].pages@) + tokens_of(doc.tokens, chunks[i].pages@)
            > doc.budget,
{
    lemma_chunk(doc, level, chunks, i);
    lemma_chunk(doc, level, chunks, i - 1);
    let spans = doc.plan(level);
    doc.plan_is_sound(level);
    doc.planned_neighbours_exceed_budget(level);
    assert(spans[i - 1].end == spans[i].start);
    doc.lemma_sum_split(spans[i - 1].start, spans[i].start, spans[i].end);
}

/// A chunk at the level that was asked for, other than the last two, takes in all that it can: with
/// the pages behind it up to the next place where a chunk may start, or to any further one, or to
/// the end of the document, it would exceed the budget.
pub proof fn chunks_take_in_all_they_can(
    doc: Layout,
    level: SplitAt,
    chunks: Seq<PlannedChunk>,
    i: int,
    k: int,
)
    requires
        is_plan(doc, level, chunks),
        0 <= i < chunks.len() - 2,
        chunks[i].effective_level == level,
        chunks[i].pages@.last() < k <= doc.tokens.len(),
        k == doc.tokens.len() || may_start(doc.boundaries, level, k + 1),
    ensures
        tokens_of(doc.tokens, listing(chunks[i].pages@[0] as int, k)) > doc.budget,
{
    lemma_chunk(doc, level, chunks, i);
    let span = doc.plan(level)[i];
    if k < doc.tokens.len() {
        lemma_may_start(doc, level, k);
    }
    doc.chunks_are_filled(level, i, k);
    lemma_listing(doc, span.start, k);
}

/// The last two chunks of a plan, however many chunks it has, are as even as they can be: if their
/// pages may be parted before some page, then they are parted where they may be, and the token
/// counts of the two differ by no more than if they were parted before that page; of the places
/// with which they differ as little it is the first.
pub proof fn last_two_chunks_are_even(
    doc: Layout,
    level: SplitAt,
    chunks: Seq<PlannedChunk>,
    k: int,
)
    requires
        is_plan(doc, level, chunks),
        chunks.len() >= 2,
        parts(
            doc,
            level,
            chunks[chunks.len() - 2].pages@[0] as int,
            doc.tokens.len() as int,
            k,
        ),
    ensures
        ({
            let n = doc.tokens.len() as int;
            let left = chunks[chunks.len() - 2].pages@;
            let right = chunks[chunks.len() - 1].pages@;
            let here = tokens_of(doc.tokens, left) - tokens_of(doc.tokens, right);
            let there = tokens_of(doc.tokens, listing(left[0] as int, k - 1)) - tokens_of(
                doc.tokens,
                listing(k, n),
            );
            &&& may_start(doc.boundaries, level, right[0] as int)
            &&& tokens_of(doc.tokens, left) <= doc.budget
            &&& tokens_of(doc.tokens, right) <= doc.budget
            &&& right.last() == n
            &&& -there <= here <= there || there <= here <= -there
            &&& here == there || here == -there ==> right[0] <= k
        }),
{
    let n = doc.tokens.len() as int;
    lemma_chunk(doc, level, chunks, chunks.len() - 2);
    lemma_chunk(doc, level, chunks, chunks.len() - 1);
    let lo = doc.plan(level)[chunks.len() - 2].start;
    lemma_listing(doc, lo, k - 1);
    lemma_listing(doc, k - 1, n);
    lemma_may_start(doc, level, k - 1);
    doc.last_cut_is_the_most_even(level, k - 1);
    lemma_may_start(doc, level, doc.plan(level)[chunks.len() - 1].start);
}

/// A document that fits the budget is one chunk at the level that was asked for; one without pages
/// has none.
pub proof fn a_document_that_fits_is_one_chunk(
    doc: Layout,
    level: SplitAt,
    chunks: Seq<PlannedChunk>,
)
    requires
        is_plan(doc, level, chunks),
        tokens_of(doc.tokens, listing(1, doc.tokens.len() as int)) <= doc.budget,
    ensures
        doc.tokens.len() > 0 ==> chunks.len() == 1 && chunks[0].effective_level == level,
        doc.tokens.len() == 0 ==> chunks.len() == 0,
{
    lemma_listing(doc, 0, doc.tokens.len() as int);
    if doc.tokens.len() > 0 {
        doc.fitting_document_is_one_chunk(level);
        lemma_chunk(doc, level, chunks, 0);
    } else {
        doc.empty_document_has_no_chunks(level);
    }
}

/// The diagnostics name each page that exceeds the budget, with its number of tokens, in page order,
/// and no other page.
pub proof fn diagnostics_name_the_large_pages(doc: Layout, page: u32)
    requires
        doc.tokens.len() <= u32::MAX,
    ensures
        ({
            let told = plan::oversized_pages(doc, 0, doc.tokens.len() as int);
            &&& 1 <= page <= doc.tokens.len() && doc.tokens[page - 1] > doc.budget
                ==> told.contains(
                Diagnostic::OversizedPage { page, tokens: doc.tokens[page - 1] },
            )
            &&& forall|i: int|
                0 <= i < told.len() ==> (#[trigger] told[i] matches Diagnostic::OversizedPage {
                    page: p,
                    tokens,
                } && 1 <= p <= doc.tokens.len() && tokens == doc.tokens[p - 1] && tokens
                    > doc.budget)
            &&& forall|i: int, j: int|
                0 <= i < j < told.len() ==> (#[trigger] told[i])->page < (#[trigger] told[j])->page
        }),
{
    let n = doc.tokens.len() as int;
    let large = doc.oversized(0, n);
    let told = plan::oversized_pages(doc, 0, n);
    doc.oversized_is_increasing(0, n);
    doc.oversized_is_exact(0, n, page - 1);
    if 1 <= page <= n && doc.tokens[page - 1] > doc.budget {
        let i = choose|i: int| 0 <= i < large.len() && large[i] == page - 1;
        assert(told[i] == Diagnostic::OversizedPage { page, tokens: doc.tokens[page - 1] });
    }
    assert forall|i: int| 0 <= i < told.len() implies (
    #[trigger] told[i] matches Diagnostic::OversizedPage { page: p, tokens } && 1 <= p
        <= doc.tokens.len() && tokens == doc.tokens[p - 1] && tokens > doc.budget) by {
        doc.oversized_is_exact(0, n, large[i]);
        assert(large.contains(large[i]));
        assert(told[i] == Diagnostic::OversizedPage {
            page: (large[i] + 1) as u32,
            tokens: doc.tokens[large[i]],
        });
    }
    assert forall|i: int, j: int| 0 <= i < j < told.len() implies (#[trigger] told[i])->page < (
    #[trigger] told[j])->page by {
        assert(0 <= large[i] < large[j] < n);
    }
}

} // verus!
