//! Reports on a document's outline: a histogram of its depths and an indented tree.

use crate::level::{Boundary, SplitAt};
use crate::model;
use crate::outline;
use crate::outline::OutlineEntry;
use crate::text;
use vstd::multiset::Multiset;
use vstd::prelude::*;
use vstd::string::*;

verus! {

/// The depth of the deepest entry.
pub open spec fn deepest(entries: Seq<OutlineEntry>) -> nat
    decreases entries.len(),
{
    if entries.len() == 0 {
        0
    } else if entries.last().depth > deepest(entries.drop_last()) {
        entries.last().depth as nat
    } else {
        deepest(entries.drop_last())
    }
}

/// The number of entries at depth `d`.
pub open spec fn count_at(entries: Seq<OutlineEntry>, d: nat) -> nat
    decreases entries.len(),
{
    if entries.len() == 0 {
        0
    } else {
        count_at(entries.drop_last(), d) + (if entries.last().depth == d {
            1nat
        } else {
            0nat
        })
    }
}

/// The largest number of entries at one of the depths up to `d`.
pub open spec fn largest_count(entries: Seq<OutlineEntry>, d: nat) -> nat
    decreases d,
{
    if d == 0 {
        count_at(entries, 0)
    } else if count_at(entries, d) > largest_count(entries, (d - 1) as nat) {
        count_at(entries, d)
    } else {
        largest_count(entries, (d - 1) as nat)
    }
}

/// The numbers grow from one to the next.
pub open spec fn increasing(pages: Seq<u32>) -> bool {
    forall|i: int, j: int| 0 <= i < j < pages.len() ==> pages[i] < pages[j]
}

/// Some entry of depth `d` or less targets the page.
pub open spec fn is_cut(entries: Seq<OutlineEntry>, d: nat, page: u32) -> bool {
    exists|i: int|
        0 <= i < entries.len() && (#[trigger] entries[i]).depth <= d && entries[i].page == page
}

/// `pages` lists, in page order and each once, the pages that entries of depth `d` or less
/// target.
pub open spec fn is_cut_list(entries: Seq<OutlineEntry>, d: nat, pages: Seq<u32>) -> bool {
    &&& increasing(pages)
    &&& forall|p: u32| #[trigger] pages.contains(p) <==> is_cut(entries, d, p)
}

/// The pages at which a split at depth `d` would cut.
pub open spec fn cut_pages(entries: Seq<OutlineEntry>, d: nat) -> Seq<u32> {
    choose|pages: Seq<u32>| is_cut_list(entries, d, pages)
}

/// The number of pages from cut `i` to the next one, or to the end of the document.
pub open spec fn segment_len(cuts: Seq<u32>, page_count: nat, i: int) -> nat {
    if i + 1 < cuts.len() {
        (cuts[i + 1] - cuts[i]) as nat
    } else if cuts[i] <= page_count {
        (page_count + 1 - cuts[i]) as nat
    } else {
        0
    }
}

/// The length of the shortest of the first `k` segments, of which there is at least one.
pub open spec fn shortest(cuts: Seq<u32>, page_count: nat, k: nat) -> nat
    decreases k,
{
    if k <= 1 {
        segment_len(cuts, page_count, 0)
    } else if segment_len(cuts, page_count, k - 1) < shortest(cuts, page_count, (k - 1) as nat) {
        segment_len(cuts, page_count, k - 1)
    } else {
        shortest(cuts, page_count, (k - 1) as nat)
    }
}

/// The length of the longest of the first `k` segments, of which there is at least one.
pub open spec fn longest(cuts: Seq<u32>, page_count: nat, k: nat) -> nat
    decreases k,
{
    if k <= 1 {
        segment_len(cuts, page_count, 0)
    } else if segment_len(cuts, page_count, k - 1) > longest(cuts, page_count, (k - 1) as nat) {
        segment_len(cuts, page_count, k - 1)
    } else {
        longest(cuts, page_count, (k - 1) as nat)
    }
}

/// The singular or the plural of a word.
pub open spec fn noun(n: nat, one: Seq<char>, many: Seq<char>) -> Seq<char> {
    if n == 1 {
        one
    } else {
        many
    }
}

/// How the range of segment lengths is put in words.
pub open spec fn span_text(min: nat, max: nat) -> Seq<char> {
    if min == max {
        text::decimal(min) + noun(min, " page"@, " pages"@) + " long"@
    } else {
        text::decimal(min) + "-"@ + text::decimal(max) + " pages long"@
    }
}

/// The report on a document without an outline.
pub open spec fn no_outline_text(page_count: nat) -> Seq<char> {
    text::decimal(page_count) + " pages, no outline present\n"@
}

/// The first line of the histogram.
pub open spec fn header_text(entries: Seq<OutlineEntry>, page_count: nat) -> Seq<char> {
    text::decimal(page_count) + " pages, "@ + text::decimal(entries.len()) + noun(
        entries.len(),
        " bookmark"@,
        " bookmarks"@,
    ) + ", max depth "@ + text::decimal(deepest(entries)) + "\n"@
}

/// What the histogram says about the lengths of the segments between the cuts. Without segments
/// there is nothing to say.
pub open spec fn lengths_text(cuts: Seq<u32>, page_count: nat) -> Seq<char> {
    if cuts.len() == 0 {
        Seq::empty()
    } else {
        ", "@ + span_text(
            shortest(cuts, page_count, cuts.len()),
            longest(cuts, page_count, cuts.len()),
        )
    }
}

/// The line of the histogram for depth `d`.
pub open spec fn row_text(
    entries: Seq<OutlineEntry>,
    page_count: nat,
    width: nat,
    d: nat,
) -> Seq<char> {
    let count = count_at(entries, d);
    let cuts = cut_pages(entries, d);
    "  at depth "@ + text::decimal(d) + ": "@ + text::right_aligned(count, ' ', width) + noun(
        count,
        " bookmark"@,
        " bookmarks"@,
    ) + "  → "@ + text::decimal(cuts.len()) + noun(cuts.len(), " segment"@, " segments"@)
        + lengths_text(cuts, page_count) + "\n"@
}

/// The lines of the histogram for the depths from 1 to `d`.
pub open spec fn rows_text(
    entries: Seq<OutlineEntry>,
    page_count: nat,
    width: nat,
    d: nat,
) -> Seq<char>
    decreases d,
{
    if d == 0 {
        Seq::empty()
    } else {
        rows_text(entries, page_count, width, (d - 1) as nat) + row_text(
            entries,
            page_count,
            width,
            d,
        )
    }
}

/// The histogram of an outline.
pub open spec fn histogram_text(entries: Seq<OutlineEntry>, page_count: nat) -> Seq<char> {
    if entries.len() == 0 {
        no_outline_text(page_count)
    } else {
        header_text(entries, page_count) + rows_text(
            entries,
            page_count,
            text::decimal(largest_count(entries, deepest(entries))).len(),
            deepest(entries),
        )
    }
}

proof fn lemma_same_increasing(s: Seq<u32>, t: Seq<u32>, k: int)
    requires
        increasing(s),
        increasing(t),
        forall|p: u32| s.contains(p) <==> t.contains(p),
        0 <= k < s.len(),
        k < t.len(),
    ensures
        s[k] == t[k],
    decreases k,
{
    assert(s.contains(s[k]) && t.contains(t[k]));
    assert(t.contains(s[k]) && s.contains(t[k]));
    let i = choose|i: int| 0 <= i < t.len() && t[i] == s[k];
    let j = choose|j: int| 0 <= j < s.len() && s[j] == t[k];
    if s[k] < t[k] {
        assert(i < k);
        lemma_same_increasing(s, t, i);
    } else if t[k] < s[k] {
        assert(j < k);
        lemma_same_increasing(s, t, j);
    }
}

/// There is only one list of the cuts at a depth.
pub proof fn cut_list_is_unique(entries: Seq<OutlineEntry>, d: nat, s: Seq<u32>, t: Seq<u32>)
    requires
        is_cut_list(entries, d, s),
        is_cut_list(entries, d, t),
    ensures
        s == t,
{
    assert forall|k: int| 0 <= k < s.len() && k < t.len() implies s[k] == t[k] by {
        lemma_same_increasing(s, t, k);
    }
    if s.len() < t.len() {
        assert(t.contains(t[s.len() as int]));
        assert(s.contains(t[s.len() as int]));
        let j = choose|j: int| 0 <= j < s.len() && s[j] == t[s.len() as int];
        assert(t[j] == t[s.len() as int]);
    } else if t.len() < s.len() {
        assert(s.contains(s[t.len() as int]));
        assert(t.contains(s[t.len() as int]));
        let j = choose|j: int| 0 <= j < t.len() && t[j] == s[t.len() as int];
        assert(s[j] == s[t.len() as int]);
    }
    assert(s =~= t);
}

/// Puts a page into a list that is in page order, unless it is there.
fn insert_page(pages: &mut Vec<u32>, page: u32)
    requires
        increasing(old(pages)@),
    ensures
        increasing(final(pages)@),
        forall|p: u32| #[trigger]
            final(pages)@.contains(p) <==> p == page || old(pages)@.contains(p),
{
    let mut at: usize = pages.len();
    while at > 0 && pages[at - 1] > page
        invariant
            at <= pages@.len(),
            forall|i: int| at <= i < pages@.len() ==> pages@[i] > page,
        decreases at,
    {
        at = at - 1;
    }
    if at > 0 && pages[at - 1] == page {
        assert(pages@.contains(page)) by {
            assert(pages@[at - 1] == page);
        }
        return;
    }
    let ghost before = pages@;
    pages.insert(at, page);
    proof {
        let now = pages@;
        assert(now =~= before.insert(at as int, page));
        assert(forall|i: int|
            0 <= i < now.len() ==> now[i] == (if i < at {
                before[i]
            } else if i == at {
                page
            } else {
                before[i - 1]
            }));
        assert forall|p: u32| #[trigger] now.contains(p) <==> p == page || before.contains(p) by {
            assert(now[at as int] == page);
            if before.contains(p) {
                let i = choose|i: int| 0 <= i < before.len() && before[i] == p;
                if i < at {
                    assert(now[i] == p);
                } else {
                    assert(now[i + 1] == p);
                }
            }
            if now.contains(p) && p != page {
                let i = choose|i: int| 0 <= i < now.len() && now[i] == p;
                if i < at {
                    assert(before[i] == p);
                } else {
                    assert(before[i - 1] == p);
                }
            }
        }
    }
}

/// The pages that entries of depth `d` or less target, in page order and each once.
pub fn list_cuts(entries: &[OutlineEntry], d: u32) -> (pages: Vec<u32>)
    ensures
        is_cut_list(entries@, d as nat, pages@),
        pages@ == cut_pages(entries@, d as nat),
{
    let mut pages: Vec<u32> = Vec::new();
    let mut i: usize = 0;
    while i < entries.len()
        invariant
            i <= entries@.len(),
            is_cut_list(entries@.take(i as int), d as nat, pages@),
        decreases entries@.len() - i,
    {
        let ghost done = entries@.take(i as int);
        let ghost next = entries@.take(i + 1);
        let ghost before = pages@;
        if entries[i].depth <= d {
            insert_page(&mut pages, entries[i].page);
        }
        proof {
            assert forall|p: u32| #[trigger]
                pages@.contains(p) <==> is_cut(next, d as nat, p) by {
                assert(before.contains(p) <==> is_cut(done, d as nat, p));
                if is_cut(done, d as nat, p) {
                    let k = choose|k: int|
                        0 <= k < done.len() && (#[trigger] done[k]).depth <= d && done[k].page == p;
                    assert(next[k] == done[k]);
                }
                assert(next[i as int] == entries@[i as int]);
                if is_cut(next, d as nat, p) {
                    let k = choose|k: int|
                        0 <= k < next.len() && (#[trigger] next[k]).depth <= d && next[k].page == p;
                    if k < i {
                        assert(done[k] == next[k]);
                    }
                }
            }
        }
        i = i + 1;
    }
    proof {
        assert(entries@.take(i as int) =~= entries@);
        cut_list_is_unique(entries@, d as nat, pages@, cut_pages(entries@, d as nat));
    }
    pages
}

/// Appends how the range of segment lengths is put in words.
fn format_span(out: &mut String, min: u32, max: u32)
    ensures
        final(out)@ == old(out)@ + span_text(min as nat, max as nat),
{
    text::push_decimal(out, min as u64);
    if min == max {
        out.append(
            if min == 1 {
                " page"
            } else {
                " pages"
            },
        );
        out.append(" long");
    } else {
        out.append("-");
        text::push_decimal(out, max as u64);
        out.append(" pages long");
    }
    assert(out@ =~= old(out)@ + span_text(min as nat, max as nat));
}

/// Appends the report on a document without an outline.
fn push_no_outline(out: &mut String, page_count: usize)
    ensures
        final(out)@ == old(out)@ + no_outline_text(page_count as nat),
{
    text::push_decimal(out, page_count as u64);
    out.append(" pages, no outline present\n");
    assert(out@ =~= old(out)@ + no_outline_text(page_count as nat));
}

proof fn lemma_deepest(entries: Seq<OutlineEntry>, i: int)
    requires
        0 <= i < entries.len(),
    ensures
        entries[i].depth <= deepest(entries),
    decreases entries.len(),
{
    if i < entries.len() - 1 {
        lemma_deepest(entries.drop_last(), i);
        assert(entries.drop_last()[i] == entries[i]);
    }
}

/// The depth of the deepest entry.
fn max_depth(entries: &[OutlineEntry]) -> (depth: u32)
    ensures
        depth == deepest(entries@),
        entries@.len() > 0 ==> exists|i: int|
            0 <= i < entries@.len() && (#[trigger] entries@[i]).depth == depth,
{
    let mut depth: u32 = 0;
    let mut i: usize = 0;
    let ghost mut at: int = 0;
    while i < entries.len()
        invariant
            i <= entries@.len(),
            depth == deepest(entries@.take(i as int)),
            0 <= at,
            i > 0 ==> at < i && entries@[at].depth == depth,
        decreases entries@.len() - i,
    {
        assert(entries@.take(i + 1).drop_last() =~= entries@.take(i as int));
        if i == 0 || entries[i].depth > depth {
            depth = entries[i].depth;
            proof {
                at = i as int;
            }
        }
        i = i + 1;
    }
    assert(entries@.take(i as int) =~= entries@);
    depth
}

/// The number of entries at each depth from 0 to `deepest`.
fn count_depths(entries: &[OutlineEntry], deepest_entry: u32) -> (counts: Vec<usize>)
    requires
        deepest_entry == deepest(entries@),
        deepest_entry < u32::MAX,
    ensures
        counts@.len() == deepest_entry + 1,
        forall|d: int|
            0 <= d < counts@.len() ==> #[trigger] counts@[d] == count_at(entries@, d as nat),
{
    let len: usize = deepest_entry as usize + 1;
    let mut counts: Vec<usize> = Vec::new();
    while counts.len() < len
        invariant
            counts@.len() <= len,
            forall|d: int| 0 <= d < counts@.len() ==> #[trigger] counts@[d] == 0,
        decreases len - counts@.len(),
    {
        counts.push(0);
    }
    let mut i: usize = 0;
    while i < entries.len()
        invariant
            len == deepest(entries@) + 1,
            counts@.len() == len,
            i <= entries@.len(),
            forall|d: int|
                0 <= d < counts@.len() ==> #[trigger] counts@[d] == count_at(
                    entries@.take(i as int),
                    d as nat,
                ) && counts@[d] <= i,
        decreases entries@.len() - i,
    {
        proof {
            lemma_deepest(entries@, i as int);
            assert(entries@.take(i + 1).drop_last() =~= entries@.take(i as int));
        }
        let at: usize = entries[i].depth as usize;
        let old_count: usize = counts[at];
        counts.set(at, old_count + 1);
        i = i + 1;
    }
    assert(entries@.take(i as int) =~= entries@);
    counts
}

/// The number of pages from cut `i` to the next one, or to the end of the document.
fn measure_segment(cuts: &Vec<u32>, page_count: usize, i: usize) -> (len: u32)
    requires
        page_count < u32::MAX,
        increasing(cuts@),
        i < cuts@.len(),
    ensures
        len == segment_len(cuts@, page_count as nat, i as int),
{
    if i < cuts.len() - 1 {
        cuts[i + 1] - cuts[i]
    } else if cuts[i] <= page_count as u32 {
        page_count as u32 + 1 - cuts[i]
    } else {
        0
    }
}

/// Appends what the histogram says about the lengths of the segments between the cuts.
fn push_lengths(out: &mut String, cuts: &Vec<u32>, page_count: usize)
    requires
        page_count < u32::MAX,
        increasing(cuts@),
    ensures
        final(out)@ == old(out)@ + lengths_text(cuts@, page_count as nat),
{
    if cuts.len() == 0 {
        assert(out@ =~= old(out)@ + lengths_text(cuts@, page_count as nat));
        return;
    }
    let mut min_span: u32 = measure_segment(cuts, page_count, 0);
    let mut max_span: u32 = min_span;
    let mut i: usize = 1;
    while i < cuts.len()
        invariant
            1 <= i <= cuts@.len(),
            increasing(cuts@),
            page_count < u32::MAX,
            min_span == shortest(cuts@, page_count as nat, i as nat),
            max_span == longest(cuts@, page_count as nat, i as nat),
        decreases cuts@.len() - i,
    {
        let span: u32 = measure_segment(cuts, page_count, i);
        if span < min_span {
            min_span = span;
        }
        if span > max_span {
            max_span = span;
        }
        i = i + 1;
    }
    out.append(", ");
    format_span(out, min_span, max_span);
    assert(out@ =~= old(out)@ + lengths_text(cuts@, page_count as nat));
}

/// Appends the line of the histogram for depth `d`.
fn push_row(
    out: &mut String,
    entries: &[OutlineEntry],
    page_count: usize,
    width: usize,
    d: u32,
    count: usize,
)
    requires
        page_count < u32::MAX,
        count == count_at(entries@, d as nat),
    ensures
        final(out)@ == old(out)@ + row_text(
            entries@,
            page_count as nat,
            width as nat,
            d as nat,
        ),
{
    let cuts: Vec<u32> = list_cuts(entries, d);
    let segments: usize = cuts.len();
    let ghost pages = page_count as nat;
    out.append("  at depth ");
    text::push_decimal(out, d as u64);
    out.append(": ");
    text::push_right_aligned(out, count as u64, width);
    out.append(
        if count == 1 {
            " bookmark"
        } else {
            " bookmarks"
        },
    );
    out.append("  → ");
    text::push_decimal(out, segments as u64);
    out.append(
        if segments == 1 {
            " segment"
        } else {
            " segments"
        },
    );
    push_lengths(out, &cuts, page_count);
    out.append("\n");
    assert(out@ =~= old(out)@ + row_text(entries@, pages, width as nat, d as nat));
}

/// Appends a histogram of the outline's depths: a header line, then a line for each depth from 1
/// to the deepest, with the number of bookmarks at that depth, the number of segments that a
/// split at that depth would give, and the range of their lengths in pages.
pub fn print_histogram(out: &mut String, entries: &[OutlineEntry], page_count: usize)
    requires
        entries@.len() > 0 ==> page_count < u32::MAX,
        forall|i: int| 0 <= i < entries@.len() ==> (#[trigger] entries@[i]).depth < u32::MAX,
    ensures
        final(out)@ == old(out)@ + histogram_text(entries@, page_count as nat),
{
    if entries.len() == 0 {
        push_no_outline(out, page_count);
        return;
    }
    let ghost pages = page_count as nat;
    let deepest_entry: u32 = max_depth(entries);
    let counts: Vec<usize> = count_depths(entries, deepest_entry);
    text::push_decimal(out, page_count as u64);
    out.append(" pages, ");
    text::push_decimal(out, entries.len() as u64);
    out.append(
        if entries.len() == 1 {
            " bookmark"
        } else {
            " bookmarks"
        },
    );
    out.append(", max depth ");
    text::push_decimal(out, deepest_entry as u64);
    out.append("\n");
    assert(out@ =~= old(out)@ + header_text(entries@, pages));
    let mut max_count: usize = counts[0];
    let mut i: usize = 1;
    while i < counts.len()
        invariant
            1 <= i <= counts@.len(),
            forall|d: int|
                0 <= d < counts@.len() ==> #[trigger] counts@[d] == count_at(entries@, d as nat),
            max_count == largest_count(entries@, (i - 1) as nat),
        decreases counts@.len() - i,
    {
        if counts[i] > max_count {
            max_count = counts[i];
        }
        i = i + 1;
    }
    let width: usize = text::decimal_width(max_count as u64);
    let ghost head = header_text(entries@, pages);
    let mut d: u32 = 0;
    assert(out@ =~= old(out)@ + head + rows_text(entries@, pages, width as nat, 0));
    while d < deepest_entry
        invariant
            d <= deepest_entry,
            counts@.len() == deepest_entry + 1,
            page_count < u32::MAX,
            pages == page_count as nat,
            forall|d: int|
                0 <= d < counts@.len() ==> #[trigger] counts@[d] == count_at(entries@, d as nat),
            out@ == old(out)@ + head + rows_text(entries@, pages, width as nat, d as nat),
        decreases deepest_entry - d,
    {
        d = d + 1;
        push_row(out, entries, page_count, width, d, counts[d as usize]);
        assert(out@ =~= old(out)@ + head + rows_text(entries@, pages, width as nat, d as nat));
    }
    assert(out@ =~= old(out)@ + histogram_text(entries@, pages));
}

/// The page of an entry as the tree shows it, filled up with spaces on the right to `width`
/// characters.
pub open spec fn page_mark(page: nat, width: nat) -> Seq<char> {
    let mark = "[p"@ + text::decimal(page) + "]"@;
    if mark.len() < width {
        mark + text::run_of(' ', (width - mark.len()) as nat)
    } else {
        mark
    }
}

/// The number of spaces before the title of an entry at a depth.
pub open spec fn indent(depth: nat) -> nat {
    if depth == 0 {
        0
    } else {
        (2 * (depth - 1)) as nat
    }
}

/// The title of an entry as the tree shows it.
pub open spec fn shown_title(title: Seq<char>) -> Seq<char> {
    if title.len() == 0 {
        "(untitled)"@
    } else {
        title
    }
}

/// The line of the tree for one entry.
pub open spec fn tree_line(entry: OutlineEntry, width: nat) -> Seq<char> {
    page_mark(entry.page as nat, width) + " "@ + text::run_of(' ', indent(entry.depth as nat))
        + shown_title(entry.title@) + "\n"@
}

/// The lines of the tree, in the order of the entries.
pub open spec fn tree_lines(entries: Seq<OutlineEntry>, width: nat) -> Seq<char>
    decreases entries.len(),
{
    if entries.len() == 0 {
        Seq::empty()
    } else {
        tree_lines(entries.drop_last(), width) + tree_line(entries.last(), width)
    }
}

/// The number of columns that the mark of the document's last page takes.
pub open spec fn mark_width(page_count: nat) -> nat {
    text::decimal(page_count).len() + 3
}

/// The tree of an outline.
pub open spec fn tree_text(entries: Seq<OutlineEntry>, page_count: nat) -> Seq<char> {
    if entries.len() == 0 {
        no_outline_text(page_count)
    } else {
        tree_lines(entries, mark_width(page_count))
    }
}

/// Appends the page of an entry as the tree shows it.
fn push_page_mark(out: &mut String, page: u32, width: usize)
    ensures
        final(out)@ == old(out)@ + page_mark(page as nat, width as nat),
{
    proof {
        reveal_strlit("[p");
        reveal_strlit("]");
        text::lemma_decimal_fits(page as nat);
    }
    let own_width: usize = text::decimal_width(page as u64) + 3;
    out.append("[p");
    text::push_decimal(out, page as u64);
    out.append("]");
    if own_width < width {
        text::push_spaces(out, width - own_width);
    }
    assert(out@ =~= old(out)@ + page_mark(page as nat, width as nat));
}

/// Appends the spaces before the title of an entry at a depth.
fn push_indent(out: &mut String, depth: u32)
    ensures
        final(out)@ == old(out)@ + text::run_of(' ', indent(depth as nat)),
{
    if depth > 0 {
        text::push_spaces(out, depth as usize - 1);
        text::push_spaces(out, depth as usize - 1);
    }
    assert(out@ =~= old(out)@ + text::run_of(' ', indent(depth as nat)));
}

/// Appends the line of the tree for one entry.
fn push_tree_line(out: &mut String, entry: &OutlineEntry, width: usize)
    ensures
        final(out)@ == old(out)@ + tree_line(*entry, width as nat),
{
    push_page_mark(out, entry.page, width);
    out.append(" ");
    push_indent(out, entry.depth);
    if entry.title.as_str().is_empty() {
        out.append("(untitled)");
    } else {
        out.append(entry.title.as_str());
    }
    out.append("\n");
    assert(out@ =~= old(out)@ + tree_line(*entry, width as nat));
}

/// Appends the outline as an indented tree, one line for each entry: the page, in a column wide
/// enough for the document's last page, then two spaces for each level of depth below the first,
/// then the title.
pub fn print_tree(out: &mut String, entries: &[OutlineEntry], page_count: usize)
    ensures
        final(out)@ == old(out)@ + tree_text(entries@, page_count as nat),
{
    if entries.len() == 0 {
        push_no_outline(out, page_count);
        return;
    }
    proof {
        text::lemma_decimal_fits(page_count as nat);
    }
    let width: usize = text::decimal_width(page_count as u64) + 3;
    let mut i: usize = 0;
    assert(out@ =~= old(out)@ + tree_lines(entries@.take(0), width as nat));
    while i < entries.len()
        invariant
            i <= entries@.len(),
            out@ == old(out)@ + tree_lines(entries@.take(i as int), width as nat),
        decreases entries@.len() - i,
    {
        assert(entries@.take(i + 1).drop_last() =~= entries@.take(i as int));
        push_tree_line(out, &entries[i], width);
        i = i + 1;
        assert(out@ =~= old(out)@ + tree_lines(entries@.take(i as int), width as nat));
    }
    assert(entries@.take(i as int) =~= entries@);
}

/// The number of entries at the depths from 0 to `d`.
pub open spec fn count_up_to(entries: Seq<OutlineEntry>, d: nat) -> nat
    decreases d,
{
    if d == 0 {
        count_at(entries, 0)
    } else {
        count_up_to(entries, (d - 1) as nat) + count_at(entries, d)
    }
}

proof fn lemma_count_up_to(entries: Seq<OutlineEntry>, d: nat)
    requires
        entries.len() > 0,
    ensures
        count_up_to(entries, d) == count_up_to(entries.drop_last(), d) + (if entries.last().depth
            <= d {
            1nat
        } else {
            0nat
        }),
    decreases d,
{
    if d > 0 {
        lemma_count_up_to(entries, (d - 1) as nat);
    }
}

/// The histogram counts each entry once, at its own depth.
pub proof fn every_entry_is_counted_once(entries: Seq<OutlineEntry>, d: nat)
    requires
        deepest(entries) <= d,
    ensures
        count_up_to(entries, d) == entries.len(),
    decreases entries.len(),
{
    if entries.len() > 0 {
        every_entry_is_counted_once(entries.drop_last(), d);
        lemma_count_up_to(entries, d);
    } else {
        lemma_no_entries(entries, d);
    }
}

proof fn lemma_no_entries(entries: Seq<OutlineEntry>, d: nat)
    requires
        entries.len() == 0,
    ensures
        count_up_to(entries, d) == 0,
    decreases d,
{
    if d > 0 {
        lemma_no_entries(entries, (d - 1) as nat);
    }
}

proof fn lemma_lengths(cuts: Seq<u32>, page_count: nat, k: nat)
    requires
        increasing(cuts),
        forall|i: int| 0 <= i < cuts.len() ==> 1 <= #[trigger] cuts[i] <= page_count,
        1 <= k <= cuts.len(),
    ensures
        1 <= shortest(cuts, page_count, k) <= longest(cuts, page_count, k) <= page_count,
    decreases k,
{
    assert(1 <= cuts[k - 1] <= page_count);
    if k < cuts.len() {
        assert(cuts[k - 1] < cuts[k as int]);
    }
    if k > 1 {
        lemma_lengths(cuts, page_count, (k - 1) as nat);
    }
}

/// The lengths in a line of the histogram are lengths of segments: the shortest is at least one page
/// and no longer than the longest, which is no longer than the document.
pub proof fn lengths_are_in_range(entries: Seq<OutlineEntry>, page_count: nat, d: nat)
    requires
        forall|i: int|
            0 <= i < entries.len() ==> 1 <= (#[trigger] entries[i]).page <= page_count,
        cut_pages(entries, d).len() > 0,
    ensures
        1 <= shortest(cut_pages(entries, d), page_count, cut_pages(entries, d).len()) <= longest(
            cut_pages(entries, d),
            page_count,
            cut_pages(entries, d).len(),
        ) <= page_count,
{
    let cuts = cut_pages(entries, d);
    let list = lemma_cut_list_exists(entries, d);
    assert(is_cut_list(entries, d, cuts));
    assert forall|i: int| 0 <= i < cuts.len() implies 1 <= #[trigger] cuts[i] <= page_count by {
        assert(cuts.contains(cuts[i]));
        assert(is_cut(entries, d, cuts[i]));
    }
    lemma_lengths(cuts, page_count, cuts.len());
}

/// The depths and pages of the entries, in no order.
pub open spec fn places(entries: Seq<OutlineEntry>) -> Multiset<(u32, u32)> {
    place_list(entries).to_multiset()
}

/// The depth and page of each entry.
pub open spec fn place_list(entries: Seq<OutlineEntry>) -> Seq<(u32, u32)> {
    entries.map_values(|entry: OutlineEntry| (entry.depth, entry.page))
}

proof fn lemma_same_place(a: Seq<OutlineEntry>, b: Seq<OutlineEntry>, i: int) -> (j: int)
    requires
        places(a) == places(b),
        0 <= i < a.len(),
    ensures
        0 <= j < b.len(),
        b[j].depth == a[i].depth,
        b[j].page == a[i].page,
{
    let place = (a[i].depth, a[i].page);
    place_list(a).to_multiset_ensures();
    place_list(b).to_multiset_ensures();
    assert(place_list(a)[i] == place);
    assert(place_list(a).contains(place));
    assert(places(a).count(place) > 0);
    assert(places(b).count(place) > 0);
    assert(place_list(b).contains(place));
    let j = choose|j: int| 0 <= j < place_list(b).len() && place_list(b)[j] == place;
    j
}

proof fn lemma_count_remove(entries: Seq<OutlineEntry>, i: int, d: nat)
    requires
        0 <= i < entries.len(),
    ensures
        count_at(entries, d) == count_at(entries.remove(i), d) + (if entries[i].depth == d {
            1nat
        } else {
            0nat
        }),
    decreases entries.len(),
{
    let rest = entries.remove(i);
    if i == entries.len() - 1 {
        assert(rest =~= entries.drop_last());
    } else {
        lemma_count_remove(entries.drop_last(), i, d);
        assert(rest.drop_last() =~= entries.drop_last().remove(i));
        assert(rest.last() == entries.last());
    }
}

proof fn lemma_same_count(a: Seq<OutlineEntry>, b: Seq<OutlineEntry>, d: nat)
    requires
        places(a) == places(b),
    ensures
        a.len() == b.len(),
        count_at(a, d) == count_at(b, d),
    decreases a.len(),
{
    place_list(a).to_multiset_ensures();
    place_list(b).to_multiset_ensures();
    if a.len() > 0 {
        let i = a.len() - 1;
        let j = lemma_same_place(a, b, i);
        assert(place_list(a.remove(i)) =~= place_list(a).remove(i));
        assert(place_list(b.remove(j)) =~= place_list(b).remove(j));
        assert(place_list(a)[i] == place_list(b)[j]);
        assert(a.remove(i) =~= a.drop_last());
        lemma_same_count(a.drop_last(), b.remove(j), d);
        lemma_count_remove(b, j, d);
    }
}

proof fn lemma_deepest_is_reached(entries: Seq<OutlineEntry>) -> (i: int)
    requires
        entries.len() > 0,
    ensures
        0 <= i < entries.len(),
        entries[i].depth == deepest(entries),
    decreases entries.len(),
{
    let last = entries.len() - 1;
    assert(entries[last] == entries.last());
    if entries.len() == 1 {
        assert(deepest(entries.drop_last()) == 0);
        last
    } else if entries[last].depth > deepest(entries.drop_last()) {
        last
    } else {
        let i = lemma_deepest_is_reached(entries.drop_last());
        assert(entries.drop_last()[i] == entries[i]);
        i
    }
}

proof fn lemma_same_deepest(a: Seq<OutlineEntry>, b: Seq<OutlineEntry>)
    requires
        places(a) == places(b),
        a.len() > 0,
    ensures
        deepest(a) <= deepest(b),
{
    let i = lemma_deepest_is_reached(a);
    let j = lemma_same_place(a, b, i);
    lemma_deepest(b, j);
}

proof fn lemma_same_cuts(a: Seq<OutlineEntry>, b: Seq<OutlineEntry>, d: nat, page: u32)
    requires
        places(a) == places(b),
        is_cut(a, d, page),
    ensures
        is_cut(b, d, page),
{
    let i = choose|i: int|
        0 <= i < a.len() && (#[trigger] a[i]).depth <= d && a[i].page == page;
    let j = lemma_same_place(a, b, i);
    assert(b[j].depth <= d && b[j].page == page);
}

proof fn lemma_insert_sorted(pages: Seq<u32>, page: u32) -> (more: Seq<u32>)
    requires
        increasing(pages),
    ensures
        increasing(more),
        forall|p: u32| #[trigger] more.contains(p) <==> p == page || pages.contains(p),
    decreases pages.len(),
{
    if pages.contains(page) {
        pages
    } else if pages.len() == 0 {
        let more = seq![page];
        assert(more[0] == page);
        more
    } else {
        let last = pages.last();
        let front = pages.drop_last();
        let base = if last < page {
            pages
        } else {
            assert(pages[pages.len() - 1] == last);
            assert forall|p: u32| front.contains(p) implies pages.contains(p) by {
                let k = choose|k: int| 0 <= k < front.len() && front[k] == p;
                assert(pages[k] == p);
            }
            lemma_insert_sorted(front, page)
        };
        let top = if last < page {
            page
        } else {
            last
        };
        let more = base.push(top);
        assert forall|i: int| 0 <= i < base.len() implies base[i] < top by {
            assert(base.contains(base[i]));
            if last < page {
                assert(pages[i] <= pages[pages.len() - 1]);
            } else {
                if base[i] != page {
                    let k = choose|k: int| 0 <= k < front.len() && front[k] == base[i];
                    assert(pages[k] < pages[pages.len() - 1]);
                } else {
                    assert(pages[pages.len() - 1] == last);
                    assert(pages.contains(last));
                }
            }
        }
        assert forall|p: u32| #[trigger] more.contains(p) <==> p == page || pages.contains(p) by {
            assert(more[base.len() as int] == top);
            assert(pages[pages.len() - 1] == last);
            if more.contains(p) {
                let k = choose|k: int| 0 <= k < more.len() && more[k] == p;
                if k < base.len() {
                    assert(base[k] == p);
                    assert(base.contains(p));
                    if !(last < page) && p != page {
                        let m = choose|m: int| 0 <= m < front.len() && front[m] == p;
                        assert(pages[m] == p);
                    }
                }
            }
            if p == page || pages.contains(p) {
                if p != top {
                    if last < page {
                        assert(base.contains(p));
                    } else if p != page {
                        let m = choose|m: int| 0 <= m < pages.len() && pages[m] == p;
                        assert(front[m] == p);
                        assert(base.contains(p));
                    } else {
                        assert(base.contains(p));
                    }
                    let k = choose|k: int| 0 <= k < base.len() && base[k] == p;
                    assert(more[k] == p);
                }
            }
        }
        more
    }
}

proof fn lemma_cut_list_exists(entries: Seq<OutlineEntry>, d: nat) -> (pages: Seq<u32>)
    ensures
        is_cut_list(entries, d, pages),
    decreases entries.len(),
{
    if entries.len() == 0 {
        Seq::empty()
    } else {
        let shorter = entries.drop_last();
        let last = entries.len() - 1;
        let before = lemma_cut_list_exists(shorter, d);
        let pages = if entries[last].depth <= d {
            lemma_insert_sorted(before, entries[last].page)
        } else {
            before
        };
        assert forall|p: u32| #[trigger] pages.contains(p) <==> is_cut(entries, d, p) by {
            assert(before.contains(p) <==> is_cut(shorter, d, p));
            if is_cut(shorter, d, p) {
                let k = choose|k: int|
                    0 <= k < shorter.len() && (#[trigger] shorter[k]).depth <= d && shorter[k].page
                        == p;
                assert(entries[k] == shorter[k]);
            }
            if is_cut(entries, d, p) {
                let k = choose|k: int|
                    0 <= k < entries.len() && (#[trigger] entries[k]).depth <= d && entries[k].page
                        == p;
                if k < last {
                    assert(shorter[k] == entries[k]);
                }
            }
        }
        pages
    }
}

proof fn lemma_same_cut_pages(a: Seq<OutlineEntry>, b: Seq<OutlineEntry>, d: nat)
    requires
        places(a) == places(b),
    ensures
        cut_pages(a, d) == cut_pages(b, d),
{
    let s = lemma_cut_list_exists(a, d);
    let t = lemma_cut_list_exists(b, d);
    cut_list_is_unique(a, d, s, cut_pages(a, d));
    cut_list_is_unique(b, d, t, cut_pages(b, d));
    assert forall|p: u32| #[trigger] s.contains(p) <==> is_cut(b, d, p) by {
        if is_cut(a, d, p) {
            lemma_same_cuts(a, b, d, p);
        }
        if is_cut(b, d, p) {
            lemma_same_cuts(b, a, d, p);
        }
    }
    cut_list_is_unique(b, d, s, t);
}

proof fn lemma_same_largest_count(a: Seq<OutlineEntry>, b: Seq<OutlineEntry>, d: nat)
    requires
        places(a) == places(b),
    ensures
        largest_count(a, d) == largest_count(b, d),
    decreases d,
{
    lemma_same_count(a, b, d);
    if d > 0 {
        lemma_same_largest_count(a, b, (d - 1) as nat);
    }
}

proof fn lemma_same_rows(
    a: Seq<OutlineEntry>,
    b: Seq<OutlineEntry>,
    page_count: nat,
    width: nat,
    d: nat,
)
    requires
        places(a) == places(b),
    ensures
        rows_text(a, page_count, width, d) == rows_text(b, page_count, width, d),
    decreases d,
{
    if d > 0 {
        lemma_same_rows(a, b, page_count, width, (d - 1) as nat);
        lemma_same_count(a, b, d);
        lemma_same_cut_pages(a, b, d);
    }
}

/// The histogram depends neither on the order of the entries nor on their titles: it is the same for
/// outlines that have the same pages at the same depths equally often.
pub proof fn histogram_ignores_order_and_titles(
    a: Seq<OutlineEntry>,
    b: Seq<OutlineEntry>,
    page_count: nat,
)
    requires
        places(a) == places(b),
    ensures
        histogram_text(a, page_count) == histogram_text(b, page_count),
{
    lemma_same_count(a, b, 0);
    if a.len() > 0 {
        lemma_same_deepest(a, b);
        lemma_same_deepest(b, a);
        lemma_same_largest_count(a, b, deepest(a));
        lemma_same_rows(
            a,
            b,
            page_count,
            text::decimal(largest_count(a, deepest(a))).len(),
            deepest(a),
        );
    }
}

/// The bookmarks that the entries are.
pub open spec fn entry_marks(entries: Seq<OutlineEntry>) -> Seq<outline::Mark> {
    entries.map_values(
        |entry: OutlineEntry| outline::Mark { depth: entry.depth, page: entry.page },
    )
}

proof fn lemma_cut_here(
    entries: Seq<OutlineEntry>,
    levels: Seq<Boundary>,
    d: u32,
    i: int,
)
    requires
        0 < i < levels.len() <= u32::MAX,
        outline::marked(levels, entry_marks(entries)),
    ensures
        model::cut_here(levels, SplitAt::Depth(d), i) <==> is_cut(
            entries,
            d as nat,
            (i + 1) as u32,
        ),
{
    let page = (i + 1) as u32;
    let bookmarks = entry_marks(entries);
    assert(levels[i] == outline::boundary_of(bookmarks, page));
    outline::boundary_is_coarsest(bookmarks, page);
    assert(forall|k: int|
        0 <= k < entries.len() ==> (#[trigger] bookmarks[k]).depth == entries[k].depth
            && bookmarks[k].page == entries[k].page);
    if is_cut(entries, d as nat, page) {
        let k = choose|k: int|
            0 <= k < entries.len() && (#[trigger] entries[k]).depth <= d && entries[k].page == page;
        assert(bookmarks[k].page == page);
    }
    if let Boundary::Bookmark { depth } = levels[i] {
        let k = choose|k: int|
            0 <= k < bookmarks.len() && (#[trigger] bookmarks[k]).page == page
                && bookmarks[k].depth == depth;
        assert(entries[k].page == page && entries[k].depth == depth);
    }
}

proof fn lemma_units_count(
    entries: Seq<OutlineEntry>,
    levels: Seq<Boundary>,
    d: u32,
    cuts: Seq<u32>,
    pos: int,
    k: int,
)
    requires
        0 <= pos < levels.len() <= u32::MAX,
        outline::marked(levels, entry_marks(entries)),
        is_cut_list(entries, d as nat, cuts),
        forall|i: int| 0 <= i < entries.len() ==> 1 <= (#[trigger] entries[i]).page <= levels.len(),
        0 <= k <= cuts.len(),
        forall|j: int| 0 <= j < k ==> #[trigger] cuts[j] <= pos + 1,
        forall|j: int| k <= j < cuts.len() ==> #[trigger] cuts[j] > pos + 1,
    ensures
        model::units(levels, SplitAt::Depth(d), pos, levels.len() as int).len() == 1 + cuts.len()
            - k,
    decreases levels.len() - pos,
{
    let n = levels.len() as int;
    let level = SplitAt::Depth(d);
    let e = model::next_cut(levels, level, pos, n);
    model::lemma_next_cut(levels, level, pos, n);
    if k < cuts.len() {
        let page = cuts[k];
        assert(cuts.contains(page));
        assert(is_cut(entries, d as nat, page));
        let at = choose|i: int|
            0 <= i < entries.len() && (#[trigger] entries[i]).depth <= d && entries[i].page == page;
        assert(page <= n);
        lemma_cut_here(entries, levels, d, page - 1);
        assert(model::cut_here(levels, level, page - 1));
        assert(e <= page - 1);
    }
    if e < n {
        lemma_cut_here(entries, levels, d, e);
        assert(cuts.contains((e + 1) as u32));
        let m = choose|m: int| 0 <= m < cuts.len() && cuts[m] == (e + 1) as u32;
        assert(m >= k);
        assert(cuts[k] <= cuts[m]);
        assert(cuts[k] == e + 1);
        assert forall|j: int| k + 1 <= j < cuts.len() implies #[trigger] cuts[j] > e + 1 by {
            assert(cuts[k] < cuts[j]);
        }
        lemma_units_count(entries, levels, d, cuts, e, k + 1);
    } else {
        assert(model::units(levels, level, n, n).len() == 0);
    }
}

/// A split at depth `d` divides the document into as many units as the histogram's line for that
/// depth has segments, and into one more where no entry of depth `d` or less targets the first
/// page: the first unit is then not one that the outline starts.
pub proof fn segments_are_units(
    entries: Seq<OutlineEntry>,
    levels: Seq<Boundary>,
    d: u32,
    cuts: Seq<u32>,
)
    requires
        0 < levels.len() <= u32::MAX,
        outline::marked(levels, entry_marks(entries)),
        is_cut_list(entries, d as nat, cuts),
        forall|i: int| 0 <= i < entries.len() ==> 1 <= (#[trigger] entries[i]).page <= levels.len(),
    ensures
        cuts == cut_pages(entries, d as nat),
        model::units(levels, SplitAt::Depth(d), 0, levels.len() as int).len() == cuts.len() + (
        if is_cut(entries, d as nat, 1) {
            0int
        } else {
            1
        }),
{
    cut_list_is_unique(entries, d as nat, cuts, cut_pages(entries, d as nat));
    assert forall|j: int| 0 <= j < cuts.len() implies 1 <= #[trigger] cuts[j] by {
        assert(cuts.contains(cuts[j]));
        assert(is_cut(entries, d as nat, cuts[j]));
    }
    assert(cuts.contains(1) <==> is_cut(entries, d as nat, 1));
    if cuts.contains(1) {
        let m = choose|m: int| 0 <= m < cuts.len() && cuts[m] == 1;
        assert(m == 0) by {
            if m > 0 {
                assert(cuts[0] < cuts[m]);
            }
        }
        assert forall|j: int| 1 <= j < cuts.len() implies #[trigger] cuts[j] > 1 by {
            assert(cuts[0] < cuts[j]);
        }
        lemma_units_count(entries, levels, d, cuts, 0, 1);
    } else {
        assert forall|j: int| 0 <= j < cuts.len() implies #[trigger] cuts[j] > 1 by {
            assert(cuts.contains(cuts[j]));
        }
        lemma_units_count(entries, levels, d, cuts, 0, 0);
    }
}

/// A segment reaches from its cut to the next one, and the last one to the end of the document.
pub proof fn segments_reach_to_the_next_cut(cuts: Seq<u32>, page_count: nat, i: int)
    requires
        increasing(cuts),
        0 <= i < cuts.len(),
        cuts.last() <= page_count + 1,
    ensures
        i + 1 < cuts.len() ==> segment_len(cuts, page_count, i) == cuts[i + 1] - cuts[i],
        i + 1 == cuts.len() ==> segment_len(cuts, page_count, i) == page_count + 1 - cuts[i],
{
    if i + 1 < cuts.len() {
        assert(cuts[i] < cuts[i + 1]);
    }
}

proof fn lemma_extremes(cuts: Seq<u32>, page_count: nat, k: nat) -> (at: (int, int))
    requires
        1 <= k <= cuts.len(),
    ensures
        forall|i: int|
            0 <= i < k ==> shortest(cuts, page_count, k) <= #[trigger] segment_len(
                cuts,
                page_count,
                i,
            ) <= longest(cuts, page_count, k),
        0 <= at.0 < k,
        segment_len(cuts, page_count, at.0) == shortest(cuts, page_count, k),
        0 <= at.1 < k,
        segment_len(cuts, page_count, at.1) == longest(cuts, page_count, k),
    decreases k,
{
    if k == 1 {
        (0, 0)
    } else {
        let shorter = (k - 1) as nat;
        let before = lemma_extremes(cuts, page_count, shorter);
        let last = segment_len(cuts, page_count, k - 1);
        assert forall|i: int| 0 <= i < k implies shortest(cuts, page_count, k)
            <= #[trigger] segment_len(cuts, page_count, i) <= longest(cuts, page_count, k) by {
            if i < shorter {
                assert(shortest(cuts, page_count, shorter) <= segment_len(cuts, page_count, i)
                    <= longest(cuts, page_count, shorter));
            } else {
                assert(i == k - 1);
            }
        }
        let lo = if last < shortest(cuts, page_count, shorter) {
            k - 1
        } else {
            before.0
        };
        let hi = if last > longest(cuts, page_count, shorter) {
            k - 1
        } else {
            before.1
        };
        (lo, hi)
    }
}

/// The lengths in a line of the histogram are the extremes: no segment is shorter than the shortest
/// or longer than the longest, and there are segments of both lengths.
pub proof fn lengths_are_the_extremes(cuts: Seq<u32>, page_count: nat)
    requires
        cuts.len() > 0,
    ensures
        forall|i: int|
            0 <= i < cuts.len() ==> shortest(cuts, page_count, cuts.len())
                <= #[trigger] segment_len(cuts, page_count, i) <= longest(
                cuts,
                page_count,
                cuts.len(),
            ),
        exists|i: int|
            0 <= i < cuts.len() && #[trigger] segment_len(cuts, page_count, i) == shortest(
                cuts,
                page_count,
                cuts.len(),
            ),
        exists|i: int|
            0 <= i < cuts.len() && #[trigger] segment_len(cuts, page_count, i) == longest(
                cuts,
                page_count,
                cuts.len(),
            ),
{
    let at = lemma_extremes(cuts, page_count, cuts.len());
    assert(segment_len(cuts, page_count, at.0) == shortest(cuts, page_count, cuts.len()));
    assert(segment_len(cuts, page_count, at.1) == longest(cuts, page_count, cuts.len()));
}

/// The number of bookmarks that a line of the histogram tells is that of the entries at its depth.
pub proof fn entries_are_counted_at_their_depth(entries: Seq<OutlineEntry>, d: nat)
    ensures
        count_at(entries, d) == entries.filter(|entry: OutlineEntry| entry.depth == d).len(),
    decreases entries.len(),
{
    reveal(Seq::filter);
    if entries.len() > 0 {
        entries_are_counted_at_their_depth(entries.drop_last(), d);
    }
}

/// The depth of an outline is that of some entry, and no entry stands deeper.
pub proof fn deepest_is_deepest(entries: Seq<OutlineEntry>)
    ensures
        forall|i: int|
            0 <= i < entries.len() ==> (#[trigger] entries[i]).depth <= deepest(entries),
        entries.len() > 0 ==> exists|i: int|
            0 <= i < entries.len() && (#[trigger] entries[i]).depth == deepest(entries),
        entries.len() == 0 ==> deepest(entries) == 0,
    decreases entries.len(),
{
    if entries.len() > 0 {
        let shorter = entries.drop_last();
        assert(forall|i: int| 0 <= i < shorter.len() ==> shorter[i] == #[trigger] entries[i]);
        deepest_is_deepest(shorter);
        assert(entries[entries.len() - 1] == entries.last());
        if shorter.len() > 0 {
            let at = choose|i: int|
                0 <= i < shorter.len() && (#[trigger] shorter[i]).depth == deepest(shorter);
            assert(entries[at] == shorter[at]);
        }
    }
}

/// The column of numbers is wide enough for every number in it: the largest is that of some depth,
/// and that of no depth is larger.
pub proof fn largest_count_is_largest(entries: Seq<OutlineEntry>, d: nat)
    ensures
        forall|e: nat| e <= d ==> #[trigger] count_at(entries, e) <= largest_count(entries, d),
        exists|e: nat| e <= d && #[trigger] count_at(entries, e) == largest_count(entries, d),
    decreases d,
{
    if d > 0 {
        largest_count_is_largest(entries, (d - 1) as nat);
        let at = choose|e: nat|
            e <= d - 1 && #[trigger] count_at(entries, e) == largest_count(
                entries,
                (d - 1) as nat,
            );
        assert(at <= d && count_at(entries, at) == largest_count(entries, (d - 1) as nat));
        assert forall|e: nat| e <= d implies #[trigger] count_at(entries, e) <= largest_count(
            entries,
            d,
        ) by {
            if e < d {
                assert(count_at(entries, e) <= largest_count(entries, (d - 1) as nat));
            }
        }
    } else {
        assert(count_at(entries, 0) == largest_count(entries, 0));
    }
}

/// The line of the histogram for a depth tells how many entries stand at that depth, into how many
/// segments the pages that entries of this depth or less target divide the document, and how long
/// the shortest and the longest of them are.
pub proof fn row_tells_of_the_split(
    entries: Seq<OutlineEntry>,
    page_count: nat,
    width: nat,
    d: nat,
    cuts: Seq<u32>,
    least: int,
    most: int,
)
    requires
        cuts.len() > 0,
        forall|i: int, j: int| 0 <= i < j < cuts.len() ==> cuts[i] < cuts[j],
        forall|p: u32| #[trigger]
            cuts.contains(p) <==> exists|i: int|
                0 <= i < entries.len() && (#[trigger] entries[i]).depth <= d && entries[i].page
                    == p,
        cuts.last() <= page_count + 1,
        forall|i: int|
            0 <= i < cuts.len() ==> least <= (if i + 1 < cuts.len() {
                cuts[i + 1] as int
            } else {
                page_count as int + 1
            }) - #[trigger] cuts[i] <= most,
        exists|i: int|
            0 <= i < cuts.len() && least == (if i + 1 < cuts.len() {
                cuts[i + 1] as int
            } else {
                page_count as int + 1
            }) - #[trigger] cuts[i],
        exists|i: int|
            0 <= i < cuts.len() && most == (if i + 1 < cuts.len() {
                cuts[i + 1] as int
            } else {
                page_count as int + 1
            }) - #[trigger] cuts[i],
    ensures
        row_text(entries, page_count, width, d) == {
            let count = entries.filter(|entry: OutlineEntry| entry.depth == d).len();
            "  at depth "@ + text::decimal(d) + ": "@ + text::right_aligned(count, ' ', width) + (
            if count == 1 {
                " bookmark"@
            } else {
                " bookmarks"@
            }) + "  → "@ + text::decimal(cuts.len()) + (if cuts.len() == 1 {
                " segment"@
            } else {
                " segments"@
            }) + (", "@ + (if least == most {
                text::decimal(least as nat) + (if least == 1 {
                    " page"@
                } else {
                    " pages"@
                }) + " long"@
            } else {
                text::decimal(least as nat) + "-"@ + text::decimal(most as nat) + " pages long"@
            })) + "\n"@
        },
{
    entries_are_counted_at_their_depth(entries, d);
    assert forall|p: u32| #[trigger] cuts.contains(p) <==> is_cut(entries, d, p) by {}
    assert(is_cut_list(entries, d, cuts));
    let list = cut_pages(entries, d);
    assert(is_cut_list(entries, d, list));
    cut_list_is_unique(entries, d, list, cuts);
    lengths_are_the_extremes(cuts, page_count);
    let n = cuts.len();
    assert forall|i: int| 0 <= i < n implies #[trigger] segment_len(cuts, page_count, i) == (if i
        + 1 < n {
        cuts[i + 1] as int
    } else {
        page_count as int + 1
    }) - cuts[i] by {
        segments_reach_to_the_next_cut(cuts, page_count, i);
    }
    let lo = choose|i: int|
        0 <= i < cuts.len() && #[trigger] segment_len(cuts, page_count, i) == shortest(
            cuts,
            page_count,
            n,
        );
    let hi = choose|i: int|
        0 <= i < cuts.len() && #[trigger] segment_len(cuts, page_count, i) == longest(
            cuts,
            page_count,
            n,
        );
    let at_least = choose|i: int|
        0 <= i < cuts.len() && least == (if i + 1 < cuts.len() {
            cuts[i + 1] as int
        } else {
            page_count as int + 1
        }) - #[trigger] cuts[i];
    let at_most = choose|i: int|
        0 <= i < cuts.len() && most == (if i + 1 < cuts.len() {
            cuts[i + 1] as int
        } else {
            page_count as int + 1
        }) - #[trigger] cuts[i];
    assert(segment_len(cuts, page_count, at_least) == least);
    assert(segment_len(cuts, page_count, at_most) == most);
    assert(cuts[lo] == cuts[lo] && cuts[hi] == cuts[hi]);
    assert(shortest(cuts, page_count, n) == least);
    assert(longest(cuts, page_count, n) == most);
}

proof fn lemma_rows_are_joined(
    entries: Seq<OutlineEntry>,
    page_count: nat,
    width: nat,
    d: nat,
)
    ensures
        rows_text(entries, page_count, width, d) == Seq::new(
            d,
            |i: int| row_text(entries, page_count, width, (i + 1) as nat),
        ).flatten(),
    decreases d,
{
    let rows = Seq::new(d, |i: int| row_text(entries, page_count, width, (i + 1) as nat));
    rows.lemma_flatten_and_flatten_alt_are_equivalent();
    if d > 0 {
        let before = Seq::new(
            (d - 1) as nat,
            |i: int| row_text(entries, page_count, width, (i + 1) as nat),
        );
        lemma_rows_are_joined(entries, page_count, width, (d - 1) as nat);
        before.lemma_flatten_and_flatten_alt_are_equivalent();
        assert(rows.drop_last() =~= before);
    } else {
        assert(rows.flatten_alt() =~= Seq::empty());
    }
}

/// The histogram of an outline that is not empty: a first line with the number of pages, the number
/// of entries and the depth, then a line for each depth from 1 on, to the deepest; the numbers stand
/// in a column as wide as the largest of them.
pub proof fn histogram_has_a_row_for_each_depth(entries: Seq<OutlineEntry>, page_count: nat)
    ensures
        entries.len() > 0 ==> histogram_text(entries, page_count) == text::decimal(page_count)
            + " pages, "@ + text::decimal(entries.len()) + (if entries.len() == 1 {
            " bookmark"@
        } else {
            " bookmarks"@
        }) + ", max depth "@ + text::decimal(deepest(entries)) + "\n"@ + Seq::new(
            deepest(entries),
            |i: int|
                row_text(
                    entries,
                    page_count,
                    text::decimal(largest_count(entries, deepest(entries))).len(),
                    (i + 1) as nat,
                ),
        ).flatten(),
        entries.len() == 0 ==> histogram_text(entries, page_count) == text::decimal(page_count)
            + " pages, no outline present\n"@,
{
    lemma_rows_are_joined(
        entries,
        page_count,
        text::decimal(largest_count(entries, deepest(entries))).len(),
        deepest(entries),
    );
}

proof fn lemma_lines_are_joined(entries: Seq<OutlineEntry>, width: nat)
    ensures
        tree_lines(entries, width) == entries.map_values(
            |entry: OutlineEntry| tree_line(entry, width),
        ).flatten(),
    decreases entries.len(),
{
    let lines = entries.map_values(|entry: OutlineEntry| tree_line(entry, width));
    lines.lemma_flatten_and_flatten_alt_are_equivalent();
    if entries.len() > 0 {
        let shorter = entries.drop_last();
        let before = shorter.map_values(|entry: OutlineEntry| tree_line(entry, width));
        lemma_lines_are_joined(shorter, width);
        before.lemma_flatten_and_flatten_alt_are_equivalent();
        assert(lines.drop_last() =~= before);
    } else {
        assert(lines.flatten_alt() =~= Seq::empty());
    }
}

/// The tree has one line for each entry, in order. The column of page marks is as wide as the mark of
/// the document's last page.
pub proof fn tree_has_a_line_for_each_entry(entries: Seq<OutlineEntry>, page_count: nat)
    ensures
        entries.len() > 0 ==> tree_text(entries, page_count) == entries.map_values(
            |entry: OutlineEntry| tree_line(entry, text::decimal(page_count).len() + 3),
        ).flatten(),
        entries.len() == 0 ==> tree_text(entries, page_count) == text::decimal(page_count)
            + " pages, no outline present\n"@,
{
    lemma_lines_are_joined(entries, text::decimal(page_count).len() + 3);
}

/// The line of an entry in the tree: the number of its page in brackets, filled up to the width of the
/// column, a space, two spaces for each level below the first, and the title, or a word in its
/// place where there is none.
pub proof fn tree_line_tells_page_depth_and_title(entry: OutlineEntry, width: nat, fill: nat)
    requires
        entry.depth > 0,
        fill == (if text::decimal(entry.page as nat).len() + 3 < width {
            width - (text::decimal(entry.page as nat).len() + 3)
        } else {
            0
        }),
    ensures
        tree_line(entry, width) == "[p"@ + text::decimal(entry.page as nat) + "]"@ + Seq::new(
            fill,
            |i: int| ' ',
        ) + " "@ + Seq::new((2 * (entry.depth - 1)) as nat, |i: int| ' ') + (if entry.title@.len()
            == 0 {
            "(untitled)"@
        } else {
            entry.title@
        }) + "\n"@,
{
    reveal_strlit("[p");
    reveal_strlit("]");
    let mark = "[p"@ + text::decimal(entry.page as nat) + "]"@;
    assert(mark.len() == text::decimal(entry.page as nat).len() + 3);
    assert(text::run_of(' ', fill) =~= Seq::new(fill, |i: int| ' '));
    assert(page_mark(entry.page as nat, width) =~= mark + Seq::new(fill, |i: int| ' '));
    assert(text::run_of(' ', indent(entry.depth as nat)) =~= Seq::new(
        (2 * (entry.depth - 1)) as nat,
        |i: int| ' ',
    ));
}

/// Where no entry stands at a depth or above it, its line tells of no segments and of no lengths.
pub proof fn row_without_segments(
    entries: Seq<OutlineEntry>,
    page_count: nat,
    width: nat,
    d: nat,
)
    requires
        forall|i: int| 0 <= i < entries.len() ==> (#[trigger] entries[i]).depth > d,
    ensures
        row_text(entries, page_count, width, d) == "  at depth "@ + text::decimal(d) + ": "@
            + text::right_aligned(0, ' ', width) + " bookmarks"@ + "  → "@ + text::decimal(0)
            + " segments"@ + "\n"@,
{
    let none = Seq::<u32>::empty();
    assert(is_cut_list(entries, d, none));
    cut_list_is_unique(entries, d, cut_pages(entries, d), none);
    lemma_none_counted(entries, d);
    let front = "  at depth "@ + text::decimal(d) + ": "@ + text::right_aligned(0, ' ', width)
        + " bookmarks"@ + "  → "@ + text::decimal(0) + " segments"@;
    assert(front + Seq::<char>::empty() =~= front);
}

proof fn lemma_none_counted(entries: Seq<OutlineEntry>, d: nat)
    requires
        forall|i: int| 0 <= i < entries.len() ==> (#[trigger] entries[i]).depth > d,
    ensures
        count_at(entries, d) == 0,
    decreases entries.len(),
{
    if entries.len() > 0 {
        let shorter = entries.drop_last();
        assert(forall|i: int| 0 <= i < shorter.len() ==> shorter[i] == #[trigger] entries[i]);
        assert(entries[entries.len() - 1].depth > d);
        lemma_none_counted(shorter, d);
    }
}

} // verus!
