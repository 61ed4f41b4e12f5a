//! The mathematical model of the planner: what the packing and the rebalancing of a document
//! produce, stated over token counts, page boundaries and spans of pages.

use crate::level::{Boundary, SplitAt};
use vstd::prelude::*;

verus! {

/// A document as the planner sees it: the token count and the boundary of each page, and the
/// number of tokens that one chunk may hold. Pages are counted from 0 here.
pub struct Layout {
    pub tokens: Seq<usize>,
    pub boundaries: Seq<Boundary>,
    pub budget: nat,
}

/// The pages `start..end`, kept together, and the level at which they were cut off.
pub struct Span {
    pub start: int,
    pub end: int,
    pub level: SplitAt,
}

/// Tokens on the pages `a..b`.
pub open spec fn token_sum(tokens: Seq<usize>, a: int, b: int) -> nat
    decreases b - a,
{
    if a >= b {
        0
    } else {
        token_sum(tokens, a, b - 1) + tokens[b - 1] as nat
    }
}

/// Tokens on the pages of a list, which are counted from 1.
pub open spec fn list_sum(tokens: Seq<usize>, pages: Seq<u32>) -> nat
    decreases pages.len(),
{
    if pages.len() == 0 {
        0
    } else {
        list_sum(tokens, pages.drop_last()) + tokens[pages.last() - 1] as nat
    }
}

/// The tokens of a list add up over its parts.
pub proof fn lemma_list_sum_split(tokens: Seq<usize>, a: Seq<u32>, b: Seq<u32>)
    ensures
        list_sum(tokens, a + b) == list_sum(tokens, a) + list_sum(tokens, b),
    decreases b.len(),
{
    if b.len() == 0 {
        assert(a + b =~= a);
    } else {
        assert((a + b).drop_last() =~= a + b.drop_last());
        lemma_list_sum_split(tokens, a, b.drop_last());
    }
}

/// The tokens of a list of pages fit in as many machine words.
pub proof fn lemma_list_sum_bound(tokens: Seq<usize>, pages: Seq<u32>)
    ensures
        list_sum(tokens, pages) <= pages.len() * 0xffff_ffff_ffff_ffff,
    decreases pages.len(),
{
    if pages.len() > 0 {
        lemma_list_sum_bound(tokens, pages.drop_last());
        let n = pages.len() as int;
        assert((n - 1) * 0xffff_ffff_ffff_ffff + 0xffff_ffff_ffff_ffff == n
            * 0xffff_ffff_ffff_ffff) by (nonlinear_arith);
    }
}

/// Page `i` may start a chunk at `level`.
pub open spec fn cut_here(marks: Seq<Boundary>, level: SplitAt, i: int) -> bool {
    level is Page || (0 <= i < marks.len() && level.qualifies(marks[i]))
}

/// The end of the unit that starts at page `i`: the next page before `end` that may start a
/// chunk at `level`, or `end`.
pub open spec fn next_cut(marks: Seq<Boundary>, level: SplitAt, i: int, end: int) -> int
    decreases end - i,
{
    if i + 1 >= end {
        end
    } else if cut_here(marks, level, i + 1) {
        i + 1
    } else {
        next_cut(marks, level, i + 1, end)
    }
}

/// The units of the pages `pos..end` at `level`, each with its start and its end.
pub open spec fn units(marks: Seq<Boundary>, level: SplitAt, pos: int, end: int) -> Seq<(int, int)>
    decreases end - pos,
{
    if pos >= end {
        Seq::empty()
    } else {
        proof {
            lemma_next_cut(marks, level, pos, end);
        }
        let e = next_cut(marks, level, pos, end);
        seq![(pos, e)] + units(marks, level, e, end)
    }
}

/// Some interior page of `start..end` carries a bookmark of depth `d` or less.
pub open spec fn marked_within(marks: Seq<Boundary>, start: int, end: int, d: u32) -> bool {
    exists|i: int|
        start < i < end && (match #[trigger] marks[i] {
            Boundary::Bookmark { depth } => depth <= d,
            Boundary::Page => false,
        })
}

/// `d` is the smallest depth beyond `n` such that some interior page of `start..end` carries a
/// bookmark of depth `d` or less.
pub open spec fn is_next_depth(marks: Seq<Boundary>, start: int, end: int, n: u32, d: u32) -> bool {
    &&& n < d
    &&& marked_within(marks, start, end, d)
    &&& forall|e: u32| n < e && #[trigger] marked_within(marks, start, end, e) ==> d <= e
}

/// The coarsest level below depth `n` that has a cut inside `start..end`.
pub open spec fn next_level(marks: Seq<Boundary>, start: int, end: int, n: u32) -> SplitAt {
    if exists|d: u32| is_next_depth(marks, start, end, n, d) {
        SplitAt::Depth(choose|d: u32| is_next_depth(marks, start, end, n, d))
    } else {
        SplitAt::Page
    }
}

/// The coarsest level below `level` that has a cut inside `start..end`.
pub open spec fn finer(marks: Seq<Boundary>, start: int, end: int, level: SplitAt) -> SplitAt {
    match level {
        SplitAt::Depth(n) => next_level(marks, start, end, n),
        _ => SplitAt::Page,
    }
}

/// A unit is not empty, stays within the range, ends where a cut is allowed, and has no such
/// place inside.
pub proof fn lemma_next_cut(marks: Seq<Boundary>, level: SplitAt, i: int, end: int)
    requires
        i < end,
    ensures
        i < next_cut(marks, level, i, end) <= end,
        next_cut(marks, level, i, end) < end ==> cut_here(
            marks,
            level,
            next_cut(marks, level, i, end),
        ),
        forall|j: int|
            i < j < next_cut(marks, level, i, end) ==> !#[trigger] cut_here(marks, level, j),
    decreases end - i,
{
    if i + 1 < end && !cut_here(marks, level, i + 1) {
        lemma_next_cut(marks, level, i + 1, end);
    }
}

/// What comes below a level other than page level is strictly finer.
pub proof fn lemma_finer(marks: Seq<Boundary>, start: int, end: int, level: SplitAt)
    ensures
        level !is Page ==> level.fineness() < finer(marks, start, end, level).fineness(),
        level is Page ==> finer(marks, start, end, level) is Page,
{
}

/// The tokens of `b - a` pages fit in as many machine words.
pub proof fn lemma_token_sum_bound(tokens: Seq<usize>, a: int, b: int)
    requires
        a <= b,
    ensures
        token_sum(tokens, a, b) <= (b - a) * 0xffff_ffff_ffff_ffff,
    decreases b - a,
{
    if a < b {
        lemma_token_sum_bound(tokens, a, b - 1);
    }
}

/// The chunk that holds the pages `open..pos`, if there are any.
pub open spec fn flush(level: SplitAt, open: int, pos: int) -> Seq<Span> {
    if open < pos {
        seq![Span { start: open, end: pos, level }]
    } else {
        Seq::empty()
    }
}

impl Layout {
    /// Tokens on the pages `a..b`.
    pub open spec fn sum(self, a: int, b: int) -> nat {
        token_sum(self.tokens, a, b)
    }

    /// Budget-greedy packing at `level` of the pages `open..end`, of which `open..pos` are
    /// already in the chunk that is being filled. A unit that exceeds the budget by itself is
    /// planned again at a finer level; at page level it is a chunk of its own.
    pub open spec fn pack(self, level: SplitAt, open: int, pos: int, end: int) -> Seq<Span>
        decreases level.finer_levels(), end - pos, 0nat,
    {
        if pos >= end {
            flush(level, open, pos)
        } else {
            proof {
                lemma_next_cut(self.boundaries, level, pos, end);
                lemma_finer(
                    self.boundaries,
                    pos,
                    next_cut(self.boundaries, level, pos, end),
                    level,
                );
            }
            let e = next_cut(self.boundaries, level, pos, end);
            if self.sum(pos, e) > self.budget {
                flush(level, open, pos) + (if level is Page {
                    seq![Span { start: pos, end: e, level }]
                } else {
                    self.overrun(finer(self.boundaries, pos, e, level), pos, e)
                }) + self.pack(level, e, e, end)
            } else if self.sum(open, pos) + self.sum(pos, e) > self.budget {
                flush(level, open, pos) + self.pack(level, pos, e, end)
            } else {
                self.pack(level, open, e, end)
            }
        }
    }

    /// The plan of a unit that exceeds the budget, at a finer level: packed, then rebalanced by
    /// three sweeps over its adjacent chunks.
    pub open spec fn overrun(self, level: SplitAt, start: int, end: int) -> Seq<Span>
        decreases level.finer_levels(), end - start, 1nat,
    {
        self.balance(level, self.pack(level, start, start, end))
    }

    /// Cutting the pages `a..c` before page `k` is allowed at `level` and leaves two parts within
    /// the budget.
    pub open spec fn feasible(self, level: SplitAt, a: int, c: int, k: int) -> bool {
        &&& a < k < c
        &&& cut_here(self.boundaries, level, k)
        &&& self.sum(a, k) <= self.budget
        &&& self.sum(k, c) <= self.budget
    }

    /// How far apart in tokens the two parts are when `a..c` is cut before page `k`.
    pub open spec fn gap(self, a: int, c: int, k: int) -> int {
        if self.sum(a, k) >= self.sum(k, c) {
            self.sum(a, k) - self.sum(k, c)
        } else {
            self.sum(k, c) - self.sum(a, k)
        }
    }

    /// `k` is the first of the feasible cuts with the smallest gap.
    pub open spec fn is_best_cut(self, level: SplitAt, a: int, c: int, k: int) -> bool {
        &&& self.feasible(level, a, c, k)
        &&& forall|j: int| #[trigger]
            self.feasible(level, a, c, j) ==> self.gap(a, c, k) < self.gap(a, c, j) || (self.gap(
                a,
                c,
                k,
            ) == self.gap(a, c, j) && k <= j)
    }

    /// The best place to cut `a..c`, if any cut is feasible.
    pub open spec fn best_cut(self, level: SplitAt, a: int, c: int) -> Option<int> {
        if exists|k: int| self.is_best_cut(level, a, c, k) {
            Some(choose|k: int| self.is_best_cut(level, a, c, k))
        } else {
            None
        }
    }

    /// A list of pages, which are counted from 1, may be cut behind this page: it is the document's
    /// last one, or the page after it may start a chunk at `level`.
    pub open spec fn cut_behind(self, level: SplitAt, page: u32) -> bool {
        page == self.tokens.len() || cut_here(self.boundaries, level, page as int)
    }

    /// Cutting a list of pages behind the one at `k` is allowed at `level` and leaves two parts
    /// within the budget.
    pub open spec fn place_fits(self, level: SplitAt, pages: Seq<u32>, k: int) -> bool {
        &&& 0 <= k < pages.len() - 1
        &&& self.cut_behind(level, pages[k])
        &&& list_sum(self.tokens, pages.take(k + 1)) <= self.budget
        &&& list_sum(self.tokens, pages.skip(k + 1)) <= self.budget
    }

    /// How far apart in tokens the two parts of a list are when it is cut behind the page at `k`.
    pub open spec fn place_gap(self, pages: Seq<u32>, k: int) -> int {
        let left = list_sum(self.tokens, pages.take(k + 1));
        let right = list_sum(self.tokens, pages.skip(k + 1));
        if left >= right {
            left - right
        } else {
            right - left
        }
    }

    /// `k` is the first of the places that fit with the smallest gap.
    pub open spec fn is_best_place(self, level: SplitAt, pages: Seq<u32>, k: int) -> bool {
        &&& self.place_fits(level, pages, k)
        &&& forall|j: int| #[trigger]
            self.place_fits(level, pages, j) ==> self.place_gap(pages, k) < self.place_gap(
                pages,
                j,
            ) || (self.place_gap(pages, k) == self.place_gap(pages, j) && k <= j)
    }

    /// The best place to cut a list of pages, if any place fits.
    pub open spec fn best_place(self, level: SplitAt, pages: Seq<u32>) -> Option<int> {
        if exists|k: int| self.is_best_place(level, pages, k) {
            Some(choose|k: int| self.is_best_place(level, pages, k))
        } else {
            None
        }
    }

    /// Two lists of pages with the cut between them moved to the best place for it.
    pub open spec fn parted(self, level: SplitAt, left: Seq<u32>, right: Seq<u32>) -> (
        Seq<u32>,
        Seq<u32>,
    ) {
        match self.best_place(level, left + right) {
            Some(k) => ((left + right).take(k + 1), (left + right).skip(k + 1)),
            None => (left, right),
        }
    }

    /// The spans with the cut between spans `i` and `i + 1` moved to the best place for it.
    pub open spec fn shift_pair(self, level: SplitAt, spans: Seq<Span>, i: int) -> Seq<Span> {
        match self.best_cut(level, spans[i].start, spans[i + 1].end) {
            Some(k) => spans.update(
                i,
                Span { start: spans[i].start, end: k, level: spans[i].level },
            ).update(
                i + 1,
                Span { start: k, end: spans[i + 1].end, level: spans[i + 1].level },
            ),
            None => spans,
        }
    }

    /// The spans with the cut between spans `i` and `i + 1` moved to the best place for it, if both
    /// were cut at `level`; a span that was cut at another level is left alone.
    pub open spec fn shift_own_pair(self, level: SplitAt, spans: Seq<Span>, i: int) -> Seq<Span> {
        if spans[i].level == level && spans[i + 1].level == level {
            self.shift_pair(level, spans, i)
        } else {
            spans
        }
    }

    /// The spans with each cut from the one behind span `i` on moved to its best place, in order,
    /// where it lies between two spans that were cut at `level`.
    pub open spec fn sweep(self, level: SplitAt, spans: Seq<Span>, i: nat) -> Seq<Span>
        decreases spans.len() - i,
    {
        if i + 1 >= spans.len() {
            spans
        } else {
            self.sweep(level, self.shift_own_pair(level, spans, i as int), i + 1)
        }
    }

    /// Three sweeps over all cuts.
    pub open spec fn balance(self, level: SplitAt, spans: Seq<Span>) -> Seq<Span> {
        self.sweep(level, self.sweep(level, self.sweep(level, spans, 0), 0), 0)
    }

    /// The plan of the whole document: packed at the level that was asked for, with the cut
    /// between the last two chunks moved to its best place.
    pub open spec fn plan(self, level: SplitAt) -> Seq<Span> {
        let packed = self.pack(level, 0, 0, self.tokens.len() as int);
        if packed.len() < 2 {
            packed
        } else {
            self.shift_pair(level, packed, packed.len() - 2)
        }
    }

    /// The pages of `a..b` that exceed the budget by themselves, in order.
    pub open spec fn oversized(self, a: int, b: int) -> Seq<int>
        decreases b - a,
    {
        if a >= b {
            Seq::empty()
        } else if self.tokens[b - 1] > self.budget {
            self.oversized(a, b - 1).push(b - 1)
        } else {
            self.oversized(a, b - 1)
        }
    }

    /// Tokens add up over adjacent ranges.
    pub proof fn lemma_sum_split(self, a: int, b: int, c: int)
        requires
            a <= b <= c,
        ensures
            self.sum(a, c) == self.sum(a, b) + self.sum(b, c),
        decreases c - b,
    {
        if b < c {
            self.lemma_sum_split(a, b, c - 1);
        }
    }

    /// Oversized pages add up over adjacent ranges.
    pub proof fn lemma_oversized_split(self, a: int, b: int, c: int)
        requires
            a <= b <= c,
        ensures
            self.oversized(a, c) == self.oversized(a, b) + self.oversized(b, c),
        decreases c - b,
    {
        if b < c {
            self.lemma_oversized_split(a, b, c - 1);
            assert(self.oversized(a, c) =~= self.oversized(a, b) + self.oversized(b, c));
        } else {
            assert(self.oversized(b, c) =~= Seq::empty());
            assert(self.oversized(a, b) + Seq::empty() =~= self.oversized(a, b));
        }
    }

    /// Pages that fit the budget together hold no oversized page.
    pub proof fn lemma_none_oversized(self, a: int, b: int)
        requires
            self.sum(a, b) <= self.budget,
        ensures
            self.oversized(a, b) == Seq::<int>::empty(),
        decreases b - a,
    {
        if a < b {
            self.lemma_none_oversized(a, b - 1);
        }
    }

    /// At page level a page that exceeds the budget is a plan of its own.
    pub proof fn lemma_overrun_page(self, pos: int)
        requires
            self.tokens[pos] > self.budget,
        ensures
            self.overrun(SplitAt::Page, pos, pos + 1) == seq![
                Span { start: pos, end: pos + 1, level: SplitAt::Page },
            ],
    {
        assert(self.sum(pos, pos) == 0);
        assert(self.sum(pos, pos + 1) == self.tokens[pos]);
        assert(self.pack(SplitAt::Page, pos + 1, pos + 1, pos + 1) == Seq::<Span>::empty());
        assert(self.pack(SplitAt::Page, pos, pos, pos + 1) =~= seq![
            Span { start: pos, end: pos + 1, level: SplitAt::Page },
        ]);
    }
}

} // verus!
