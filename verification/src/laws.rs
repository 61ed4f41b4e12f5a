//! What holds of every plan: the chunks cover the document in order, they respect the budget and
//! the allowed cuts, and neighbours at one level could not have been one chunk.

use crate::level::{self, Boundary, SplitAt};
use crate::model::{self, Layout, Span};
use vstd::prelude::*;

verus! {

/// The spans are not empty, follow one another without gap or overlap, and together are the
/// pages `a..b`.
pub open spec fn tiles(spans: Seq<Span>, a: int, b: int) -> bool {
    &&& forall|i: int|
        0 <= i < spans.len() ==> (#[trigger] spans[i]).start < spans[i].end
    &&& forall|i: int, j: int|
        0 <= i < spans.len() && j == i + 1 && j < spans.len() ==> (#[trigger] spans[i]).end == (
        #[trigger] spans[j]).start
    &&& if spans.len() == 0 {
        a == b
    } else {
        spans[0].start == a && spans[spans.len() - 1].end == b
    }
}

/// Every span of a tiling lies within the tiled pages.
pub proof fn lemma_tiles_within(spans: Seq<Span>, a: int, b: int, i: int)
    requires
        tiles(spans, a, b),
        0 <= i < spans.len(),
    ensures
        a <= spans[i].start < spans[i].end <= b,
{
    lemma_tiles_before(spans, a, b, i);
    lemma_tiles_behind(spans, a, b, i);
}

proof fn lemma_tiles_before(spans: Seq<Span>, a: int, b: int, i: int)
    requires
        tiles(spans, a, b),
        0 <= i < spans.len(),
    ensures
        a <= spans[i].start,
    decreases i,
{
    if i > 0 {
        lemma_tiles_before(spans, a, b, i - 1);
        assert(spans[i - 1].end == spans[i].start);
    }
}

proof fn lemma_tiles_behind(spans: Seq<Span>, a: int, b: int, i: int)
    requires
        tiles(spans, a, b),
        0 <= i < spans.len(),
    ensures
        spans[i].end <= b,
    decreases spans.len() - i,
{
    if i + 1 < spans.len() {
        lemma_tiles_behind(spans, a, b, i + 1);
        assert(spans[i].end == spans[i + 1].start);
    }
}

impl Layout {
    /// The span respects the budget, or is a single page that exceeds it by itself.
    pub open spec fn within_budget(self, span: Span) -> bool {
        self.sum(span.start, span.end) <= self.budget || (span.end == span.start + 1
            && self.tokens[span.start] > self.budget && span.level is Page)
    }

    /// What every plan of the pages `a..b` at `level` keeps: the spans tile the pages, respect
    /// the budget, are cut at `level` or finer, and each cut between two of them is allowed at
    /// the levels of both.
    pub open spec fn sound(self, level: SplitAt, spans: Seq<Span>, a: int, b: int) -> bool {
        &&& tiles(spans, a, b)
        &&& forall|i: int| 0 <= i < spans.len() ==> self.within_budget(#[trigger] spans[i])
        &&& forall|i: int|
            0 <= i < spans.len() ==> level.fineness() <= (#[trigger] spans[i]).level.fineness()
        &&& forall|i: int, j: int|
            0 <= i < spans.len() && j == i + 1 && j < spans.len() ==> model::cut_here(
                self.boundaries,
                (#[trigger] spans[i]).level,
                (#[trigger] spans[j]).start,
            ) && model::cut_here(self.boundaries, spans[j].level, spans[j].start)
    }

    /// Every unit of the pages `start..end` at `level` fits the budget.
    pub open spec fn units_fit(self, level: SplitAt, start: int, end: int) -> bool {
        forall|k: int|
            0 <= k < model::units(self.boundaries, level, start, end).len() ==> self.sum(
                (#[trigger] model::units(self.boundaries, level, start, end)[k]).0,
                model::units(self.boundaries, level, start, end)[k].1,
            ) <= self.budget
    }

    /// A division of the pages `a..b` that respects the budget and cuts only where `level` allows.
    pub open spec fn divides(self, level: SplitAt, spans: Seq<Span>, a: int, b: int) -> bool {
        &&& tiles(spans, a, b)
        &&& forall|i: int| 0 <= i < spans.len() ==> self.within_budget(#[trigger] spans[i])
        &&& forall|i: int|
            0 < i < spans.len() ==> model::cut_here(
                self.boundaries,
                level,
                (#[trigger] spans[i]).start,
            )
    }

    /// Two neighbours that were both cut at `level` exceed the budget together.
    pub open spec fn dense(self, level: SplitAt, spans: Seq<Span>) -> bool {
        forall|i: int, j: int|
            0 <= i < spans.len() && j == i + 1 && j < spans.len() && (#[trigger] spans[i]).level
                == level && (#[trigger] spans[j]).level == level ==> self.sum(
                spans[i].start,
                spans[j].end,
            ) > self.budget
    }

    proof fn lemma_cut_is_finer(self, coarse: SplitAt, fine: SplitAt, i: int)
        requires
            coarse.fineness() <= fine.fineness(),
            model::cut_here(self.boundaries, coarse, i),
        ensures
            model::cut_here(self.boundaries, fine, i),
    {
        if coarse !is Page {
            level::finer_levels_keep_cuts(coarse, fine, self.boundaries[i]);
        }
    }

    proof fn lemma_sound_join(
        self,
        level: SplitAt,
        s: Seq<Span>,
        t: Seq<Span>,
        a: int,
        b: int,
        c: int,
    )
        requires
            self.sound(level, s, a, b),
            self.sound(level, t, b, c),
            s.len() > 0 && t.len() > 0 ==> model::cut_here(self.boundaries, level, b),
        ensures
            self.sound(level, s + t, a, c),
    {
        let u = s + t;
        assert forall|i: int, j: int|
            0 <= i < u.len() && j == i + 1 && j < u.len() implies (#[trigger] u[i]).end == (
        #[trigger] u[j]).start && model::cut_here(self.boundaries, u[i].level, u[j].start)
            && model::cut_here(self.boundaries, u[j].level, u[j].start) by {
            if j < s.len() {
                assert(u[i] == s[i] && u[j] == s[j]);
            } else if i >= s.len() {
                assert(u[i] == t[i - s.len()] && u[j] == t[j - s.len()]);
            } else {
                assert(u[i] == s[s.len() - 1] && u[j] == t[0]);
                self.lemma_cut_is_finer(level, u[i].level, b);
                self.lemma_cut_is_finer(level, u[j].level, b);
            }
        }
        assert forall|i: int| 0 <= i < u.len() implies (#[trigger] u[i]).start < u[i].end
            && self.within_budget(u[i]) && level.fineness() <= u[i].level.fineness() by {
            if i < s.len() {
                assert(u[i] == s[i]);
            } else {
                assert(u[i] == t[i - s.len()]);
            }
        }
        if u.len() > 0 {
            if s.len() > 0 {
                assert(u[0] == s[0]);
            } else {
                assert(u[0] == t[0]);
            }
            if t.len() > 0 {
                assert(u[u.len() - 1] == t[t.len() - 1]);
            } else {
                assert(u[u.len() - 1] == s[s.len() - 1]);
            }
        }
    }

    proof fn lemma_sound_flush(self, level: SplitAt, open: int, pos: int)
        requires
            open <= pos,
            self.sum(open, pos) <= self.budget,
        ensures
            self.sound(level, model::flush(level, open, pos), open, pos),
    {
    }

    /// Moving one cut to its best place keeps a plan sound.
    pub proof fn lemma_sound_shift(
        self,
        level: SplitAt,
        spans: Seq<Span>,
        i: int,
        a: int,
        b: int,
    )
        requires
            self.sound(level, spans, a, b),
            0 <= i,
            i + 1 < spans.len(),
        ensures
            self.sound(level, self.shift_pair(level, spans, i), a, b),
    {
        let lo = spans[i].start;
        let hi = spans[i + 1].end;
        let best = self.best_cut(level, lo, hi);
        if best is Some {
            let k = best->0;
            assert(self.is_best_cut(level, lo, hi, k));
            let u = self.shift_pair(level, spans, i);
            assert forall|x: int| 0 <= x < u.len() implies (#[trigger] u[x]).start < u[x].end
                && self.within_budget(u[x]) && level.fineness() <= u[x].level.fineness() by {
                assert(level.fineness() <= spans[x].level.fineness());
            }
            assert forall|x: int, y: int|
                0 <= x < u.len() && y == x + 1 && y < u.len() implies (#[trigger] u[x]).end == (
            #[trigger] u[y]).start && model::cut_here(self.boundaries, u[x].level, u[y].start)
                && model::cut_here(self.boundaries, u[y].level, u[y].start) by {
                assert(spans[x].end == spans[y].start);
                if x == i {
                    self.lemma_cut_is_finer(level, spans[x].level, k);
                    self.lemma_cut_is_finer(level, spans[y].level, k);
                }
            }
        }
    }

    /// A sweep keeps a plan sound.
    pub proof fn lemma_sound_sweep(
        self,
        level: SplitAt,
        spans: Seq<Span>,
        i: nat,
        a: int,
        b: int,
    )
        requires
            self.sound(level, spans, a, b),
        ensures
            self.sound(level, self.sweep(level, spans, i), a, b),
            self.sweep(level, spans, i).len() == spans.len(),
        decreases spans.len() - i,
    {
        if i + 1 < spans.len() {
            self.lemma_sound_shift(level, spans, i as int, a, b);
            self.lemma_sound_sweep(level, self.shift_own_pair(level, spans, i as int), i + 1, a, b);
        }
    }

    /// Packing yields a sound plan.
    pub proof fn lemma_sound_pack(self, level: SplitAt, open: int, pos: int, end: int)
        requires
            0 <= open <= pos <= end <= self.tokens.len(),
            self.sum(open, pos) <= self.budget,
            open < pos < end ==> model::cut_here(self.boundaries, level, pos),
        ensures
            self.sound(level, self.pack(level, open, pos, end), open, end),
        decreases level.finer_levels(), end - pos, 0nat,
    {
        if pos >= end {
            self.lemma_sound_flush(level, open, pos);
        } else {
            model::lemma_next_cut(self.boundaries, level, pos, end);
            let e = model::next_cut(self.boundaries, level, pos, end);
            self.lemma_sum_split(open, pos, e);
            self.lemma_sound_flush(level, open, pos);
            if self.sum(pos, e) > self.budget {
                let below = model::finer(self.boundaries, pos, e, level);
                model::lemma_finer(self.boundaries, pos, e, level);
                let unit = if level is Page {
                    seq![Span { start: pos, end: e, level }]
                } else {
                    self.overrun(below, pos, e)
                };
                if level is Page {
                    assert(e == pos + 1);
                    assert(self.sum(pos, pos) == 0);
                    assert(self.sum(pos, e) == self.tokens[pos]);
                } else {
                    self.lemma_sound_overrun(below, pos, e);
                }
                assert(self.sound(level, unit, pos, e));
                let rest = self.pack(level, e, e, end);
                assert(self.sum(e, e) == 0);
                self.lemma_sound_pack(level, e, e, end);
                self.lemma_sound_join(level, model::flush(level, open, pos), unit, open, pos, e);
                self.lemma_sound_join(
                    level,
                    model::flush(level, open, pos) + unit,
                    rest,
                    open,
                    e,
                    end,
                );
            } else if self.sum(open, pos) + self.sum(pos, e) > self.budget {
                self.lemma_sound_pack(level, pos, e, end);
                self.lemma_sound_join(
                    level,
                    model::flush(level, open, pos),
                    self.pack(level, pos, e, end),
                    open,
                    pos,
                    end,
                );
            } else {
                self.lemma_sound_pack(level, open, e, end);
            }
        }
    }

    /// Planning an overrunning unit again yields a sound plan.
    pub proof fn lemma_sound_overrun(self, level: SplitAt, start: int, end: int)
        requires
            0 <= start <= end <= self.tokens.len(),
        ensures
            self.sound(level, self.overrun(level, start, end), start, end),
        decreases level.finer_levels(), end - start, 1nat,
    {
        assert(self.sum(start, start) == 0);
        self.lemma_sound_pack(level, start, start, end);
        let packed = self.pack(level, start, start, end);
        let once = self.sweep(level, packed, 0);
        let twice = self.sweep(level, once, 0);
        self.lemma_sound_sweep(level, packed, 0, start, end);
        self.lemma_sound_sweep(level, once, 0, start, end);
        self.lemma_sound_sweep(level, twice, 0, start, end);
    }

    /// What packing up to page `end` keeps: a span at `level` holds its first unit whole, and two
    /// neighbours at `level` exceed the budget already with the second one's first unit.
    spec fn unit_dense(self, level: SplitAt, spans: Seq<Span>, end: int) -> bool {
        &&& forall|i: int|
            0 <= i < spans.len() && (#[trigger] spans[i]).level == level ==> model::next_cut(
                self.boundaries,
                level,
                spans[i].start,
                end,
            ) <= spans[i].end
        &&& forall|i: int, j: int|
            0 <= i < spans.len() && j == i + 1 && j < spans.len() && (#[trigger] spans[i]).level
                == level && (#[trigger] spans[j]).level == level ==> self.sum(
                spans[i].start,
                model::next_cut(self.boundaries, level, spans[j].start, end),
            ) > self.budget
    }

    proof fn lemma_unit_dense_join(
        self,
        level: SplitAt,
        s: Seq<Span>,
        t: Seq<Span>,
        end: int,
    )
        requires
            self.unit_dense(level, s, end),
            self.unit_dense(level, t, end),
            s.len() > 0 && t.len() > 0 && s[s.len() - 1].level == level && t[0].level == level
                ==> self.sum(
                s[s.len() - 1].start,
                model::next_cut(self.boundaries, level, t[0].start, end),
            ) > self.budget,
        ensures
            self.unit_dense(level, s + t, end),
    {
        let u = s + t;
        assert forall|i: int, j: int|
            0 <= i < u.len() && j == i + 1 && j < u.len() && (#[trigger] u[i]).level == level && (
            #[trigger] u[j]).level == level implies self.sum(
            u[i].start,
            model::next_cut(self.boundaries, level, u[j].start, end),
        ) > self.budget by {
            if j < s.len() {
                assert(u[i] == s[i] && u[j] == s[j]);
            } else if i >= s.len() {
                assert(u[i] == t[i - s.len()] && u[j] == t[j - s.len()]);
            }
        }
        assert forall|i: int|
            0 <= i < u.len() && (#[trigger] u[i]).level == level implies model::next_cut(
            self.boundaries,
            level,
            u[i].start,
            end,
        ) <= u[i].end by {
            if i < s.len() {
                assert(u[i] == s[i]);
            } else {
                assert(u[i] == t[i - s.len()]);
            }
        }
    }

    proof fn lemma_unit_dense(self, level: SplitAt, open: int, pos: int, end: int)
        requires
            0 <= open <= pos <= end <= self.tokens.len(),
            self.sum(open, pos) <= self.budget,
            open < pos ==> model::next_cut(self.boundaries, level, open, end) <= pos,
            open < pos < end ==> model::cut_here(self.boundaries, level, pos),
        ensures
            self.unit_dense(level, self.pack(level, open, pos, end), end),
        decreases end - pos,
    {
        if pos < end {
            model::lemma_next_cut(self.boundaries, level, pos, end);
            let e = model::next_cut(self.boundaries, level, pos, end);
            let flushed = model::flush(level, open, pos);
            self.lemma_sum_split(open, pos, e);
            if self.sum(pos, e) > self.budget {
                let below = model::finer(self.boundaries, pos, e, level);
                model::lemma_finer(self.boundaries, pos, e, level);
                let rest = self.pack(level, e, e, end);
                assert(self.sum(e, e) == 0);
                self.lemma_unit_dense(level, e, e, end);
                self.lemma_sound_pack(level, e, e, end);
                if level is Page {
                    let unit = seq![Span { start: pos, end: e, level }];
                    self.lemma_unit_dense_join(level, flushed, unit, end);
                    if rest.len() > 0 {
                        model::lemma_next_cut(self.boundaries, level, e, end);
                        self.lemma_sum_split(
                            pos,
                            e,
                            model::next_cut(self.boundaries, level, e, end),
                        );
                    }
                    self.lemma_unit_dense_join(level, flushed + unit, rest, end);
                } else {
                    let unit = self.overrun(below, pos, e);
                    self.lemma_sound_overrun(below, pos, e);
                    assert(unit.len() > 0);
                    assert forall|i: int| 0 <= i < unit.len() implies (#[trigger] unit[i]).level
                        != level by {
                        assert(below.fineness() <= unit[i].level.fineness());
                    }
                    self.lemma_unit_dense_join(level, flushed, unit, end);
                    assert((flushed + unit)[(flushed + unit).len() - 1] == unit[unit.len() - 1]);
                    self.lemma_unit_dense_join(level, flushed + unit, rest, end);
                }
            } else if self.sum(open, pos) + self.sum(pos, e) > self.budget {
                let rest = self.pack(level, pos, e, end);
                self.lemma_unit_dense(level, pos, e, end);
                self.lemma_sound_pack(level, pos, e, end);
                self.lemma_unit_dense_join(level, flushed, rest, end);
            } else {
                self.lemma_unit_dense(level, open, e, end);
            }
        }
    }

    /// Greedy packing leaves no two neighbours, both cut at the packing's own level, that would
    /// have fitted the budget as one chunk.
    pub proof fn packed_neighbours_exceed_budget(self, level: SplitAt, start: int, end: int)
        requires
            0 <= start <= end <= self.tokens.len(),
        ensures
            self.dense(level, self.pack(level, start, start, end)),
    {
        let packed = self.pack(level, start, start, end);
        assert(self.sum(start, start) == 0);
        self.lemma_unit_dense(level, start, start, end);
        self.lemma_sound_pack(level, start, start, end);
        assert forall|i: int, j: int|
            0 <= i < packed.len() && j == i + 1 && j < packed.len() && (#[trigger] packed[i]).level
                == level && (#[trigger] packed[j]).level == level implies self.sum(
            packed[i].start,
            packed[j].end,
        ) > self.budget by {
            lemma_tiles_within(packed, start, end, j);
            model::lemma_next_cut(self.boundaries, level, packed[j].start, end);
            self.lemma_sum_split(
                packed[i].start,
                model::next_cut(self.boundaries, level, packed[j].start, end),
                packed[j].end,
            );
        }
    }

    /// In a plan no two neighbours at the level that was asked for would have fitted the budget
    /// as one chunk.
    pub proof fn planned_neighbours_exceed_budget(self, level: SplitAt)
        ensures
            self.dense(level, self.plan(level)),
    {
        let end = self.tokens.len() as int;
        let packed = self.pack(level, 0, 0, end);
        let spans = self.plan(level);
        self.packed_neighbours_exceed_budget(level, 0, end);
        assert(self.sum(0, 0) == 0);
        self.lemma_unit_dense(level, 0, 0, end);
        self.lemma_sound_pack(level, 0, 0, end);
        if packed.len() >= 2 {
            let last = packed.len() - 2;
            let lo = packed[last].start;
            let best = self.best_cut(level, lo, packed[last + 1].end);
            if let Some(k) = best {
                assert(self.is_best_cut(level, lo, packed[last + 1].end, k));
                lemma_tiles_within(packed, 0, end, last);
                lemma_tiles_within(packed, 0, end, last + 1);
                assert forall|i: int, j: int|
                    0 <= i < spans.len() && j == i + 1 && j < spans.len() && (
                    #[trigger] spans[i]).level == level && (#[trigger] spans[j]).level
                        == level implies self.sum(spans[i].start, spans[j].end)
                    > self.budget by {
                    assert(packed[i].level == level && packed[j].level == level);
                    if j == last {
                        model::lemma_next_cut(self.boundaries, level, lo, end);
                        let e = model::next_cut(self.boundaries, level, lo, end);
                        assert(e <= k);
                        lemma_tiles_within(packed, 0, end, i);
                        assert(packed[i].end == packed[j].start);
                        self.lemma_sum_split(packed[i].start, e, k);
                    }
                }
            }
        }
    }

    /// Every plan is sound: its chunks are the pages of the document, in order, each once; each
    /// chunk fits the budget or is a single oversized page; no chunk is cut coarser than asked
    /// for; and every cut is allowed at the levels of the two chunks that it separates.
    pub proof fn plan_is_sound(self, level: SplitAt)
        ensures
            self.sound(level, self.plan(level), 0, self.tokens.len() as int),
    {
        let n = self.tokens.len() as int;
        assert(self.sum(0, 0) == 0);
        self.lemma_sound_pack(level, 0, 0, n);
        let packed = self.pack(level, 0, 0, n);
        if packed.len() >= 2 {
            self.lemma_sound_shift(level, packed, packed.len() - 2, 0, n);
        }
    }

    /// A page that exceeds the budget by itself is a chunk of its own, at page level.
    pub proof fn oversized_page_stands_alone(self, level: SplitAt, page: int) -> (i: int)
        requires
            0 <= page < self.tokens.len(),
            self.tokens[page] > self.budget,
        ensures
            0 <= i < self.plan(level).len(),
            self.plan(level)[i] == (Span { start: page, end: page + 1, level: SplitAt::Page }),
    {
        let n = self.tokens.len() as int;
        self.plan_is_sound(level);
        let i = page_is_in_one_span(self.plan(level), 0, n, page);
        let span = self.plan(level)[i];
        self.lemma_sum_split(span.start, page, span.end);
        self.lemma_sum_split(page, page + 1, span.end);
        assert(self.sum(page, page) == 0);
        assert(self.sum(page, page + 1) == self.tokens[page]);
        assert(self.within_budget(span));
        i
    }

    /// The oversized pages are exactly the pages that exceed the budget by themselves.
    pub proof fn oversized_is_exact(self, a: int, b: int, page: int)
        ensures
            self.oversized(a, b).contains(page) <==> a <= page < b && self.tokens[page]
                > self.budget,
        decreases b - a,
    {
        if a < b {
            let shorter = self.oversized(a, b - 1);
            self.oversized_is_exact(a, b - 1, page);
            if self.tokens[b - 1] > self.budget {
                let all = shorter.push(b - 1);
                assert(all[all.len() - 1] == b - 1);
                if shorter.contains(page) {
                    let k = choose|k: int| 0 <= k < shorter.len() && shorter[k] == page;
                    assert(all[k] == page);
                }
                if all.contains(page) && page != b - 1 {
                    let k = choose|k: int| 0 <= k < all.len() && all[k] == page;
                    assert(shorter[k] == page);
                }
            }
        }
    }

    /// The oversized pages come in page order, each once.
    pub proof fn oversized_is_increasing(self, a: int, b: int)
        ensures
            forall|i: int, j: int|
                0 <= i < j < self.oversized(a, b).len() ==> self.oversized(a, b)[i]
                    < self.oversized(a, b)[j],
            forall|i: int|
                0 <= i < self.oversized(a, b).len() ==> a <= #[trigger] self.oversized(a, b)[i] < b,
        decreases b - a,
    {
        if a < b {
            self.oversized_is_increasing(a, b - 1);
            let shorter = self.oversized(a, b - 1);
            let all = self.oversized(a, b);
            assert(forall|i: int|
                0 <= i < shorter.len() ==> #[trigger] all[i] == shorter[i] && a <= all[i] < b - 1);
        }
    }

    proof fn lemma_pack_fits(self, level: SplitAt, open: int, pos: int, end: int)
        requires
            0 <= open <= pos <= end <= self.tokens.len(),
            self.sum(open, end) <= self.budget,
        ensures
            self.pack(level, open, pos, end) == model::flush(level, open, end),
        decreases end - pos,
    {
        if pos < end {
            model::lemma_next_cut(self.boundaries, level, pos, end);
            let e = model::next_cut(self.boundaries, level, pos, end);
            self.lemma_sum_split(open, pos, e);
            self.lemma_sum_split(open, e, end);
            self.lemma_pack_fits(level, open, e, end);
        }
    }

    /// A document that fits the budget as a whole is one chunk at the level that was asked for.
    pub proof fn fitting_document_is_one_chunk(self, level: SplitAt)
        requires
            self.tokens.len() > 0,
            self.sum(0, self.tokens.len() as int) <= self.budget,
        ensures
            self.plan(level) == seq![
                Span { start: 0, end: self.tokens.len() as int, level },
            ],
    {
        self.lemma_pack_fits(level, 0, 0, self.tokens.len() as int);
    }

    /// A document without pages has no chunks.
    pub proof fn empty_document_has_no_chunks(self, level: SplitAt)
        requires
            self.tokens.len() == 0,
        ensures
            self.plan(level) == Seq::<Span>::empty(),
    {
    }

    proof fn lemma_units_fit_step(self, level: SplitAt, pos: int, end: int)
        requires
            pos < end,
            self.units_fit(level, pos, end),
        ensures
            self.sum(pos, model::next_cut(self.boundaries, level, pos, end)) <= self.budget,
            self.units_fit(level, model::next_cut(self.boundaries, level, pos, end), end),
    {
        let e = model::next_cut(self.boundaries, level, pos, end);
        let all = model::units(self.boundaries, level, pos, end);
        let rest = model::units(self.boundaries, level, e, end);
        assert(all[0] == (pos, e));
        assert forall|k: int| 0 <= k < rest.len() implies self.sum(
            (#[trigger] rest[k]).0,
            rest[k].1,
        ) <= self.budget by {
            assert(all[k + 1] == rest[k]);
        }
    }

    proof fn lemma_pack_keeps_level(self, level: SplitAt, open: int, pos: int, end: int)
        requires
            0 <= open <= pos <= end <= self.tokens.len(),
            self.units_fit(level, pos, end),
        ensures
            forall|i: int|
                0 <= i < self.pack(level, open, pos, end).len() ==> (#[trigger] self.pack(
                    level,
                    open,
                    pos,
                    end,
                )[i]).level == level,
        decreases end - pos,
    {
        if pos < end {
            model::lemma_next_cut(self.boundaries, level, pos, end);
            let e = model::next_cut(self.boundaries, level, pos, end);
            self.lemma_units_fit_step(level, pos, end);
            if self.sum(open, pos) + self.sum(pos, e) > self.budget {
                self.lemma_pack_keeps_level(level, pos, e, end);
            } else {
                self.lemma_pack_keeps_level(level, open, e, end);
            }
        }
    }

    /// Where every unit at the level that was asked for fits the budget, every chunk is cut at
    /// that level.
    pub proof fn fitting_units_keep_the_level(self, level: SplitAt, i: int)
        requires
            self.units_fit(level, 0, self.tokens.len() as int),
            0 <= i < self.plan(level).len(),
        ensures
            self.plan(level)[i].level == level,
    {
        let n = self.tokens.len() as int;
        self.lemma_pack_keeps_level(level, 0, 0, n);
        assert(self.pack(level, 0, 0, n)[i].level == level);
    }

    proof fn lemma_divides_skip(
        self,
        level: SplitAt,
        spans: Seq<Span>,
        a: int,
        b: int,
        k: int,
    )
        requires
            self.divides(level, spans, a, b),
            0 <= k < spans.len(),
        ensures
            self.divides(level, spans.skip(k + 1), spans[k].end, b),
    {
        let rest = spans.skip(k + 1);
        assert(forall|i: int| 0 <= i < rest.len() ==> #[trigger] rest[i] == spans[i + k + 1]);
        if rest.len() > 0 {
            assert(spans[k].end == spans[k + 1].start);
            assert(rest[rest.len() - 1] == spans[spans.len() - 1]);
        }
        assert forall|i: int, j: int|
            0 <= i < rest.len() && j == i + 1 && j < rest.len() implies (#[trigger] rest[i]).end
            == (#[trigger] rest[j]).start by {
            assert(spans[i + k + 1].end == spans[j + k + 1].start);
        }
    }

    proof fn lemma_fewest(
        self,
        level: SplitAt,
        open: int,
        pos: int,
        end: int,
        other: Seq<Span>,
        a: int,
    )
        requires
            0 <= a <= open <= pos <= end <= self.tokens.len(),
            level is Page || self.units_fit(level, pos, end),
            self.divides(level, other, a, end),
        ensures
            self.pack(level, open, pos, end).len() <= other.len(),
        decreases end - pos,
    {
        if pos < end {
            model::lemma_next_cut(self.boundaries, level, pos, end);
            let e = model::next_cut(self.boundaries, level, pos, end);
            self.lemma_sum_split(open, pos, e);
            if level !is Page {
                self.lemma_units_fit_step(level, pos, end);
            }
            if self.sum(pos, e) > self.budget {
                let k = page_is_in_one_span(other, a, end, pos);
                self.lemma_sum_split(other[k].start, pos, other[k].end);
                self.lemma_sum_split(pos, pos + 1, other[k].end);
                assert(self.sum(pos, pos) == 0);
                assert(self.sum(pos, pos + 1) == self.tokens[pos]);
                assert(self.within_budget(other[k]));
                self.lemma_divides_skip(level, other, a, end, k);
                self.lemma_fewest(level, e, e, end, other.skip(k + 1), e);
            } else if self.sum(open, pos) + self.sum(pos, e) > self.budget {
                let c = other[0].end;
                lemma_tiles_within(other, a, end, 0);
                if e < c {
                    self.lemma_sum_split(a, open, c);
                    self.lemma_sum_split(open, e, c);
                } else if c == e {
                    self.lemma_sum_split(a, open, c);
                }
                assert(self.within_budget(other[0]));
                assert(c <= pos) by {
                    if pos < c {
                        assert(c < e);
                        assert(other.len() > 1);
                        assert(other[1].start == c);
                    }
                }
                self.lemma_divides_skip(level, other, a, end, 0);
                self.lemma_fewest(level, pos, e, end, other.skip(1), c);
            } else {
                self.lemma_fewest(level, open, e, end, other, a);
            }
        }
    }

    /// Where every unit fits the budget, and at page level in any case, packing uses the fewest
    /// chunks: no other division of the pages that respects the budget and the allowed cuts has
    /// fewer.
    pub proof fn packing_uses_fewest_chunks(
        self,
        level: SplitAt,
        start: int,
        end: int,
        other: Seq<Span>,
    )
        requires
            0 <= start <= end <= self.tokens.len(),
            level is Page || self.units_fit(level, start, end),
            self.divides(level, other, start, end),
        ensures
            self.pack(level, start, start, end).len() <= other.len(),
    {
        self.lemma_fewest(level, start, start, end, other, start);
    }

    proof fn lemma_sweep_keeps_levels(self, level: SplitAt, spans: Seq<Span>, from: nat)
        ensures
            self.sweep(level, spans, from).len() == spans.len(),
            forall|i: int|
                0 <= i < spans.len() ==> (#[trigger] self.sweep(level, spans, from)[i]).level
                    == spans[i].level,
        decreases spans.len() - from,
    {
        if from + 1 < spans.len() {
            let next = self.shift_own_pair(level, spans, from as int);
            self.lemma_sweep_keeps_levels(level, next, from + 1);
            assert(forall|i: int|
                0 <= i < spans.len() ==> (#[trigger] next[i]).level == spans[i].level);
        }
    }

    /// Within a unit that was planned again at a finer level whose own units fit the budget, or
    /// at page level in any case, no two adjacent chunks would have fitted the budget as one: the
    /// rebalance does not undo what packing achieved.
    pub proof fn balanced_neighbours_exceed_budget(
        self,
        level: SplitAt,
        start: int,
        end: int,
        i: int,
    )
        requires
            0 <= start <= end <= self.tokens.len(),
            level is Page || self.units_fit(level, start, end),
            0 <= i,
            i + 1 < self.overrun(level, start, end).len(),
        ensures
            self.sum(
                self.overrun(level, start, end)[i].start,
                self.overrun(level, start, end)[i + 1].end,
            ) > self.budget,
    {
        let packed = self.pack(level, start, start, end);
        let once = self.sweep(level, packed, 0);
        let twice = self.sweep(level, once, 0);
        let spans = self.overrun(level, start, end);
        self.lemma_sound_overrun(level, start, end);
        self.lemma_sweep_keeps_levels(level, packed, 0);
        self.lemma_sweep_keeps_levels(level, once, 0);
        self.lemma_sweep_keeps_levels(level, twice, 0);
        if level !is Page {
            self.lemma_pack_keeps_level(level, start, start, end);
            assert forall|x: int| 0 <= x < spans.len() implies (#[trigger] spans[x]).level
                == level by {
                assert(spans[x].level == twice[x].level);
                assert(twice[x].level == once[x].level);
                assert(once[x].level == packed[x].level);
            }
        }
        if self.sum(spans[i].start, spans[i + 1].end) <= self.budget {
            let merged = spans.take(i) + seq![
                Span { start: spans[i].start, end: spans[i + 1].end, level },
            ] + spans.skip(i + 2);
            assert forall|x: int| 0 <= x < merged.len() implies merged[x] == (if x < i {
                spans[x]
            } else if x == i {
                (Span { start: spans[i].start, end: spans[i + 1].end, level })
            } else {
                spans[x + 1]
            }) by {}
            assert(spans[i].end == spans[i + 1].start);
            assert forall|x: int, y: int|
                0 <= x < merged.len() && y == x + 1 && y < merged.len() implies (
            #[trigger] merged[x]).end == (#[trigger] merged[y]).start by {
                if y <= i {
                    assert(spans[x].end == spans[y].start);
                } else {
                    assert(spans[x + 1].end == spans[y + 1].start);
                }
            }
            assert forall|x: int| 0 < x < merged.len() implies model::cut_here(
                self.boundaries,
                level,
                (#[trigger] merged[x]).start,
            ) by {
                if x <= i {
                    assert(spans[x - 1].end == spans[x].start);
                } else {
                    assert(spans[x].end == spans[x + 1].start);
                }
            }
            assert(self.divides(level, merged, start, end));
            self.packing_uses_fewest_chunks(level, start, end, merged);
        }
    }

    /// Rebalancing a pair touches nothing but the cut between the two: the other chunks, the
    /// outer ends of the pair and all levels stay, and what the pair holds stays the same.
    pub proof fn shift_touches_one_cut(self, level: SplitAt, spans: Seq<Span>, i: int)
        requires
            0 <= i,
            i + 1 < spans.len(),
        ensures
            self.shift_pair(level, spans, i).len() == spans.len(),
            forall|x: int|
                0 <= x < spans.len() ==> (#[trigger] self.shift_pair(level, spans, i)[x]).level
                    == spans[x].level,
            forall|x: int|
                0 <= x < spans.len() && x != i && x != i + 1 ==> #[trigger] self.shift_pair(
                    level,
                    spans,
                    i,
                )[x] == spans[x],
            self.shift_pair(level, spans, i)[i].start == spans[i].start,
            self.shift_pair(level, spans, i)[i + 1].end == spans[i + 1].end,
    {
    }

    /// Rebalancing a pair whose cut was feasible never makes its halves more unequal.
    pub proof fn shift_never_widens_the_gap(self, level: SplitAt, spans: Seq<Span>, i: int)
        requires
            0 <= i,
            i + 1 < spans.len(),
            spans[i].end == spans[i + 1].start,
            self.feasible(level, spans[i].start, spans[i + 1].end, spans[i].end),
        ensures
            self.gap(
                spans[i].start,
                spans[i + 1].end,
                self.shift_pair(level, spans, i)[i].end,
            ) <= self.gap(spans[i].start, spans[i + 1].end, spans[i].end),
    {
        let lo = spans[i].start;
        let hi = spans[i + 1].end;
        if let Some(k) = self.best_cut(level, lo, hi) {
            assert(self.is_best_cut(level, lo, hi, k));
        }
    }

    /// Two lists of pages, in whatever order, that were just rebalanced have the cut between them in
    /// the best place: rebalancing them again changes nothing.
    pub proof fn parting_twice_changes_nothing(
        self,
        level: SplitAt,
        left: Seq<u32>,
        right: Seq<u32>,
    )
        ensures
            self.parted(
                level,
                self.parted(level, left, right).0,
                self.parted(level, left, right).1,
            ) == self.parted(level, left, right),
            self.parted(level, left, right).0 + self.parted(level, left, right).1 == left + right,
    {
        let both = left + right;
        let once = self.parted(level, left, right);
        if let Some(k) = self.best_place(level, both) {
            assert(self.is_best_place(level, both, k));
        }
        assert(once.0 + once.1 =~= both);
    }

    /// A pair that was just rebalanced has its cut in the best place: rebalancing it again changes
    /// nothing.
    pub proof fn shifting_twice_changes_nothing(self, level: SplitAt, spans: Seq<Span>, i: int)
        requires
            0 <= i,
            i + 1 < spans.len(),
        ensures
            self.shift_pair(level, self.shift_pair(level, spans, i), i) == self.shift_pair(
                level,
                spans,
                i,
            ),
    {
        let once = self.shift_pair(level, spans, i);
        assert(self.shift_pair(level, once, i) =~= once);
    }

    /// Rebalancing a pair leaves it alone, or gives each half no more than the budget and cuts it
    /// at a page where the level allows a cut.
    pub proof fn shifted_cut_is_feasible(self, level: SplitAt, spans: Seq<Span>, i: int)
        requires
            0 <= i,
            i + 1 < spans.len(),
        ensures
            self.shift_pair(level, spans, i) == spans || (self.shift_pair(level, spans, i)[i].end
                == self.shift_pair(level, spans, i)[i + 1].start && self.feasible(
                level,
                spans[i].start,
                spans[i + 1].end,
                self.shift_pair(level, spans, i)[i].end,
            )),
    {
        if let Some(k) = self.best_cut(level, spans[i].start, spans[i + 1].end) {
            assert(self.is_best_cut(level, spans[i].start, spans[i + 1].end, k));
        }
    }

    /// The span is within the budget or a single page.
    pub open spec fn fits(self, span: Span) -> bool {
        self.sum(span.start, span.end) <= self.budget || span.end == span.start + 1
    }

    /// What rebalancing keeps of a tiling: the number and the levels of the spans, and that they
    /// tile the same pages; each cut is where it was, or at a page where the level allows one; and
    /// each span that exceeds the budget is as it was.
    pub open spec fn rebalanced(
        self,
        level: SplitAt,
        old_spans: Seq<Span>,
        spans: Seq<Span>,
        a: int,
        b: int,
    ) -> bool {
        &&& spans.len() == old_spans.len()
        &&& tiles(spans, a, b)
        &&& forall|x: int|
            0 <= x < spans.len() ==> (#[trigger] spans[x]).level == old_spans[x].level
        &&& forall|x: int|
            0 < x < spans.len() ==> (#[trigger] spans[x]).start == old_spans[x].start
                || model::cut_here(self.boundaries, level, spans[x].start)
        &&& forall|x: int, page: int|
            0 <= x < spans.len() && old_spans[x].start <= page < old_spans[x].end
                && #[trigger] self.tokens[page] > self.budget ==> #[trigger] spans[x]
                == old_spans[x]
        &&& (forall|x: int| 0 <= x < old_spans.len() ==> self.fits(#[trigger] old_spans[x])) ==> (
        forall|x: int| 0 <= x < spans.len() ==> self.fits(#[trigger] spans[x]))
        &&& forall|x: int|
            0 <= x < spans.len() && (#[trigger] spans[x]).level != level ==> spans[x]
                == old_spans[x]
    }

    proof fn lemma_page_within(self, a: int, page: int, b: int)
        requires
            a <= page < b,
        ensures
            self.tokens[page] <= self.sum(a, b),
    {
        self.lemma_sum_split(a, page, b);
        self.lemma_sum_split(page, page + 1, b);
        assert(self.sum(page, page) == 0);
        assert(self.sum(page, page + 1) == self.tokens[page]);
    }

    proof fn lemma_rebalanced_step(
        self,
        level: SplitAt,
        old_spans: Seq<Span>,
        spans: Seq<Span>,
        a: int,
        b: int,
        i: int,
    )
        requires
            self.rebalanced(level, old_spans, spans, a, b),
            0 <= i,
            i + 1 < spans.len(),
        ensures
            self.rebalanced(level, old_spans, self.shift_own_pair(level, spans, i), a, b),
    {
        let next = self.shift_own_pair(level, spans, i);
        let lo = spans[i].start;
        let hi = spans[i + 1].end;
        let best = self.best_cut(level, lo, hi);
        if spans[i].level == level && spans[i + 1].level == level && best is Some {
            let k = best->0;
            assert(self.is_best_cut(level, lo, hi, k));
            assert(spans[i].end == spans[i + 1].start);
            assert(spans[i].start < spans[i].end && spans[i + 1].start < spans[i + 1].end);
            assert forall|x: int, y: int|
                0 <= x < next.len() && y == x + 1 && y < next.len() implies (
            #[trigger] next[x]).end == (#[trigger] next[y]).start by {
                assert(spans[x].end == spans[y].start);
            }
            assert forall|x: int| 0 <= x < next.len() implies (#[trigger] next[x]).start
                < next[x].end by {
                assert(spans[x].start < spans[x].end);
            }
            assert(tiles(next, a, b));
            assert forall|x: int, page: int|
                0 <= x < next.len() && old_spans[x].start <= page < old_spans[x].end
                    && #[trigger] self.tokens[page] > self.budget implies #[trigger] next[x]
                == old_spans[x] by {
                assert(spans[x] == old_spans[x]);
                if x == i || x == i + 1 {
                    if page < k {
                        self.lemma_page_within(lo, page, k);
                    } else {
                        self.lemma_page_within(k, page, hi);
                    }
                }
            }
            if forall|x: int| 0 <= x < old_spans.len() ==> self.fits(#[trigger] old_spans[x]) {
                assert forall|x: int| 0 <= x < next.len() implies self.fits(
                    #[trigger] next[x],
                ) by {
                    assert(self.fits(spans[x]));
                }
            }
            assert forall|x: int|
                0 < x < next.len() implies (#[trigger] next[x]).start == old_spans[x].start
                || model::cut_here(self.boundaries, level, next[x].start) by {
                assert(spans[x].start == old_spans[x].start || model::cut_here(
                    self.boundaries,
                    level,
                    spans[x].start,
                ));
            }
            assert forall|x: int| 0 <= x < next.len() implies (#[trigger] next[x]).level
                == old_spans[x].level by {
                assert(spans[x].level == old_spans[x].level);
            }
            assert forall|x: int|
                0 <= x < next.len() && (#[trigger] next[x]).level != level implies next[x]
                == old_spans[x] by {
                assert(spans[x].level != level);
            }
        } else {
            assert(next =~= spans);
        }
    }

    proof fn lemma_rebalanced_sweep(
        self,
        level: SplitAt,
        old_spans: Seq<Span>,
        spans: Seq<Span>,
        a: int,
        b: int,
        from: nat,
    )
        requires
            self.rebalanced(level, old_spans, spans, a, b),
        ensures
            self.rebalanced(level, old_spans, self.sweep(level, spans, from), a, b),
        decreases spans.len() - from,
    {
        if from + 1 < spans.len() {
            self.lemma_rebalanced_step(level, old_spans, spans, a, b, from as int);
            self.lemma_rebalanced_sweep(
                level,
                old_spans,
                self.shift_own_pair(level, spans, from as int),
                a,
                b,
                from + 1,
            );
        }
    }

    /// Rebalancing any consecutive spans keeps their number, their levels and the pages that they
    /// hold together; moves cuts only to pages where the level allows one; leaves a span that holds
    /// an oversized page, and one that was cut at another level, as it was; and makes no span
    /// exceed the budget, if at first none did but single pages.
    pub proof fn rebalancing_keeps_a_tiling(
        self,
        level: SplitAt,
        spans: Seq<Span>,
        a: int,
        b: int,
    )
        requires
            tiles(spans, a, b),
        ensures
            self.rebalanced(level, spans, self.balance(level, spans), a, b),
    {
        let once = self.sweep(level, spans, 0);
        let twice = self.sweep(level, once, 0);
        self.lemma_rebalanced_sweep(level, spans, spans, a, b, 0);
        self.lemma_rebalanced_sweep(level, spans, once, a, b, 0);
        self.lemma_rebalanced_sweep(level, spans, twice, a, b, 0);
    }

    /// The regions that were planned at a deeper level stay intact: rebalancing what packing gave
    /// leaves every cut in place at whose page the level does not allow one.
    pub proof fn deeper_regions_stay_intact(self, level: SplitAt, start: int, end: int, i: int)
        requires
            0 <= start <= end <= self.tokens.len(),
            0 <= i,
            i + 1 < self.pack(level, start, start, end).len(),
            !model::cut_here(
                self.boundaries,
                level,
                self.pack(level, start, start, end)[i + 1].start,
            ),
        ensures
            self.overrun(level, start, end).len() == self.pack(level, start, start, end).len(),
            self.overrun(level, start, end)[i].end == self.pack(level, start, start, end)[i].end,
            self.overrun(level, start, end)[i + 1].start == self.pack(
                level,
                start,
                start,
                end,
            )[i + 1].start,
    {
        let packed = self.pack(level, start, start, end);
        let spans = self.overrun(level, start, end);
        assert(self.sum(start, start) == 0);
        self.lemma_sound_pack(level, start, start, end);
        self.rebalancing_keeps_a_tiling(level, packed, start, end);
        assert(model::cut_here(self.boundaries, packed[i].level, packed[i + 1].start));
        assert(spans[i].level == packed[i].level && spans[i].level != level);
        assert(spans[i] == packed[i]);
        assert(packed[i].end == packed[i + 1].start);
        assert(spans[i].end == spans[i + 1].start);
    }
}

/// Below a depth comes the coarsest level that is finer and has a cut inside the pages: at the
/// level that comes some interior page may start a chunk, and at no depth in between.
pub proof fn finer_level_is_the_next_with_a_cut(
    marks: Seq<Boundary>,
    start: int,
    end: int,
    n: u32,
    m: u32,
    i: int,
)
    requires
        0 <= start < i < end <= marks.len(),
    ensures
        n < m && SplitAt::Depth(m).fineness() < model::finer(
            marks,
            start,
            end,
            SplitAt::Depth(n),
        ).fineness() ==> !model::cut_here(marks, SplitAt::Depth(m), i),
        exists|k: int|
            start < k < end && #[trigger] model::cut_here(
                marks,
                model::finer(marks, start, end, SplitAt::Depth(n)),
                k,
            ),
{
    let below = model::finer(marks, start, end, SplitAt::Depth(n));
    match below {
        SplitAt::Depth(d) => {
            assert(model::is_next_depth(marks, start, end, n, d));
            let k = choose|k: int|
                start < k < end && (match #[trigger] marks[k] {
                    Boundary::Bookmark { depth } => depth <= d,
                    Boundary::Page => false,
                });
            assert(model::cut_here(marks, below, k));
        },
        _ => {
            assert(model::cut_here(marks, below, i));
        },
    }
    if n < m && model::cut_here(marks, SplitAt::Depth(m), i) {
        assert(marks[i] is Bookmark);
        assert(model::marked_within(marks, start, end, m));
        let d = lemma_next_depth(marks, start, end, n, m);
        assert(model::is_next_depth(marks, start, end, n, d));
        assert(below is Depth);
        assert(model::is_next_depth(marks, start, end, n, below->Depth_0));
    }
}

proof fn lemma_next_depth(
    marks: Seq<Boundary>,
    start: int,
    end: int,
    n: u32,
    m: u32,
) -> (d: u32)
    requires
        n < m,
        model::marked_within(marks, start, end, m),
    ensures
        model::is_next_depth(marks, start, end, n, d),
    decreases m,
{
    if exists|e: u32| n < e < m && #[trigger] model::marked_within(marks, start, end, e) {
        let e = choose|e: u32| n < e < m && #[trigger] model::marked_within(marks, start, end, e);
        lemma_next_depth(marks, start, end, n, e)
    } else {
        m
    }
}

/// In a tiling each page lies in one span.
pub proof fn page_is_in_one_span(spans: Seq<Span>, a: int, b: int, page: int) -> (i: int)
    requires
        tiles(spans, a, b),
        a <= page < b,
    ensures
        0 <= i < spans.len(),
        spans[i].start <= page < spans[i].end,
        forall|j: int|
            0 <= j < spans.len() && (#[trigger] spans[j]).start <= page < spans[j].end ==> j == i,
{
    let i = lemma_find_span(spans, a, b, page, 0);
    assert forall|j: int|
        0 <= j < spans.len() && (#[trigger] spans[j]).start <= page < spans[j].end implies j
        == i by {
        if j < i {
            lemma_tiles_ordered(spans, a, b, j, i);
        } else if i < j {
            lemma_tiles_ordered(spans, a, b, i, j);
        }
    }
    i
}

proof fn lemma_find_span(spans: Seq<Span>, a: int, b: int, page: int, from: int) -> (i: int)
    requires
        tiles(spans, a, b),
        0 <= from < spans.len(),
        spans[from].start <= page < b,
    ensures
        0 <= i < spans.len(),
        spans[i].start <= page < spans[i].end,
    decreases spans.len() - from,
{
    if page < spans[from].end {
        from
    } else {
        assert(from + 1 < spans.len());
        assert(spans[from].end == spans[from + 1].start);
        lemma_find_span(spans, a, b, page, from + 1)
    }
}

/// In a tiling an earlier span ends before a later one starts.
pub proof fn lemma_tiles_ordered(spans: Seq<Span>, a: int, b: int, i: int, j: int)
    requires
        tiles(spans, a, b),
        0 <= i < j < spans.len(),
    ensures
        spans[i].end <= spans[j].start,
    decreases j - i,
{
    if i + 1 < j {
        lemma_tiles_ordered(spans, a, b, i, j - 1);
        assert(spans[j - 1].end == spans[j].start);
        assert(spans[j - 1].start < spans[j - 1].end);
    } else {
        assert(spans[i].end == spans[j].start);
    }
}

/// The tokens of a range of pages are those of its pages, added up one by one.
pub proof fn sum_adds_up_the_pages(tokens: Seq<usize>, a: int, b: int)
    requires
        0 <= a <= b <= tokens.len(),
    ensures
        model::token_sum(tokens, a, b) == tokens.subrange(a, b).fold_left(
            0int,
            |sum: int, t: usize| sum + t,
        ),
    decreases b - a,
{
    let range = tokens.subrange(a, b);
    if a < b {
        sum_adds_up_the_pages(tokens, a, b - 1);
        assert(range.drop_last() =~= tokens.subrange(a, b - 1));
        assert(range.last() == tokens[b - 1]);
    }
}

/// The tokens of a list of pages are those of its pages, added up one by one.
pub proof fn list_sum_adds_up_the_pages(tokens: Seq<usize>, pages: Seq<u32>)
    ensures
        model::list_sum(tokens, pages) == pages.fold_left(
            0int,
            |sum: int, page: u32| sum + tokens[page - 1],
        ),
    decreases pages.len(),
{
    if pages.len() > 0 {
        list_sum_adds_up_the_pages(tokens, pages.drop_last());
    }
}

/// Where a cut is allowed: at page level everywhere, at any bookmark where the page carries one, at a
/// depth where it carries one of that depth or less.
pub proof fn cuts_are_allowed_by_bookmarks(marks: Seq<Boundary>, level: SplitAt, i: int)
    requires
        0 <= i < marks.len(),
    ensures
        model::cut_here(marks, level, i) <==> (match level {
            SplitAt::Page => true,
            SplitAt::AnyBookmark => marks[i] is Bookmark,
            SplitAt::Depth(n) => marks[i] matches Boundary::Bookmark { depth } && depth <= n,
        }),
{
}

/// Below any bookmark and below page level there is only page level.
pub proof fn page_level_comes_last(marks: Seq<Boundary>, start: int, end: int)
    ensures
        model::finer(marks, start, end, SplitAt::AnyBookmark) == SplitAt::Page,
        model::finer(marks, start, end, SplitAt::Page) == SplitAt::Page,
{
}

/// The units of some pages follow one another from the first page to the last; a unit begins where a
/// cut is allowed, and inside a unit no cut is.
pub proof fn units_lie_between_cuts(
    marks: Seq<Boundary>,
    level: SplitAt,
    pos: int,
    end: int,
    k: int,
)
    requires
        pos < end,
        0 <= k < model::units(marks, level, pos, end).len(),
    ensures
        model::units(marks, level, pos, end)[0].0 == pos,
        model::units(marks, level, pos, end).last().1 == end,
        model::units(marks, level, pos, end)[k].0 < model::units(marks, level, pos, end)[k].1,
        k > 0 ==> model::units(marks, level, pos, end)[k].0 == model::units(
            marks,
            level,
            pos,
            end,
        )[k - 1].1 && model::cut_here(marks, level, model::units(marks, level, pos, end)[k].0),
        forall|j: int|
            model::units(marks, level, pos, end)[k].0 < j < model::units(
                marks,
                level,
                pos,
                end,
            )[k].1 ==> !#[trigger] model::cut_here(marks, level, j),
    decreases end - pos,
{
    model::lemma_next_cut(marks, level, pos, end);
    let e = model::next_cut(marks, level, pos, end);
    let all = model::units(marks, level, pos, end);
    let rest = model::units(marks, level, e, end);
    assert(all == seq![(pos, e)] + rest);
    if e < end {
        assert(rest.len() > 0);
        if k > 0 {
            units_lie_between_cuts(marks, level, e, end, k - 1);
            assert(all[k] == rest[k - 1]);
            if k > 1 {
                assert(all[k - 1] == rest[k - 2]);
            }
        } else {
            units_lie_between_cuts(marks, level, e, end, 0);
        }
        assert(all.last() == rest.last());
    } else {
        assert(rest.len() == 0);
    }
}

impl Layout {
    /// In every plan of two or more chunks the cut between the last two is the most even one: if some
    /// cut of the pages of the two is allowed at the level that was asked for and leaves both parts
    /// within the budget, then the cut of the plan is such a cut too, the token counts of the two
    /// chunks differ by no more than with any other such cut, and it is the first of those with
    /// which they differ as little.
    pub proof fn last_cut_is_the_most_even(self, level: SplitAt, k: int)
        requires
            self.plan(level).len() >= 2,
            self.plan(level)[self.plan(level).len() - 2].start < k < self.tokens.len(),
            model::cut_here(self.boundaries, level, k),
            self.sum(self.plan(level)[self.plan(level).len() - 2].start, k) <= self.budget,
            self.sum(k, self.tokens.len() as int) <= self.budget,
        ensures
            ({
                let n = self.tokens.len() as int;
                let left = self.plan(level)[self.plan(level).len() - 2];
                let right = self.plan(level)[self.plan(level).len() - 1];
                let here = self.sum(left.start, left.end) - self.sum(right.start, right.end);
                let there = self.sum(left.start, k) - self.sum(k, n);
                &&& left.start < left.end == right.start < right.end == n
                &&& model::cut_here(self.boundaries, level, right.start)
                &&& self.sum(left.start, left.end) <= self.budget
                &&& self.sum(right.start, right.end) <= self.budget
                &&& -there <= here <= there || there <= here <= -there
                &&& here == there || here == -there ==> right.start <= k
            }),
    {
        let n = self.tokens.len() as int;
        let packed = self.pack(level, 0, 0, n);
        let spans = self.plan(level);
        assert(self.sum(0, 0) == 0);
        self.lemma_sound_pack(level, 0, 0, n);
        self.plan_is_sound(level);
        assert(packed.len() >= 2);
        let last = packed.len() - 2;
        let lo = packed[last].start;
        assert(packed[last + 1].end == n);
        assert(spans[last].start == lo);
        assert(self.feasible(level, lo, n, k));
        self.lemma_some_best_cut(level, lo, n, k);
        let c = self.best_cut(level, lo, n)->0;
        assert(self.is_best_cut(level, lo, n, c));
    }

    proof fn lemma_some_best_cut(self, level: SplitAt, a: int, b: int, k: int)
        requires
            self.feasible(level, a, b, k),
        ensures
            self.best_cut(level, a, b) is Some,
        decreases self.gap(a, b, k), k - a,
    {
        if !self.is_best_cut(level, a, b, k) {
            let j = choose|j: int| #[trigger]
                self.feasible(level, a, b, j) && !(self.gap(a, b, k) < self.gap(a, b, j) || (
                self.gap(a, b, k) == self.gap(a, b, j) && k <= j));
            self.lemma_some_best_cut(level, a, b, j);
        }
    }

    /// What packing up to page `end` keeps: a span at `level` could not have held one unit more.
    spec fn is_full(self, level: SplitAt, spans: Seq<Span>, end: int) -> bool {
        forall|i: int|
            0 <= i < spans.len() && (#[trigger] spans[i]).level == level && spans[i].end < end
                ==> self.sum(
                spans[i].start,
                model::next_cut(self.boundaries, level, spans[i].end, end),
            ) > self.budget
    }

    proof fn lemma_full_join(self, level: SplitAt, s: Seq<Span>, t: Seq<Span>, end: int)
        requires
            self.is_full(level, s, end),
            self.is_full(level, t, end),
        ensures
            self.is_full(level, s + t, end),
    {
        let u = s + t;
        assert forall|i: int|
            0 <= i < u.len() && (#[trigger] u[i]).level == level && u[i].end < end implies self.sum(
            u[i].start,
            model::next_cut(self.boundaries, level, u[i].end, end),
        ) > self.budget by {
            if i < s.len() {
                assert(u[i] == s[i]);
            } else {
                assert(u[i] == t[i - s.len()]);
            }
        }
    }

    proof fn lemma_pack_is_full(self, level: SplitAt, open: int, pos: int, end: int)
        requires
            0 <= open <= pos <= end <= self.tokens.len(),
            self.sum(open, pos) <= self.budget,
        ensures
            self.is_full(level, self.pack(level, open, pos, end), end),
        decreases end - pos,
    {
        if pos < end {
            model::lemma_next_cut(self.boundaries, level, pos, end);
            let e = model::next_cut(self.boundaries, level, pos, end);
            let flushed = model::flush(level, open, pos);
            self.lemma_sum_split(open, pos, e);
            if self.sum(pos, e) > self.budget {
                let below = model::finer(self.boundaries, pos, e, level);
                model::lemma_finer(self.boundaries, pos, e, level);
                let rest = self.pack(level, e, e, end);
                assert(self.sum(e, e) == 0);
                self.lemma_pack_is_full(level, e, e, end);
                let unit = if level is Page {
                    seq![Span { start: pos, end: e, level }]
                } else {
                    self.overrun(below, pos, e)
                };
                if level is Page {
                    if e < end {
                        model::lemma_next_cut(self.boundaries, level, e, end);
                        self.lemma_sum_split(
                            pos,
                            e,
                            model::next_cut(self.boundaries, level, e, end),
                        );
                    }
                } else {
                    self.lemma_sound_overrun(below, pos, e);
                    assert forall|i: int| 0 <= i < unit.len() implies (#[trigger] unit[i]).level
                        != level by {
                        assert(below.fineness() <= unit[i].level.fineness());
                    }
                }
                assert(self.is_full(level, flushed, end));
                self.lemma_full_join(level, flushed, unit, end);
                self.lemma_full_join(level, flushed + unit, rest, end);
            } else if self.sum(open, pos) + self.sum(pos, e) > self.budget {
                self.lemma_pack_is_full(level, pos, e, end);
                assert(self.is_full(level, flushed, end));
                self.lemma_full_join(level, flushed, self.pack(level, pos, e, end), end);
            } else {
                self.lemma_pack_is_full(level, open, e, end);
            }
        }
    }

    /// A chunk that packing gives at its own level holds as much as it can: up to any later page where a
    /// cut is allowed, and up to the end, the pages from its first on exceed the budget.
    pub proof fn packed_chunks_are_filled(
        self,
        level: SplitAt,
        start: int,
        end: int,
        i: int,
        k: int,
    )
        requires
            0 <= start <= end <= self.tokens.len(),
            0 <= i < self.pack(level, start, start, end).len(),
            self.pack(level, start, start, end)[i].level == level,
            self.pack(level, start, start, end)[i].end < k <= end,
            k == end || model::cut_here(self.boundaries, level, k),
        ensures
            self.sum(self.pack(level, start, start, end)[i].start, k) > self.budget,
    {
        let packed = self.pack(level, start, start, end);
        assert(self.sum(start, start) == 0);
        self.lemma_sound_pack(level, start, start, end);
        self.lemma_pack_is_full(level, start, start, end);
        let span = packed[i];
        lemma_tiles_within(packed, start, end, i);
        model::lemma_next_cut(self.boundaries, level, span.end, end);
        let e = model::next_cut(self.boundaries, level, span.end, end);
        assert(e <= k) by {
            if k < e {
                assert(model::cut_here(self.boundaries, level, k));
            }
        }
        self.lemma_sum_split(span.start, e, k);
    }

    /// A chunk at the level that was asked for, other than the last two, holds as much as it can: up
    /// to any later page where a cut is allowed, and up to the end of the document, the pages from
    /// its first on exceed the budget.
    pub proof fn chunks_are_filled(self, level: SplitAt, i: int, k: int)
        requires
            0 <= i < self.plan(level).len() - 2,
            self.plan(level)[i].level == level,
            self.plan(level)[i].end < k <= self.tokens.len(),
            k == self.tokens.len() || model::cut_here(self.boundaries, level, k),
        ensures
            self.sum(self.plan(level)[i].start, k) > self.budget,
    {
        let n = self.tokens.len() as int;
        assert(self.plan(level)[i] == self.pack(level, 0, 0, n)[i]);
        self.packed_chunks_are_filled(level, 0, n, i, k);
    }

    /// The pages `u..e` are a unit of the pages `start..end` and exceed the budget: they begin and end
    /// where a cut is allowed, or with these pages, and inside no cut is.
    pub open spec fn is_overrun(
        self,
        level: SplitAt,
        start: int,
        u: int,
        e: int,
        end: int,
    ) -> bool {
        &&& start <= u < e <= end
        &&& u == start || model::cut_here(self.boundaries, level, u)
        &&& e == end || model::cut_here(self.boundaries, level, e)
        &&& forall|j: int| u < j < e ==> !#[trigger] model::cut_here(self.boundaries, level, j)
        &&& self.sum(u, e) > self.budget
    }

    /// The pages `a..b` lie inside one unit of the pages `start..end` that exceeds the budget.
    pub open spec fn in_an_overrun(
        self,
        level: SplitAt,
        start: int,
        a: int,
        b: int,
        end: int,
    ) -> bool {
        exists|u: int, e: int|
            u <= a && b <= e && #[trigger] self.is_overrun(level, start, u, e, end)
    }

    spec fn finer_in_overruns(
        self,
        level: SplitAt,
        spans: Seq<Span>,
        start: int,
        end: int,
    ) -> bool {
        forall|i: int|
            0 <= i < spans.len() && (#[trigger] spans[i]).level != level ==> self.in_an_overrun(
                level,
                start,
                spans[i].start,
                spans[i].end,
                end,
            )
    }

    proof fn lemma_overruns_join(
        self,
        level: SplitAt,
        s: Seq<Span>,
        t: Seq<Span>,
        start: int,
        end: int,
    )
        requires
            self.finer_in_overruns(level, s, start, end),
            self.finer_in_overruns(level, t, start, end),
        ensures
            self.finer_in_overruns(level, s + t, start, end),
    {
        let u = s + t;
        assert forall|i: int|
            0 <= i < u.len() && (#[trigger] u[i]).level != level implies self.in_an_overrun(
            level,
            start,
            u[i].start,
            u[i].end,
            end,
        ) by {
            if i < s.len() {
                assert(u[i] == s[i]);
            } else {
                assert(u[i] == t[i - s.len()]);
            }
        }
    }

    proof fn lemma_finer_in_overruns(
        self,
        level: SplitAt,
        start: int,
        open: int,
        pos: int,
        end: int,
    )
        requires
            0 <= start <= open <= pos <= end <= self.tokens.len(),
            start < pos < end ==> model::cut_here(self.boundaries, level, pos),
        ensures
            self.finer_in_overruns(level, self.pack(level, open, pos, end), start, end),
        decreases end - pos,
    {
        if pos < end {
            model::lemma_next_cut(self.boundaries, level, pos, end);
            let e = model::next_cut(self.boundaries, level, pos, end);
            let flushed = model::flush(level, open, pos);
            assert(self.finer_in_overruns(level, flushed, start, end));
            if self.sum(pos, e) > self.budget {
                let below = model::finer(self.boundaries, pos, e, level);
                let rest = self.pack(level, e, e, end);
                self.lemma_finer_in_overruns(level, start, e, e, end);
                let unit = if level is Page {
                    seq![Span { start: pos, end: e, level }]
                } else {
                    self.overrun(below, pos, e)
                };
                if level !is Page {
                    self.lemma_sound_overrun(below, pos, e);
                    assert forall|i: int| 0 <= i < unit.len() && (#[trigger] unit[i]).level
                        != level implies self.in_an_overrun(
                        level,
                        start,
                        unit[i].start,
                        unit[i].end,
                        end,
                    ) by {
                        lemma_tiles_within(unit, pos, e, i);
                        assert(self.is_overrun(level, start, pos, e, end));
                    }
                }
                self.lemma_overruns_join(level, flushed, unit, start, end);
                self.lemma_overruns_join(level, flushed + unit, rest, start, end);
            } else if self.sum(open, pos) + self.sum(pos, e) > self.budget {
                self.lemma_finer_in_overruns(level, start, pos, e, end);
                self.lemma_overruns_join(
                    level,
                    flushed,
                    self.pack(level, pos, e, end),
                    start,
                    end,
                );
            } else {
                self.lemma_finer_in_overruns(level, start, open, e, end);
            }
        }
    }

    /// Packing divides only units that exceed the budget at a finer level: a chunk that was cut at
    /// another level than the packing's own lies inside such a unit.
    pub proof fn packing_divides_only_overruns(
        self,
        level: SplitAt,
        start: int,
        end: int,
        i: int,
    )
        requires
            0 <= start <= end <= self.tokens.len(),
            0 <= i < self.pack(level, start, start, end).len(),
            self.pack(level, start, start, end)[i].level != level,
        ensures
            self.in_an_overrun(
                level,
                start,
                self.pack(level, start, start, end)[i].start,
                self.pack(level, start, start, end)[i].end,
                end,
            ),
    {
        self.lemma_finer_in_overruns(level, start, start, start, end);
    }

    /// Only a unit that exceeds the budget is divided at a finer level: a chunk that was cut at
    /// another level than the one asked for, other than the last two, lies inside such a unit.
    pub proof fn only_overruns_are_divided(self, level: SplitAt, i: int)
        requires
            0 <= i < self.plan(level).len() - 2,
            self.plan(level)[i].level != level,
        ensures
            self.in_an_overrun(
                level,
                0,
                self.plan(level)[i].start,
                self.plan(level)[i].end,
                self.tokens.len() as int,
            ),
    {
        let n = self.tokens.len() as int;
        assert(self.plan(level)[i] == self.pack(level, 0, 0, n)[i]);
        self.packing_divides_only_overruns(level, 0, n, i);
    }

    /// A chunk at the level that was asked for holds whole units: it begins and ends where a cut is
    /// allowed at that level, or with the document.
    pub proof fn chunks_hold_whole_units(self, level: SplitAt, i: int)
        requires
            0 <= i < self.plan(level).len(),
            self.plan(level)[i].level == level,
        ensures
            self.plan(level)[i].start == 0 || model::cut_here(
                self.boundaries,
                level,
                self.plan(level)[i].start,
            ),
            self.plan(level)[i].end == self.tokens.len() || model::cut_here(
                self.boundaries,
                level,
                self.plan(level)[i].end,
            ),
    {
        let spans = self.plan(level);
        self.plan_is_sound(level);
        if i > 0 {
            assert(spans[i - 1].end == spans[i].start);
        }
        if i + 1 < spans.len() {
            assert(spans[i].end == spans[i + 1].start);
        }
    }
}

impl Layout {
    /// The pages `a..b` may be parted before page `k`: a cut is allowed there at `level`, and both
    /// parts are within the budget.
    pub open spec fn may_part(self, level: SplitAt, a: int, b: int, k: int) -> bool {
        &&& a < k < b
        &&& model::cut_here(self.boundaries, level, k)
        &&& self.sum(a, k) <= self.budget
        &&& self.sum(k, b) <= self.budget
    }

    /// Parted before page `c`, the token counts of the two parts of `a..b` differ by no more than
    /// when they are parted before page `k`, and `c` comes first if they differ as much.
    pub open spec fn as_even(self, a: int, b: int, c: int, k: int) -> bool {
        let here = self.sum(a, c) - self.sum(c, b);
        let there = self.sum(a, k) - self.sum(k, b);
        &&& -there <= here <= there || there <= here <= -there
        &&& here == there || here == -there ==> c <= k
    }

    /// `after` is `before` with the spans `i` and `i + 1` evened out: where both were cut at `level`
    /// and there is a place to part their pages, they are parted at the most even one; otherwise,
    /// and everywhere else, nothing is changed.
    pub open spec fn evened(
        self,
        level: SplitAt,
        before: Seq<Span>,
        after: Seq<Span>,
        i: int,
    ) -> bool {
        let a = before[i].start;
        let b = before[i + 1].end;
        let own = before[i].level == level && before[i + 1].level == level;
        &&& after.len() == before.len()
        &&& forall|x: int|
            0 <= x < before.len() && x != i && x != i + 1 ==> #[trigger] after[x] == before[x]
        &&& forall|x: int|
            0 <= x < before.len() ==> (#[trigger] after[x]).level == before[x].level
        &&& after[i].start == a
        &&& after[i + 1].end == b
        &&& own && (exists|k: int| self.may_part(level, a, b, k)) ==> {
            &&& after[i].end == after[i + 1].start
            &&& self.may_part(level, a, b, after[i].end)
            &&& forall|k: int| #[trigger]
                self.may_part(level, a, b, k) ==> self.as_even(a, b, after[i].end, k)
        }
        &&& !own || !(exists|k: int| self.may_part(level, a, b, k)) ==> after == before
    }

    proof fn lemma_shift_evens(self, level: SplitAt, spans: Seq<Span>, i: int)
        requires
            0 <= i,
            i + 1 < spans.len(),
        ensures
            self.evened(level, spans, self.shift_own_pair(level, spans, i), i),
    {
        let a = spans[i].start;
        let b = spans[i + 1].end;
        assert forall|k: int| #[trigger] self.may_part(level, a, b, k) implies self.feasible(
            level,
            a,
            b,
            k,
        ) && self.best_cut(level, a, b) is Some by {
            self.lemma_some_best_cut(level, a, b, k);
        }
        if let Some(c) = self.best_cut(level, a, b) {
            assert(self.is_best_cut(level, a, b, c));
            assert(self.may_part(level, a, b, c));
        }
    }

    proof fn lemma_sweep_states(self, level: SplitAt, spans: Seq<Span>, i: nat) -> (states: Seq<
        Seq<Span>,
    >)
        requires
            i < spans.len(),
        ensures
            states.len() == spans.len() - i,
            states[0] == spans,
            states.last() == self.sweep(level, spans, i),
            forall|x: int| 0 <= x < states.len() ==> (#[trigger] states[x]).len() == spans.len(),
            forall|x: int|
                0 <= x < states.len() - 1 ==> self.evened(
                    level,
                    #[trigger] states[x],
                    states[x + 1],
                    i + x,
                ),
        decreases spans.len() - i,
    {
        if i + 1 >= spans.len() {
            seq![spans]
        } else {
            let next = self.shift_own_pair(level, spans, i as int);
            self.lemma_shift_evens(level, spans, i as int);
            let rest = self.lemma_sweep_states(level, next, i + 1);
            let states = seq![spans] + rest;
            assert(states.last() == rest.last());
            assert forall|x: int| 0 <= x < states.len() implies (#[trigger] states[x]).len()
                == spans.len() by {
                if x > 0 {
                    assert(states[x] == rest[x - 1]);
                }
            }
            assert forall|x: int| 0 <= x < states.len() - 1 implies self.evened(
                level,
                #[trigger] states[x],
                states[x + 1],
                i + x,
            ) by {
                assert(states[x + 1] == rest[x]);
                if x > 0 {
                    assert(states[x] == rest[x - 1]);
                    assert(self.evened(level, rest[x - 1], rest[x], (i + 1) + (x - 1)));
                }
            }
            states
        }
    }

    /// The states go from `from` to `to` by evening out each pair of neighbours in turn, from the
    /// first to the last.
    pub open spec fn is_pass(
        self,
        level: SplitAt,
        from: Seq<Span>,
        to: Seq<Span>,
        states: Seq<Seq<Span>>,
    ) -> bool {
        &&& states.len() == from.len()
        &&& states[0] == from
        &&& states.last() == to
        &&& forall|i: int|
            0 <= i < states.len() - 1 ==> self.evened(
                level,
                #[trigger] states[i],
                states[i + 1],
                i,
            )
    }

    /// A unit that is planned again is packed and then evened out in three passes, each over all
    /// pairs of neighbours in turn.
    pub proof fn overruns_are_evened_out(self, level: SplitAt, start: int, end: int) -> (passes: (
        Seq<Seq<Span>>,
        Seq<Seq<Span>>,
        Seq<Seq<Span>>,
    ))
        requires
            self.pack(level, start, start, end).len() > 0,
        ensures
            self.is_pass(
                level,
                self.pack(level, start, start, end),
                passes.0.last(),
                passes.0,
            ),
            self.is_pass(level, passes.0.last(), passes.1.last(), passes.1),
            self.is_pass(level, passes.1.last(), self.overrun(level, start, end), passes.2),
    {
        let packed = self.pack(level, start, start, end);
        let first = self.lemma_sweep_states(level, packed, 0);
        assert(first[first.len() - 1].len() == packed.len());
        let second = self.lemma_sweep_states(level, first.last(), 0);
        assert(second[second.len() - 1].len() == packed.len());
        let third = self.lemma_sweep_states(level, second.last(), 0);
        assert forall|i: int| 0 <= i < first.len() - 1 implies self.evened(
            level,
            #[trigger] first[i],
            first[i + 1],
            i,
        ) by {
            assert(self.evened(level, first[i], first[i + 1], 0 + i));
        }
        assert forall|i: int| 0 <= i < second.len() - 1 implies self.evened(
            level,
            #[trigger] second[i],
            second[i + 1],
            i,
        ) by {
            assert(self.evened(level, second[i], second[i + 1], 0 + i));
        }
        assert forall|i: int| 0 <= i < third.len() - 1 implies self.evened(
            level,
            #[trigger] third[i],
            third[i + 1],
            i,
        ) by {
            assert(self.evened(level, third[i], third[i + 1], 0 + i));
        }
        (first, second, third)
    }

    /// Some spans from `i` on are the plan of the unit `u..e`, made again at the next finer level.
    pub open spec fn holds_overrun(
        self,
        level: SplitAt,
        spans: Seq<Span>,
        u: int,
        e: int,
        i: int,
    ) -> bool {
        let again = self.overrun(model::finer(self.boundaries, u, e, level), u, e);
        &&& 0 <= i <= spans.len() - again.len()
        &&& spans.subrange(i, i + again.len()) == again
    }

    proof fn lemma_holds_overrun(
        self,
        level: SplitAt,
        open: int,
        pos: int,
        end: int,
        u: int,
        e: int,
    ) -> (i: int)
        requires
            0 <= open <= pos <= u < e <= end <= self.tokens.len(),
            level !is Page,
            u == pos || model::cut_here(self.boundaries, level, u),
            e == end || model::cut_here(self.boundaries, level, e),
            forall|j: int| u < j < e ==> !#[trigger] model::cut_here(self.boundaries, level, j),
            self.sum(u, e) > self.budget,
        ensures
            self.holds_overrun(level, self.pack(level, open, pos, end), u, e, i),
        decreases end - pos,
    {
        model::lemma_next_cut(self.boundaries, level, pos, end);
        let next = model::next_cut(self.boundaries, level, pos, end);
        let flushed = model::flush(level, open, pos);
        let all = self.pack(level, open, pos, end);
        let again = self.overrun(model::finer(self.boundaries, u, e, level), u, e);
        if u == pos {
            assert(next == e) by {
                if next < e {
                    assert(model::cut_here(self.boundaries, level, next));
                }
                if e < next {
                    assert(model::cut_here(self.boundaries, level, e));
                }
            }
            let i = flushed.len() as int;
            assert(all == flushed + again + self.pack(level, e, e, end));
            assert(all.subrange(i, i + again.len()) =~= again);
            i
        } else {
            assert(next <= u) by {
                if u < next {
                    assert(model::cut_here(self.boundaries, level, u));
                }
            }
            if self.sum(pos, next) > self.budget {
                let below = self.overrun(
                    model::finer(self.boundaries, pos, next, level),
                    pos,
                    next,
                );
                let rest = self.pack(level, next, next, end);
                let k = self.lemma_holds_overrun(level, next, next, end, u, e);
                let i = flushed.len() + below.len() + k;
                assert(all == flushed + below + rest);
                assert(all.subrange(i, i + again.len()) =~= rest.subrange(k, k + again.len()));
                i
            } else if self.sum(open, pos) + self.sum(pos, next) > self.budget {
                let rest = self.pack(level, pos, next, end);
                let k = self.lemma_holds_overrun(level, pos, next, end, u, e);
                let i = flushed.len() + k;
                assert(all == flushed + rest);
                assert(all.subrange(i, i + again.len()) =~= rest.subrange(k, k + again.len()));
                i
            } else {
                self.lemma_holds_overrun(level, open, next, end, u, e)
            }
        }
    }

    /// A unit that exceeds the budget is planned again at the next finer level: its plan stands among
    /// the chunks that packing gives.
    pub proof fn overruns_are_planned_again(
        self,
        level: SplitAt,
        start: int,
        u: int,
        e: int,
        end: int,
    ) -> (i: int)
        requires
            0 <= start <= end <= self.tokens.len(),
            level !is Page,
            self.is_overrun(level, start, u, e, end),
        ensures
            self.holds_overrun(level, self.pack(level, start, start, end), u, e, i),
    {
        self.lemma_holds_overrun(level, start, start, end, u, e)
    }

    /// Packing and what comes of it differ in the last two chunks at most, and in these only in the
    /// cut between them.
    pub proof fn planning_moves_the_last_cut_only(self, level: SplitAt, lo: int, end: int)
        requires
            end == self.tokens.len(),
            self.plan(level).len() >= 2 ==> lo == self.plan(level)[self.plan(level).len()
                - 2].start,
        ensures
            self.plan(level).len() == self.pack(level, 0, 0, self.tokens.len() as int).len(),
            forall|i: int|
                0 <= i < self.plan(level).len() - 2 ==> #[trigger] self.plan(level)[i]
                    == self.pack(level, 0, 0, self.tokens.len() as int)[i],
            forall|i: int|
                0 <= i < self.plan(level).len() ==> (#[trigger] self.plan(level)[i]).level
                    == self.pack(level, 0, 0, self.tokens.len() as int)[i].level,
            self.plan(level).len() < 2 ==> self.plan(level) == self.pack(
                level,
                0,
                0,
                self.tokens.len() as int,
            ),
            self.plan(level).len() >= 2 && !(exists|k: int| #[trigger]
                self.may_part(level, lo, end, k)) ==> self.plan(level) == self.pack(
                level,
                0,
                0,
                end,
            ),
    {
        let n = self.tokens.len() as int;
        let packed = self.pack(level, 0, 0, n);
        assert(self.sum(0, 0) == 0);
        self.lemma_sound_pack(level, 0, 0, n);
        if packed.len() >= 2 {
            assert(lo == packed[packed.len() - 2].start);
            if let Some(c) = self.best_cut(level, lo, n) {
                assert(self.is_best_cut(level, lo, n, c));
                assert(self.may_part(level, lo, n, c));
            }
        }
    }

    /// Planning a unit again uses the fewest chunks, where its units at the finer level fit the
    /// budget, and at page level in any case.
    pub proof fn overruns_use_fewest_chunks(
        self,
        level: SplitAt,
        start: int,
        end: int,
        other: Seq<Span>,
    )
        requires
            0 <= start <= end <= self.tokens.len(),
            level is Page || self.units_fit(level, start, end),
            self.divides(level, other, start, end),
        ensures
            self.overrun(level, start, end).len() <= other.len(),
    {
        let packed = self.pack(level, start, start, end);
        let once = self.sweep(level, packed, 0);
        self.packing_uses_fewest_chunks(level, start, end, other);
        self.lemma_sweep_keeps_levels(level, packed, 0);
        self.lemma_sweep_keeps_levels(level, once, 0);
        self.lemma_sweep_keeps_levels(level, self.sweep(level, once, 0), 0);
    }
}

} // verus!
