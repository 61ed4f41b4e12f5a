//! What a run does with one document, apart from reading and writing files: the warnings, the
//! plan, the names of the chunks, the index, and what is said along the way.

use crate::cli;
use crate::cli::{Cli, PathId, TokenizerKind};
use crate::guarantees;
use crate::index;
use crate::index::{ChunkEntry, Config, Index, Pages, Source, Warning};
use crate::inspect;
use crate::laws;
use crate::level::{Boundary, SplitAt};
use crate::model;
use crate::model::{Layout, Span};
use crate::outline::OutlineEntry;
use crate::plan;
use crate::plan::{plan_chunks, Diagnostic, PlanResult, PlannedChunk};
use crate::text;
use vstd::prelude::*;
use vstd::string::*;

verus! {

/// A page with fewer tokens has almost no text.
pub const SCAN_LIKE_TOKEN_THRESHOLD: usize = 20;

/// The share of pages with almost no text, in percent, from which a document seems scanned.
pub const SCAN_LIKE_PAGE_RATIO_PCT: usize = 50;

/// A page with an image and fewer tokens is mostly image.
pub const IMAGE_DOMINANT_TOKEN_THRESHOLD: usize = 50;

/// The number of pages with almost no text.
pub open spec fn near_empty_pages(tokens: Seq<usize>) -> nat
    decreases tokens.len(),
{
    if tokens.len() == 0 {
        0
    } else {
        near_empty_pages(tokens.drop_last()) + (if tokens.last() < SCAN_LIKE_TOKEN_THRESHOLD {
            1nat
        } else {
            0nat
        })
    }
}

/// Of the first `n` pages, the number of those that are mostly image.
pub open spec fn image_pages(tokens: Seq<usize>, images: Seq<usize>, n: nat) -> nat
    decreases n,
{
    if n == 0 {
        0
    } else {
        image_pages(tokens, images, (n - 1) as nat) + (if images[n - 1] >= 1 && tokens[n - 1]
            < IMAGE_DOMINANT_TOKEN_THRESHOLD {
            1nat
        } else {
            0nat
        })
    }
}

/// What is to be said about a document's content: that it seems scanned, or else that some of its
/// pages are mostly image, or nothing.
pub open spec fn content_warnings_of(tokens: Seq<usize>, images: Seq<usize>) -> Seq<
    index::WarningView,
> {
    let total = tokens.len();
    let near_empty = near_empty_pages(tokens);
    let both = if images.len() < total {
        images.len()
    } else {
        total
    };
    let affected = image_pages(tokens, images, both);
    if total == 0 {
        Seq::empty()
    } else if near_empty * 100 / total >= SCAN_LIKE_PAGE_RATIO_PCT {
        seq![
            index::WarningView::ScanLike { near_empty_pages: near_empty, total_pages: total },
        ]
    } else if affected > 0 {
        seq![index::WarningView::ImageDominant { pages_affected: affected, total_pages: total }]
    } else {
        Seq::empty()
    }
}

/// What is to be said about a document's content.
pub fn content_warnings(tokens: &[usize], images: &[usize]) -> (warnings: Vec<Warning>)
    ensures
        index::warning_views(warnings@) == content_warnings_of(tokens@, images@),
{
    let mut warnings: Vec<Warning> = Vec::new();
    let total_pages: usize = tokens.len();
    assert(index::warning_views(warnings@) =~= Seq::empty());
    if total_pages == 0 {
        return warnings;
    }
    let mut near_empty: usize = 0;
    let mut i: usize = 0;
    while i < tokens.len()
        invariant
            near_empty <= i <= tokens@.len(),
            near_empty == near_empty_pages(tokens@.take(i as int)),
        decreases tokens@.len() - i,
    {
        assert(tokens@.take(i + 1).drop_last() =~= tokens@.take(i as int));
        if tokens[i] < SCAN_LIKE_TOKEN_THRESHOLD {
            near_empty = near_empty + 1;
        }
        i = i + 1;
    }
    assert(tokens@.take(i as int) =~= tokens@);
    if near_empty as u128 * 100 / total_pages as u128 >= SCAN_LIKE_PAGE_RATIO_PCT as u128 {
        warnings.push(Warning::ScanLike { near_empty_pages: near_empty, total_pages });
        assert(index::warning_views(warnings@) =~= content_warnings_of(tokens@, images@));
        return warnings;
    }
    let both: usize = if images.len() < total_pages {
        images.len()
    } else {
        total_pages
    };
    let mut affected: usize = 0;
    let mut j: usize = 0;
    while j < both
        invariant
            affected <= j <= both,
            both <= tokens@.len(),
            both <= images@.len(),
            affected == image_pages(tokens@, images@, j as nat),
        decreases both - j,
    {
        if images[j] >= 1 && tokens[j] < IMAGE_DOMINANT_TOKEN_THRESHOLD {
            affected = affected + 1;
        }
        j = j + 1;
    }
    if affected > 0 {
        warnings.push(Warning::ImageDominant { pages_affected: affected, total_pages });
    }
    assert(index::warning_views(warnings@) =~= content_warnings_of(tokens@, images@));
    warnings
}

/// What is said about a warning.
pub open spec fn notice_of(
    warning: index::WarningView,
    path: Seq<char>,
    max_tokens: nat,
) -> Seq<char> {
    match warning {
        index::WarningView::ScanLike { near_empty_pages, total_pages } => "warning: "@ + path
            + " appears to be scanned/image-based ("@ + text::decimal(near_empty_pages) + "/"@
            + text::decimal(total_pages)
            + " pages have almost no extractable text). Token-based splitting will not reflect actual content size. Consider running the PDF through an OCR tool such as ocrmypdf (https://github.com/ocrmypdf/OCRmyPDF) first — it adds a searchable text layer while preserving the original images."@,
        index::WarningView::ImageDominant { pages_affected, total_pages } => "warning: "@
            + text::decimal(pages_affected) + " of "@ + text::decimal(total_pages)
            + " pages contain significant non-text content (images/figures). Token counts underestimate their size; downstream tools may handle them differently."@,
        index::WarningView::OutlineMissing { requested } =>
            "warning: no outline present in PDF; --split-at "@ + requested
            + " ignored, falling back to page."@,
        index::WarningView::OversizedPage { page, tokens } => "warning: page "@ + text::decimal(
            page as nat,
        ) + " has "@ + text::decimal(tokens as nat) + " tokens, which exceeds --max-tokens "@
            + text::decimal(max_tokens) + "; emitted as its own chunk."@,
    }
}

/// What is said about a warning.
pub fn notice(warning: &Warning, path: &str, max_tokens: usize) -> (line: String)
    ensures
        line@ == notice_of(warning@, path@, max_tokens as nat),
{
    let mut line = "warning: ".to_owned();
    match warning {
        Warning::ScanLike { near_empty_pages, total_pages } => {
            line.append(path);
            line.append(" appears to be scanned/image-based (");
            text::push_decimal(&mut line, *near_empty_pages as u64);
            line.append("/");
            text::push_decimal(&mut line, *total_pages as u64);
            line.append(
                " pages have almost no extractable text). Token-based splitting will not reflect actual content size. Consider running the PDF through an OCR tool such as ocrmypdf (https://github.com/ocrmypdf/OCRmyPDF) first — it adds a searchable text layer while preserving the original images.",
            );
            line
        },
        Warning::ImageDominant { pages_affected, total_pages } => {
            text::push_decimal(&mut line, *pages_affected as u64);
            line.append(" of ");
            text::push_decimal(&mut line, *total_pages as u64);
            line.append(
                " pages contain significant non-text content (images/figures). Token counts underestimate their size; downstream tools may handle them differently.",
            );
            line
        },
        Warning::OutlineMissing { requested } => {
            let mut line = "warning: no outline present in PDF; --split-at ".to_owned();
            line.append(requested.as_str());
            line.append(" ignored, falling back to page.");
            line
        },
        Warning::OversizedPage { page, tokens } => {
            let mut line = "warning: page ".to_owned();
            text::push_decimal(&mut line, *page as u64);
            line.append(" has ");
            text::push_decimal(&mut line, *tokens as u64);
            line.append(" tokens, which exceeds --max-tokens ");
            text::push_decimal(&mut line, max_tokens as u64);
            line.append("; emitted as its own chunk.");
            line
        },
    }
}

/// The number of digits in the numbers of `total` chunks: as many as the last one has, but at
/// least three.
pub open spec fn number_width(total: nat) -> nat {
    if text::decimal(total).len() < 3 {
        3
    } else {
        text::decimal(total).len()
    }
}

/// The number of digits in the numbers of `total` chunks.
pub fn pad_width(total: usize) -> (width: usize)
    ensures
        width == number_width(total as nat),
{
    let natural: usize = text::decimal_width(total as u64);
    if natural < 3 {
        3
    } else {
        natural
    }
}

/// The name of the file that holds chunk `number`.
pub open spec fn chunk_name(prefix: Seq<char>, number: nat, width: nat) -> Seq<char> {
    prefix + "_"@ + text::right_aligned(number, '0', width) + ".pdf"@
}

/// The name of the file that holds chunk `number`.
pub fn chunk_filename(prefix: &str, number: usize, width: usize) -> (name: String)
    ensures
        name@ == chunk_name(prefix@, number as nat, width as nat),
{
    let mut name = prefix.to_owned();
    name.append("_");
    text::push_zero_padded(&mut name, number as u64, width);
    name.append(".pdf");
    name
}

/// What the names of a document's chunks begin with.
pub open spec fn prefix_of(prefix: Option<String>, stem: Option<String>) -> Seq<char> {
    match prefix {
        Some(prefix) => prefix@,
        None => match stem {
            Some(stem) => stem@,
            None => "chunk"@,
        },
    }
}

/// What the names of a document's chunks begin with: the prefix that was asked for, else the
/// stem of the input's name, else `chunk`.
pub fn choose_prefix(prefix: &Option<String>, stem: &Option<String>) -> (chosen: String)
    ensures
        chosen@ == prefix_of(*prefix, *stem),
{
    match prefix {
        Some(prefix) => prefix.clone(),
        None => match stem {
            Some(stem) => stem.clone(),
            None => "chunk".to_owned(),
        },
    }
}

/// The index entry of a span of pages, as chunk `number`.
pub open spec fn entry_of(
    doc: Layout,
    span: Span,
    prefix: Seq<char>,
    number: nat,
    width: nat,
) -> index::EntryView {
    index::EntryView {
        filename: chunk_name(prefix, number, width),
        start: span.start + 1,
        end: span.end,
        count: span.end - span.start,
        token_count: doc.sum(span.start, span.end),
        effective_level: span.level.name(),
    }
}

/// The index entries of the spans, as chunks numbered from 1.
pub open spec fn entries_of(
    doc: Layout,
    spans: Seq<Span>,
    prefix: Seq<char>,
    width: nat,
) -> Seq<index::EntryView> {
    Seq::new(spans.len(), |i: int| entry_of(doc, spans[i], prefix, (i + 1) as nat, width))
}

/// What is said about a chunk when more is to be said.
pub open spec fn chunk_line_of(entry: index::EntryView) -> Seq<char> {
    "  "@ + entry.filename + ": pages "@ + text::decimal(entry.start as nat) + "-"@ + text::decimal(
        entry.end as nat,
    ) + " ("@ + text::decimal(entry.count as nat) + " pages, "@ + text::decimal(entry.token_count)
        + " tokens, level "@ + entry.effective_level + ")"@
}

/// What is said about a chunk when more is to be said.
pub fn chunk_line(entry: &ChunkEntry) -> (line: String)
    ensures
        line@ == chunk_line_of(entry@),
{
    let mut line = "  ".to_owned();
    line.append(entry.filename.as_str());
    line.append(": pages ");
    text::push_decimal(&mut line, entry.pages.start as u64);
    line.append("-");
    text::push_decimal(&mut line, entry.pages.end as u64);
    line.append(" (");
    text::push_decimal(&mut line, entry.pages.count as u64);
    line.append(" pages, ");
    text::push_decimal(&mut line, entry.token_count as u64);
    line.append(" tokens, level ");
    line.append(entry.effective_level.as_str());
    line.append(")");
    line
}

/// The finest of the spans' levels; `otherwise` where there are no spans.
pub open spec fn finest(spans: Seq<Span>, otherwise: SplitAt) -> SplitAt
    decreases spans.len(),
{
    if spans.len() == 0 {
        otherwise
    } else if spans.len() == 1 {
        spans[0].level
    } else {
        let before = finest(spans.drop_last(), otherwise);
        if before.fineness() < spans.last().level.fineness() {
            spans.last().level
        } else {
            before
        }
    }
}

/// The finest of the chunks' levels; `otherwise` where there are no chunks.
fn finest_level(chunks: &Vec<PlannedChunk>, otherwise: SplitAt, Ghost(spans): Ghost<
    Seq<Span>,
>) -> (level: SplitAt)
    requires
        plan::chunks_are(chunks@, spans),
    ensures
        level == finest(spans, otherwise),
{
    if chunks.len() == 0 {
        return otherwise;
    }
    assert(plan::chunk_is(chunks@[0], spans[0]));
    let mut level: SplitAt = chunks[0].effective_level;
    let mut i: usize = 1;
    assert(spans.take(1)[0] == spans[0]);
    while i < chunks.len()
        invariant
            1 <= i <= chunks@.len(),
            plan::chunks_are(chunks@, spans),
            level == finest(spans.take(i as int), otherwise),
        decreases chunks@.len() - i,
    {
        assert(spans.take(i + 1).drop_last() =~= spans.take(i as int));
        assert(plan::chunk_is(chunks@[i as int], spans[i as int]));
        if level < chunks[i].effective_level {
            level = chunks[i].effective_level;
        }
        i = i + 1;
    }
    assert(spans.take(i as int) =~= spans);
    level
}

/// What a run is asked to do with a document.
#[derive(Debug)]
pub struct Job {
    /// The document's path, as text.
    pub path: String,
    /// The stem of the document's name, where it is text.
    pub stem: Option<String>,
    /// What the names of the chunks are to begin with.
    pub prefix: Option<String>,
    /// The name of the tokenizer.
    pub tokenizer: String,
    /// The version of the tool.
    pub version: &'static str,
    /// The number of tokens that a chunk may hold.
    pub max_tokens: usize,
    /// The level at which a split is asked for.
    pub requested: SplitAt,
    /// Say nothing about warnings.
    pub quiet: bool,
    /// Say more about each chunk.
    pub verbose: bool,
}

/// What was found out about a document, page by page.
#[derive(Debug)]
pub struct Facts {
    /// The number of tokens.
    pub tokens: Vec<usize>,
    /// The number of images.
    pub images: Vec<usize>,
    /// What the outline says of the page.
    pub boundaries: Vec<Boundary>,
    /// The document has an outline.
    pub has_outline: bool,
}

/// What a run does with a document.
#[derive(Debug)]
pub struct Report {
    /// What is to be said about warnings.
    pub notices: Vec<String>,
    /// What is to be said about the plan.
    pub headline: Option<String>,
    /// What is to be said about each chunk.
    pub chunk_lines: Vec<String>,
    /// The chunks, in order; the index names the file of each.
    pub chunks: Vec<PlannedChunk>,
    /// The index.
    pub index: Index,
    /// The name of the file that holds the index.
    pub index_name: String,
}

impl Facts {
    /// There is a boundary and a number of tokens for each page, the pages can be numbered, and
    /// the tokens can be added up.
    pub open spec fn fit(self) -> bool {
        &&& self.tokens@.len() == self.boundaries@.len()
        &&& self.tokens@.len() <= u32::MAX
        &&& model::token_sum(self.tokens@, 0, self.tokens@.len() as int) <= usize::MAX
    }
}

impl Facts {
    /// There is a boundary and a number of tokens for each page, the pages can be numbered, and
    /// the tokens can be added up.
    pub fn check_fit(&self) -> (fits: bool)
        ensures
            fits == self.fit(),
    {
        if self.tokens.len() != self.boundaries.len() || self.tokens.len() > u32::MAX as usize {
            return false;
        }
        let mut total: usize = 0;
        let mut i: usize = 0;
        while i < self.tokens.len()
            invariant
                i <= self.tokens@.len(),
                self.tokens@.len() == self.boundaries@.len() <= u32::MAX,
                total == model::token_sum(self.tokens@, 0, i as int),
            decreases self.tokens@.len() - i,
        {
            proof {
                lemma_part_of_sum(self.tokens@, 0, i + 1);
            }
            match total.checked_add(self.tokens[i]) {
                Some(more) => {
                    total = more;
                },
                None => {
                    return false;
                },
            }
            i = i + 1;
        }
        true
    }
}

impl Job {
    /// The document has no outline, though one is needed.
    pub open spec fn falls_back(self, facts: Facts) -> bool {
        self.requested !is Page && !facts.has_outline
    }

    /// The level at which the document is split.
    pub open spec fn level(self, facts: Facts) -> SplitAt {
        if self.falls_back(facts) {
            SplitAt::Page
        } else {
            self.requested
        }
    }

    /// The document as the planner sees it.
    pub open spec fn doc(self, facts: Facts) -> Layout {
        Layout {
            tokens: facts.tokens@,
            boundaries: if self.falls_back(facts) {
                Seq::new(facts.tokens@.len(), |i: int| Boundary::Page)
            } else {
                facts.boundaries@
            },
            budget: self.max_tokens as nat,
        }
    }

    /// The plan.
    pub open spec fn spans(self, facts: Facts) -> Seq<Span> {
        self.doc(facts).plan(self.level(facts))
    }

    /// The warnings: about the content, about the missing outline, about each oversized page.
    pub open spec fn warnings(self, facts: Facts) -> Seq<index::WarningView> {
        content_warnings_of(facts.tokens@, facts.images@) + (if self.falls_back(facts) {
            seq![index::WarningView::OutlineMissing { requested: self.requested.name() }]
        } else {
            Seq::empty()
        }) + oversized_warnings(
            plan::oversized_pages(self.doc(facts), 0, facts.tokens@.len() as int),
        )
    }

    /// The index entries.
    pub open spec fn entries(self, facts: Facts) -> Seq<index::EntryView> {
        let spans = self.spans(facts);
        entries_of(
            self.doc(facts),
            spans,
            prefix_of(self.prefix, self.stem),
            number_width(spans.len()),
        )
    }

    /// What is said about the plan when more is to be said.
    pub open spec fn headline(self, facts: Facts) -> Seq<char> {
        "tchunk-pdf: "@ + text::decimal(facts.tokens@.len()) + " pages -> "@ + text::decimal(
            self.spans(facts).len(),
        ) + " chunks (budget "@ + text::decimal(self.max_tokens as nat) + " tokens, split-at "@
            + self.level(facts).name() + ", tokenizer "@ + self.tokenizer@ + ")"@
    }

    /// The report is what the job asks for.
    pub open spec fn is_done_by(self, facts: Facts, report: Report) -> bool {
        &&& plan::chunks_are(report.chunks@, self.spans(facts))
        &&& line_views(report.notices@) == (if self.quiet {
            Seq::empty()
        } else {
            self.warnings(facts).map_values(
                |warning: index::WarningView|
                    notice_of(warning, self.path@, self.max_tokens as nat),
            )
        })
        &&& if self.verbose {
            report.headline matches Some(line) && line@ == self.headline(facts)
        } else {
            report.headline is None
        }
        &&& line_views(report.chunk_lines@) == (if self.verbose {
            self.entries(facts).map_values(|entry: index::EntryView| chunk_line_of(entry))
        } else {
            Seq::empty()
        })
        &&& report.index_name@ == prefix_of(self.prefix, self.stem) + ".index.json"@
        &&& report.index.tool@ == "tchunk-pdf"@
        &&& report.index.version@ == self.version@
        &&& report.index.source.path@ == self.path@
        &&& report.index.source.page_count == facts.tokens@.len()
        &&& report.index.source.total_tokens == model::token_sum(
            facts.tokens@,
            0,
            facts.tokens@.len() as int,
        )
        &&& report.index.config.tokenizer@ == self.tokenizer@
        &&& report.index.config.max_tokens == self.max_tokens
        &&& report.index.config.split_at_requested@ == self.requested.name()
        &&& report.index.config.split_at_effective@ == finest(
            self.spans(facts),
            self.level(facts),
        ).name()
        &&& index::entry_views(report.index.chunks@) == self.entries(facts)
        &&& index::warning_views(report.index.warnings@) == self.warnings(facts)
    }
}

/// The lines as sequences of characters.
pub open spec fn line_views(lines: Seq<String>) -> Seq<Seq<char>> {
    lines.map_values(|line: String| line@)
}

/// The warnings about oversized pages.
pub open spec fn oversized_warnings(diagnostics: Seq<Diagnostic>) -> Seq<index::WarningView> {
    diagnostics.map_values(
        |diagnostic: Diagnostic|
            match diagnostic {
                Diagnostic::OversizedPage { page, tokens } => index::WarningView::OversizedPage {
                    page,
                    tokens,
                },
            },
    )
}

proof fn lemma_part_of_sum(tokens: Seq<usize>, a: int, b: int)
    requires
        0 <= a <= b <= tokens.len(),
    ensures
        model::token_sum(tokens, a, b) <= model::token_sum(tokens, 0, tokens.len() as int),
{
    let doc = Layout { tokens, boundaries: Seq::empty(), budget: 0 };
    doc.lemma_sum_split(0, a, tokens.len() as int);
    doc.lemma_sum_split(a, b, tokens.len() as int);
}

/// The tokens on the pages `from..to`.
fn sum_range(tokens: &Vec<usize>, from: usize, to: usize) -> (total: usize)
    requires
        from <= to <= tokens@.len(),
        model::token_sum(tokens@, 0, tokens@.len() as int) <= usize::MAX,
    ensures
        total == model::token_sum(tokens@, from as int, to as int),
{
    let mut total: usize = 0;
    let mut i: usize = from;
    while i < to
        invariant
            from <= i <= to <= tokens@.len(),
            model::token_sum(tokens@, 0, tokens@.len() as int) <= usize::MAX,
            total == model::token_sum(tokens@, from as int, i as int),
        decreases to - i,
    {
        proof {
            lemma_part_of_sum(tokens@, from as int, i + 1);
        }
        total = total + tokens[i];
        i = i + 1;
    }
    total
}

/// The index entry of each chunk.
fn list_entries(
    chunks: &Vec<PlannedChunk>,
    tokens: &Vec<usize>,
    prefix: &str,
    Ghost(doc): Ghost<Layout>,
    Ghost(spans): Ghost<Seq<Span>>,
) -> (entries: Vec<ChunkEntry>)
    requires
        plan::chunks_are(chunks@, spans),
        laws::tiles(spans, 0, tokens@.len() as int),
        doc.tokens == tokens@,
        tokens@.len() <= u32::MAX,
        model::token_sum(tokens@, 0, tokens@.len() as int) <= usize::MAX,
    ensures
        index::entry_views(entries@) == entries_of(
            doc,
            spans,
            prefix@,
            number_width(spans.len()),
        ),
{
    let width: usize = pad_width(chunks.len());
    let ghost all = entries_of(doc, spans, prefix@, width as nat);
    let mut entries: Vec<ChunkEntry> = Vec::new();
    let mut i: usize = 0;
    while i < chunks.len()
        invariant
            i == entries@.len() <= chunks@.len(),
            width == number_width(spans.len()),
            all == entries_of(doc, spans, prefix@, width as nat),
            plan::chunks_are(chunks@, spans),
            laws::tiles(spans, 0, tokens@.len() as int),
            doc.tokens == tokens@,
            tokens@.len() <= u32::MAX,
            model::token_sum(tokens@, 0, tokens@.len() as int) <= usize::MAX,
            forall|j: int| 0 <= j < i ==> (#[trigger] entries@[j])@ == all[j],
        decreases chunks@.len() - i,
    {
        let ghost span = spans[i as int];
        proof {
            assert(plan::chunk_is(chunks@[i as int], span));
            laws::lemma_tiles_within(spans, 0, tokens@.len() as int, i as int);
        }
        let pages: &Vec<u32> = &chunks[i].pages;
        let count: usize = pages.len();
        let start: u32 = pages[0];
        let end: u32 = pages[count - 1];
        assert(start == span.start + 1 && end == span.end && count == span.end - span.start);
        let token_count: usize = sum_range(tokens, start as usize - 1, end as usize);
        let entry = ChunkEntry {
            filename: chunk_filename(prefix, i + 1, width),
            pages: Pages { start, end, count },
            token_count,
            effective_level: chunks[i].effective_level.to_string(),
        };
        assert(entry@ == all[i as int]);
        entries.push(entry);
        i = i + 1;
    }
    assert(index::entry_views(entries@) =~= all);
    entries
}

/// What is said about each warning.
fn list_notices(warnings: &Vec<Warning>, path: &str, max_tokens: usize) -> (notices: Vec<String>)
    ensures
        line_views(notices@) == index::warning_views(warnings@).map_values(
            |warning: index::WarningView| notice_of(warning, path@, max_tokens as nat),
        ),
{
    let mut notices: Vec<String> = Vec::new();
    let mut i: usize = 0;
    while i < warnings.len()
        invariant
            i == notices@.len() <= warnings@.len(),
            forall|j: int|
                0 <= j < i ==> (#[trigger] notices@[j])@ == notice_of(
                    warnings@[j]@,
                    path@,
                    max_tokens as nat,
                ),
        decreases warnings@.len() - i,
    {
        notices.push(notice(&warnings[i], path, max_tokens));
        i = i + 1;
    }
    assert(line_views(notices@) =~= index::warning_views(warnings@).map_values(
        |warning: index::WarningView| notice_of(warning, path@, max_tokens as nat),
    ));
    notices
}

/// What is said about each chunk.
fn list_chunk_lines(entries: &Vec<ChunkEntry>) -> (lines: Vec<String>)
    ensures
        line_views(lines@) == index::entry_views(entries@).map_values(
            |entry: index::EntryView| chunk_line_of(entry),
        ),
{
    let mut lines: Vec<String> = Vec::new();
    let mut i: usize = 0;
    while i < entries.len()
        invariant
            i == lines@.len() <= entries@.len(),
            forall|j: int|
                0 <= j < i ==> (#[trigger] lines@[j])@ == chunk_line_of(entries@[j]@),
        decreases entries@.len() - i,
    {
        lines.push(chunk_line(&entries[i]));
        i = i + 1;
    }
    assert(line_views(lines@) =~= index::entry_views(entries@).map_values(
        |entry: index::EntryView| chunk_line_of(entry),
    ));
    lines
}

/// A boundary for each of `count` pages that have no bookmark.
fn page_boundaries(count: usize) -> (boundaries: Vec<Boundary>)
    ensures
        boundaries@ == Seq::new(count as nat, |i: int| Boundary::Page),
{
    let mut boundaries: Vec<Boundary> = Vec::new();
    while boundaries.len() < count
        invariant
            boundaries@.len() <= count,
            forall|i: int|
                0 <= i < boundaries@.len() ==> #[trigger] boundaries@[i] == Boundary::Page,
        decreases count - boundaries@.len(),
    {
        boundaries.push(Boundary::Page);
    }
    assert(boundaries@ =~= Seq::new(count as nat, |i: int| Boundary::Page));
    boundaries
}

/// Appends a warning for each oversized page.
fn push_oversized(warnings: &mut Vec<Warning>, diagnostics: &Vec<Diagnostic>)
    ensures
        index::warning_views(final(warnings)@) == index::warning_views(old(warnings)@)
            + oversized_warnings(diagnostics@),
{
    let ghost before = index::warning_views(warnings@);
    let ghost added = oversized_warnings(diagnostics@);
    let mut i: usize = 0;
    assert(index::warning_views(warnings@) =~= before + added.take(0));
    while i < diagnostics.len()
        invariant
            i <= diagnostics@.len(),
            added == oversized_warnings(diagnostics@),
            index::warning_views(warnings@) == before + added.take(i as int),
        decreases diagnostics@.len() - i,
    {
        let ghost now = index::warning_views(warnings@);
        match &diagnostics[i] {
            Diagnostic::OversizedPage { page, tokens } => {
                warnings.push(Warning::OversizedPage { page: *page, tokens: *tokens });
            },
        }
        assert(index::warning_views(warnings@) =~= now.push(added[i as int]));
        assert(now.push(added[i as int]) =~= before + added.take(i + 1));
        i = i + 1;
    }
    assert(added.take(i as int) =~= added);
}

/// Plans the chunks of a document and says what is to be written and said about them.
pub fn prepare(job: &Job, facts: Facts) -> (report: Report)
    requires
        facts.fit(),
    ensures
        job.is_done_by(facts, report),
{
    let page_count: usize = facts.tokens.len();
    let mut warnings: Vec<Warning> = content_warnings(
        facts.tokens.as_slice(),
        facts.images.as_slice(),
    );
    let ghost content = index::warning_views(warnings@);
    let falls_back: bool = job.requested != SplitAt::Page && !facts.has_outline;
    let split_at: SplitAt = if falls_back {
        SplitAt::Page
    } else {
        job.requested
    };
    let ghost fallback: Seq<index::WarningView> = if falls_back {
        seq![index::WarningView::OutlineMissing { requested: job.requested.name() }]
    } else {
        Seq::empty()
    };
    if falls_back {
        warnings.push(Warning::OutlineMissing { requested: job.requested.to_string() });
    }
    assert(index::warning_views(warnings@) =~= content + fallback);
    let boundaries: Vec<Boundary> = if falls_back {
        page_boundaries(page_count)
    } else {
        facts.boundaries
    };
    let tokens: &[usize] = facts.tokens.as_slice();
    let marks: &[Boundary] = boundaries.as_slice();
    let planned: PlanResult = plan_chunks(tokens, marks, split_at, job.max_tokens);
    let ghost doc = job.doc(facts);
    let ghost spans = doc.plan(split_at);
    proof {
        assert(plan::layout(tokens, marks, job.max_tokens) == doc);
        doc.plan_is_sound(split_at);
        lemma_part_of_sum(facts.tokens@, 0, facts.tokens@.len() as int);
    }
    push_oversized(&mut warnings, &planned.diagnostics);
    let prefix: String = choose_prefix(&job.prefix, &job.stem);
    let entries: Vec<ChunkEntry> = list_entries(
        &planned.chunks,
        &facts.tokens,
        prefix.as_str(),
        Ghost(doc),
        Ghost(spans),
    );
    let notices: Vec<String> = if job.quiet {
        Vec::new()
    } else {
        list_notices(&warnings, job.path.as_str(), job.max_tokens)
    };
    let headline: Option<String> = if job.verbose {
        let mut line = "tchunk-pdf: ".to_owned();
        text::push_decimal(&mut line, page_count as u64);
        line.append(" pages -> ");
        text::push_decimal(&mut line, planned.chunks.len() as u64);
        line.append(" chunks (budget ");
        text::push_decimal(&mut line, job.max_tokens as u64);
        line.append(" tokens, split-at ");
        line.append(split_at.to_string().as_str());
        line.append(", tokenizer ");
        line.append(job.tokenizer.as_str());
        line.append(")");
        Some(line)
    } else {
        None
    };
    let chunk_lines: Vec<String> = if job.verbose {
        list_chunk_lines(&entries)
    } else {
        Vec::new()
    };
    assert(job.quiet ==> line_views(notices@) =~= Seq::empty());
    assert(!job.verbose ==> line_views(chunk_lines@) =~= Seq::empty());
    let total_tokens: usize = sum_range(&facts.tokens, 0, page_count);
    let effective: SplitAt = finest_level(&planned.chunks, split_at, Ghost(spans));
    let mut index_name: String = prefix.clone();
    index_name.append(".index.json");
    let index = Index {
        tool: "tchunk-pdf",
        version: job.version,
        source: Source { path: job.path.clone(), page_count, total_tokens },
        config: Config {
            tokenizer: job.tokenizer.clone(),
            max_tokens: job.max_tokens,
            split_at_requested: job.requested.to_string(),
            split_at_effective: effective.to_string(),
        },
        chunks: entries,
        warnings,
    };
    Report { notices, headline, chunk_lines, chunks: planned.chunks, index, index_name }
}

/// Why a run stops.
#[derive(Debug)]
pub enum RunError {
    /// Something is wrong with what the run was given.
    Input(String),
    /// Something could not be written.
    Output(String),
}

/// The exit code of a run that stops because of what it was given.
pub const EXIT_INPUT_ERROR: u8 = 1;

/// The exit code of a run that stops because something could not be written.
pub const EXIT_OUTPUT_ERROR: u8 = 3;

impl RunError {
    /// The exit code.
    pub fn exit_code(&self) -> (code: u8)
        ensures
            code == (match self {
                RunError::Input(_) => EXIT_INPUT_ERROR,
                RunError::Output(_) => EXIT_OUTPUT_ERROR,
            }),
    {
        match self {
            RunError::Input(_) => EXIT_INPUT_ERROR,
            RunError::Output(_) => EXIT_OUTPUT_ERROR,
        }
    }

    /// What is said about the error.
    pub open spec fn text(self) -> Seq<char> {
        match self {
            RunError::Input(why) => "error: "@ + why@,
            RunError::Output(why) => "error: "@ + why@,
        }
    }

    /// What is said about the error.
    pub fn message(&self) -> (text: String)
        ensures
            text@ == self.text(),
    {
        let mut text = "error: ".to_owned();
        match self {
            RunError::Input(why) => {
                text.append(why.as_str());
            },
            RunError::Output(why) => {
                text.append(why.as_str());
            },
        }
        text
    }
}

/// A document without pages is an error.
pub fn require_pages(page_count: usize, path: &str) -> (checked: Result<(), RunError>)
    ensures
        match checked {
            Ok(()) => page_count > 0,
            Err(error) => page_count == 0 && (error matches RunError::Input(why) && why@
                == "PDF contains no pages: "@ + path@),
        },
{
    if page_count > 0 {
        return Ok(());
    }
    let mut why = "PDF contains no pages: ".to_owned();
    why.append(path);
    Err(RunError::Input(why))
}

/// What stands above what is said about document `at`, counted from 0, of `total`: nothing where
/// there is only one, else a line that names the document, and an empty line to part it from the
/// one before.
pub open spec fn frame_of(path: Seq<char>, at: nat, total: nat) -> Seq<char> {
    if total <= 1 {
        Seq::empty()
    } else {
        (if at > 0 {
            "\n"@
        } else {
            Seq::empty()
        }) + "=== "@ + path + " ("@ + text::decimal(at + 1) + "/"@ + text::decimal(total)
            + ") ===\n"@
    }
}

/// What stands above what is said about document `at`, counted from 0, of `total`.
pub fn frame(path: &str, at: usize, total: usize) -> (line: String)
    requires
        at < total,
    ensures
        line@ == frame_of(path@, at as nat, total as nat),
{
    let mut line = String::new();
    if total > 1 {
        if at > 0 {
            line.append("\n");
        }
        line.append("=== ");
        line.append(path);
        line.append(" (");
        text::push_decimal(&mut line, at as u64 + 1);
        line.append("/");
        text::push_decimal(&mut line, total as u64);
        line.append(") ===\n");
    }
    assert(line@ =~= frame_of(path@, at as nat, total as nat));
    line
}

/// What is printed about a document's outline: the histogram if it is asked for, then the tree if
/// it is asked for.
pub open spec fn inspection_of(
    hist: bool,
    tree: bool,
    entries: Seq<OutlineEntry>,
    page_count: nat,
) -> Seq<char> {
    (if hist {
        inspect::histogram_text(entries, page_count)
    } else {
        Seq::empty()
    }) + (if tree {
        inspect::tree_text(entries, page_count)
    } else {
        Seq::empty()
    })
}

/// What is printed about a document's outline.
pub fn inspection(hist: bool, tree: bool, entries: &[OutlineEntry], page_count: usize) -> (out:
    String)
    requires
        hist && entries@.len() > 0 ==> page_count < u32::MAX,
        hist ==> forall|i: int|
            0 <= i < entries@.len() ==> (#[trigger] entries@[i]).depth < u32::MAX,
    ensures
        out@ == inspection_of(hist, tree, entries@, page_count as nat),
{
    let mut out = String::new();
    if hist {
        inspect::print_histogram(&mut out, entries, page_count);
    }
    if tree {
        inspect::print_tree(&mut out, entries, page_count);
    }
    assert(out@ =~= inspection_of(hist, tree, entries@, page_count as nat));
    out
}

/// Which tokenizer a run uses.
#[derive(Debug)]
pub enum TokenizerChoice {
    /// The one that counts words.
    Words,
    /// The one that a file holds.
    File(PathId),
    /// The one of a model.
    Model(String),
    /// The byte-pair encoding of this name.
    Encoding(&'static str),
}

/// Which tokenizer a run uses. A file goes before a model.
pub fn choose_tokenizer(cli: &Cli) -> (choice: TokenizerChoice)
    requires
        cli.tokenizer is HuggingFace ==> cli.tokenizer_file is Some || cli.tokenizer_model is Some,
    ensures
        match cli.tokenizer {
            TokenizerKind::WordCount => choice is Words,
            TokenizerKind::HuggingFace => match cli.tokenizer_file {
                Some(file) => choice == TokenizerChoice::File(file),
                None => choice matches TokenizerChoice::Model(model) && model@
                    == cli.tokenizer_model->0@,
            },
            _ => choice matches TokenizerChoice::Encoding(name) && name@ == cli.tokenizer.name(),
        },
{
    match cli.tokenizer {
        TokenizerKind::WordCount => TokenizerChoice::Words,
        TokenizerKind::HuggingFace => match cli.tokenizer_file {
            Some(file) => TokenizerChoice::File(file),
            None => match &cli.tokenizer_model {
                Some(model) => TokenizerChoice::Model(model.clone()),
                None => TokenizerChoice::Words,
            },
        },
        other => TokenizerChoice::Encoding(other.as_str()),
    }
}

/// What is said about the time that a run took.
pub fn timing_line(
    extract: &str,
    tokenize: &str,
    images: &str,
    total: usize,
    write: &str,
) -> (line: String)
    ensures
        line@ == "timing: extract "@ + extract@ + " | tokenize "@ + tokenize@ + " | image-scan "@
            + images@ + " | write "@ + text::decimal(total as nat) + " chunks "@ + write@,
{
    let mut line = "timing: extract ".to_owned();
    line.append(extract);
    line.append(" | tokenize ");
    line.append(tokenize);
    line.append(" | image-scan ");
    line.append(images);
    line.append(" | write ");
    text::push_decimal(&mut line, total as u64);
    line.append(" chunks ");
    line.append(write);
    line
}

/// A command line that was accepted for a run that splits names a source for its tokenizer
/// exactly when it needs one.
pub proof fn accepted_options_name_a_tokenizer(cli: Cli, inputs: Seq<PathId>)
    requires
        cli::option_fault(cli, inputs) is None,
        !cli.bookmarks_hist && !cli.bookmarks_tree,
    ensures
        cli.tokenizer is HuggingFace <==> cli.tokenizer_file is Some || cli.tokenizer_model is Some,
{
}

proof fn lemma_sorts_between(before: Seq<char>, s: Seq<char>, t: Seq<char>, behind: Seq<char>)
    requires
        text::sorts_before(s, t),
        s.len() == t.len(),
    ensures
        text::sorts_before(before + s + behind, before + t + behind),
{
    let k = choose|k: int|
        {
            &&& 0 <= k <= s.len()
            &&& k < t.len()
            &&& #[trigger] s.take(k) == t.take(k)
            &&& k < s.len() ==> s[k] < t[k]
        };
    let a = before + s + behind;
    let b = before + t + behind;
    let at = before.len() + k;
    assert(a.take(at) =~= before + s.take(k));
    assert(b.take(at) =~= before + t.take(k));
    assert(a[at] == s[k] && b[at] == t[k]);
    assert(a.take(at) == b.take(at));
}

/// The names of the chunks of one run stand in dictionary order.
pub proof fn chunk_names_sort(prefix: Seq<char>, total: nat, m: nat, n: nat)
    requires
        m < n <= total,
    ensures
        text::sorts_before(
            chunk_name(prefix, m, number_width(total)),
            chunk_name(prefix, n, number_width(total)),
        ),
{
    let width = number_width(total);
    text::larger_numbers_are_not_shorter(n, total);
    text::padded_numbers_sort(m, n, width);
    lemma_sorts_between(
        prefix + "_"@,
        text::right_aligned(m, '0', width),
        text::right_aligned(n, '0', width),
        ".pdf"@,
    );
}

/// No two chunks of one run have the same name.
pub proof fn chunk_names_differ(prefix: Seq<char>, total: nat, m: nat, n: nat)
    requires
        m < n <= total,
    ensures
        chunk_name(prefix, m, number_width(total)) != chunk_name(prefix, n, number_width(total)),
{
    chunk_names_sort(prefix, total, m, n);
    let s = chunk_name(prefix, m, number_width(total));
    let t = chunk_name(prefix, n, number_width(total));
    if s == t {
        let k = choose|k: int|
            {
                &&& 0 <= k <= s.len()
                &&& k < t.len()
                &&& #[trigger] s.take(k) == t.take(k)
                &&& k < s.len() ==> s[k] < t[k]
            };
        assert(s[k] < t[k]);
    }
}

/// The entries of the index cover the document: the first starts at page 1, each starts right
/// behind the one before it, the last ends at the last page, and each counts its pages.
pub proof fn entries_cover_the_document(job: Job, facts: Facts)
    requires
        facts.tokens@.len() > 0,
    ensures
        job.entries(facts).len() > 0,
        job.entries(facts)[0].start == 1,
        job.entries(facts).last().end == facts.tokens@.len(),
        forall|i: int|
            0 <= i < job.entries(facts).len() ==> (#[trigger] job.entries(facts)[i]).start
                <= job.entries(facts)[i].end && job.entries(facts)[i].count == job.entries(
                facts,
            )[i].end - job.entries(facts)[i].start + 1,
        forall|i: int, j: int|
            0 <= i && j == i + 1 && j < job.entries(facts).len() ==> (#[trigger] job.entries(
                facts,
            )[j]).start == (#[trigger] job.entries(facts)[i]).end + 1,
{
    let doc = job.doc(facts);
    let spans = job.spans(facts);
    doc.plan_is_sound(job.level(facts));
    let entries = job.entries(facts);
    assert forall|i: int| 0 <= i < entries.len() implies (#[trigger] entries[i]).start
        <= entries[i].end && entries[i].count == entries[i].end - entries[i].start + 1 by {
        assert(spans[i].start < spans[i].end);
    }
    assert forall|i: int, j: int|
        0 <= i && j == i + 1 && j < entries.len() implies (#[trigger] entries[j]).start == (
    #[trigger] entries[i]).end + 1 by {
        assert(spans[i].end == spans[j].start);
    }
}

/// The tokens in the first `n` entries.
pub open spec fn entry_tokens(entries: Seq<index::EntryView>, n: nat) -> nat
    decreases n,
{
    if n == 0 {
        0
    } else {
        entry_tokens(entries, (n - 1) as nat) + entries[n - 1].token_count
    }
}

proof fn lemma_entry_tokens(job: Job, facts: Facts, n: nat)
    requires
        n <= job.spans(facts).len(),
    ensures
        entry_tokens(job.entries(facts), n) == job.doc(facts).sum(
            0,
            if n == 0 {
                0
            } else {
                job.spans(facts)[n - 1].end
            },
        ),
    decreases n,
{
    let doc = job.doc(facts);
    let spans = job.spans(facts);
    doc.plan_is_sound(job.level(facts));
    if n > 0 {
        lemma_entry_tokens(job, facts, (n - 1) as nat);
        let span = spans[n - 1];
        laws::lemma_tiles_within(spans, 0, facts.tokens@.len() as int, n - 1);
        if n > 1 {
            assert(spans[n - 2].end == span.start);
        }
        doc.lemma_sum_split(0, span.start, span.end);
        assert(job.entries(facts)[n - 1].token_count == doc.sum(span.start, span.end));
    }
}

/// The token counts of the entries add up to the document's tokens.
pub proof fn entry_tokens_add_up(job: Job, facts: Facts)
    ensures
        entry_tokens(job.entries(facts), job.entries(facts).len()) == model::token_sum(
            facts.tokens@,
            0,
            facts.tokens@.len() as int,
        ),
{
    job.doc(facts).plan_is_sound(job.level(facts));
    lemma_entry_tokens(job, facts, job.spans(facts).len());
}

/// Each entry's tokens are within the budget, or the entry is a single page.
pub proof fn entries_respect_the_budget(job: Job, facts: Facts, i: int)
    requires
        0 <= i < job.entries(facts).len(),
    ensures
        job.entries(facts)[i].token_count <= job.max_tokens || job.entries(facts)[i].count == 1,
{
    job.doc(facts).plan_is_sound(job.level(facts));
    assert(job.doc(facts).within_budget(job.spans(facts)[i]));
}

/// The finest level is the level of some span, and no span's level is finer.
pub proof fn finest_is_finest(spans: Seq<Span>, otherwise: SplitAt)
    requires
        spans.len() > 0,
    ensures
        forall|i: int|
            0 <= i < spans.len() ==> (#[trigger] spans[i]).level.fineness() <= finest(
                spans,
                otherwise,
            ).fineness(),
        exists|i: int|
            0 <= i < spans.len() && (#[trigger] spans[i]).level == finest(spans, otherwise),
    decreases spans.len(),
{
    if spans.len() > 1 {
        let shorter = spans.drop_last();
        finest_is_finest(shorter, otherwise);
        let last = spans.len() - 1;
        assert(forall|i: int| 0 <= i < shorter.len() ==> shorter[i] == #[trigger] spans[i]);
        let at = choose|i: int|
            0 <= i < shorter.len() && (#[trigger] shorter[i]).level == finest(shorter, otherwise);
        assert(spans[at].level == finest(shorter, otherwise));
        assert(spans[last].level == spans.last().level);
    } else {
        assert(spans[0].level == finest(spans, otherwise));
    }
}

/// The effective level of a run is at least as fine as the level at which it splits.
pub proof fn effective_level_is_not_coarser(job: Job, facts: Facts)
    ensures
        job.level(facts).fineness() <= finest(job.spans(facts), job.level(facts)).fineness(),
{
    let spans = job.spans(facts);
    job.doc(facts).plan_is_sound(job.level(facts));
    if spans.len() > 0 {
        finest_is_finest(spans, job.level(facts));
        assert(job.level(facts).fineness() <= spans[0].level.fineness());
    }
}

/// The pages with almost no text are those with fewer than 20 tokens; the pages that are mostly image
/// are those with an image and fewer than 50 tokens.
pub proof fn poor_pages_are_counted(tokens: Seq<usize>, images: Seq<usize>, n: nat)
    ensures
        near_empty_pages(tokens) == tokens.filter(|t: usize| t < 20).len(),
        image_pages(tokens, images, n) == Seq::new(n, |i: int| i).filter(
            |i: int| images[i] >= 1 && tokens[i] < 50,
        ).len(),
{
    lemma_near_empty(tokens);
    lemma_image_pages(tokens, images, n);
}

proof fn lemma_near_empty(tokens: Seq<usize>)
    ensures
        near_empty_pages(tokens) == tokens.filter(|t: usize| t < 20).len(),
    decreases tokens.len(),
{
    reveal(Seq::filter);
    if tokens.len() > 0 {
        lemma_near_empty(tokens.drop_last());
    }
}

proof fn lemma_image_pages(tokens: Seq<usize>, images: Seq<usize>, n: nat)
    ensures
        image_pages(tokens, images, n) == Seq::new(n, |i: int| i).filter(
            |i: int| images[i] >= 1 && tokens[i] < 50,
        ).len(),
    decreases n,
{
    reveal(Seq::filter);
    if n > 0 {
        lemma_image_pages(tokens, images, (n - 1) as nat);
        assert(Seq::new(n, |i: int| i).drop_last() =~= Seq::new((n - 1) as nat, |i: int| i));
    }
}

/// A document seems scanned if at least half of its pages have almost no text. If it does not, and
/// some of its pages are mostly image, that is said; and otherwise nothing. What is said tells how
/// many pages it is about, and how many there are.
pub proof fn content_is_judged_by_its_poor_pages(tokens: Seq<usize>, images: Seq<usize>)
    requires
        images.len() == tokens.len(),
    ensures
        ({
            let empty = tokens.filter(|t: usize| t < 20).len();
            let affected = Seq::new(tokens.len(), |i: int| i).filter(
                |i: int| images[i] >= 1 && tokens[i] < 50,
            ).len();
            content_warnings_of(tokens, images) == (if tokens.len() > 0 && 2 * empty
                >= tokens.len() {
                seq![
                    index::WarningView::ScanLike {
                        near_empty_pages: empty,
                        total_pages: tokens.len(),
                    },
                ]
            } else if tokens.len() > 0 && affected > 0 {
                seq![
                    index::WarningView::ImageDominant {
                        pages_affected: affected,
                        total_pages: tokens.len(),
                    },
                ]
            } else {
                Seq::empty()
            })
        }),
{
    poor_pages_are_counted(tokens, images, tokens.len());
    let empty = near_empty_pages(tokens);
    let total = tokens.len();
    if total > 0 {
        assert(empty * 100 / total >= 50 <==> 2 * empty >= total) by (nonlinear_arith)
            requires
                total > 0,
        ;
    }
}

/// What is said about each warning, with the numbers that it holds.
pub proof fn notices_tell_the_numbers(
    path: Seq<char>,
    max_tokens: nat,
    some: nat,
    total: nat,
    page: u32,
    tokens: usize,
    requested: Seq<char>,
)
    ensures
        notice_of(
            index::WarningView::ScanLike { near_empty_pages: some, total_pages: total },
            path,
            max_tokens,
        ) == "warning: "@ + path + " appears to be scanned/image-based ("@ + text::decimal(some)
            + "/"@ + text::decimal(total)
            + " pages have almost no extractable text). Token-based splitting will not reflect actual content size. Consider running the PDF through an OCR tool such as ocrmypdf (https://github.com/ocrmypdf/OCRmyPDF) first — it adds a searchable text layer while preserving the original images."@,
        notice_of(
            index::WarningView::ImageDominant { pages_affected: some, total_pages: total },
            path,
            max_tokens,
        ) == "warning: "@ + text::decimal(some) + " of "@ + text::decimal(total)
            + " pages contain significant non-text content (images/figures). Token counts underestimate their size; downstream tools may handle them differently."@,
        notice_of(index::WarningView::OutlineMissing { requested }, path, max_tokens)
            == "warning: no outline present in PDF; --split-at "@ + requested
            + " ignored, falling back to page."@,
        notice_of(index::WarningView::OversizedPage { page, tokens }, path, max_tokens)
            == "warning: page "@ + text::decimal(page as nat) + " has "@ + text::decimal(
            tokens as nat,
        ) + " tokens, which exceeds --max-tokens "@ + text::decimal(max_tokens)
            + "; emitted as its own chunk."@,
{
}

/// The numbers in the names of chunks have at least three digits, and as many as the number of chunks
/// has, but no more than these two ask for.
pub proof fn numbers_are_as_wide_as_needed(total: nat)
    ensures
        3 <= number_width(total),
        text::decimal(total).len() <= number_width(total),
        number_width(total) == 3 || number_width(total) == text::decimal(total).len(),
{
}

/// The name of a chunk: what names begin with, an underscore, its number filled up with zeros, and
/// the ending. Names begin with the prefix that was asked for, else with the stem of the input's
/// name, else with a word.
pub proof fn chunks_are_named_by_number(
    prefix: Option<String>,
    stem: Option<String>,
    number: nat,
    width: nat,
)
    ensures
        chunk_name(prefix_of(prefix, stem), number, width) == (match (prefix, stem) {
            (Some(prefix), _) => prefix@,
            (None, Some(stem)) => stem@,
            (None, None) => "chunk"@,
        }) + "_"@ + text::right_aligned(number, '0', width) + ".pdf"@,
{
}

/// Where an outline is needed and there is none, the document is split at page level and its
/// bookmarks are not looked at; otherwise it is split as asked for. The budget and the token counts
/// are those given.
pub proof fn a_missing_outline_means_page_level(job: Job, facts: Facts)
    ensures
        job.requested !is Page && !facts.has_outline ==> job.level(facts) is Page && (forall|i: int|
            0 <= i < facts.tokens@.len() ==> #[trigger] job.doc(facts).boundaries[i]
                == Boundary::Page) && job.doc(facts).boundaries.len() == facts.tokens@.len(),
        job.requested is Page || facts.has_outline ==> job.level(facts) == job.requested && job.doc(
            facts,
        ).boundaries == facts.boundaries@,
        job.doc(facts).tokens == facts.tokens@,
        job.doc(facts).budget == job.max_tokens,
        job.spans(facts) == job.doc(facts).plan(job.level(facts)),
{
}

/// What is warned of, in order: the content, the missing outline where one is needed, and each page
/// that exceeds the budget.
pub proof fn warnings_come_in_order(job: Job, facts: Facts)
    requires
        facts.tokens@.len() <= u32::MAX,
    ensures
        ({
            let all = job.warnings(facts);
            let content = content_warnings_of(facts.tokens@, facts.images@);
            let missing = job.requested !is Page && !facts.has_outline;
            let n = content.len() + (if missing {
                1int
            } else {
                0int
            });
            &&& n <= all.len()
            &&& all.take(content.len() as int) == content
            &&& missing ==> all[content.len() as int] == (index::WarningView::OutlineMissing {
                requested: job.requested.name(),
            })
            &&& forall|i: int|
                n <= i < all.len() ==> (#[trigger] all[i] matches index::WarningView::OversizedPage {
                    page,
                    tokens,
                } && 1 <= page <= facts.tokens@.len() && tokens == facts.tokens@[page - 1]
                    && tokens > job.max_tokens)
            &&& forall|page: u32|
                1 <= page <= facts.tokens@.len() && #[trigger] facts.tokens@[page - 1]
                    > job.max_tokens ==> all.skip(n).contains(
                    index::WarningView::OversizedPage { page, tokens: facts.tokens@[page - 1] },
                )
            &&& forall|i: int, j: int|
                n <= i < j < all.len() ==> (#[trigger] all[i])->OversizedPage_page < (
                #[trigger] all[j])->OversizedPage_page
        }),
{
    let doc = job.doc(facts);
    let total = facts.tokens@.len() as int;
    let all = job.warnings(facts);
    let content = content_warnings_of(facts.tokens@, facts.images@);
    let missing = job.requested !is Page && !facts.has_outline;
    let n: int = content.len() + (if missing {
        1int
    } else {
        0int
    });
    let told = plan::oversized_pages(doc, 0, total);
    let large = oversized_warnings(told);
    assert(all.take(content.len() as int) =~= content);
    assert(all.skip(n) =~= large);
    guarantees::diagnostics_name_the_large_pages(doc, 0);
    assert forall|i: int| n <= i < all.len() implies (
    #[trigger] all[i] matches index::WarningView::OversizedPage { page, tokens } && 1 <= page
        <= facts.tokens@.len() && tokens == facts.tokens@[page - 1] && tokens > job.max_tokens) by {
        assert(all[i] == large[i - n]);
        assert(told[i - n] is OversizedPage);
    }
    assert forall|page: u32|
        1 <= page <= facts.tokens@.len() && #[trigger] facts.tokens@[page - 1]
            > job.max_tokens implies all.skip(n).contains(
        index::WarningView::OversizedPage { page, tokens: facts.tokens@[page - 1] },
    ) by {
        guarantees::diagnostics_name_the_large_pages(doc, page);
        let one = Diagnostic::OversizedPage { page, tokens: facts.tokens@[page - 1] };
        let k = choose|k: int| 0 <= k < told.len() && told[k] == one;
        assert(large[k] == index::WarningView::OversizedPage {
            page,
            tokens: facts.tokens@[page - 1],
        });
    }
    assert forall|i: int, j: int| n <= i < j < all.len() implies (
    #[trigger] all[i])->OversizedPage_page < (#[trigger] all[j])->OversizedPage_page by {
        assert(all[i] == large[i - n] && all[j] == large[j - n]);
        assert(told[i - n]->page < told[j - n]->page);
    }
}

/// The index tells of each chunk what it is: the name of its file, its first and last page and how
/// many pages it has, the tokens on them, and the level at which it was cut.
pub proof fn index_tells_of_each_chunk(job: Job, facts: Facts, report: Report, i: int)
    requires
        facts.fit(),
        job.is_done_by(facts, report),
        0 <= i < report.chunks@.len(),
    ensures
        report.index.chunks@.len() == report.chunks@.len(),
        ({
            let entry = report.index.chunks@[i];
            let pages = report.chunks@[i].pages@;
            &&& entry.pages.start == pages[0]
            &&& entry.pages.end == pages.last()
            &&& entry.pages.count == pages.len()
            &&& entry.token_count == guarantees::tokens_of(facts.tokens@, pages)
            &&& entry.effective_level@ == report.chunks@[i].effective_level.name()
            &&& entry.filename@ == chunk_name(
                prefix_of(job.prefix, job.stem),
                (i + 1) as nat,
                number_width(report.chunks@.len()),
            )
        }),
{
    let doc = job.doc(facts);
    let spans = job.spans(facts);
    let chunks = report.chunks@;
    assert(index::entry_views(report.index.chunks@).len() == report.index.chunks@.len());
    assert(index::entry_views(report.index.chunks@)[i] == report.index.chunks@[i]@);
    guarantees::chunk_lists_its_span(doc, job.level(facts), chunks, i);
}

/// The index tells of the document and of how it was split: its path, its pages, its tokens, the
/// tokenizer, the budget, the level that was asked for and the finest one that was used. The index
/// is named like the chunks.
pub proof fn index_tells_of_the_document(job: Job, facts: Facts, report: Report)
    requires
        facts.fit(),
        job.is_done_by(facts, report),
    ensures
        report.index.tool@ == "tchunk-pdf"@,
        report.index.version@ == job.version@,
        report.index.source.path@ == job.path@,
        report.index.source.page_count == facts.tokens@.len(),
        report.index.source.total_tokens == facts.tokens@.fold_left(
            0int,
            |sum: int, t: usize| sum + t,
        ),
        report.index.config.tokenizer@ == job.tokenizer@,
        report.index.config.max_tokens == job.max_tokens,
        report.index.config.split_at_requested@ == job.requested.name(),
        report.chunks@.len() > 0 ==> exists|i: int|
            0 <= i < report.chunks@.len() && report.index.config.split_at_effective@ == (
            #[trigger] report.chunks@[i]).effective_level.name() && (forall|j: int|
                0 <= j < report.chunks@.len() ==> (
                #[trigger] report.chunks@[j]).effective_level.fineness()
                    <= report.chunks@[i].effective_level.fineness()),
        report.index_name@ == prefix_of(job.prefix, job.stem) + ".index.json"@,
{
    laws::sum_adds_up_the_pages(facts.tokens@, 0, facts.tokens@.len() as int);
    assert(facts.tokens@.subrange(0, facts.tokens@.len() as int) =~= facts.tokens@);
    let spans = job.spans(facts);
    let chunks = report.chunks@;
    if chunks.len() > 0 {
        finest_is_finest(spans, job.level(facts));
        let i = choose|i: int|
            0 <= i < spans.len() && (#[trigger] spans[i]).level == finest(spans, job.level(facts));
        assert(plan::chunk_is(chunks[i], spans[i]));
        assert forall|j: int| 0 <= j < chunks.len() implies (
        #[trigger] chunks[j]).effective_level.fineness()
            <= chunks[i].effective_level.fineness() by {
            assert(plan::chunk_is(chunks[j], spans[j]));
        }
    }
}

/// What is said of a run: what is warned of, one line for each warning of the index, unless nothing is
/// to be said; and about the plan and each chunk where more is to be said.
pub proof fn reports_say_what_is_asked_for(job: Job, facts: Facts, report: Report)
    requires
        facts.fit(),
        job.is_done_by(facts, report),
    ensures
        job.quiet ==> report.notices@.len() == 0,
        !job.quiet ==> report.notices@.len() == report.index.warnings@.len() && (forall|i: int|
            0 <= i < report.notices@.len() ==> (#[trigger] report.notices@[i])@ == notice_of(
                report.index.warnings@[i]@,
                job.path@,
                job.max_tokens as nat,
            )),
        report.headline is Some <==> job.verbose,
        report.headline matches Some(line) ==> line@ == "tchunk-pdf: "@ + text::decimal(
            facts.tokens@.len(),
        ) + " pages -> "@ + text::decimal(report.chunks@.len()) + " chunks (budget "@
            + text::decimal(job.max_tokens as nat) + " tokens, split-at "@ + job.level(facts).name()
            + ", tokenizer "@ + job.tokenizer@ + ")"@,
        !job.verbose ==> report.chunk_lines@.len() == 0,
        job.verbose ==> report.chunk_lines@.len() == report.chunks@.len() && (forall|i: int|
            0 <= i < report.chunk_lines@.len() ==> (#[trigger] report.chunk_lines@[i])@ == "  "@
                + report.index.chunks@[i].filename@ + ": pages "@ + text::decimal(
                report.index.chunks@[i].pages.start as nat,
            ) + "-"@ + text::decimal(report.index.chunks@[i].pages.end as nat) + " ("@
                + text::decimal(report.index.chunks@[i].pages.count as nat) + " pages, "@
                + text::decimal(report.index.chunks@[i].token_count as nat) + " tokens, level "@
                + report.index.chunks@[i].effective_level@ + ")"@),
        index::warning_views(report.index.warnings@) == job.warnings(facts),
{
    let notices = line_views(report.notices@);
    let lines = line_views(report.chunk_lines@);
    assert(notices.len() == report.notices@.len());
    assert(lines.len() == report.chunk_lines@.len());
    assert(index::warning_views(report.index.warnings@).len() == report.index.warnings@.len());
    assert(index::entry_views(report.index.chunks@).len() == report.index.chunks@.len());
    if !job.quiet {
        assert forall|i: int| 0 <= i < report.notices@.len() implies (
        #[trigger] report.notices@[i])@ == notice_of(
            report.index.warnings@[i]@,
            job.path@,
            job.max_tokens as nat,
        ) by {
            assert(notices[i] == report.notices@[i]@);
            assert(index::warning_views(report.index.warnings@)[i]
                == report.index.warnings@[i]@);
        }
    }
    if job.verbose {
        assert forall|i: int| 0 <= i < report.chunk_lines@.len() implies (
        #[trigger] report.chunk_lines@[i])@ == chunk_line_of(report.index.chunks@[i]@) by {
            assert(lines[i] == report.chunk_lines@[i]@);
            assert(index::entry_views(report.index.chunks@)[i] == report.index.chunks@[i]@);
        }
    }
}

/// What a warning is as a mathematical value holds the same numbers and the same text.
pub proof fn warnings_are_told_as_they_are(
    some: usize,
    total: usize,
    page: u32,
    tokens: usize,
    requested: String,
)
    ensures
        (Warning::OutlineMissing { requested })@ == (index::WarningView::OutlineMissing {
            requested: requested@,
        }),
        (Warning::OversizedPage { page, tokens })@ == (index::WarningView::OversizedPage {
            page,
            tokens,
        }),
        (Warning::ScanLike { near_empty_pages: some, total_pages: total })@ == (
        index::WarningView::ScanLike { near_empty_pages: some as nat, total_pages: total as nat }),
        (Warning::ImageDominant { pages_affected: some, total_pages: total })@ == (
        index::WarningView::ImageDominant { pages_affected: some as nat, total_pages: total as nat
        }),
{
}

/// What stands above what is said about one of several documents: its path, its number and how many
/// there are, with an empty line before all but the first; nothing where there is only one.
pub proof fn documents_are_told_apart(path: Seq<char>, at: nat, total: nat)
    requires
        at < total,
    ensures
        total == 1 ==> frame_of(path, at, total).len() == 0,
        total > 1 && at == 0 ==> frame_of(path, at, total) == "=== "@ + path + " ("@
            + text::decimal(1) + "/"@ + text::decimal(total) + ") ===\n"@,
        total > 1 && at > 0 ==> frame_of(path, at, total) == "\n"@ + "=== "@ + path + " ("@
            + text::decimal(at + 1) + "/"@ + text::decimal(total) + ") ===\n"@,
{
    let nothing = Seq::<char>::empty();
    assert(nothing + "=== "@ =~= "=== "@);
}

/// What is printed about an outline: the histogram, the tree, or the one and then the other, as asked
/// for.
pub proof fn inspection_is_what_is_asked_for(entries: Seq<OutlineEntry>, page_count: nat)
    ensures
        inspection_of(true, false, entries, page_count) == inspect::histogram_text(
            entries,
            page_count,
        ),
        inspection_of(false, true, entries, page_count) == inspect::tree_text(entries, page_count),
        inspection_of(true, true, entries, page_count) == inspect::histogram_text(
            entries,
            page_count,
        ) + inspect::tree_text(entries, page_count),
        inspection_of(false, false, entries, page_count).len() == 0,
{
    let histogram = inspect::histogram_text(entries, page_count);
    let tree = inspect::tree_text(entries, page_count);
    assert(histogram + Seq::<char>::empty() =~= histogram);
    assert(Seq::<char>::empty() + tree =~= tree);
}

/// The text of an error begins with a word and says why; the exit code tells errors of what a run was
/// given, which is 1, from those of what it could not write, which is 3.
pub proof fn errors_are_told_apart(why: String)
    ensures
        RunError::Input(why).text() == "error: "@ + why@,
        RunError::Output(why).text() == "error: "@ + why@,
        EXIT_INPUT_ERROR == 1,
        EXIT_OUTPUT_ERROR == 3,
{
}

/// What was found out about a document can be used exactly if there is a boundary and a token count
/// for each page, the pages can be numbered, and the token counts add up to a machine word.
pub proof fn facts_can_be_used(facts: Facts)
    ensures
        facts.fit() <==> facts.tokens@.len() == facts.boundaries@.len() && facts.tokens@.len()
            <= u32::MAX && facts.tokens@.fold_left(0int, |sum: int, t: usize| sum + t)
            <= usize::MAX,
{
    laws::sum_adds_up_the_pages(facts.tokens@, 0, facts.tokens@.len() as int);
    assert(facts.tokens@.subrange(0, facts.tokens@.len() as int) =~= facts.tokens@);
}

} // verus!
