//! The index that goes with the chunks of a document: what was split, how, and into what.

use vstd::prelude::*;

verus! {

/// The index of one run.
#[derive(Debug)]
pub struct Index {
    pub tool: &'static str,
    pub version: &'static str,
    pub source: Source,
    pub config: Config,
    pub chunks: Vec<ChunkEntry>,
    pub warnings: Vec<Warning>,
}

/// The document that was split.
#[derive(Debug)]
pub struct Source {
    pub path: String,
    pub page_count: usize,
    pub total_tokens: usize,
}

/// How it was split.
#[derive(Debug)]
pub struct Config {
    pub tokenizer: String,
    pub max_tokens: usize,
    pub split_at_requested: String,
    /// The finest level that any chunk was cut at.
    pub split_at_effective: String,
}

/// One chunk.
#[derive(Debug)]
pub struct ChunkEntry {
    pub filename: String,
    pub pages: Pages,
    pub token_count: usize,
    pub effective_level: String,
}

/// The pages of a chunk: the first, the last, and how many they are.
#[derive(Debug, Clone, Copy, PartialEq, Eq, Structural)]
pub struct Pages {
    pub start: u32,
    pub end: u32,
    pub count: usize,
}

/// Something about the document that its reader should know.
#[derive(Debug, Clone)]
pub enum Warning {
    /// The document has no outline, so it was split at page level and not as requested.
    OutlineMissing { requested: String },
    /// The page exceeds the budget by itself.
    OversizedPage { page: u32, tokens: usize },
    /// So many pages have hardly any text that the document seems to be scanned.
    ScanLike { near_empty_pages: usize, total_pages: usize },
    /// Some pages have images and little text.
    ImageDominant { pages_affected: usize, total_pages: usize },
}

/// A warning, as a mathematical value.
pub enum WarningView {
    OutlineMissing { requested: Seq<char> },
    OversizedPage { page: u32, tokens: usize },
    ScanLike { near_empty_pages: nat, total_pages: nat },
    ImageDominant { pages_affected: nat, total_pages: nat },
}

impl View for Warning {
    type V = WarningView;

    open spec fn view(&self) -> WarningView {
        match *self {
            Warning::OutlineMissing { requested } => WarningView::OutlineMissing {
                requested: requested@,
            },
            Warning::OversizedPage { page, tokens } => WarningView::OversizedPage { page, tokens },
            Warning::ScanLike { near_empty_pages, total_pages } => WarningView::ScanLike {
                near_empty_pages: near_empty_pages as nat,
                total_pages: total_pages as nat,
            },
            Warning::ImageDominant { pages_affected, total_pages } => WarningView::ImageDominant {
                pages_affected: pages_affected as nat,
                total_pages: total_pages as nat,
            },
        }
    }
}

/// A chunk's entry, as a mathematical value.
pub struct EntryView {
    pub filename: Seq<char>,
    pub start: int,
    pub end: int,
    pub count: int,
    pub token_count: nat,
    pub effective_level: Seq<char>,
}

impl View for ChunkEntry {
    type V = EntryView;

    open spec fn view(&self) -> EntryView {
        EntryView {
            filename: self.filename@,
            start: self.pages.start as int,
            end: self.pages.end as int,
            count: self.pages.count as int,
            token_count: self.token_count as nat,
            effective_level: self.effective_level@,
        }
    }
}

/// The warnings as mathematical values.
pub open spec fn warning_views(warnings: Seq<Warning>) -> Seq<WarningView> {
    warnings.map_values(|warning: Warning| warning@)
}

/// The entries as mathematical values.
pub open spec fn entry_views(entries: Seq<ChunkEntry>) -> Seq<EntryView> {
    entries.map_values(|entry: ChunkEntry| entry@)
}

} // verus!
