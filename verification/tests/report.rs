use tchunk_pdf::cli::{Cli, TokenizerKind};
use tchunk_pdf::index::Warning;
use tchunk_pdf::level::{Boundary, SplitAt};
use tchunk_pdf::pdf::OutlineEntry;
use tchunk_pdf::report::{
    choose_prefix, choose_tokenizer, chunk_filename, content_warnings, frame, inspection, notice,
    pad_width, prepare, require_pages, timing_line, Facts, Job, RunError, TokenizerChoice,
};

fn job(requested: SplitAt, max_tokens: usize) -> Job {
    Job {
        path: "dir/book.pdf".to_string(),
        stem: Some("book".to_string()),
        prefix: None,
        tokenizer: "word_count".to_string(),
        version: "0.1.0",
        max_tokens,
        requested,
        quiet: false,
        verbose: false,
    }
}

fn facts(tokens: &[usize], boundaries: &[Boundary], has_outline: bool) -> Facts {
    Facts {
        tokens: tokens.to_vec(),
        images: vec![0; tokens.len()],
        boundaries: boundaries.to_vec(),
        has_outline,
    }
}

#[test]
fn widths_have_at_least_three_digits() {
    assert_eq!(pad_width(0), 3);
    assert_eq!(pad_width(9), 3);
    assert_eq!(pad_width(999), 3);
    assert_eq!(pad_width(1000), 4);
    assert_eq!(pad_width(123456), 6);
}

#[test]
fn chunk_names_are_numbered() {
    assert_eq!(chunk_filename("my-book", 1, 3), "my-book_001.pdf");
    assert_eq!(chunk_filename("my-book", 1234, 4), "my-book_1234.pdf");
    let width = pad_width(1200);
    let names: Vec<String> = (1..=1200).map(|i| chunk_filename("b", i, width)).collect();
    let mut sorted = names.clone();
    sorted.sort();
    sorted.dedup();
    assert_eq!(names, sorted);
}

#[test]
fn prefixes_are_chosen() {
    let some = |s: &str| Some(s.to_string());
    assert_eq!(choose_prefix(&some("p"), &some("s")), "p");
    assert_eq!(choose_prefix(&None, &some("s")), "s");
    assert_eq!(choose_prefix(&None, &None), "chunk");
}

#[test]
fn scanned_documents_are_told() {
    let warnings = content_warnings(&[19, 20, 0, 500], &[1, 1, 1, 1]);
    assert_eq!(warnings.len(), 1);
    assert!(matches!(
        warnings[0],
        Warning::ScanLike { near_empty_pages: 2, total_pages: 4 }
    ));
    assert_eq!(
        notice(&warnings[0], "a.pdf", 10),
        "warning: a.pdf appears to be scanned/image-based (2/4 pages have almost no extractable text). Token-based splitting will not reflect actual content size. Consider running the PDF through an OCR tool such as ocrmypdf (https://github.com/ocrmypdf/OCRmyPDF) first — it adds a searchable text layer while preserving the original images."
    );
}

#[test]
fn pages_of_images_are_told() {
    let warnings = content_warnings(&[19, 49, 50, 500, 500], &[1, 1, 1, 0, 2]);
    assert_eq!(warnings.len(), 1);
    assert!(matches!(
        warnings[0],
        Warning::ImageDominant { pages_affected: 2, total_pages: 5 }
    ));
    assert_eq!(
        notice(&warnings[0], "a.pdf", 10),
        "warning: 2 of 5 pages contain significant non-text content (images/figures). Token counts underestimate their size; downstream tools may handle them differently."
    );
    assert!(content_warnings(&[49, 500, 500], &[]).is_empty());
    assert!(content_warnings(&[], &[]).is_empty());
    assert!(content_warnings(&[100, 100], &[3, 3]).is_empty());
}

#[test]
fn a_report_lists_its_chunks() {
    let boundaries = [
        Boundary::Bookmark { depth: 1 },
        Boundary::Page,
        Boundary::Bookmark { depth: 1 },
        Boundary::Bookmark { depth: 2 },
    ];
    let mut job = job(SplitAt::Depth(1), 100);
    job.verbose = true;
    let report = prepare(&job, facts(&[60, 40, 90, 30], &boundaries, true));
    assert!(report.notices.is_empty());
    assert_eq!(
        report.headline.as_deref(),
        Some("tchunk-pdf: 4 pages -> 3 chunks (budget 100 tokens, split-at depth-1, tokenizer word_count)")
    );
    assert_eq!(
        report.chunk_lines,
        vec![
            "  book_001.pdf: pages 1-2 (2 pages, 100 tokens, level depth-1)",
            "  book_002.pdf: pages 3-3 (1 pages, 90 tokens, level depth-2)",
            "  book_003.pdf: pages 4-4 (1 pages, 30 tokens, level depth-2)",
        ]
    );
    assert_eq!(report.index_name, "book.index.json");
    let index = &report.index;
    assert_eq!((index.tool, index.version), ("tchunk-pdf", "0.1.0"));
    assert_eq!(index.source.path, "dir/book.pdf");
    assert_eq!((index.source.page_count, index.source.total_tokens), (4, 220));
    assert_eq!(index.config.tokenizer, "word_count");
    assert_eq!(index.config.max_tokens, 100);
    assert_eq!(index.config.split_at_requested, "depth-1");
    assert_eq!(index.config.split_at_effective, "depth-2");
    assert!(index.warnings.is_empty());
    let mut expected_next = 1;
    let mut tokens = 0;
    for (chunk, planned) in index.chunks.iter().zip(report.chunks.iter()) {
        assert_eq!(chunk.pages.start, expected_next);
        assert_eq!(chunk.pages.count as u32, chunk.pages.end - chunk.pages.start + 1);
        assert_eq!(planned.pages, (chunk.pages.start..=chunk.pages.end).collect::<Vec<u32>>());
        assert_eq!(chunk.effective_level, planned.effective_level.to_string());
        expected_next = chunk.pages.end + 1;
        tokens += chunk.token_count;
    }
    assert_eq!(expected_next, 5);
    assert_eq!(tokens, 220);
}

#[test]
fn a_missing_outline_falls_back_to_pages() {
    let boundaries = [Boundary::Bookmark { depth: 1 }, Boundary::Page, Boundary::Page];
    let report = prepare(&job(SplitAt::Depth(1), 60), facts(&[50, 50, 100], &boundaries, false));
    assert_eq!(
        report.notices,
        vec![
            "warning: no outline present in PDF; --split-at depth-1 ignored, falling back to page.",
            "warning: page 3 has 100 tokens, which exceeds --max-tokens 60; emitted as its own chunk.",
        ]
    );
    assert_eq!(report.index.warnings.len(), 2);
    assert!(matches!(&report.index.warnings[0],
        Warning::OutlineMissing { requested } if requested == "depth-1"));
    assert!(matches!(report.index.warnings[1], Warning::OversizedPage { page: 3, tokens: 100 }));
    assert_eq!(report.index.config.split_at_requested, "depth-1");
    assert_eq!(report.index.config.split_at_effective, "page");
    assert_eq!(report.chunks.len(), 3);
    assert!(report.headline.is_none() && report.chunk_lines.is_empty());
}

#[test]
fn quiet_runs_keep_their_warnings_in_the_index() {
    let mut job = job(SplitAt::Page, 60);
    job.quiet = true;
    job.prefix = Some("out".to_string());
    let report = prepare(&job, facts(&[100], &[Boundary::Page], false));
    assert!(report.notices.is_empty());
    assert_eq!(report.index.warnings.len(), 1);
    assert_eq!(report.index_name, "out.index.json");
    assert_eq!(report.index.chunks[0].filename, "out_001.pdf");
}

#[test]
fn facts_that_do_not_fit_are_told() {
    assert!(facts(&[1, 2], &[Boundary::Page; 2], true).check_fit());
    assert!(!facts(&[1, 2], &[Boundary::Page; 3], true).check_fit());
    assert!(!facts(&[usize::MAX, 1], &[Boundary::Page; 2], true).check_fit());
    assert!(facts(&[usize::MAX], &[Boundary::Page], true).check_fit());
}

#[test]
fn documents_need_pages() {
    assert!(require_pages(1, "x").is_ok());
    let error = require_pages(0, "x.pdf").unwrap_err();
    assert_eq!(error.message(), "error: PDF contains no pages: x.pdf");
    assert_eq!(error.exit_code(), 1);
    assert_eq!(RunError::Output("full".to_string()).exit_code(), 3);
    assert_eq!(RunError::Output("full".to_string()).message(), "error: full");
}

#[test]
fn several_documents_are_framed() {
    assert_eq!(frame("a.pdf", 0, 1), "");
    assert_eq!(frame("a.pdf", 0, 2), "=== a.pdf (1/2) ===\n");
    assert_eq!(frame("b.pdf", 1, 2), "\n=== b.pdf (2/2) ===\n");
}

#[test]
fn inspection_prints_the_histogram_before_the_tree() {
    let entries = vec![
        OutlineEntry { depth: 1, page: 1, title: "Chapter 1".to_string() },
        OutlineEntry { depth: 2, page: 2, title: "Section 1.1".to_string() },
    ];
    let hist = inspection(true, false, &entries, 2);
    let tree = inspection(false, true, &entries, 2);
    assert_eq!(inspection(true, true, &entries, 2), format!("{hist}{tree}"));
    assert!(hist.contains("at depth 1:"));
    assert_eq!(tree, "[p1] Chapter 1\n[p2]   Section 1.1\n");
    assert_eq!(inspection(false, false, &entries, 2), "");
}

#[test]
fn tokenizers_are_chosen() {
    let mut cli = Cli::new(vec![], 0);
    assert!(matches!(choose_tokenizer(&cli), TokenizerChoice::Words));
    cli.tokenizer = TokenizerKind::O200kBase;
    assert!(matches!(choose_tokenizer(&cli), TokenizerChoice::Encoding("o200k_base")));
    cli.tokenizer = TokenizerKind::HuggingFace;
    cli.tokenizer_model = Some("gpt2".to_string());
    assert!(matches!(choose_tokenizer(&cli), TokenizerChoice::Model(m) if m == "gpt2"));
    cli.tokenizer_file = Some(8);
    assert!(matches!(choose_tokenizer(&cli), TokenizerChoice::File(8)));
}

#[test]
fn times_are_told() {
    assert_eq!(
        timing_line("1.00s", "2ms", "3ms", 14, "4ms"),
        "timing: extract 1.00s | tokenize 2ms | image-scan 3ms | write 14 chunks 4ms"
    );
}
