use tchunk_pdf::cli::{
    needs_listing, validate_prefix, Cli, CliError, InputLookup, SplitAtArg, TokenizerKind,
    DEFAULT_MAX_TOKENS,
};
use tchunk_pdf::plan::SplitAt;

fn literal(text: &str) -> InputLookup {
    InputLookup { text: text.to_string(), exists: true, listing: Ok(vec![]) }
}

fn missing(text: &str) -> InputLookup {
    InputLookup { text: text.to_string(), exists: false, listing: Ok(vec![]) }
}

fn pattern(text: &str, paths: &[u64]) -> InputLookup {
    InputLookup {
        text: text.to_string(),
        exists: false,
        listing: Ok(paths.iter().map(|&p| Ok(p)).collect()),
    }
}

#[test]
fn ordinary_prefixes_accepted() {
    assert!(validate_prefix("book").is_ok());
    assert!(validate_prefix("my-document").is_ok());
    assert!(validate_prefix("chapter_01").is_ok());
    assert!(validate_prefix(".dotfile").is_ok());
    assert!(validate_prefix("name with spaces").is_ok());
}

#[test]
fn empty_prefix_rejected() {
    assert!(validate_prefix("").is_err());
}

#[test]
fn dot_and_dotdot_rejected() {
    assert!(validate_prefix(".").is_err());
    assert!(validate_prefix("..").is_err());
}

#[test]
fn separator_rejected() {
    assert!(validate_prefix("foo/bar").is_err());
    assert!(validate_prefix("foo\\bar").is_err());
    assert!(validate_prefix("../escape").is_err());
    assert!(validate_prefix("/absolute").is_err());
    assert!(validate_prefix("\\absolute").is_err());
}

#[test]
fn colon_rejected() {
    assert!(validate_prefix("C:foo").is_err());
    assert!(validate_prefix("file:stream").is_err());
}

#[test]
fn nul_rejected() {
    assert!(validate_prefix("foo\0bar").is_err());
}

#[test]
fn split_at_depth_resolves_to_depth_variant() {
    let mut cli = Cli::new(vec![0], 1);
    cli.split_at_depth = Some(5);
    assert_eq!(cli.resolved_split_at(), SplitAt::Depth(5));
}

#[test]
fn split_at_chapter_resolves_to_depth_1() {
    let mut cli = Cli::new(vec![0], 1);
    cli.split_at = SplitAtArg::Chapter;
    assert_eq!(cli.resolved_split_at(), SplitAt::Depth(1));
}

#[test]
fn split_at_any_bookmark_resolves_to_anybookmark() {
    let mut cli = Cli::new(vec![0], 1);
    cli.split_at = SplitAtArg::AnyBookmark;
    assert_eq!(cli.resolved_split_at(), SplitAt::AnyBookmark);
}

#[test]
fn default_split_at_is_chapter_depth_1() {
    let cli = Cli::new(vec![0], 1);
    assert_eq!(cli.resolved_split_at(), SplitAt::Depth(1));
}

#[test]
fn named_levels_stand_for_depths() {
    let named = [
        (SplitAtArg::Page, SplitAt::Page),
        (SplitAtArg::AnyBookmark, SplitAt::AnyBookmark),
        (SplitAtArg::Subsection, SplitAt::Depth(3)),
        (SplitAtArg::Section, SplitAt::Depth(2)),
        (SplitAtArg::Chapter, SplitAt::Depth(1)),
    ];
    for (arg, level) in named {
        assert_eq!(SplitAt::from(arg), level);
    }
}

#[test]
fn a_depth_goes_before_a_name() {
    let mut cli = Cli::new(vec![0], 1);
    cli.split_at = SplitAtArg::Page;
    cli.split_at_depth = Some(7);
    assert_eq!(cli.resolved_split_at(), SplitAt::Depth(7));
}

#[test]
fn defaults_are_those_of_a_bare_command_line() {
    let cli = Cli::new(vec![4, 5], 9);
    assert_eq!(cli.inputs, vec![4, 5]);
    assert_eq!(cli.output_dir, 9);
    assert_eq!(cli.max_tokens, 500_000);
    assert_eq!(DEFAULT_MAX_TOKENS, 500_000);
    assert_eq!(cli.tokenizer, TokenizerKind::WordCount);
    assert_eq!(cli.jobs, 1);
    assert!(!cli.inspection_mode());
}

#[test]
fn tokenizers_have_names() {
    assert_eq!(TokenizerKind::Cl100kBase.as_str(), "cl100k_base");
    assert_eq!(TokenizerKind::O200kBase.as_str(), "o200k_base");
    assert_eq!(TokenizerKind::WordCount.as_str(), "word_count");
    assert_eq!(TokenizerKind::HuggingFace.as_str(), "huggingface");
}

#[test]
fn only_unmatched_patterns_need_a_listing() {
    assert!(needs_listing(false, "*.pdf"));
    assert!(needs_listing(false, "a?.pdf"));
    assert!(needs_listing(false, "[ab].pdf"));
    assert!(!needs_listing(true, "*.pdf"));
    assert!(!needs_listing(false, "plain.pdf"));
}

#[test]
fn inputs_are_expanded_and_deduplicated_in_first_seen_order() {
    let mut cli = Cli::new(vec![10, 11, 12, 13], 0);
    let lookups = vec![
        literal("b.pdf"),
        pattern("*.pdf", &[30, 10, 20]),
        missing("absent.pdf"),
        pattern("?.pdf", &[20, 40]),
    ];
    assert!(cli.validate(&lookups).is_ok());
    assert_eq!(cli.inputs, vec![10, 30, 20, 12, 40]);
}

#[test]
fn an_existing_file_with_wildcards_in_its_name_is_kept() {
    let mut cli = Cli::new(vec![5], 0);
    let mut lookup = pattern("odd[name].pdf", &[99]);
    lookup.exists = true;
    assert!(cli.validate(&vec![lookup]).is_ok());
    assert_eq!(cli.inputs, vec![5]);
}

#[test]
fn a_pattern_without_matches_is_an_error() {
    let mut cli = Cli::new(vec![1, 2], 0);
    let error = cli.validate(&vec![literal("a.pdf"), pattern("*.none", &[])]).unwrap_err();
    assert!(matches!(&error, CliError::NoMatch { pattern } if pattern == "*.none"));
    assert_eq!(error.message(), "no files matched pattern: *.none");
    assert!(cli.inputs.is_empty());
}

#[test]
fn an_invalid_pattern_is_an_error() {
    let mut cli = Cli::new(vec![1], 0);
    let lookup = InputLookup {
        text: "a[\"b".to_string(),
        exists: false,
        listing: Err("unclosed".to_string()),
    };
    let error = cli.validate(&vec![lookup]).unwrap_err();
    assert!(matches!(&error, CliError::InvalidPattern { .. }));
    assert_eq!(error.message(), "invalid glob pattern \"a[\\\"b\": unclosed");
}

#[test]
fn an_entry_that_cannot_be_read_is_an_error() {
    let mut cli = Cli::new(vec![1], 0);
    let lookup = InputLookup {
        text: "d/*".to_string(),
        exists: false,
        listing: Ok(vec![Ok(7), Err("denied".to_string()), Err("later".to_string())]),
    };
    let error = cli.validate(&vec![lookup]).unwrap_err();
    assert!(matches!(&error, CliError::Unreadable { .. }));
    assert_eq!(error.message(), "error while expanding pattern \"d/*\": denied");
}

#[test]
fn a_prefix_is_ambiguous_with_several_inputs() {
    let mut cli = Cli::new(vec![1], 0);
    cli.prefix = Some("x".to_string());
    let error = cli.validate(&vec![pattern("*", &[1, 2, 3])]).unwrap_err();
    assert_eq!(
        error.message(),
        "--prefix is ambiguous with multiple inputs (3 given); omit it so each input uses its own stem, or run tchunk-pdf once per file."
    );
    assert_eq!(cli.inputs, vec![1, 2, 3]);
}

#[test]
fn prefix_errors_say_what_is_wrong() {
    assert_eq!(validate_prefix("").unwrap_err().message(), "--prefix must not be empty");
    assert_eq!(validate_prefix("..").unwrap_err().message(), "--prefix must not be \"..\"");
    assert_eq!(
        validate_prefix("a\\b/c").unwrap_err().message(),
        "--prefix must not contain path separators, ':' or NUL (got \"a\\\\b/c\", found '\\\\')"
    );
}

#[test]
fn a_hub_tokenizer_needs_a_source() {
    let mut cli = Cli::new(vec![1], 0);
    cli.tokenizer = TokenizerKind::HuggingFace;
    let error = cli.validate(&vec![literal("a")]).unwrap_err();
    assert!(matches!(error, CliError::MissingTokenizerSource));
    assert_eq!(
        error.message(),
        "-t huggingface requires --tokenizer-file <PATH> or --tokenizer-model <HF_MODEL_ID>"
    );
    let mut cli = Cli::new(vec![1], 0);
    cli.tokenizer = TokenizerKind::HuggingFace;
    cli.tokenizer_model = Some("gpt2".to_string());
    assert!(cli.validate(&vec![literal("a")]).is_ok());
}

#[test]
fn another_tokenizer_takes_no_source() {
    let mut cli = Cli::new(vec![1], 0);
    cli.tokenizer_file = Some(3);
    let error = cli.validate(&vec![literal("a")]).unwrap_err();
    assert!(matches!(error, CliError::UnexpectedTokenizerSource));
    assert_eq!(
        error.message(),
        "--tokenizer-file / --tokenizer-model only apply with -t huggingface"
    );
}

#[test]
fn inspection_asks_for_no_tokenizer_source() {
    let mut cli = Cli::new(vec![1], 0);
    cli.tokenizer = TokenizerKind::HuggingFace;
    cli.bookmarks_hist = true;
    assert!(cli.inspection_mode());
    assert!(cli.validate(&vec![literal("a")]).is_ok());
    let mut cli = Cli::new(vec![1], 0);
    cli.bookmarks_tree = true;
    cli.prefix = Some("a/b".to_string());
    assert!(cli.validate(&vec![literal("a")]).is_err());
}
