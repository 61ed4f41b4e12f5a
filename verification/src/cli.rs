//! What the command line asks for: its options, and the checks that go beyond parsing.
//!
//! A path is held by an identifier: two paths are the same path exactly when their identifiers are
//! the same number.

use crate::level::SplitAt;
use crate::text;
use crate::tokenize::same_text;
use vstd::prelude::*;
use vstd::string::*;

verus! {

/// The identifier of a path.
pub type PathId = u64;

/// `indexmap`'s set, which keeps its items in the order in which they came.
#[verifier::external_type_specification]
#[verifier::external_body]
#[verifier::reject_recursive_types(T)]
#[verifier::reject_recursive_types(S)]
pub struct ExIndexSet<T, S>(indexmap::IndexSet<T, S>);

/// The items of a set, in order.
pub uninterp spec fn set_items(set: indexmap::IndexSet<u64>) -> Seq<u64>;

/// The text that `{:?}` gives for a text.
pub uninterp spec fn quoted_text(text: Seq<char>) -> Seq<char>;

/// The text that `{:?}` gives for a character.
pub uninterp spec fn quoted_char(c: char) -> Seq<char>;

/// `indexmap::IndexSet::new`: a set without items.
#[verifier::external_body]
fn new_set() -> (set: indexmap::IndexSet<u64>)
    ensures
        set_items(set) == Seq::<u64>::empty(),
{
    indexmap::IndexSet::new()
}

/// `indexmap::IndexSet::insert`: puts an item behind the others, unless it is there.
#[verifier::external_body]
fn insert_item(set: &mut indexmap::IndexSet<u64>, item: u64)
    ensures
        set_items(*final(set)) == with_item(set_items(*old(set)), item),
{
    set.insert(item);
}

/// `indexmap::IndexSet::into_iter`: the items of a set, in order.
#[verifier::external_body]
fn into_items(set: indexmap::IndexSet<u64>) -> (items: Vec<u64>)
    ensures
        items@ == set_items(set),
{
    set.into_iter().collect()
}

/// The `Debug` of a `str`: the text in quotes, with special characters escaped.
#[verifier::external_body]
fn quote_text(text: &str) -> (quoted: String)
    ensures
        quoted@ == quoted_text(text@),
{
    format!("{text:?}")
}

/// The `Debug` of a `char`: the character in quotes, escaped where it is special.
#[verifier::external_body]
fn quote_char(c: char) -> (quoted: String)
    ensures
        quoted@ == quoted_char(c),
{
    format!("{c:?}")
}

/// The levels that have a name on the command line.
#[derive(Debug, Clone, Copy, PartialEq, Eq, Structural)]
pub enum SplitAtArg {
    Page,
    AnyBookmark,
    Subsection,
    Section,
    Chapter,
}

impl SplitAtArg {
    /// The level that the name stands for.
    pub open spec fn level(self) -> SplitAt {
        match self {
            SplitAtArg::Page => SplitAt::Page,
            SplitAtArg::AnyBookmark => SplitAt::AnyBookmark,
            SplitAtArg::Subsection => SplitAt::Depth(3),
            SplitAtArg::Section => SplitAt::Depth(2),
            SplitAtArg::Chapter => SplitAt::Depth(1),
        }
    }
}

impl From<SplitAtArg> for SplitAt {
    fn from(arg: SplitAtArg) -> (level: SplitAt) {
        match arg {
            SplitAtArg::Page => SplitAt::Page,
            SplitAtArg::AnyBookmark => SplitAt::AnyBookmark,
            SplitAtArg::Subsection => SplitAt::Depth(3),
            SplitAtArg::Section => SplitAt::Depth(2),
            SplitAtArg::Chapter => SplitAt::Depth(1),
        }
    }
}

impl vstd::std_specs::convert::FromSpecImpl<SplitAtArg> for SplitAt {
    open spec fn obeys_from_spec() -> bool {
        true
    }

    open spec fn from_spec(arg: SplitAtArg) -> SplitAt {
        arg.level()
    }
}

/// The ways of counting tokens.
#[derive(Debug, Clone, Copy, PartialEq, Eq, Structural)]
pub enum TokenizerKind {
    Cl100kBase,
    O200kBase,
    WordCount,
    HuggingFace,
}

impl TokenizerKind {
    /// The name on the command line.
    pub open spec fn name(self) -> Seq<char> {
        match self {
            TokenizerKind::Cl100kBase => "cl100k_base"@,
            TokenizerKind::O200kBase => "o200k_base"@,
            TokenizerKind::WordCount => "word_count"@,
            TokenizerKind::HuggingFace => "huggingface"@,
        }
    }

    /// The name on the command line.
    pub fn as_str(self) -> (name: &'static str)
        ensures
            name@ == self.name(),
    {
        match self {
            TokenizerKind::Cl100kBase => "cl100k_base",
            TokenizerKind::O200kBase => "o200k_base",
            TokenizerKind::WordCount => "word_count",
            TokenizerKind::HuggingFace => "huggingface",
        }
    }
}

/// The number of tokens that a chunk may hold where the command line does not say.
pub const DEFAULT_MAX_TOKENS: usize = 500_000;

/// What the command line asks for.
#[derive(Debug)]
pub struct Cli {
    /// The documents to be split.
    pub inputs: Vec<PathId>,
    /// The number of tokens that a chunk may hold.
    pub max_tokens: usize,
    /// The coarsest level at which a split is allowed.
    pub split_at: SplitAtArg,
    /// The outline depth at which a split is allowed, in place of `split_at`.
    pub split_at_depth: Option<u32>,
    /// Where the chunks go.
    pub output_dir: PathId,
    /// What the names of the chunks begin with, in place of the input's stem.
    pub prefix: Option<String>,
    /// How tokens are counted.
    pub tokenizer: TokenizerKind,
    /// The file that holds a HuggingFace tokenizer.
    pub tokenizer_file: Option<PathId>,
    /// The identifier of the model whose HuggingFace tokenizer is used.
    pub tokenizer_model: Option<String>,
    /// Say more about each chunk.
    pub verbose: bool,
    /// Say nothing about warnings.
    pub quiet: bool,
    /// The number of threads; 0 for as many as there are.
    pub jobs: usize,
    /// Print a histogram of the outline and do nothing else.
    pub bookmarks_hist: bool,
    /// Print the outline as a tree and do nothing else.
    pub bookmarks_tree: bool,
}

/// What was found out about one input argument.
#[derive(Debug)]
pub struct InputLookup {
    /// The argument as text.
    pub text: String,
    /// A file of exactly that name exists.
    pub exists: bool,
    /// What the argument, taken for a pattern, matches: the matching paths and what went wrong
    /// with single ones, or what is wrong with the pattern. Looked at only if the argument is
    /// taken for a pattern.
    pub listing: Result<Vec<Result<PathId, String>>, String>,
}

/// What is wrong with what the command line asks for.
#[derive(Debug)]
pub enum CliError {
    InvalidPattern { pattern: String, why: String },
    Unreadable { pattern: String, why: String },
    NoMatch { pattern: String },
    AmbiguousPrefix { count: usize },
    EmptyPrefix,
    DotPrefix { prefix: String },
    PrefixChar { prefix: String, found: char },
    MissingTokenizerSource,
    UnexpectedTokenizerSource,
}

/// What is wrong with what the command line asks for, as a mathematical value.
pub enum CliFault {
    InvalidPattern { pattern: Seq<char>, why: Seq<char> },
    Unreadable { pattern: Seq<char>, why: Seq<char> },
    NoMatch { pattern: Seq<char> },
    AmbiguousPrefix { count: nat },
    EmptyPrefix,
    DotPrefix { prefix: Seq<char> },
    PrefixChar { prefix: Seq<char>, found: char },
    MissingTokenizerSource,
    UnexpectedTokenizerSource,
}

impl View for CliError {
    type V = CliFault;

    open spec fn view(&self) -> CliFault {
        match *self {
            CliError::InvalidPattern { pattern, why } => CliFault::InvalidPattern {
                pattern: pattern@,
                why: why@,
            },
            CliError::Unreadable { pattern, why } => CliFault::Unreadable {
                pattern: pattern@,
                why: why@,
            },
            CliError::NoMatch { pattern } => CliFault::NoMatch { pattern: pattern@ },
            CliError::AmbiguousPrefix { count } => CliFault::AmbiguousPrefix {
                count: count as nat,
            },
            CliError::EmptyPrefix => CliFault::EmptyPrefix,
            CliError::DotPrefix { prefix } => CliFault::DotPrefix { prefix: prefix@ },
            CliError::PrefixChar { prefix, found } => CliFault::PrefixChar {
                prefix: prefix@,
                found,
            },
            CliError::MissingTokenizerSource => CliFault::MissingTokenizerSource,
            CliError::UnexpectedTokenizerSource => CliFault::UnexpectedTokenizerSource,
        }
    }
}

impl CliFault {
    /// What is said about it.
    pub open spec fn text(self) -> Seq<char> {
        match self {
            CliFault::InvalidPattern { pattern, why } => "invalid glob pattern "@ + quoted_text(
                pattern,
            ) + ": "@ + why,
            CliFault::Unreadable { pattern, why } => "error while expanding pattern "@
                + quoted_text(pattern) + ": "@ + why,
            CliFault::NoMatch { pattern } => "no files matched pattern: "@ + pattern,
            CliFault::AmbiguousPrefix { count } => "--prefix is ambiguous with multiple inputs ("@
                + text::decimal(count)
                + " given); omit it so each input uses its own stem, or run tchunk-pdf once per file."@,
            CliFault::EmptyPrefix => "--prefix must not be empty"@,
            CliFault::DotPrefix { prefix } => "--prefix must not be "@ + quoted_text(prefix),
            CliFault::PrefixChar { prefix, found } =>
                "--prefix must not contain path separators, ':' or NUL (got "@ + quoted_text(prefix)
                + ", found "@ + quoted_char(found) + ")"@,
            CliFault::MissingTokenizerSource =>
                "-t huggingface requires --tokenizer-file <PATH> or --tokenizer-model <HF_MODEL_ID>"@,
            CliFault::UnexpectedTokenizerSource =>
                "--tokenizer-file / --tokenizer-model only apply with -t huggingface"@,
        }
    }
}

impl CliError {
    /// What is said about the error.
    pub fn message(&self) -> (text: String)
        ensures
            text@ == self@.text(),
    {
        match self {
            CliError::InvalidPattern { pattern, why } => {
                let mut text = "invalid glob pattern ".to_owned();
                text.append(quote_text(pattern.as_str()).as_str());
                text.append(": ");
                text.append(why.as_str());
                text
            },
            CliError::Unreadable { pattern, why } => {
                let mut text = "error while expanding pattern ".to_owned();
                text.append(quote_text(pattern.as_str()).as_str());
                text.append(": ");
                text.append(why.as_str());
                text
            },
            CliError::NoMatch { pattern } => {
                let mut text = "no files matched pattern: ".to_owned();
                text.append(pattern.as_str());
                text
            },
            CliError::AmbiguousPrefix { count } => {
                let mut text = "--prefix is ambiguous with multiple inputs (".to_owned();
                text::push_decimal(&mut text, *count as u64);
                text.append(
                    " given); omit it so each input uses its own stem, or run tchunk-pdf once per file.",
                );
                text
            },
            CliError::EmptyPrefix => "--prefix must not be empty".to_owned(),
            CliError::DotPrefix { prefix } => {
                let mut text = "--prefix must not be ".to_owned();
                text.append(quote_text(prefix.as_str()).as_str());
                text
            },
            CliError::PrefixChar { prefix, found } => {
                let mut text =
                    "--prefix must not contain path separators, ':' or NUL (got ".to_owned();
                text.append(quote_text(prefix.as_str()).as_str());
                text.append(", found ");
                text.append(quote_char(*found).as_str());
                text.append(")");
                text
            },
            CliError::MissingTokenizerSource =>
                "-t huggingface requires --tokenizer-file <PATH> or --tokenizer-model <HF_MODEL_ID>".to_owned(),
            CliError::UnexpectedTokenizerSource =>
                "--tokenizer-file / --tokenizer-model only apply with -t huggingface".to_owned(),
        }
    }
}

/// The items with one more behind them, unless it is there.
pub open spec fn with_item(items: Seq<u64>, item: u64) -> Seq<u64> {
    if items.contains(item) {
        items
    } else {
        items.push(item)
    }
}

/// Each item once, in the order in which the items are first met.
pub open spec fn first_seen(items: Seq<u64>) -> Seq<u64>
    decreases items.len(),
{
    if items.len() == 0 {
        Seq::empty()
    } else {
        with_item(first_seen(items.drop_last()), items.last())
    }
}

/// The character makes a pattern of an argument.
pub open spec fn is_wildcard(c: char) -> bool {
    c == '*' || c == '?' || c == '['
}

/// The argument can be taken for a pattern.
pub open spec fn is_pattern(text: Seq<char>) -> bool {
    exists|i: int| 0 <= i < text.len() && is_wildcard(#[trigger] text[i])
}

/// The argument is taken for a pattern: no file is named exactly like it, and it can be one.
pub fn needs_listing(exists: bool, text: &str) -> (needed: bool)
    ensures
        needed == (!exists && is_pattern(text@)),
{
    if exists {
        return false;
    }
    for c in it: text.chars()
        invariant
            !exists,
            it.seq() == text@,
            forall|i: int| 0 <= i < it.index() ==> !is_wildcard(#[trigger] text@[i]),
    {
        if c == '*' || c == '?' || c == '[' {
            assert(is_wildcard(text@[it.index() as int]));
            return true;
        }
    }
    false
}

/// The paths in a listing, or what is wrong with the first that could not be read.
pub open spec fn listed(
    entries: Seq<Result<PathId, String>>,
    pattern: Seq<char>,
) -> Result<Seq<PathId>, CliFault>
    decreases entries.len(),
{
    if entries.len() == 0 {
        Ok(Seq::empty())
    } else {
        match listed(entries.drop_last(), pattern) {
            Ok(before) => match entries.last() {
                Ok(path) => Ok(before.push(path)),
                Err(why) => Err(CliFault::Unreadable { pattern, why: why@ }),
            },
            Err(fault) => Err(fault),
        }
    }
}

/// The paths that one argument stands for: itself where a file of that name exists or it cannot
/// be a pattern, else what it matches, which has to be something.
pub open spec fn stands_for(input: PathId, lookup: InputLookup) -> Result<Seq<PathId>, CliFault> {
    if lookup.exists || !is_pattern(lookup.text@) {
        Ok(seq![input])
    } else {
        match lookup.listing {
            Ok(entries) => if entries@.len() == 0 {
                Err(CliFault::NoMatch { pattern: lookup.text@ })
            } else {
                listed(entries@, lookup.text@)
            },
            Err(why) => Err(CliFault::InvalidPattern { pattern: lookup.text@, why: why@ }),
        }
    }
}

/// The paths that the arguments stand for, one argument after the other, or what is wrong with
/// the first argument that something is wrong with.
pub open spec fn all_paths(inputs: Seq<PathId>, lookups: Seq<InputLookup>) -> Result<
    Seq<PathId>,
    CliFault,
>
    decreases inputs.len(),
{
    if inputs.len() == 0 {
        Ok(Seq::empty())
    } else {
        match all_paths(inputs.drop_last(), lookups.drop_last()) {
            Ok(before) => match stands_for(inputs.last(), lookups.last()) {
                Ok(paths) => Ok(before + paths),
                Err(fault) => Err(fault),
            },
            Err(fault) => Err(fault),
        }
    }
}

/// The character could lead out of the output directory, or end the name.
pub open spec fn is_forbidden(c: char) -> bool {
    c == '/' || c == '\\' || c == ':' || c == '\0'
}

/// What is wrong with a prefix.
pub open spec fn prefix_fault(prefix: Seq<char>) -> Option<CliFault> {
    if prefix.len() == 0 {
        Some(CliFault::EmptyPrefix)
    } else if prefix == "."@ || prefix == ".."@ {
        Some(CliFault::DotPrefix { prefix })
    } else {
        match first_forbidden(prefix) {
            Some(found) => Some(CliFault::PrefixChar { prefix, found }),
            None => None,
        }
    }
}

/// The first forbidden character of a text.
pub open spec fn first_forbidden(text: Seq<char>) -> Option<char>
    decreases text.len(),
{
    if text.len() == 0 {
        None
    } else if is_forbidden(text[0]) {
        Some(text[0])
    } else {
        first_forbidden(text.skip(1))
    }
}

/// Rejects a prefix with which output files could leave the output directory. A prefix begins the
/// names of the files as it stands, so it has to be a single component of a path.
pub fn validate_prefix(prefix: &str) -> (checked: Result<(), CliError>)
    ensures
        match checked {
            Ok(()) => prefix_fault(prefix@) is None,
            Err(error) => prefix_fault(prefix@) == Some(error@),
        },
{
    if prefix.is_empty() {
        return Err(CliError::EmptyPrefix);
    }
    if same_text(prefix, ".") || same_text(prefix, "..") {
        return Err(CliError::DotPrefix { prefix: prefix.to_owned() });
    }
    assert(prefix@.skip(0) =~= prefix@);
    for c in it: prefix.chars()
        invariant
            it.seq() == prefix@,
            first_forbidden(prefix@) == first_forbidden(prefix@.skip(it.index() as int)),
            prefix@.len() > 0,
            prefix@ != "."@ && prefix@ != ".."@,
    {
        let ghost rest = prefix@.skip(it.index() as int);
        assert(rest[0] == c);
        assert(rest.skip(1) =~= prefix@.skip(it.index() + 1));
        if c == '/' || c == '\\' || c == ':' || c == '\0' {
            return Err(CliError::PrefixChar { prefix: prefix.to_owned(), found: c });
        }
    }
    Ok(())
}

/// What is wrong with the options for counting tokens.
pub open spec fn tokenizer_fault(cli: Cli) -> Option<CliFault> {
    let has_source = cli.tokenizer_file is Some || cli.tokenizer_model is Some;
    if cli.bookmarks_hist || cli.bookmarks_tree {
        None
    } else if cli.tokenizer is HuggingFace && !has_source {
        Some(CliFault::MissingTokenizerSource)
    } else if cli.tokenizer !is HuggingFace && has_source {
        Some(CliFault::UnexpectedTokenizerSource)
    } else {
        None
    }
}

/// What is wrong with the options, given the paths that the arguments stand for.
pub open spec fn option_fault(cli: Cli, inputs: Seq<PathId>) -> Option<CliFault> {
    match cli.prefix {
        Some(prefix) => if inputs.len() > 1 {
            Some(CliFault::AmbiguousPrefix { count: inputs.len() })
        } else {
            match prefix_fault(prefix@) {
                Some(fault) => Some(fault),
                None => tokenizer_fault(cli),
            }
        },
        None => tokenizer_fault(cli),
    }
}

proof fn lemma_listed_fault_stays(
    entries: Seq<Result<PathId, String>>,
    pattern: Seq<char>,
    n: int,
)
    requires
        0 <= n <= entries.len(),
    ensures
        listed(entries.take(n), pattern) matches Err(fault) ==> listed(entries, pattern) == Err::<
            Seq<PathId>,
            CliFault,
        >(fault),
    decreases entries.len() - n,
{
    if n < entries.len() {
        assert(entries.take(n + 1).drop_last() =~= entries.take(n));
        lemma_listed_fault_stays(entries, pattern, n + 1);
    } else {
        assert(entries.take(n) =~= entries);
    }
}

proof fn lemma_fault_stays(inputs: Seq<PathId>, lookups: Seq<InputLookup>, n: int)
    requires
        0 <= n <= inputs.len() == lookups.len(),
    ensures
        all_paths(inputs.take(n), lookups.take(n)) matches Err(fault) ==> all_paths(
            inputs,
            lookups,
        ) == Err::<Seq<PathId>, CliFault>(fault),
    decreases inputs.len() - n,
{
    if n < inputs.len() {
        assert(inputs.take(n + 1).drop_last() =~= inputs.take(n));
        assert(lookups.take(n + 1).drop_last() =~= lookups.take(n));
        lemma_fault_stays(inputs, lookups, n + 1);
    } else {
        assert(inputs.take(n) =~= inputs);
        assert(lookups.take(n) =~= lookups);
    }
}

impl Cli {
    /// The two ask for the same but for the inputs.
    pub open spec fn same_options(self, other: Cli) -> bool {
        &&& self.max_tokens == other.max_tokens
        &&& self.split_at == other.split_at
        &&& self.split_at_depth == other.split_at_depth
        &&& self.output_dir == other.output_dir
        &&& self.prefix == other.prefix
        &&& self.tokenizer == other.tokenizer
        &&& self.tokenizer_file == other.tokenizer_file
        &&& self.tokenizer_model == other.tokenizer_model
        &&& self.verbose == other.verbose
        &&& self.quiet == other.quiet
        &&& self.jobs == other.jobs
        &&& self.bookmarks_hist == other.bookmarks_hist
        &&& self.bookmarks_tree == other.bookmarks_tree
    }

    /// The level at which the command line asks for a split.
    pub open spec fn requested_level(self) -> SplitAt {
        match self.split_at_depth {
            Some(n) => SplitAt::Depth(n),
            None => self.split_at.level(),
        }
    }

    /// What a command line asks for that names the inputs and no options.
    pub fn new(inputs: Vec<PathId>, output_dir: PathId) -> (cli: Cli)
        ensures
            cli.inputs == inputs,
            cli.max_tokens == DEFAULT_MAX_TOKENS,
            cli.split_at == SplitAtArg::Chapter,
            cli.split_at_depth is None,
            cli.output_dir == output_dir,
            cli.prefix is None,
            cli.tokenizer == TokenizerKind::WordCount,
            cli.tokenizer_file is None,
            cli.tokenizer_model is None,
            !cli.verbose && !cli.quiet,
            cli.jobs == 1,
            !cli.bookmarks_hist && !cli.bookmarks_tree,
    {
        Cli {
            inputs,
            max_tokens: DEFAULT_MAX_TOKENS,
            split_at: SplitAtArg::Chapter,
            split_at_depth: None,
            output_dir,
            prefix: None,
            tokenizer: TokenizerKind::WordCount,
            tokenizer_file: None,
            tokenizer_model: None,
            verbose: false,
            quiet: false,
            jobs: 1,
            bookmarks_hist: false,
            bookmarks_tree: false,
        }
    }

    /// The level at which the command line asks for a split. A depth goes before a name.
    pub fn resolved_split_at(&self) -> (level: SplitAt)
        ensures
            level == self.requested_level(),
    {
        match self.split_at_depth {
            Some(n) => SplitAt::Depth(n),
            None => SplitAt::from(self.split_at),
        }
    }

    /// The outline is to be printed, and nothing else is to be done.
    pub fn inspection_mode(&self) -> (inspect: bool)
        ensures
            inspect == (self.bookmarks_hist || self.bookmarks_tree),
    {
        self.bookmarks_hist || self.bookmarks_tree
    }

    /// Checks what parsing cannot, and replaces the input arguments by the paths that they stand
    /// for. `lookups` says what was found out about each argument.
    pub fn validate(&mut self, lookups: &Vec<InputLookup>) -> (checked: Result<(), CliError>)
        requires
            lookups@.len() == old(self).inputs@.len(),
        ensures
            final(self).same_options(*old(self)),
            match all_paths(old(self).inputs@, lookups@) {
                Ok(paths) => {
                    &&& final(self).inputs@ == first_seen(paths)
                    &&& match checked {
                        Ok(()) => option_fault(*old(self), first_seen(paths)) is None,
                        Err(error) => option_fault(*old(self), first_seen(paths)) == Some(error@),
                    }
                },
                Err(fault) => {
                    &&& final(self).inputs@ == Seq::<PathId>::empty()
                    &&& checked matches Err(error) && error@ == fault
                },
            },
    {
        match self.expand_inputs(lookups) {
            Ok(()) => {},
            Err(error) => {
                return Err(error);
            },
        }
        if self.prefix.is_some() && self.inputs.len() > 1 {
            return Err(CliError::AmbiguousPrefix { count: self.inputs.len() });
        }
        if let Some(prefix) = &self.prefix {
            match validate_prefix(prefix.as_str()) {
                Ok(()) => {},
                Err(error) => {
                    return Err(error);
                },
            }
        }
        if self.inspection_mode() {
            return Ok(());
        }
        let has_source: bool = self.tokenizer_file.is_some() || self.tokenizer_model.is_some();
        let is_hub: bool = match self.tokenizer {
            TokenizerKind::HuggingFace => true,
            _ => false,
        };
        if is_hub && !has_source {
            return Err(CliError::MissingTokenizerSource);
        }
        if !is_hub && has_source {
            return Err(CliError::UnexpectedTokenizerSource);
        }
        Ok(())
    }

    /// Replaces the input arguments by the paths that they stand for, each path once.
    fn expand_inputs(&mut self, lookups: &Vec<InputLookup>) -> (expanded: Result<(), CliError>)
        requires
            lookups@.len() == old(self).inputs@.len(),
        ensures
            final(self).same_options(*old(self)),
            match all_paths(old(self).inputs@, lookups@) {
                Ok(paths) => expanded is Ok && final(self).inputs@ == first_seen(paths),
                Err(fault) => {
                    &&& final(self).inputs@ == Seq::<PathId>::empty()
                    &&& expanded matches Err(error) && error@ == fault
                },
            },
    {
        let mut args: Vec<PathId> = Vec::new();
        args.append(&mut self.inputs);
        let mut out: indexmap::IndexSet<u64> = new_set();
        let mut i: usize = 0;
        let ghost mut paths: Seq<PathId> = Seq::empty();
        while i < args.len()
            invariant
                i <= args@.len() == lookups@.len(),
                args@ == old(self).inputs@,
                self.inputs@.len() == 0,
                self.same_options(*old(self)),
                all_paths(args@.take(i as int), lookups@.take(i as int)) == Ok::<
                    Seq<PathId>,
                    CliFault,
                >(paths),
                set_items(out) == first_seen(paths),
            decreases args@.len() - i,
        {
            let lookup: &InputLookup = &lookups[i];
            let ghost pattern = lookup.text@;
            proof {
                assert(args@.take(i + 1).drop_last() =~= args@.take(i as int));
                assert(lookups@.take(i + 1).drop_last() =~= lookups@.take(i as int));
                lemma_fault_stays(args@, lookups@, i + 1);
            }
            if !needs_listing(lookup.exists, lookup.text.as_str()) {
                insert_item(&mut out, args[i]);
                proof {
                    assert((paths + seq![args@[i as int]]).drop_last() =~= paths);
                    paths = paths + seq![args@[i as int]];
                }
            } else {
                let entries: &Vec<Result<PathId, String>> = match &lookup.listing {
                    Ok(entries) => entries,
                    Err(why) => {
                        return Err(
                            CliError::InvalidPattern {
                                pattern: lookup.text.clone(),
                                why: why.clone(),
                            },
                        );
                    },
                };
                if entries.len() == 0 {
                    return Err(CliError::NoMatch { pattern: lookup.text.clone() });
                }
                let ghost mut got: Seq<PathId> = Seq::empty();
                let mut j: usize = 0;
                assert(paths + got =~= paths);
                while j < entries.len()
                    invariant
                        j <= entries@.len(),
                        pattern == lookup.text@,
                        listed(entries@.take(j as int), pattern) == Ok::<Seq<PathId>, CliFault>(
                            got,
                        ),
                        set_items(out) == first_seen(paths + got),
                        self.inputs@.len() == 0,
                        self.same_options(*old(self)),
                        listed(entries@, pattern) matches Err(fault) ==> all_paths(
                            old(self).inputs@,
                            lookups@,
                        ) == Err::<Seq<PathId>, CliFault>(fault),
                    decreases entries@.len() - j,
                {
                    proof {
                        assert(entries@.take(j + 1).drop_last() =~= entries@.take(j as int));
                        lemma_listed_fault_stays(entries@, pattern, j + 1);
                    }
                    match &entries[j] {
                        Ok(path) => {
                            insert_item(&mut out, *path);
                            proof {
                                assert((paths + got.push(*path)).drop_last() =~= paths + got);
                                got = got.push(*path);
                            }
                        },
                        Err(why) => {
                            return Err(
                                CliError::Unreadable {
                                    pattern: lookup.text.clone(),
                                    why: why.clone(),
                                },
                            );
                        },
                    }
                    j = j + 1;
                }
                proof {
                    assert(entries@.take(j as int) =~= entries@);
                    paths = paths + got;
                }
            }
            i = i + 1;
        }
        assert(args@.take(i as int) =~= args@);
        assert(lookups@.take(i as int) =~= lookups@);
        self.inputs = into_items(out);
        Ok(())
    }
}

/// Keeping what is first seen leaves no duplicates.
pub proof fn first_seen_has_no_duplicates(items: Seq<u64>)
    ensures
        first_seen(items).no_duplicates(),
    decreases items.len(),
{
    if items.len() > 0 {
        first_seen_has_no_duplicates(items.drop_last());
        let before = first_seen(items.drop_last());
        assert(forall|i: int| 0 <= i < before.len() ==> before.contains(#[trigger] before[i]));
    }
}

/// Keeping what is first seen loses nothing and adds nothing.
pub proof fn first_seen_keeps_every_item(items: Seq<u64>, item: u64)
    ensures
        first_seen(items).contains(item) <==> items.contains(item),
    decreases items.len(),
{
    if items.len() > 0 {
        let shorter = items.drop_last();
        let before = first_seen(shorter);
        first_seen_keeps_every_item(shorter, item);
        assert(items.last() == items[items.len() - 1]);
        if shorter.contains(item) {
            let k = choose|k: int| 0 <= k < shorter.len() && shorter[k] == item;
            assert(items[k] == item);
        }
        if items.contains(item) && item != items.last() {
            let k = choose|k: int| 0 <= k < items.len() && items[k] == item;
            assert(shorter[k] == item);
        }
        let now = first_seen(items);
        if before.contains(item) {
            let k = choose|k: int| 0 <= k < before.len() && before[k] == item;
            assert(now[k] == item);
        }
        if item == items.last() && !before.contains(item) {
            assert(now[before.len() as int] == item);
        }
        if now.contains(item) && !before.contains(item) {
            let k = choose|k: int| 0 <= k < now.len() && now[k] == item;
            assert(k == before.len());
        }
    } else {
        assert(first_seen(items) =~= items);
    }
}

/// Items that come later do not move those that came before: what is first seen of the first
/// items begins what is first seen of all.
pub proof fn first_seen_keeps_the_order(items: Seq<u64>, n: int)
    requires
        0 <= n <= items.len(),
    ensures
        first_seen(items.take(n)).len() <= first_seen(items).len(),
        first_seen(items).take(first_seen(items.take(n)).len() as int) == first_seen(items.take(n)),
    decreases items.len() - n,
{
    if n < items.len() {
        first_seen_keeps_the_order(items, n + 1);
        let more = first_seen(items.take(n + 1));
        let less = first_seen(items.take(n));
        assert(items.take(n + 1).drop_last() =~= items.take(n));
        assert(more.take(less.len() as int) =~= less);
        assert(first_seen(items).take(less.len() as int) =~= first_seen(items).take(
            more.len() as int,
        ).take(less.len() as int));
    } else {
        assert(items.take(n) =~= items);
        assert(first_seen(items).take(first_seen(items).len() as int) =~= first_seen(items));
    }
}

proof fn lemma_first_forbidden(text: Seq<char>)
    ensures
        first_forbidden(text) is None <==> forall|i: int|
            0 <= i < text.len() ==> !is_forbidden(#[trigger] text[i]),
    decreases text.len(),
{
    if text.len() > 0 {
        let rest = text.skip(1);
        lemma_first_forbidden(rest);
        assert(forall|i: int| 0 <= i < rest.len() ==> rest[i] == #[trigger] text[i + 1]);
        if forall|i: int| 0 <= i < rest.len() ==> !is_forbidden(#[trigger] rest[i]) {
            assert forall|i: int| 0 <= i < text.len() && !is_forbidden(text[0]) implies
                !is_forbidden(#[trigger] text[i]) by {
                if i > 0 {
                    assert(rest[i - 1] == text[i]);
                }
            }
        } else {
            let i = choose|i: int| 0 <= i < rest.len() && is_forbidden(#[trigger] rest[i]);
            assert(is_forbidden(text[i + 1]));
        }
    }
}

/// A prefix is accepted exactly when it is one component of a path: not empty, neither the
/// directory itself nor the one above it, and without separators, `:` or NUL.
pub proof fn accepted_prefix_is_one_component(prefix: Seq<char>)
    ensures
        prefix_fault(prefix) is None <==> prefix.len() > 0 && prefix != "."@ && prefix != ".."@ && (
        forall|i: int| 0 <= i < prefix.len() ==> !is_forbidden(#[trigger] prefix[i])),
{
    lemma_first_forbidden(prefix);
}

/// The level that each name stands for, and the one that is asked for: a depth where one is given,
/// else the level that the name stands for.
pub proof fn names_stand_for_levels(cli: Cli)
    ensures
        SplitAtArg::Page.level() == SplitAt::Page,
        SplitAtArg::AnyBookmark.level() == SplitAt::AnyBookmark,
        SplitAtArg::Chapter.level() == SplitAt::Depth(1),
        SplitAtArg::Section.level() == SplitAt::Depth(2),
        SplitAtArg::Subsection.level() == SplitAt::Depth(3),
        cli.split_at_depth matches Some(n) ==> cli.requested_level() == SplitAt::Depth(n),
        cli.split_at_depth is None ==> cli.requested_level() == cli.split_at.level(),
{
}

/// The names of the ways of counting tokens.
pub proof fn tokenizers_are_named()
    ensures
        TokenizerKind::Cl100kBase.name() == "cl100k_base"@,
        TokenizerKind::O200kBase.name() == "o200k_base"@,
        TokenizerKind::WordCount.name() == "word_count"@,
        TokenizerKind::HuggingFace.name() == "huggingface"@,
{
}

/// An argument can be taken for a pattern exactly if it has a star, a question mark or an opening
/// bracket somewhere.
pub proof fn patterns_have_wildcards(text: Seq<char>)
    ensures
        is_pattern(text) <==> text.contains('*') || text.contains('?') || text.contains('['),
{
    if is_pattern(text) {
        let i = choose|i: int| 0 <= i < text.len() && is_wildcard(#[trigger] text[i]);
        assert(text.contains(text[i]));
    }
    if text.contains('*') {
        let i = choose|i: int| 0 <= i < text.len() && text[i] == '*';
        assert(is_wildcard(text[i]));
    }
    if text.contains('?') {
        let i = choose|i: int| 0 <= i < text.len() && text[i] == '?';
        assert(is_wildcard(text[i]));
    }
    if text.contains('[') {
        let i = choose|i: int| 0 <= i < text.len() && text[i] == '[';
        assert(is_wildcard(text[i]));
    }
}

/// A listing of which every path could be read gives these paths, in order; of another it is told what
/// is wrong with the first that could not.
pub proof fn listings_give_their_paths(entries: Seq<Result<PathId, String>>, pattern: Seq<char>)
    ensures
        match listed(entries, pattern) {
            Ok(paths) => paths.len() == entries.len() && (forall|i: int|
                0 <= i < entries.len() ==> #[trigger] entries[i] == Ok::<PathId, String>(paths[i])),
            Err(fault) => exists|i: int|
                0 <= i < entries.len() && (forall|j: int|
                    0 <= j < i ==> (#[trigger] entries[j]) is Ok) && (
                #[trigger] entries[i] matches Err(why) && fault == (CliFault::Unreadable {
                    pattern,
                    why: why@,
                })),
        },
    decreases entries.len(),
{
    if entries.len() > 0 {
        let shorter = entries.drop_last();
        listings_give_their_paths(shorter, pattern);
        assert(forall|i: int| 0 <= i < shorter.len() ==> shorter[i] == #[trigger] entries[i]);
        let last = entries.len() - 1;
        assert(entries[last] == entries.last());
        match listed(shorter, pattern) {
            Ok(before) => {
                assert forall|i: int| 0 <= i < last implies (#[trigger] entries[i]) is Ok by {
                    assert(shorter[i] == Ok::<PathId, String>(before[i]));
                }
            },
            Err(fault) => {
                let i = choose|i: int|
                    0 <= i < shorter.len() && (forall|j: int|
                        0 <= j < i ==> (#[trigger] shorter[j]) is Ok) && (
                    #[trigger] shorter[i] matches Err(why) && fault == (CliFault::Unreadable {
                        pattern,
                        why: why@,
                    }));
                assert(entries[i] == shorter[i]);
                assert forall|j: int| 0 <= j < i implies (#[trigger] entries[j]) is Ok by {
                    assert(shorter[j] is Ok);
                }
            },
        }
    }
}

/// What an argument stands for. It stands for itself where a file has exactly its name, whatever the
/// name is, and where it has no wildcard; else for what it matches, which has to be something and
/// has to be readable.
pub proof fn arguments_stand_for_paths(input: PathId, lookup: InputLookup)
    ensures
        lookup.exists ==> stands_for(input, lookup) == Ok::<Seq<PathId>, CliFault>(seq![input]),
        !is_pattern(lookup.text@) ==> stands_for(input, lookup) == Ok::<Seq<PathId>, CliFault>(
            seq![input],
        ),
        !lookup.exists && is_pattern(lookup.text@) ==> match lookup.listing {
            Ok(entries) => if entries@.len() == 0 {
                stands_for(input, lookup) == Err::<Seq<PathId>, CliFault>(
                    CliFault::NoMatch { pattern: lookup.text@ },
                )
            } else {
                stands_for(input, lookup) == listed(entries@, lookup.text@)
            },
            Err(why) => stands_for(input, lookup) == Err::<Seq<PathId>, CliFault>(
                CliFault::InvalidPattern { pattern: lookup.text@, why: why@ },
            ),
        },
{
}

/// The arguments together stand for what each stands for, one after the other; where something is
/// wrong with some argument it is told of the first such.
pub proof fn arguments_are_taken_in_order(inputs: Seq<PathId>, lookups: Seq<InputLookup>)
    requires
        inputs.len() == lookups.len(),
    ensures
        match all_paths(inputs, lookups) {
            Ok(paths) => (forall|i: int|
                0 <= i < inputs.len() ==> stands_for(#[trigger] inputs[i], lookups[i]) is Ok) && paths
                == Seq::new(
                inputs.len(),
                |i: int| stands_for(inputs[i], lookups[i])->Ok_0,
            ).flatten(),
            Err(fault) => exists|i: int|
                0 <= i < inputs.len() && (forall|j: int|
                    0 <= j < i ==> stands_for(#[trigger] inputs[j], lookups[j]) is Ok)
                    && stands_for(#[trigger] inputs[i], lookups[i]) == Err::<Seq<PathId>, CliFault>(
                    fault,
                ),
        },
    decreases inputs.len(),
{
    let lists = Seq::new(inputs.len(), |i: int| stands_for(inputs[i], lookups[i])->Ok_0);
    lists.lemma_flatten_and_flatten_alt_are_equivalent();
    if inputs.len() > 0 {
        let shorter = inputs.drop_last();
        let fewer = lookups.drop_last();
        arguments_are_taken_in_order(shorter, fewer);
        assert(forall|i: int|
            0 <= i < shorter.len() ==> shorter[i] == #[trigger] inputs[i] && fewer[i]
                == lookups[i]);
        let last = inputs.len() - 1;
        assert(inputs[last] == inputs.last() && lookups[last] == lookups.last());
        match all_paths(shorter, fewer) {
            Ok(before) => {
                let first = Seq::new(
                    shorter.len(),
                    |i: int| stands_for(shorter[i], fewer[i])->Ok_0,
                );
                first.lemma_flatten_and_flatten_alt_are_equivalent();
                assert(lists.drop_last() =~= first);
                assert forall|i: int| 0 <= i < last implies stands_for(
                    #[trigger] inputs[i],
                    lookups[i],
                ) is Ok by {
                    assert(stands_for(shorter[i], fewer[i]) is Ok);
                }
            },
            Err(fault) => {
                let i = choose|i: int|
                    0 <= i < shorter.len() && (forall|j: int|
                        0 <= j < i ==> stands_for(#[trigger] shorter[j], fewer[j]) is Ok)
                        && stands_for(#[trigger] shorter[i], fewer[i]) == Err::<
                        Seq<PathId>,
                        CliFault,
                    >(fault);
                assert(inputs[i] == shorter[i]);
                assert forall|j: int| 0 <= j < i implies stands_for(
                    #[trigger] inputs[j],
                    lookups[j],
                ) is Ok by {
                    assert(stands_for(shorter[j], fewer[j]) is Ok);
                }
            },
        }
    } else {
        assert(lists.flatten_alt() =~= Seq::empty());
    }
}

/// What is wrong with a prefix: that it is empty, that it is the directory itself or the one above it,
/// or its first slash, backslash, colon or NUL; nothing where it is none of these.
pub proof fn prefixes_are_refused_for_a_reason(prefix: Seq<char>)
    ensures
        prefix.len() == 0 <==> prefix_fault(prefix) == Some(CliFault::EmptyPrefix),
        prefix == "."@ || prefix == ".."@ ==> prefix_fault(prefix) == Some(
            CliFault::DotPrefix { prefix },
        ),
        prefix.len() > 0 && prefix != "."@ && prefix != ".."@ ==> match prefix_fault(prefix) {
            Some(fault) => exists|i: int|
                0 <= i < prefix.len() && fault == (CliFault::PrefixChar {
                    prefix,
                    found: #[trigger] prefix[i],
                }) && (prefix[i] == '/' || prefix[i] == '\\' || prefix[i] == ':' || prefix[i]
                    == '\0') && (forall|j: int|
                    0 <= j < i ==> (#[trigger] prefix[j] != '/' && prefix[j] != '\\' && prefix[j]
                        != ':' && prefix[j] != '\0')),
            None => !prefix.contains('/') && !prefix.contains('\\') && !prefix.contains(':')
                && !prefix.contains('\0'),
        },
{
    reveal_strlit(".");
    reveal_strlit("..");
    lemma_first_found(prefix);
}

proof fn lemma_first_found(text: Seq<char>)
    ensures
        match first_forbidden(text) {
            Some(found) => exists|i: int|
                0 <= i < text.len() && found == #[trigger] text[i] && (found == '/' || found
                    == '\\' || found == ':' || found == '\0') && (forall|j: int|
                    0 <= j < i ==> (#[trigger] text[j] != '/' && text[j] != '\\' && text[j] != ':'
                        && text[j] != '\0')),
            None => forall|j: int|
                0 <= j < text.len() ==> (#[trigger] text[j] != '/' && text[j] != '\\' && text[j]
                    != ':' && text[j] != '\0'),
        },
    decreases text.len(),
{
    if text.len() > 0 && !is_forbidden(text[0]) {
        let rest = text.skip(1);
        lemma_first_found(rest);
        assert(forall|j: int| 0 < j < text.len() ==> #[trigger] text[j] == rest[j - 1]);
        if let Some(found) = first_forbidden(rest) {
            let i = choose|i: int|
                0 <= i < rest.len() && found == #[trigger] rest[i] && (found == '/' || found
                    == '\\' || found == ':' || found == '\0') && (forall|j: int|
                    0 <= j < i ==> (#[trigger] rest[j] != '/' && rest[j] != '\\' && rest[j] != ':'
                        && rest[j] != '\0'));
            assert(text[i + 1] == found);
        }
    }
}

/// What is wrong with the options: a prefix for several inputs, a prefix that is refused, a HuggingFace
/// tokenizer without a source, a source without such a tokenizer, in this order; for a run that only
/// looks at outlines the tokenizer does not matter.
pub proof fn options_are_refused_for_a_reason(cli: Cli, inputs: Seq<PathId>)
    ensures
        ({
            let fault = option_fault(cli, inputs);
            let has_source = cli.tokenizer_file is Some || cli.tokenizer_model is Some;
            let looks = cli.bookmarks_hist || cli.bookmarks_tree;
            let prefix_is_wrong = cli.prefix matches Some(prefix) && (inputs.len() > 1
                || prefix_fault(prefix@) is Some);
            &&& cli.prefix is Some && inputs.len() > 1 ==> fault == Some(
                CliFault::AmbiguousPrefix { count: inputs.len() },
            )
            &&& cli.prefix matches Some(prefix) ==> (inputs.len() <= 1 && prefix_fault(
                prefix@,
            ) is Some ==> fault == prefix_fault(prefix@))
            &&& !prefix_is_wrong && looks ==> fault is None
            &&& !prefix_is_wrong && !looks && cli.tokenizer is HuggingFace && !has_source
                ==> fault == Some(CliFault::MissingTokenizerSource)
            &&& !prefix_is_wrong && !looks && cli.tokenizer !is HuggingFace && has_source
                ==> fault == Some(CliFault::UnexpectedTokenizerSource)
            &&& !prefix_is_wrong && !looks && (cli.tokenizer is HuggingFace <==> has_source)
                ==> fault is None
        }),
{
}

/// Keeping what is first seen gives each item the place of its first occurrence: of two items, the one
/// that occurs first stands first.
pub proof fn first_seen_goes_by_first_occurrence(items: Seq<u64>, a: int, b: int)
    requires
        0 <= a < b < items.len(),
        items[a] != items[b],
        forall|k: int| 0 <= k < b ==> #[trigger] items[k] != items[b],
    ensures
        exists|i: int, j: int|
            0 <= i < j < first_seen(items).len() && #[trigger] first_seen(items)[i] == items[a]
                && #[trigger] first_seen(items)[j] == items[b],
{
    let before = first_seen(items.take(b));
    let all = first_seen(items);
    first_seen_keeps_the_order(items, b);
    assert(items.take(b)[a] == items[a]);
    assert(items.take(b).contains(items[a]));
    first_seen_keeps_every_item(items.take(b), items[a]);
    first_seen_keeps_every_item(items.take(b), items[b]);
    first_seen_keeps_every_item(items, items[b]);
    assert(items.contains(items[b]));
    let i = choose|i: int| 0 <= i < before.len() && before[i] == items[a];
    let j = choose|j: int| 0 <= j < all.len() && all[j] == items[b];
    assert(all.take(before.len() as int)[i] == all[i]);
    if j < before.len() {
        assert(all.take(before.len() as int)[j] == all[j]);
        assert(before.contains(items[b]));
        let k = choose|k: int| 0 <= k < items.take(b).len() && items.take(b)[k] == items[b];
        assert(items[k] == items[b]);
    }
    assert(all[i] == items[a] && all[j] == items[b]);
}

/// What is said about each thing that can be wrong with a command line.
pub proof fn faults_are_told(pattern: Seq<char>, why: Seq<char>, found: char, count: nat)
    ensures
        (CliFault::InvalidPattern { pattern, why }).text() == "invalid glob pattern "@ + quoted_text(
            pattern,
        ) + ": "@ + why,
        (CliFault::Unreadable { pattern, why }).text() == "error while expanding pattern "@
            + quoted_text(pattern) + ": "@ + why,
        (CliFault::NoMatch { pattern }).text() == "no files matched pattern: "@ + pattern,
        (CliFault::AmbiguousPrefix { count }).text()
            == "--prefix is ambiguous with multiple inputs ("@ + text::decimal(count)
            + " given); omit it so each input uses its own stem, or run tchunk-pdf once per file."@,
        CliFault::EmptyPrefix.text() == "--prefix must not be empty"@,
        (CliFault::DotPrefix { prefix: pattern }).text() == "--prefix must not be "@ + quoted_text(
            pattern,
        ),
        (CliFault::PrefixChar { prefix: pattern, found }).text()
            == "--prefix must not contain path separators, ':' or NUL (got "@ + quoted_text(pattern)
            + ", found "@ + quoted_char(found) + ")"@,
        CliFault::MissingTokenizerSource.text()
            == "-t huggingface requires --tokenizer-file <PATH> or --tokenizer-model <HF_MODEL_ID>"@,
        CliFault::UnexpectedTokenizerSource.text()
            == "--tokenizer-file / --tokenizer-model only apply with -t huggingface"@,
{
}

/// Two command lines that ask for the same but for the inputs agree in every option.
pub proof fn same_options_agree(a: Cli, b: Cli)
    requires
        a.same_options(b),
    ensures
        a.max_tokens == b.max_tokens,
        a.split_at == b.split_at,
        a.split_at_depth == b.split_at_depth,
        a.output_dir == b.output_dir,
        a.prefix == b.prefix,
        a.tokenizer == b.tokenizer,
        a.tokenizer_file == b.tokenizer_file,
        a.tokenizer_model == b.tokenizer_model,
        a.verbose == b.verbose,
        a.quiet == b.quiet,
        a.jobs == b.jobs,
        a.bookmarks_hist == b.bookmarks_hist,
        a.bookmarks_tree == b.bookmarks_tree,
        DEFAULT_MAX_TOKENS == 500_000,
{
}

/// What an error is as a mathematical value holds the same texts and the same numbers.
pub proof fn errors_are_told_as_they_are(text: String, why: String, found: char, count: usize)
    ensures
        (CliError::InvalidPattern { pattern: text, why })@ == (CliFault::InvalidPattern {
            pattern: text@,
            why: why@,
        }),
        (CliError::Unreadable { pattern: text, why })@ == (CliFault::Unreadable {
            pattern: text@,
            why: why@,
        }),
        (CliError::NoMatch { pattern: text })@ == (CliFault::NoMatch { pattern: text@ }),
        (CliError::AmbiguousPrefix { count })@ == (CliFault::AmbiguousPrefix {
            count: count as nat,
        }),
        CliError::EmptyPrefix@ == CliFault::EmptyPrefix,
        (CliError::DotPrefix { prefix: text })@ == (CliFault::DotPrefix { prefix: text@ }),
        (CliError::PrefixChar { prefix: text, found })@ == (CliFault::PrefixChar {
            prefix: text@,
            found,
        }),
        CliError::MissingTokenizerSource@ == CliFault::MissingTokenizerSource,
        CliError::UnexpectedTokenizerSource@ == CliFault::UnexpectedTokenizerSource,
{
}

} // verus!
