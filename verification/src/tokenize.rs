//! Counting the tokens of a text.

use vstd::prelude::*;
use vstd::string::*;

verus! {

/// `tiktoken_rs`'s encoder.
#[verifier::external_type_specification]
#[verifier::external_body]
pub struct ExCoreBPE(tiktoken_rs::CoreBPE);

/// The error that `tiktoken_rs` gives.
#[verifier::external_type_specification]
#[verifier::external_body]
pub struct ExAnyhowError(anyhow::Error);

/// The name of the vocabulary that an encoder holds.
pub uninterp spec fn vocabulary(bpe: tiktoken_rs::CoreBPE) -> Seq<char>;

/// The tokens into which `tiktoken_rs::CoreBPE::encode_ordinary` divides a text, by the name of
/// the vocabulary.
pub uninterp spec fn ordinary_tokens(vocabulary: Seq<char>, text: Seq<char>) -> Seq<u32>;

/// `char::is_alphanumeric`: the character is alphabetic or numeric, by Unicode's properties.
pub uninterp spec fn alphanumeric(c: char) -> bool;

/// `char::is_alphanumeric`.
#[verifier::external_body]
fn is_alphanumeric(c: char) -> (yes: bool)
    ensures
        yes == alphanumeric(c),
{
    c.is_alphanumeric()
}

/// `tiktoken_rs::cl100k_base`: the encoder with the vocabulary of that name. The vocabulary and the
/// pattern are part of the crate, every line of the one can be read and the other is well formed,
/// so the encoder is always set up.
#[verifier::external_body]
fn cl100k_base() -> (loaded: Result<tiktoken_rs::CoreBPE, anyhow::Error>)
    ensures
        loaded is Ok,
        vocabulary(loaded->Ok_0) == "cl100k_base"@,
{
    tiktoken_rs::cl100k_base()
}

/// `tiktoken_rs::o200k_base`: the encoder with the vocabulary of that name. The vocabulary and the
/// pattern are part of the crate, every line of the one can be read and the other is well formed,
/// so the encoder is always set up.
#[verifier::external_body]
fn o200k_base() -> (loaded: Result<tiktoken_rs::CoreBPE, anyhow::Error>)
    ensures
        loaded is Ok,
        vocabulary(loaded->Ok_0) == "o200k_base"@,
{
    tiktoken_rs::o200k_base()
}

/// The `Display` of an `anyhow::Error`: what is said about an error. Nothing is promised of the
/// text.
#[verifier::external_body]
fn error_text(error: anyhow::Error) -> (text: String) {
    format!("{error}")
}

/// `tiktoken_rs::CoreBPE::encode_ordinary`: the tokens of a text. The call panics on a byte that the
/// vocabulary lacks, which the two vocabularies named here do not, and where the crate's pattern
/// matcher runs out of room, which it does not on a text that `runs_fit` holds of.
#[verifier::external_body]
fn encode_ordinary(bpe: &tiktoken_rs::CoreBPE, text: &str) -> (tokens: Vec<u32>)
    requires
        vocabulary(*bpe) == "cl100k_base"@ || vocabulary(*bpe) == "o200k_base"@,
        runs_fit(vocabulary(*bpe), text@),
    ensures
        tokens@ == ordinary_tokens(vocabulary(*bpe), text@),
{
    bpe.encode_ordinary(text)
}

/// The character is white space: it has Unicode's `White_Space` property.
pub open spec fn white_space(c: char) -> bool {
    ||| '\u{9}' <= c <= '\u{d}'
    ||| c == '\u{20}'
    ||| c == '\u{85}'
    ||| c == '\u{a0}'
    ||| c == '\u{1680}'
    ||| '\u{2000}' <= c <= '\u{200a}'
    ||| c == '\u{2028}'
    ||| c == '\u{2029}'
    ||| c == '\u{202f}'
    ||| c == '\u{205f}'
    ||| c == '\u{3000}'
}

/// The character is white space.
pub fn is_white_space(c: char) -> (yes: bool)
    ensures
        yes == white_space(c),
{
    ('\u{9}' <= c && c <= '\u{d}') || c == '\u{20}' || c == '\u{85}' || c == '\u{a0}' || c
        == '\u{1680}' || ('\u{2000}' <= c && c <= '\u{200a}') || c == '\u{2028}' || c == '\u{2029}'
        || c == '\u{202f}' || c == '\u{205f}' || c == '\u{3000}'
}

/// The character may be a letter or a mark that is written with a letter. Of the characters outside
/// ASCII every one that is not white space may be.
pub open spec fn may_be_letter(c: char) -> bool {
    ||| 'A' <= c <= 'Z'
    ||| 'a' <= c <= 'z'
    ||| c > '\u{7f}' && !white_space(c)
}

/// The character may be a letter or a mark.
fn is_maybe_letter(c: char) -> (yes: bool)
    ensures
        yes == may_be_letter(c),
{
    ('A' <= c && c <= 'Z') || ('a' <= c && c <= 'z') || (c > '\u{7f}' && !is_white_space(c))
}

/// The character may be a sign: neither white space, nor a letter, nor a digit. Of the characters
/// outside ASCII every one that is not white space may be.
pub open spec fn may_be_sign(c: char) -> bool {
    !white_space(c) && !('A' <= c <= 'Z') && !('a' <= c <= 'z') && !('0' <= c <= '9')
}

/// The character may be a sign.
fn is_maybe_sign(c: char) -> (yes: bool)
    ensures
        yes == may_be_sign(c),
{
    !is_white_space(c) && !('A' <= c && c <= 'Z') && !('a' <= c && c <= 'z') && !('0' <= c && c
        <= '9')
}

/// The character may stand in the line ends that a pattern takes in behind signs: a carriage return
/// or a line feed and, where `slashes`, a slash.
pub open spec fn ends_line(c: char, slashes: bool) -> bool {
    c == '\r' || c == '\n' || (slashes && c == '/')
}

/// The room that the pattern matcher of an encoder has. It keeps up to a million branches and takes
/// back up to a million steps for one match, of which a few are not for the characters of a run.
pub const MATCH_ROOM: usize = 999_900;

/// The length of the run of white space at the end of a text.
pub open spec fn white_run(text: Seq<char>) -> nat
    decreases text.len(),
{
    if text.len() == 0 || !white_space(text.last()) {
        0
    } else {
        white_run(text.drop_last()) + 1
    }
}

/// The length of the run of what may be letters at the end of a text.
pub open spec fn letter_run(text: Seq<char>) -> nat
    decreases text.len(),
{
    if text.len() == 0 || !may_be_letter(text.last()) {
        0
    } else {
        letter_run(text.drop_last()) + 1
    }
}

/// The length of the part of that run that begins with its first character outside ASCII.
pub open spec fn marked_run(text: Seq<char>) -> nat
    decreases text.len(),
{
    if text.len() == 0 || !may_be_letter(text.last()) {
        0
    } else if marked_run(text.drop_last()) > 0 || text.last() > '\u{7f}' {
        marked_run(text.drop_last()) + 1
    } else {
        0
    }
}

/// The length of the run of what may be signs at the end of a text.
pub open spec fn sign_run(text: Seq<char>) -> nat
    decreases text.len(),
{
    if text.len() == 0 || !may_be_sign(text.last()) {
        0
    } else {
        sign_run(text.drop_last()) + 1
    }
}

/// The length of the longest end of a text that is made of what may be signs, and of line ends
/// behind them.
pub open spec fn line_run(text: Seq<char>, slashes: bool) -> nat
    decreases text.len(),
{
    if text.len() == 0 {
        0
    } else if ends_line(text.last(), slashes) {
        line_run(text.drop_last(), slashes) + 1
    } else {
        sign_run(text)
    }
}

/// A match that reaches to the end of the text has room. A match keeps one branch for each character
/// that it has tried. It tries white space; or letters behind at most one other character; or signs,
/// also behind at most one other character, and line ends behind them. It takes back one step for
/// each white space character or letter; in the pattern with `slashes` it may take back the letters
/// behind a mark twice over, and a mark is never in ASCII.
pub open spec fn end_fits(text: Seq<char>, slashes: bool) -> bool {
    &&& white_run(text) <= MATCH_ROOM
    &&& letter_run(text) + (if slashes {
        marked_run(text)
    } else {
        0
    }) <= MATCH_ROOM
    &&& line_run(text, slashes) <= MATCH_ROOM
}

/// Every match has room, wherever in the text it ends.
pub open spec fn every_end_fits(text: Seq<char>, slashes: bool) -> bool
    decreases text.len(),
{
    text.len() == 0 || (every_end_fits(text.drop_last(), slashes) && end_fits(text, slashes))
}

/// The pattern matcher of the encoding of the given name has room for the text. The pattern of
/// `o200k_base` takes slashes for line ends, that of `cl100k_base` does not.
pub open spec fn runs_fit(encoding: Seq<char>, text: Seq<char>) -> bool {
    every_end_fits(text, encoding == "o200k_base"@)
}

/// The number of words in a text: of its longest runs of alphanumeric characters.
pub open spec fn word_count(text: Seq<char>) -> nat
    decreases text.len(),
{
    if text.len() == 0 {
        0
    } else {
        word_count(text.drop_last()) + (if alphanumeric(text.last()) && (text.len() == 1
            || !alphanumeric(text[text.len() - 2])) {
            1nat
        } else {
            0nat
        })
    }
}

/// Something that counts the tokens of a text.
pub trait Tokenizer {
    /// The text can be counted.
    spec fn accepts(&self, text: Seq<char>) -> bool;

    /// The number of tokens in a text.
    spec fn tokens(&self, text: Seq<char>) -> nat;

    /// The tokenizer's name.
    spec fn label(&self) -> Seq<char>;

    /// The number of tokens in a text that can be counted.
    fn count(&self, text: &str) -> (n: usize)
        requires
            self.accepts(text@),
        ensures
            n == self.tokens(text@),
    ;

    /// The tokenizer's name.
    fn name(&self) -> (name: &str)
        ensures
            name@ == self.label(),
    ;
}

/// Counts words.
#[derive(Debug, Clone, Copy)]
pub struct WordCountTokenizer;

impl Tokenizer for WordCountTokenizer {
    open spec fn accepts(&self, text: Seq<char>) -> bool {
        true
    }

    open spec fn tokens(&self, text: Seq<char>) -> nat {
        word_count(text)
    }

    open spec fn label(&self) -> Seq<char> {
        "word_count"@
    }

    fn count(&self, text: &str) -> (n: usize) {
        count_words(text)
    }

    fn name(&self) -> (name: &str) {
        "word_count"
    }
}

/// The number of words in a text. What is neither a letter nor a digit ends a word.
pub fn count_words(text: &str) -> (n: usize)
    ensures
        n == word_count(text@),
{
    let length: usize = text.unicode_len();
    let mut n: usize = 0;
    let mut in_word: bool = false;
    for c in it: text.chars()
        invariant
            it.seq() == text@,
            length == text@.len(),
            n == word_count(text@.take(it.index() as int)),
            n <= it.index(),
            in_word == (it.index() > 0 && alphanumeric(text@[it.index() - 1])),
    {
        let ghost i = it.index() as int;
        assert(text@.take(i + 1).drop_last() =~= text@.take(i));
        let alpha: bool = is_alphanumeric(c);
        if alpha && !in_word {
            n = n + 1;
        }
        in_word = alpha;
    }
    assert(text@.take(text@.len() as int) =~= text@);
    n
}

/// A character that is not alphanumeric parts the words before it from those behind it.
pub proof fn words_are_parted(before: Seq<char>, c: char, behind: Seq<char>)
    requires
        !alphanumeric(c),
    ensures
        word_count(before + seq![c] + behind) == word_count(before) + word_count(behind),
    decreases behind.len(),
{
    let whole = before + seq![c] + behind;
    if behind.len() == 0 {
        assert(whole.drop_last() =~= before);
    } else {
        words_are_parted(before, c, behind.drop_last());
        assert(whole.drop_last() =~= before + seq![c] + behind.drop_last());
        assert(whole.last() == behind.last());
        if behind.len() == 1 {
            assert(whole[whole.len() - 2] == c);
        } else {
            assert(whole[whole.len() - 2] == behind[behind.len() - 2]);
        }
    }
}

/// The pattern matcher of the encoding of the given name has room for the text.
pub fn check_runs(encoding: &str, text: &str) -> (fit: bool)
    ensures
        fit == runs_fit(encoding@, text@),
{
    let slashes = same_text(encoding, "o200k_base");
    let length: usize = text.unicode_len();
    let mut fit = true;
    let mut white: usize = 0;
    let mut letters: usize = 0;
    let mut marked: usize = 0;
    let mut signs: usize = 0;
    let mut line: usize = 0;
    for c in it: text.chars()
        invariant
            it.seq() == text@,
            length == text@.len(),
            fit == every_end_fits(text@.take(it.index() as int), slashes),
            white == white_run(text@.take(it.index() as int)) <= it.index(),
            letters == letter_run(text@.take(it.index() as int)) <= it.index(),
            marked == marked_run(text@.take(it.index() as int)) <= it.index(),
            signs == sign_run(text@.take(it.index() as int)) <= it.index(),
            line == line_run(text@.take(it.index() as int), slashes) <= it.index(),
    {
        let ghost now = text@.take(it.index() + 1);
        assert(now.drop_last() =~= text@.take(it.index() as int));
        let letter = is_maybe_letter(c);
        white = if is_white_space(c) { white + 1 } else { 0 };
        letters = if letter { letters + 1 } else { 0 };
        marked = if letter && (marked > 0 || c > '\u{7f}') { marked + 1 } else { 0 };
        signs = if is_maybe_sign(c) { signs + 1 } else { 0 };
        line = if c == '\r' || c == '\n' || (slashes && c == '/') { line + 1 } else { signs };
        let again: usize = if slashes { marked } else { 0 };
        fit = fit && white <= MATCH_ROOM && letters <= MATCH_ROOM && again <= MATCH_ROOM - letters
            && line <= MATCH_ROOM;
    }
    assert(text@.take(text@.len() as int) =~= text@);
    fit
}

/// Why there is no tokenizer.
#[derive(Debug)]
pub enum TokenizerError {
    /// There is none of this name.
    Unknown(String),
    /// It could not be set up; the text says why.
    NotLoaded(String),
}

impl TokenizerError {
    /// What is said about the error.
    pub open spec fn text(self) -> Seq<char> {
        match self {
            TokenizerError::Unknown(name) => "unknown tokenizer: "@ + name@
                + " (supported: cl100k_base, o200k_base)"@,
            TokenizerError::NotLoaded(why) => why@,
        }
    }

    /// What is said about the error.
    pub fn message(&self) -> (text: String)
        ensures
            text@ == self.text(),
    {
        match self {
            TokenizerError::Unknown(name) => {
                let mut text = "unknown tokenizer: ".to_owned();
                text.append(name.as_str());
                text.append(" (supported: cl100k_base, o200k_base)");
                text
            },
            TokenizerError::NotLoaded(why) => why.clone(),
        }
    }
}

/// Counts tokens by a byte-pair encoding.
pub struct TiktokenTokenizer {
    bpe: tiktoken_rs::CoreBPE,
    name: &'static str,
}

impl TiktokenTokenizer {
    /// The name of the encoding's vocabulary.
    pub closed spec fn encoding(&self) -> Seq<char> {
        vocabulary(self.bpe)
    }

    #[verifier::type_invariant]
    spec fn is_supported(self) -> bool {
        Self::knows(self.name@) && vocabulary(self.bpe) == self.name@
    }

    /// There is an encoding of this name.
    pub open spec fn knows(name: Seq<char>) -> bool {
        name == "cl100k_base"@ || name == "o200k_base"@
    }

    /// The tokenizer with the encoding of the given name, which is also its own name.
    pub fn new(name: &str) -> (tokenizer: Result<TiktokenTokenizer, TokenizerError>)
        ensures
            match tokenizer {
                Ok(tokenizer) => Self::knows(name@) && tokenizer.encoding() == name@
                    && tokenizer.label() == name@,
                Err(error) => !Self::knows(name@) && (error matches TokenizerError::Unknown(unknown)
                    && unknown@ == name@),
            },
    {
        if same_text(name, "cl100k_base") {
            Self::from_encoder(cl100k_base(), "cl100k_base")
        } else if same_text(name, "o200k_base") {
            Self::from_encoder(o200k_base(), "o200k_base")
        } else {
            Err(TokenizerError::Unknown(name.to_owned()))
        }
    }

    /// The tokenizer with the given name and the encoder that was set up for it, if it was.
    pub fn from_encoder(
        loaded: Result<tiktoken_rs::CoreBPE, anyhow::Error>,
        name: &'static str,
    ) -> (tokenizer: Result<TiktokenTokenizer, TokenizerError>)
        requires
            loaded matches Ok(bpe) ==> Self::knows(name@) && vocabulary(bpe) == name@,
        ensures
            match loaded {
                Ok(bpe) => tokenizer matches Ok(tokenizer) && tokenizer.encoding() == vocabulary(
                    bpe,
                ) && tokenizer.label() == name@,
                Err(_) => tokenizer matches Err(error) && error is NotLoaded,
            },
    {
        match loaded {
            Ok(bpe) => Ok(TiktokenTokenizer { bpe, name }),
            Err(error) => Err(TokenizerError::NotLoaded(error_text(error))),
        }
    }

    /// The number of tokens in a text; `None` for a text that the pattern matcher has no room for.
    pub fn try_count(&self, text: &str) -> (n: Option<usize>)
        ensures
            match n {
                Some(n) => runs_fit(self.encoding(), text@) && n == ordinary_tokens(
                    self.encoding(),
                    text@,
                ).len(),
                None => !runs_fit(self.encoding(), text@),
            },
    {
        proof {
            use_type_invariant(self);
        }
        if check_runs(self.name, text) {
            Some(self.count(text))
        } else {
            None
        }
    }
}

impl Tokenizer for TiktokenTokenizer {
    open spec fn accepts(&self, text: Seq<char>) -> bool {
        runs_fit(self.encoding(), text)
    }

    open spec fn tokens(&self, text: Seq<char>) -> nat {
        ordinary_tokens(self.encoding(), text).len()
    }

    closed spec fn label(&self) -> Seq<char> {
        self.name@
    }

    fn count(&self, text: &str) -> (n: usize) {
        proof {
            use_type_invariant(self);
        }
        encode_ordinary(&self.bpe, text).len()
    }

    fn name(&self) -> (name: &str) {
        self.name
    }
}

/// The two texts are the same.
pub(crate) fn same_text(a: &str, b: &str) -> (same: bool)
    ensures
        same == (a@ == b@),
{
    a.to_owned() == b.to_owned()
}

/// A text that is not empty and has only alphanumeric characters is one word; the empty text has
/// none.
pub proof fn letters_are_one_word(text: Seq<char>)
    requires
        forall|i: int| 0 <= i < text.len() ==> alphanumeric(#[trigger] text[i]),
    ensures
        text.len() > 0 ==> word_count(text) == 1,
        text.len() == 0 ==> word_count(text) == 0,
    decreases text.len(),
{
    if text.len() > 0 {
        let shorter = text.drop_last();
        assert(forall|i: int| 0 <= i < shorter.len() ==> #[trigger] shorter[i] == text[i]);
        letters_are_one_word(shorter);
        assert(alphanumeric(text[text.len() - 1]));
        if text.len() > 1 {
            assert(alphanumeric(text[text.len() - 2]));
        }
    }
}

/// There are as many words as there are places where a word begins: alphanumeric characters with no
/// such character right before them.
pub proof fn words_are_counted_where_they_begin(text: Seq<char>)
    ensures
        word_count(text) == Seq::new(text.len(), |i: int| i).filter(
            |i: int| alphanumeric(text[i]) && (i == 0 || !alphanumeric(text[i - 1])),
        ).len(),
    decreases text.len(),
{
    reveal(Seq::filter);
    let begins = |i: int| alphanumeric(text[i]) && (i == 0 || !alphanumeric(text[i - 1]));
    let places = Seq::new(text.len(), |i: int| i);
    if text.len() > 0 {
        let shorter = text.drop_last();
        words_are_counted_where_they_begin(shorter);
        let shorter_begins = |i: int|
            alphanumeric(shorter[i]) && (i == 0 || !alphanumeric(shorter[i - 1]));
        let shorter_places = Seq::new(shorter.len(), |i: int| i);
        assert(places.drop_last() =~= shorter_places);
        lemma_same_filter(shorter_places, begins, shorter_begins);
        assert(places.last() == text.len() - 1);
    }
}

proof fn lemma_same_filter(
    places: Seq<int>,
    a: spec_fn(int) -> bool,
    b: spec_fn(int) -> bool,
)
    requires
        forall|i: int| 0 <= i < places.len() ==> a(#[trigger] places[i]) == b(places[i]),
    ensures
        places.filter(a) == places.filter(b),
    decreases places.len(),
{
    reveal(Seq::filter);
    if places.len() > 0 {
        let shorter = places.drop_last();
        assert(forall|i: int| 0 <= i < shorter.len() ==> #[trigger] shorter[i] == places[i]);
        lemma_same_filter(shorter, a, b);
        assert(a(places[places.len() - 1]) == b(places[places.len() - 1]));
    }
}

/// A tokenizer that counts words counts the words of any text; one with an encoding counts the tokens
/// that the encoding gives.
pub proof fn tokenizers_count_what_they_are_named_for(
    words: WordCountTokenizer,
    encoder: TiktokenTokenizer,
    text: Seq<char>,
)
    ensures
        words.accepts(text),
        words.tokens(text) == word_count(text),
        words.label() == "word_count"@,
        encoder.tokens(text) == ordinary_tokens(encoder.encoding(), text).len(),
        encoder.accepts(text) <==> runs_fit(encoder.encoding(), text),
{
}

proof fn lemma_runs_are_short(text: Seq<char>, slashes: bool)
    ensures
        white_run(text) <= text.len(),
        marked_run(text) <= letter_run(text) <= text.len(),
        sign_run(text) <= text.len(),
        line_run(text, slashes) <= text.len(),
    decreases text.len(),
{
    if text.len() > 0 {
        lemma_runs_are_short(text.drop_last(), slashes);
    }
}

proof fn lemma_short_ends_fit(text: Seq<char>, slashes: bool)
    requires
        2 * text.len() <= 999_900,
    ensures
        every_end_fits(text, slashes),
    decreases text.len(),
{
    lemma_runs_are_short(text, slashes);
    if text.len() > 0 {
        lemma_short_ends_fit(text.drop_last(), slashes);
    }
}

/// The matcher has room for every text of less than half a million characters.
pub proof fn short_texts_fit(encoding: Seq<char>, text: Seq<char>)
    requires
        2 * text.len() <= 999_900,
    ensures
        runs_fit(encoding, text),
{
    lemma_short_ends_fit(text, encoding == "o200k_base"@);
}

/// The characters from `a` to the end of the text are all of a kind.
spec fn ends_in(text: Seq<char>, a: int, kind: spec_fn(char) -> bool) -> bool {
    forall|i: int| a <= i < text.len() ==> kind(#[trigger] text[i])
}

proof fn lemma_end_is_measured(text: Seq<char>, a: int, m: int, slashes: bool)
    requires
        0 <= a <= m <= text.len(),
    ensures
        ends_in(text, a, |c: char| white_space(c)) ==> white_run(text) >= text.len() - a,
        ends_in(text, a, |c: char| may_be_letter(c)) ==> letter_run(text) >= text.len() - a,
        ends_in(text, a, |c: char| may_be_letter(c)) && m < text.len() && text[m] > '\u{7f}'
            ==> marked_run(text) >= text.len() - m,
        ends_in(text, a, |c: char| may_be_sign(c)) ==> sign_run(text) >= text.len() - a,
    decreases text.len(),
{
    if a < text.len() {
        let shorter = text.drop_last();
        assert(forall|i: int| 0 <= i < shorter.len() ==> #[trigger] shorter[i] == text[i]);
        assert(text[text.len() - 1] == text.last());
        if m < text.len() {
            lemma_end_is_measured(shorter, a, m, slashes);
        } else {
            lemma_end_is_measured(shorter, a, shorter.len() as int, slashes);
        }
    }
}

proof fn lemma_line_is_measured(text: Seq<char>, a: int, m: int, slashes: bool)
    requires
        0 <= a <= m <= text.len(),
        forall|i: int| a <= i < m ==> may_be_sign(#[trigger] text[i]),
        forall|i: int| m <= i < text.len() ==> ends_line(#[trigger] text[i], slashes),
    ensures
        line_run(text, slashes) >= text.len() - a,
    decreases text.len(),
{
    if a < text.len() {
        let shorter = text.drop_last();
        assert(forall|i: int| 0 <= i < shorter.len() ==> #[trigger] shorter[i] == text[i]);
        assert(text[text.len() - 1] == text.last());
        if m < text.len() {
            lemma_line_is_measured(shorter, a, m, slashes);
        } else {
            lemma_end_is_measured(text, a, m, slashes);
            lemma_line_is_measured(shorter, a, shorter.len() as int, slashes);
        }
    }
}

proof fn lemma_every_end(text: Seq<char>, slashes: bool, b: int)
    requires
        every_end_fits(text, slashes),
        0 < b <= text.len(),
    ensures
        end_fits(text.take(b), slashes),
    decreases text.len(),
{
    if b < text.len() {
        lemma_every_end(text.drop_last(), slashes, b);
        assert(text.drop_last().take(b) =~= text.take(b));
    } else {
        assert(text.take(b) =~= text);
    }
}

/// In a text that the matcher has room for no stretch is too long: of white space, of what may be
/// letters, or of what may be signs with line ends behind them. In the encoding `o200k_base` slashes
/// are such line ends, and letters behind a character outside ASCII count twice.
pub proof fn no_stretch_is_too_long(encoding: Seq<char>, text: Seq<char>, a: int, m: int, b: int)
    requires
        runs_fit(encoding, text),
        0 <= a <= m <= b <= text.len(),
    ensures
        (forall|i: int| a <= i < b ==> white_space(#[trigger] text[i])) ==> b - a <= 999_900,
        (forall|i: int| a <= i < b ==> may_be_letter(#[trigger] text[i])) ==> b - a <= 999_900 && (
        encoding == "o200k_base"@ && m < b && text[m] > '\u{7f}' ==> (b - a) + (b - m) <= 999_900),
        (forall|i: int| a <= i < m ==> may_be_sign(#[trigger] text[i])) && (forall|i: int|
            m <= i < b ==> (#[trigger] text[i] == '\r' || text[i] == '\n' || (encoding
                == "o200k_base"@ && text[i] == '/'))) ==> b - a <= 999_900,
{
    let slashes = encoding == "o200k_base"@;
    if b > 0 {
        let part = text.take(b);
        assert(forall|i: int| 0 <= i < part.len() ==> #[trigger] part[i] == text[i]);
        lemma_every_end(text, slashes, b);
        lemma_end_is_measured(part, a, m, slashes);
        if (forall|i: int| a <= i < b ==> white_space(#[trigger] text[i])) {
            assert(ends_in(part, a, |c: char| white_space(c)));
        }
        if (forall|i: int| a <= i < b ==> may_be_letter(#[trigger] text[i])) {
            assert(ends_in(part, a, |c: char| may_be_letter(c)));
        }
        if (forall|i: int| a <= i < m ==> may_be_sign(#[trigger] text[i])) && (forall|i: int|
            m <= i < b ==> (#[trigger] text[i] == '\r' || text[i] == '\n' || (slashes && text[i]
                == '/'))) {
            lemma_line_is_measured(part, a, m, slashes);
        }
    }
}

/// Which characters may be letters and which may be signs: in ASCII the letters from `A` to `Z` in
/// both cases, and what is neither such a letter, nor a digit, nor white space; outside ASCII all
/// that is not white space.
pub proof fn letters_and_signs(c: char)
    ensures
        may_be_letter(c) <==> 'A' <= c <= 'Z' || 'a' <= c <= 'z' || (c > '\u{7f}' && !white_space(
            c,
        )),
        may_be_sign(c) <==> !white_space(c) && !('A' <= c <= 'Z') && !('a' <= c <= 'z') && !('0'
            <= c <= '9'),
{
}

/// There are two encodings; what is said of another name names both.
pub proof fn two_encodings_are_known(name: Seq<char>, told: String)
    ensures
        TiktokenTokenizer::knows(name) <==> name == "cl100k_base"@ || name == "o200k_base"@,
        TokenizerError::Unknown(told).text() == "unknown tokenizer: "@ + told@
            + " (supported: cl100k_base, o200k_base)"@,
        TokenizerError::NotLoaded(told).text() == told@,
{
}

} // verus!
