use tchunk_pdf::tokenize::{
    check_runs, count_words, is_white_space, TiktokenTokenizer, Tokenizer, TokenizerError,
    WordCountTokenizer, MATCH_ROOM,
};

#[test]
fn words_end_where_letters_and_digits_do() {
    assert_eq!(count_words(""), 0);
    assert_eq!(count_words("hello"), 1);
    assert_eq!(count_words("hello,world"), 2);
    assert_eq!(count_words("don't"), 2);
    assert_eq!(count_words("  two  words  "), 2);
    assert_eq!(count_words("a1 b2-c3"), 3);
    assert_eq!(count_words("…—!?"), 0);
    assert_eq!(count_words("naïve café"), 2);
}

#[test]
fn a_separator_parts_words() {
    let before = "one two";
    let behind = "three";
    let joined = format!("{before};{behind}");
    assert_eq!(count_words(&joined), count_words(before) + count_words(behind));
}

#[test]
fn word_counter_is_named() {
    let tokenizer = WordCountTokenizer;
    assert_eq!(tokenizer.name(), "word_count");
    assert_eq!(tokenizer.count("hello, world"), 2);
}

#[test]
fn white_space_is_what_unicode_says() {
    for c in '\u{0}'..='\u{10ffff}' {
        assert_eq!(is_white_space(c), c.is_whitespace(), "{c:?}");
    }
}

#[test]
fn the_matcher_has_room_for_short_runs() {
    for name in ["cl100k_base", "o200k_base"] {
        assert!(check_runs(name, ""));
        assert!(check_runs(name, &" ".repeat(MATCH_ROOM)));
        assert!(!check_runs(name, &" ".repeat(MATCH_ROOM + 1)));
        assert!(check_runs(name, &"a".repeat(MATCH_ROOM)));
        assert!(!check_runs(name, &"a".repeat(MATCH_ROOM + 1)));
        assert!(check_runs(name, &"-".repeat(MATCH_ROOM)));
        assert!(!check_runs(name, &"-".repeat(MATCH_ROOM + 1)));
    }
}

#[test]
fn runs_are_measured_where_they_meet() {
    for name in ["cl100k_base", "o200k_base"] {
        assert!(check_runs(name, &format!("{}b", " ".repeat(MATCH_ROOM))));
        assert!(check_runs(name, &"a1".repeat(MATCH_ROOM)));
        assert!(check_runs(name, &format!("{} {}", "-".repeat(600_000), "\n".repeat(600_000))));
        assert!(!check_runs(name, &format!("{}{}", "-".repeat(600_000), "\n".repeat(600_000))));
        assert!(check_runs(name, &format!("{}{}", "a".repeat(600_000), "\n".repeat(600_000))));
    }
}

#[test]
fn letters_behind_a_mark_are_taken_back_twice() {
    let plain = "A".repeat(600_000);
    let marked = format!("\u{301}{plain}");
    assert!(check_runs("cl100k_base", &plain));
    assert!(check_runs("o200k_base", &plain));
    assert!(check_runs("cl100k_base", &marked));
    assert!(!check_runs("o200k_base", &marked));
    assert!(check_runs("o200k_base", &format!("\u{301}{}", "A".repeat(499_900))));
}

#[test]
fn slashes_are_line_ends_in_one_encoding() {
    let text = "/\n".repeat(500_001);
    let cl = TiktokenTokenizer::new("cl100k_base").unwrap();
    let o = TiktokenTokenizer::new("o200k_base").unwrap();
    assert_eq!(cl.try_count(&text), Some(500_001));
    assert_eq!(o.try_count(&text), None);
    assert!(o.try_count(&"/\n".repeat(500)).is_some());
    assert!(check_runs("o200k_base", &"/\n".repeat(MATCH_ROOM / 2)));
    assert!(!check_runs("o200k_base", &"/\n".repeat(MATCH_ROOM / 2 + 1)));
}

#[test]
fn encodings_count_tokens() {
    let cl = TiktokenTokenizer::new("cl100k_base").unwrap();
    assert_eq!(cl.name(), "cl100k_base");
    assert_eq!(cl.count("hello world"), 2);
    assert_eq!(cl.try_count("hello world"), Some(2));
    assert_eq!(cl.count(""), 0);
    let o = TiktokenTokenizer::new("o200k_base").unwrap();
    assert_eq!(o.name(), "o200k_base");
    assert_eq!(o.count("hello world"), 2);
}

#[test]
fn too_long_a_run_is_not_counted() {
    let cl = TiktokenTokenizer::new("cl100k_base").unwrap();
    assert_eq!(cl.try_count(&" ".repeat(MATCH_ROOM + 1)), None);
    assert_eq!(cl.try_count(&"a".repeat(MATCH_ROOM + 1)), None);
    assert!(cl.try_count(&" ".repeat(2_000)).is_some());
    assert!(cl.try_count(&"a".repeat(2_000)).is_some());
}

#[test]
fn many_short_runs_are_counted() {
    let text = "ab ".repeat(400_000);
    assert!(text.len() > MATCH_ROOM);
    for name in ["cl100k_base", "o200k_base"] {
        assert!(TiktokenTokenizer::new(name).unwrap().try_count(&text).unwrap() >= 400_000);
    }
}

#[test]
fn unknown_encodings_are_refused() {
    match TiktokenTokenizer::new("p50k") {
        Err(TokenizerError::Unknown(name)) => assert_eq!(name, "p50k"),
        _ => panic!("expected an unknown tokenizer"),
    }
    let error = TiktokenTokenizer::new("word_count").err().unwrap();
    assert_eq!(
        error.message(),
        "unknown tokenizer: word_count (supported: cl100k_base, o200k_base)"
    );
}

#[test]
fn an_encoder_that_was_not_set_up_is_told() {
    let failed = TiktokenTokenizer::from_encoder(Err(anyhow::Error::msg("no data")), "cl100k_base");
    match failed {
        Err(TokenizerError::NotLoaded(why)) => assert_eq!(why, "no data"),
        _ => panic!("expected an error"),
    }
}
