use lipsum::capitalize;
use lipsum::format::join_words_counted;
use lipsum::format::title_case_join;
use lipsum::is_ascii_punctuation;
use lipsum::join_words;

fn words(items: &[&str]) -> Vec<String> {
    items.iter().map(|w| String::from(*w)).collect()
}

#[test]
fn join_empty_is_empty() {
    assert_eq!(join_words(&words(&[])), "");
}

#[test]
fn join_adds_terminal_period() {
    assert_eq!(join_words(&words(&["voluptas"])), "Voluptas.");
    assert_eq!(join_words(&words(&["voluptas", "est"])), "Voluptas est.");
}

#[test]
fn join_keeps_existing_terminator() {
    // A sentence already ending in '.', '!' or '?' is not given another,
    // even when the terminator stands as a word of its own.
    assert_eq!(join_words(&words(&["voluptas", "est."])), "Voluptas est.");
    assert_eq!(join_words(&words(&["finis!"])), "Finis!");
    assert_eq!(join_words(&words(&["quo", "vadis?"])), "Quo vadis?");
    assert_eq!(join_words(&words(&["ab", "!"])), "Ab !");
}

#[test]
fn join_strips_trailing_punctuation() {
    // A trailing comma or similar is removed before the '.' is added, so
    // "word," does not become "word,.".
    assert_eq!(join_words(&words(&["voluptas", "est,"])), "Voluptas est.");
    assert_eq!(join_words(&words(&["dolor", "sit;"])), "Dolor sit.");
    assert_eq!(join_words(&words(&["ab", ","])), "Ab .");
    assert_eq!(join_words(&words(&[","])), ".");
}

#[test]
fn join_capitalizes_after_punctuation() {
    // A word following sentence-ending punctuation is capitalized.
    assert_eq!(
        join_words(&words(&["nullam", "habuit.", "voluptatem", "cum"])),
        "Nullam habuit. Voluptatem cum."
    );
    assert_eq!(
        join_words(&words(&["unum!", "duo?", "tres"])),
        "Unum! Duo? Tres."
    );
    // A comma does not trigger capitalization.
    assert_eq!(
        join_words(&words(&["unum,", "duo"])),
        "Unum, duo."
    );
}

#[test]
fn capitalize_first_char() {
    assert_eq!(capitalize("foo"), "Foo");
    assert_eq!(capitalize("Foo"), "Foo");
    assert_eq!(capitalize(""), "");
    assert_eq!(capitalize("x"), "X");
    // The first character is taken as a full Unicode scalar, not a byte.
    assert_eq!(capitalize("\u{e5}ge"), "\u{c5}ge");
    // Punctuation has no uppercase mapping and stays itself.
    assert_eq!(capitalize("."), ".");
    assert_eq!(capitalize(",ab"), ",ab");
}

#[test]
fn counted_join_checks_words() {
    assert_eq!(
        join_words_counted(&words(&["nullam", "habuit.", "voluptatem"])),
        Some(String::from("Nullam habuit. Voluptatem."))
    );
    assert_eq!(join_words_counted(&words(&[])), Some(String::new()));
    // A "word" holding whitespace is refused rather than joined.
    assert_eq!(join_words_counted(&words(&["two words"])), None);
    assert_eq!(join_words_counted(&words(&["fine", ""])), None);
}

#[test]
fn title_case_joins_words() {
    // The first word and every word of more than three bytes is
    // capitalized; no terminal punctuation is added.
    assert_eq!(
        title_case_join(&words(&["ab", "grate", "et", "meminit"])),
        "Ab Grate et Meminit"
    );
    assert_eq!(title_case_join(&words(&[])), "");
}

#[test]
fn ascii_punctuation_predicate() {
    for c in ['.', ',', '!', '?', ';', ':', '-', '(', ')', '~', '@'] {
        assert!(is_ascii_punctuation(c));
    }
    for c in ['a', 'Z', '0', ' ', '\u{e5}'] {
        assert!(!is_ascii_punctuation(c));
    }
}
