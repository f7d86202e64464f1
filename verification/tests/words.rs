use justify::units::{char_width_of, width_of};
use justify::words::{is_whitespace, Words};

fn all_words(text: &str) -> Vec<&str> {
    let mut words = Words::new(text);
    let mut found = Vec::new();
    while let Some(word) = words.next_word() {
        found.push(word);
    }
    assert_eq!(words.next_word(), None);
    found
}

#[test]
fn whitespace_is_what_the_standard_library_calls_so() {
    for scalar in 0..=0x10FFFF_u32 {
        if let Some(c) = char::from_u32(scalar) {
            assert_eq!(is_whitespace(c), c.is_whitespace(), "U+{:04X}", scalar);
        }
    }
}

#[test]
fn whitespace_holds_blank_and_line_feed() {
    assert!(is_whitespace(' '));
    assert!(is_whitespace('\n'));
    assert!(is_whitespace('\t'));
    assert!(is_whitespace('\u{A0}'));
    assert!(is_whitespace('\u{3000}'));
    assert!(!is_whitespace('a'));
    assert!(!is_whitespace('_'));
    assert!(!is_whitespace('\u{8}'));
    assert!(!is_whitespace('\u{E}'));
    assert!(!is_whitespace('\u{200B}'));
    assert!(!is_whitespace('越'));
}

#[test]
fn character_takes_one_to_four_code_units() {
    assert_eq!(char_width_of('\0'), 1);
    assert_eq!(char_width_of('a'), 1);
    assert_eq!(char_width_of('\u{7F}'), 1);
    assert_eq!(char_width_of('\u{80}'), 2);
    assert_eq!(char_width_of('é'), 2);
    assert_eq!(char_width_of('\u{7FF}'), 2);
    assert_eq!(char_width_of('\u{800}'), 3);
    assert_eq!(char_width_of('語'), 3);
    assert_eq!(char_width_of('\u{FFFF}'), 3);
    assert_eq!(char_width_of('\u{10000}'), 4);
    assert_eq!(char_width_of('🦀'), 4);
    assert_eq!(char_width_of('\u{10FFFF}'), 4);
}

#[test]
fn character_takes_what_its_encoding_takes() {
    for scalar in 0..=0x10FFFF_u32 {
        if let Some(c) = char::from_u32(scalar) {
            assert_eq!(char_width_of(c), c.len_utf8(), "U+{:04X}", scalar);
        }
    }
}

#[test]
fn text_takes_the_code_units_of_its_characters() {
    assert_eq!(width_of(""), 0);
    assert_eq!(width_of("test"), 4);
    assert_eq!(width_of("é"), 2);
    assert_eq!(width_of("日本語"), 9);
    assert_eq!(width_of("a🦀b"), 6);
    for text in ["", "plain", "naïve café", "日本語 🦀"] {
        assert_eq!(width_of(text), text.chars().map(char_width_of).sum::<usize>());
    }
}

#[test]
fn words_come_one_at_a_time() {
    let mut words = Words::new("  one two\tthree\n");
    assert_eq!(words.next_word(), Some("one"));
    assert_eq!(words.next_word(), Some("two"));
    assert_eq!(words.next_word(), Some("three"));
    assert_eq!(words.next_word(), None);
    assert_eq!(words.next_word(), None);
}

#[test]
fn text_without_words_has_none() {
    assert_eq!(all_words(""), Vec::<&str>::new());
    assert_eq!(all_words(" "), Vec::<&str>::new());
    assert_eq!(all_words(" \t\r\n\u{A0}\u{3000} "), Vec::<&str>::new());
}

#[test]
fn text_of_one_word_has_it() {
    assert_eq!(all_words("word"), vec!["word"]);
    assert_eq!(all_words(" word"), vec!["word"]);
    assert_eq!(all_words("word "), vec!["word"]);
    assert_eq!(all_words("\nword\n"), vec!["word"]);
    assert_eq!(all_words("語"), vec!["語"]);
}

#[test]
fn words_are_slices_of_the_text() {
    let text = String::from("alpha  βeta\u{3000}𝛾");
    let found = all_words(&text);
    assert_eq!(found, vec!["alpha", "βeta", "𝛾"]);
    let start = text.as_ptr() as usize;
    assert_eq!(found[0].as_ptr() as usize, start);
    assert_eq!(found[1].as_ptr() as usize, start + 7);
    assert_eq!(found[2].as_ptr() as usize, start + 7 + 5 + 3);
}

#[test]
fn words_are_those_of_the_standard_library() {
    let texts = [
        "",
        " ",
        "a",
        " a ",
        "a b",
        "Lorem     ipsum    dolor",
        "tabs\tand\nfeeds\r\nand\u{0B}more\u{0C}",
        "no\u{200B}break here\u{180E}either",
        "\u{85}next\u{A0}line\u{1680}ogham\u{2000}en\u{2001}em\u{2002}\u{2003}\u{2004}\u{2005}\u{2006}\u{2007}\u{2008}\u{2009}\u{200A}hair",
        "\u{2028}line\u{2029}paragraph\u{202F}narrow\u{205F}math\u{3000}wide",
        "é ü 日本語 🦀🦀 x",
    ];
    for text in texts {
        let expected: Vec<&str> = text.split_whitespace().collect();
        assert_eq!(all_words(text), expected, "{:?}", text);
    }
}
