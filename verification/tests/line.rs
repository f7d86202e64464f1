use justify::line::Line;

fn words_of<'a>(line: &Line<'a>) -> Vec<&'a str> {
    line.iter().copied().collect()
}

#[test]
fn new_line_holds_its_word() {
    let line = Line::new_with_word("word");
    assert_eq!(line.word_count(), 1);
    assert_eq!(line.char_count(), 4);
    assert_eq!(words_of(&line), vec!["word"]);
}

#[test]
fn line_counts_code_units() {
    let mut line = Line::new_with_word("日本語");
    assert_eq!(line.char_count(), 9);
    line.add_word("é");
    assert_eq!(line.char_count(), 11);
    assert_eq!(line.word_count(), 2);
}

#[test]
fn added_words_stand_behind_the_others() {
    let mut line = Line::new_with_word("one");
    line.add_word("two");
    line.add_word("three");
    assert_eq!(line.word_count(), 3);
    assert_eq!(line.char_count(), 11);
    assert_eq!(words_of(&line), vec!["one", "two", "three"]);
}

#[test]
fn blanks_between_the_words_are_not_counted() {
    let mut line = Line::new_with_word("a");
    line.add_word("b");
    assert_eq!(line.char_count(), 2);
}

#[test]
fn word_fits_with_a_blank_for_each_word_before_it() {
    let mut line = Line::new_with_word("ab");
    // two columns taken, one blank, two columns more
    assert!(line.word_fits("cd", 5));
    assert!(line.word_fits("cd", 6));
    assert!(!line.word_fits("cd", 4));
    assert!(!line.word_fits("cde", 5));
    line.add_word("cd");
    // four columns taken, two blanks, one column more
    assert!(line.word_fits("e", 7));
    assert!(!line.word_fits("e", 6));
    assert!(!line.word_fits("ef", 7));
}

#[test]
fn word_fits_on_the_widest_line() {
    let line = Line::new_with_word("ab");
    assert!(line.word_fits("cd", u32::MAX));
    assert!(!line.word_fits("cd", 0));
}

#[test]
fn line_hands_out_its_words_in_order() {
    let mut line = Line::new_with_word("x");
    line.add_word("yy");
    let mut words = line.iter();
    assert_eq!(words.next(), Some(&"x"));
    assert_eq!(words.next(), Some(&"yy"));
    assert_eq!(words.next(), None);
}
