use justify::transform;

const WIDTHS: [u32; 9] = [1, 2, 3, 5, 8, 12, 17, 40, 200];

const TEXTS: [&str; 8] = [
    "",
    "   \n\t ",
    "test",
    "Lorem     ipsum    dolor",
    "Lorem ipsum dolor sit amet consectetur adipiscing elit sed do eiusmod tempor incididunt ut labore et dolore magna aliqua",
    "a b c d e f g h i j k l m n o p q r s t u v w x y z",
    "  leading and trailing  \n\n blank\u{A0}space\u{3000}of\u{2003}many kinds\r\n",
    "é ü ö 日本語 naïve café  x",
];

fn widest_word(text: &str) -> usize {
    text.split_whitespace().map(|word| word.len()).max().unwrap_or(0)
}

#[test]
fn words_are_kept_in_their_order() {
    for text in TEXTS {
        for line_width in WIDTHS {
            if let Ok(made) = transform(text, line_width) {
                let before: Vec<&str> = text.split_whitespace().collect();
                let after: Vec<&str> = made.split_whitespace().collect();
                assert_eq!(before, after);
            }
        }
    }
}

#[test]
fn every_line_is_as_wide_as_asked() {
    for text in TEXTS {
        for line_width in WIDTHS {
            if let Ok(made) = transform(text, line_width) {
                if text.split_whitespace().next().is_none() {
                    assert_eq!(made, "");
                } else {
                    for line in made.split('\n') {
                        assert_eq!(line.len(), line_width as usize);
                    }
                }
            }
        }
    }
}

#[test]
fn text_is_refused_just_where_a_word_is_too_wide() {
    for text in TEXTS {
        for line_width in WIDTHS {
            let made = transform(text, line_width);
            assert_eq!(made.is_err(), widest_word(text) > line_width as usize);
        }
    }
}

#[test]
fn text_without_words_gives_empty_text_at_every_width() {
    for line_width in [0, 1, 2, 5, 80, 1_000_000, u32::MAX] {
        assert_eq!(transform("", line_width), Ok(String::new()));
        assert_eq!(transform(" \n\t\r ", line_width), Ok(String::new()));
    }
}

#[test]
fn gaps_differ_by_one_at_most_and_wider_ones_come_first() {
    for text in TEXTS {
        for line_width in WIDTHS {
            if let Ok(made) = transform(text, line_width) {
                for line in made.split('\n') {
                    let words: Vec<&str> = line.split(' ').filter(|word| !word.is_empty()).collect();
                    if words.len() < 2 {
                        continue;
                    }
                    // The widths of the runs of blanks between the words.
                    let mut gaps: Vec<usize> = Vec::new();
                    let mut run = 0;
                    for c in line.chars() {
                        if c == ' ' {
                            run += 1;
                        } else if run > 0 {
                            gaps.push(run);
                            run = 0;
                        }
                    }
                    assert_eq!(run, 0);
                    assert_eq!(gaps.len(), words.len() - 1);
                    let taken: usize = words.iter().map(|word| word.len()).sum();
                    let room = line_width as usize - taken;
                    let base = room / gaps.len();
                    let extra = room % gaps.len();
                    for (position, gap) in gaps.iter().enumerate() {
                        assert_eq!(*gap, if position < extra { base + 1 } else { base });
                    }
                    assert_eq!(gaps.iter().filter(|gap| **gap == base + 1).count(), extra);
                    assert_eq!(gaps.iter().filter(|gap| **gap == base).count(), gaps.len() - extra);
                }
            }
        }
    }
}

#[test]
fn no_line_could_take_the_first_word_of_the_next() {
    for text in TEXTS {
        for line_width in WIDTHS {
            if let Ok(made) = transform(text, line_width) {
                let lines: Vec<Vec<&str>> =
                    made.split('\n').map(|line| line.split_whitespace().collect()).collect();
                for pair in lines.windows(2) {
                    let taken: usize = pair[0].iter().map(|word| word.len()).sum();
                    assert!(taken + pair[0].len() + pair[1][0].len() > line_width as usize);
                }
            }
        }
    }
}
