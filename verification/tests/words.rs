use postfix_infix::text::{is_blank_line, split_words, to_chars};

const LINES: [&str; 14] = [
    "",
    " ",
    "3 4 +",
    "  3   4\t+  ",
    "\t\t",
    "one",
    " one",
    "one ",
    "a\u{a0}b",
    "a\u{2003}b\u{3000}c",
    "a\u{200b}b",
    "\u{85}x\u{1680}",
    "5 1 2 + 4 * +",
    "é ü\n",
];

#[test]
fn words_are_the_runs_between_white_space() {
    assert_eq!(split_words("  3   4\t+  "), vec!["3", "4", "+"]);
    assert_eq!(split_words("one"), vec!["one"]);
    assert_eq!(split_words(""), Vec::<String>::new());
    assert_eq!(split_words(" \t "), Vec::<String>::new());
    assert_eq!(split_words("a\u{a0}b"), vec!["a", "b"]);
}

#[test]
fn splitting_agrees_with_the_standard_library() {
    for line in LINES {
        let expected: Vec<String> = line.split_whitespace().map(|w| w.to_string()).collect();
        assert_eq!(split_words(line), expected, "{line:?}");
    }
}

#[test]
fn a_line_is_blank_when_trimming_leaves_nothing() {
    for line in LINES {
        assert_eq!(is_blank_line(line), line.trim().is_empty(), "{line:?}");
    }
    assert!(is_blank_line(""));
    assert!(is_blank_line(" \t\u{a0}"));
    assert!(!is_blank_line(" . "));
}

#[test]
fn a_line_is_blank_exactly_when_it_has_no_words() {
    for line in LINES {
        assert_eq!(is_blank_line(line), split_words(line).is_empty(), "{line:?}");
    }
}

#[test]
fn characters_come_one_by_one() {
    assert_eq!(to_chars("3 +é"), vec!['3', ' ', '+', 'é']);
    assert_eq!(to_chars(""), Vec::<char>::new());
}
