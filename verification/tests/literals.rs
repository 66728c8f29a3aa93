use postfix_infix::literal::is_string_number;

const NUMBERS: [&str; 44] = [
    "0", "7", "007", "42", "3.14", "1.", ".5", "0.0", "+1", "-1", "+.5", "-.5", "+1.", "-0",
    "1e5", "1E5", "1e+5", "1e-5", "1E+05", "1.e5", ".5e1", "1.5e10", "-1.5E-10", "1e400",
    "1e-400", "123456789012345678901234567890", "0.000000000000000000000000000001", "inf",
    "+inf", "-inf", "INF", "Inf", "infinity", "Infinity", "INFINITY", "iNfInItY", "-infinity",
    "nan", "NaN", "NAN", "-nan", "+NaN", "1e0", "00.00e00",
];

const OTHERS: [&str; 48] = [
    "", "+", "-", "*", "/", ".", "+.", "-.", "e", "e5", "E5", ".e5", "1e", "1e+", "1e-", "1e+-5",
    "1e5.5", "1.5.2", "1..2", "--1", "+-1", "-+1", "1+", "1-", "1 ", " 1", "1 2", "1_000", "0x10",
    "1f", "1d", "1,5", "$", "abc", "in", "infi", "infinit", "infinityy", "na", "nana", "n", "i",
    "+", "in f", "\u{0131}nf", "\u{0130}nf", "\u{0661}", "1e\u{0663}",
];

#[test]
fn texts_of_numbers_are_recognized() {
    for text in NUMBERS {
        assert!(is_string_number(text), "{text:?} is a number");
    }
}

#[test]
fn other_texts_are_refused() {
    for text in OTHERS {
        assert!(!is_string_number(text), "{text:?} is no number");
    }
}

#[test]
fn recognition_agrees_with_the_standard_parser() {
    for text in NUMBERS.iter().chain(OTHERS.iter()) {
        assert_eq!(is_string_number(text), text.parse::<f64>().is_ok(), "{text:?}");
    }
}

#[test]
fn every_short_text_over_the_grammar_alphabet_agrees_with_the_standard_parser() {
    let alphabet = ['0', '9', '+', '-', '.', 'e', 'E', 'i', 'n', 'f', 'a', 'N', ' ', 'x'];
    let mut texts: Vec<String> = vec![String::new()];
    let mut start = 0;
    for _ in 0..4 {
        let end = texts.len();
        for i in start..end {
            for c in alphabet {
                let mut longer = texts[i].clone();
                longer.push(c);
                texts.push(longer);
            }
        }
        start = end;
    }
    for text in &texts {
        assert_eq!(is_string_number(text), text.parse::<f64>().is_ok(), "{text:?}");
    }
}

#[test]
fn long_names_agree_with_the_standard_parser() {
    let base = "infinity";
    for cut in 0..=base.len() {
        for sign in ["", "+", "-"] {
            let lower = format!("{sign}{}", &base[..cut]);
            let upper = lower.to_uppercase();
            let mixed = format!("{sign}{}{}", base[..cut].to_uppercase(), "y");
            for text in [lower, upper, mixed] {
                assert_eq!(is_string_number(&text), text.parse::<f64>().is_ok(), "{text:?}");
            }
        }
    }
}
