use ngram_lm::text::{
    is_whitespace, parse_ngram_line, parse_number, parse_processed_line, parse_word_line,
    split_whitespace,
};

fn strings(words: &[&str]) -> Vec<String> {
    words.iter().map(|w| w.to_string()).collect()
}

#[test]
fn white_space_is_what_std_says() {
    for code in 0u32..0x11_0000 {
        if let Some(c) = char::from_u32(code) {
            assert_eq!(is_whitespace(c), c.is_whitespace(), "U+{:04X}", code);
        }
    }
}

#[test]
fn fields_are_runs_between_white_space() {
    assert_eq!(split_whitespace(""), strings(&[]));
    assert_eq!(split_whitespace("   \t "), strings(&[]));
    assert_eq!(split_whitespace("a"), strings(&["a"]));
    assert_eq!(split_whitespace("  the\tquick  brown\u{3000}fox \n"), strings(&["the", "quick", "brown", "fox"]));
    assert_eq!(split_whitespace("äö ü 12"), strings(&["äö", "ü", "12"]));
}

#[test]
fn fields_agree_with_std_on_mixed_lines() {
    let lines = ["a b 3", " x", "x ", "\u{a0}a\u{a0}\u{a0}b", "one\u{2003}two three  ", "\r\n", "日本 語 7"];
    for line in lines {
        let expected: Vec<String> = line.split_whitespace().map(|w| w.to_string()).collect();
        assert_eq!(split_whitespace(line), expected);
    }
}

#[test]
fn numbers_are_read_as_std_reads_them() {
    let texts = [
        "0", "7", "007", "+5", "+", "-", "-5", "", "12a", "a12", "4294967295", "4294967296",
        "99999999999999999999999", "++1", "+-1", "1 ", "٣", "1_000",
    ];
    for text in texts {
        let expected = text.parse::<u32>().ok().map(|v| v as u64);
        assert_eq!(parse_number(text, u32::MAX as u64), expected, "{:?}", text);
    }
    assert_eq!(parse_number("18446744073709551615", u64::MAX), Some(u64::MAX));
    assert_eq!(parse_number("18446744073709551616", u64::MAX), None);
    assert_eq!(parse_number("10", 9), None);
    assert_eq!(parse_number("9", 9), Some(9));
}

#[test]
fn word_lines_are_trimmed() {
    assert_eq!(parse_word_line("  hello \t"), "hello");
    assert_eq!(parse_word_line("hello"), "hello");
    assert_eq!(parse_word_line(""), "");
    assert_eq!(parse_word_line(" \u{2028} "), "");
    assert_eq!(parse_word_line(" two words  "), "two words");
    for line in ["\ta b\u{85}", "x", " ", "é ", " 語"] {
        assert_eq!(parse_word_line(line), line.trim());
    }
}

#[test]
fn count_lines_hold_words_and_a_count() {
    assert_eq!(parse_ngram_line("a 3", 1), Some((strings(&["a"]), 3)));
    assert_eq!(parse_ngram_line("a b 2", 2), Some((strings(&["a", "b"]), 2)));
    assert_eq!(parse_ngram_line("  a\tb   c 17  ", 3), Some((strings(&["a", "b", "c"]), 17)));
    assert_eq!(parse_ngram_line("5", 0), Some((strings(&[]), 5)));
}

#[test]
fn malformed_count_lines_are_refused() {
    assert_eq!(parse_ngram_line("a b", 2), None);
    assert_eq!(parse_ngram_line("", 1), None);
    assert_eq!(parse_ngram_line("a b x", 2), None);
    assert_eq!(parse_ngram_line("a b -1", 2), None);
    assert_eq!(parse_ngram_line("a 4294967296", 1), None);
    assert_eq!(parse_ngram_line("a b 2", 3), None);
    assert_eq!(parse_ngram_line("a b 2 extra", 2), None);
    assert_eq!(parse_ngram_line("a 3 4", 1), None);
    assert_eq!(parse_ngram_line("a b c 1", 2), None);
    assert_eq!(parse_ngram_line("5 6", 0), None);
}

#[test]
fn processed_lines_hold_state_labels_and_count() {
    assert_eq!(parse_processed_line("4 9", 1, false), Some((Some(4), vec![3], 9)));
    assert_eq!(parse_processed_line("7 1 2 30", 2, false), Some((Some(7), vec![1, 2], 30)));
    assert_eq!(parse_processed_line("1 2 3 30", 3, true), Some((None, vec![1, 2, 3], 30)));
    assert_eq!(parse_processed_line("7 30", 0, false), Some((Some(7), vec![], 30)));
}

#[test]
fn malformed_processed_lines_are_refused() {
    assert_eq!(parse_processed_line("0 9", 1, false), None);
    assert_eq!(parse_processed_line("9", 1, true), None);
    assert_eq!(parse_processed_line("4", 1, false), None);
    assert_eq!(parse_processed_line("7 1 x 30", 2, false), None);
    assert_eq!(parse_processed_line("7 1 2", 2, false), None);
    assert_eq!(parse_processed_line("x 1 2 3", 2, false), None);
    assert_eq!(parse_processed_line("1 2 3", 3, true), None);
}
