use cache_aware_routing::text::{
    begins_as_flag, parse_number, push_decimal, same_text, split_tokens, tail_after_last,
    white_space, NumberError,
};

#[test]
fn white_space_is_that_of_unicode() {
    for code in 0..=0x10ffffu32 {
        if let Some(ch) = char::from_u32(code) {
            assert_eq!(white_space(ch), ch.is_whitespace(), "{code:x}");
        }
    }
}

#[test]
fn tokens_are_what_white_space_parts() {
    assert_eq!(split_tokens("  a bb \u{2028}ccc"), vec!["a", "bb", "ccc"]);
    assert!(split_tokens("\u{1680}\u{205f}").is_empty());
    assert_eq!(split_tokens("x"), vec!["x"]);
}

#[test]
fn decimals_are_written_as_usual() {
    for number in [0, 1, 9, 10, 19, 99, 100, 12345, 1_000_000, u64::MAX - 1, u64::MAX] {
        let mut out = String::from("n=");
        push_decimal(&mut out, number);
        assert_eq!(out, format!("n={number}"));
    }
}

#[test]
fn numbers_are_read_as_std_reads_them() {
    for text in [
        "",
        "+",
        "-",
        "0",
        "-0",
        "+0",
        "++1",
        "007",
        "42",
        "+42",
        " 42",
        "42 ",
        "4 2",
        "4x",
        "x4",
        "٣",
        "18446744073709551614",
        "18446744073709551615",
        "18446744073709551616",
        "+18446744073709551615",
        "99999999999999999999999999",
        "99999999999999999999999999x",
        "1844674407370955161x",
        "000000000000000000000000000000012",
    ] {
        let std_number = text.parse::<u64>();
        match parse_number(text, u64::MAX) {
            Ok(number) => assert_eq!(Ok(number), std_number, "{text}"),
            Err(error) => assert_eq!(error.message(), std_number.unwrap_err().to_string()),
        }
        let small = text.parse::<u16>();
        match parse_number(text, u16::MAX as u64) {
            Ok(number) => assert_eq!(number, small.unwrap() as u64, "{text}"),
            Err(error) => assert_eq!(error.message(), small.unwrap_err().to_string()),
        }
    }
}

#[test]
fn number_errors_say_what_is_wrong() {
    assert_eq!(parse_number("", 10), Err(NumberError::Empty));
    assert_eq!(parse_number("1a", 10), Err(NumberError::InvalidDigit));
    assert_eq!(parse_number("+", 10), Err(NumberError::InvalidDigit));
    assert_eq!(parse_number("11", 10), Err(NumberError::TooLarge));
    assert_eq!(parse_number("10", 10), Ok(10));
}

#[test]
fn decimals_are_read_back() {
    for number in [0, 7, 10, 255, 65536, u64::MAX] {
        let mut out = String::new();
        push_decimal(&mut out, number);
        assert_eq!(parse_number(&out, u64::MAX), Ok(number));
    }
}

#[test]
fn flags_begin_with_two_dashes() {
    assert!(begins_as_flag("--"));
    assert!(begins_as_flag("--hits"));
    assert!(!begins_as_flag("-"));
    assert!(!begins_as_flag("-x-"));
    assert!(!begins_as_flag(""));
    assert!(!begins_as_flag("a--"));
}

#[test]
fn texts_are_told_apart() {
    assert!(same_text("", ""));
    assert!(same_text("node-ä", "node-ä"));
    assert!(!same_text("node-a", "node-b"));
    assert!(!same_text("node", "node-a"));
    assert!(!same_text("a", ""));
}

#[test]
fn tail_follows_the_last_separator() {
    for text in ["", "abc", "a-b", "a-b-c", "-", "a-", "-b", "ö-日本"] {
        let expected = text.rsplit_once('-').map(|(_, tail)| tail.to_string());
        assert_eq!(tail_after_last(text, '-'), expected);
    }
}
