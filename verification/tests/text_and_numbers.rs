use sdestimator::text::{
    chars_of, decimal_string, is_whitespace, joined, parse_number, split_lines, split_words,
    starts_with, string_of, trimmed, NumberError,
};

fn words(s: &str) -> Vec<String> {
    split_words(&chars_of(s)).iter().map(string_of).collect()
}

fn lines(s: &str) -> Vec<String> {
    split_lines(&chars_of(s)).iter().map(string_of).collect()
}

fn trim(s: &str) -> String {
    string_of(&trimmed(&chars_of(s)))
}

fn parse(s: &str) -> Result<u64, NumberError> {
    parse_number(&chars_of(s))
}

const TEXTS: [&str; 14] = [
    "",
    " ",
    "a",
    " a b ",
    "a\tb\r\nc\n",
    "\n\n",
    "x\n",
    "x\ny",
    "  1   2 \u{a0}3\u{2003}4 ",
    "\u{3000}wide\u{3000}",
    "zero\u{200b}width",
    "/dev/mmcblk0p2 / ext4 rw,noatime 0 0\n/dev/sda1 /mnt vfat rw 0 0\n",
    "\u{b}vertical\u{c}form",
    "\u{85}next\u{2028}line\u{2029}para\u{202f}narrow\u{205f}math\u{1680}ogham",
];

#[test]
fn words_agree_with_split_whitespace() {
    for t in TEXTS {
        let expected: Vec<String> = t.split_whitespace().map(|w| w.to_string()).collect();
        assert_eq!(words(t), expected, "{t:?}");
    }
}

#[test]
fn trimming_agrees_with_trim() {
    for t in TEXTS {
        assert_eq!(trim(t), t.trim(), "{t:?}");
    }
}

#[test]
fn lines_agree_with_the_standard_library() {
    let endings = ["\r\n", "a\r\nb\r\n", "a\r", "\r\n\r", "a\r\r\nb\rc\n"];
    for t in TEXTS.iter().chain(endings.iter()) {
        let expected: Vec<String> = t.lines().map(|l| l.to_string()).collect();
        assert_eq!(lines(t), expected);
    }
}

#[test]
fn white_space_agrees_with_unicode() {
    for u in 0..0x11_0000u32 {
        if let Some(c) = char::from_u32(u) {
            assert_eq!(is_whitespace(c), c.is_whitespace(), "{u:x}");
        }
    }
}

#[test]
fn numbers_are_read() {
    assert_eq!(parse("0"), Ok(0));
    assert_eq!(parse("007"), Ok(7));
    assert_eq!(parse("+12"), Ok(12));
    assert_eq!(parse("18446744073709551615"), Ok(u64::MAX));
    assert_eq!(parse("00000000000000000000000000000001"), Ok(1));
}

#[test]
fn empty_text_is_no_number() {
    assert_eq!(parse(""), Err(NumberError::Empty));
    assert_eq!(parse("").unwrap_err().message(), "cannot parse integer from empty string");
}

#[test]
fn other_characters_make_no_number() {
    for t in ["x", "-1", "+", "-", "++1", "1 ", " 1", "1x", "1.5", "0x10", "\u{661}"] {
        assert_eq!(parse(t), Err(NumberError::InvalidDigit), "{t:?}");
    }
    assert_eq!(parse("x").unwrap_err().message(), "invalid digit found in string");
}

#[test]
fn large_numbers_are_refused() {
    assert_eq!(parse("18446744073709551616"), Err(NumberError::TooLarge));
    assert_eq!(parse("99999999999999999999"), Err(NumberError::TooLarge));
    assert_eq!(
        parse("18446744073709551616").unwrap_err().message(),
        "number too large to fit in target type"
    );
}

#[test]
fn the_first_fault_from_the_left_decides() {
    assert_eq!(parse("99999999999999999999x"), Err(NumberError::TooLarge));
    assert_eq!(parse("9999x9999999999999999999"), Err(NumberError::InvalidDigit));
}

#[test]
fn parsing_agrees_with_the_standard_library() {
    let texts = [
        "", "+", "-", "0", "+0", "-0", "1", "+1", "12a", "a12", "18446744073709551615",
        "18446744073709551616", "18446744073709551615x", "18446744073709551616x", "1844674407370955161x",
        "99999999999999999999999", "+99999999999999999999999", " 1", "1\n", "é", "1é",
    ];
    for t in texts {
        let expected: Result<u64, _> = t.parse::<u64>();
        match (parse(t), expected) {
            (Ok(a), Ok(b)) => assert_eq!(a, b, "{t:?}"),
            (Err(e), Err(f)) => assert_eq!(e.message(), f.to_string(), "{t:?}"),
            _ => panic!("{t:?}"),
        }
    }
}

#[test]
fn decimal_is_written_and_read_back() {
    for n in [0, 1, 9, 10, 99, 100, 1709123456, u64::MAX - 1, u64::MAX] {
        let s = decimal_string(n);
        assert_eq!(s, n.to_string());
        assert_eq!(parse(&s), Ok(n));
    }
}

#[test]
fn prefixes_are_found() {
    assert!(starts_with("mmcblk0p1", "mmcblk0"));
    assert!(starts_with("mmcblk0", "mmcblk0"));
    assert!(starts_with("anything", ""));
    assert!(!starts_with("mmcblk", "mmcblk0"));
    assert!(!starts_with("sda1", "sdb"));
}

#[test]
fn texts_are_joined() {
    assert_eq!(joined("/dev/", "sda"), "/dev/sda");
    assert_eq!(joined("", ""), "");
}
