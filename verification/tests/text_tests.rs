use croner::clock::{clock_nanos, instant_after, unix_seconds};
use croner::text::{
    chars_of, decimal_string, is_ascii_ws, is_whitespace_char, memchr, parse_number, same_bytes,
    same_text, trim_ascii, trim_str,
};
use std::time::{Duration, Instant};

#[test]
fn ascii_whitespace_is_six_bytes() {
    let ws: Vec<u8> = (0..=255u8).filter(|b| is_ascii_ws(*b)).collect();
    assert_eq!(ws, vec![0x09, 0x0a, 0x0b, 0x0c, 0x0d, 0x20]);
}

#[test]
fn unicode_whitespace_agrees_with_the_standard_library() {
    for code in 0..=0x10ffffu32 {
        if let Some(c) = char::from_u32(code) {
            assert_eq!(is_whitespace_char(c), c.is_whitespace(), "U+{:04X}", code);
        }
    }
}

#[test]
fn trim_ascii_cuts_both_ends() {
    assert_eq!(trim_ascii(b"  a b \t\r\n"), b"a b");
    assert_eq!(trim_ascii(b"a"), b"a");
    assert_eq!(trim_ascii(b""), b"");
    assert_eq!(trim_ascii(b" \x0b\x0c "), b"");
    assert_eq!(trim_ascii("\u{a0}x ".as_bytes()), "\u{a0}x".as_bytes());
}

#[test]
fn trim_str_cuts_unicode_whitespace() {
    assert_eq!(trim_str("\u{a0} x y\u{2003}\n"), "x y");
    assert_eq!(trim_str("é"), "é");
    assert_eq!(trim_str(" \u{3000} "), "");
    assert_eq!(trim_str(""), "");
}

#[test]
fn memchr_finds_the_first() {
    assert_eq!(memchr(b"a=b=c", b'='), Some(1));
    assert_eq!(memchr(b"=", b'='), Some(0));
    assert_eq!(memchr(b"abc", b'='), None);
    assert_eq!(memchr(b"", b'='), None);
}

#[test]
fn decimal_string_writes_numbers() {
    assert_eq!(decimal_string(0), "0");
    assert_eq!(decimal_string(7), "7");
    assert_eq!(decimal_string(10), "10");
    assert_eq!(decimal_string(1234567890), "1234567890");
    assert_eq!(decimal_string(u64::MAX), "18446744073709551615");
}

fn number(text: &str, max: u64) -> Option<u64> {
    parse_number(&chars_of(text), max)
}

#[test]
fn parse_number_reads_what_the_standard_parser_reads() {
    for text in [
        "0", "7", "007", "255", "256", "+5", "+", "", "-1", "1a", " 1", "1 ", "99999", "++1", "٣",
        "+255", "1_000",
    ] {
        assert_eq!(number(text, 255), text.parse::<u8>().ok().map(u64::from), "{:?}", text);
    }
    for text in ["18446744073709551615", "18446744073709551616", "000018446744073709551615"] {
        assert_eq!(number(text, u64::MAX), text.parse::<u64>().ok(), "{:?}", text);
    }
    assert_eq!(number("5", 4), None);
    assert_eq!(number("4", 4), Some(4));
    assert_eq!(number("0", 0), Some(0));
}

#[test]
fn text_comparison() {
    assert!(same_text("schedule", "schedule"));
    assert!(!same_text("schedule", "Schedule"));
    assert!(!same_text("fanout", "fanout[]"));
    assert!(same_text("", ""));
    assert!(same_bytes(b"ab", b"ab"));
    assert!(!same_bytes(b"ab", b"ac"));
    assert!(!same_bytes(b"ab", b"abc"));
}

#[test]
fn chars_of_lists_the_characters() {
    assert_eq!(chars_of("aé\u{2003}"), vec!['a', 'é', '\u{2003}']);
    assert_eq!(chars_of(""), Vec::<char>::new());
}

#[test]
fn clocks_read_plausible_values() {
    assert!(clock_nanos() < 1_000_000_000);
    assert!(unix_seconds() > 1_600_000_000);
    let start = Instant::now();
    let later = instant_after(90).expect("representable");
    let ahead = later.duration_since(start);
    assert!(ahead >= Duration::from_secs(90) && ahead <= Duration::from_secs(92));
}
