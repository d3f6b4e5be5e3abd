use pf_dashboard::text::{
    chars_of, i32_to_text, parse_i64, parse_u32, place_texts, prefix, same_text, trim, trim_edges,
    Edge, IntError, Place,
};
use std::num::IntErrorKind;

fn kind(e: IntError) -> IntErrorKind {
    match e {
        IntError::Empty => IntErrorKind::Empty,
        IntError::InvalidDigit => IntErrorKind::InvalidDigit,
        IntError::PosOverflow => IntErrorKind::PosOverflow,
        IntError::NegOverflow => IntErrorKind::NegOverflow,
    }
}

fn number_samples() -> Vec<String> {
    let mut samples: Vec<String> = vec![
        "", "+", "-", "0", "+0", "-0", "00", "7", "+7", "-7", "--7", "+-7", "7 ", " 7", "7x", "x7",
        "4294967295", "4294967296", "4294967296x", "42949672950x", "99999999999999999999x",
        "-99999999999999999999x", "9223372036854775807", "9223372036854775808",
        "-9223372036854775808", "-9223372036854775809", "1_000", "\u{661}", "1\u{661}", "1.5",
        "000000000000000000000000000001", "+000000000000000000000000000001x",
    ]
    .into_iter()
    .map(|s| s.to_string())
    .collect();
    for n in [0i64, 1, 9, 10, 99, 1000, 65535, 1700000000, -1, -10, -1700000000] {
        samples.push(n.to_string());
    }
    samples
}

#[test]
fn numbers_are_read_as_std_reads_them() {
    for s in number_samples() {
        assert_eq!(
            parse_i64(&s).map_err(kind),
            s.parse::<i64>().map_err(|e| e.kind().clone()),
            "{:?}",
            s
        );
        assert_eq!(
            parse_u32(&s).map_err(kind),
            s.parse::<u32>().map_err(|e| e.kind().clone()),
            "{:?}",
            s
        );
    }
}

#[test]
fn each_number_error_has_an_input() {
    assert_eq!(parse_u32(""), Err(IntError::Empty));
    assert_eq!(parse_u32("12a"), Err(IntError::InvalidDigit));
    assert_eq!(parse_u32("-1"), Err(IntError::InvalidDigit));
    assert_eq!(parse_u32("4294967296"), Err(IntError::PosOverflow));
    assert_eq!(parse_i64("9223372036854775808"), Err(IntError::PosOverflow));
    assert_eq!(parse_i64("-9223372036854775809"), Err(IntError::NegOverflow));
    assert_eq!(parse_i64("-9223372036854775808"), Ok(i64::MIN));
}

#[test]
fn number_texts_are_read_back() {
    for n in [0i32, 5, 10, 42, 2147483647, -1, -10, -2147483648] {
        let text = i32_to_text(n);
        assert_eq!(text, n.to_string());
        assert_eq!(parse_i64(&text), Ok(n as i64));
    }
}

#[test]
fn white_space_is_what_std_trims() {
    for code in 0u32..=0x10ffff {
        if let Some(c) = char::from_u32(code) {
            let s = format!("{}x{}", c, c);
            assert_eq!(trim(&s), s.trim(), "{:x}", code);
        }
    }
}

#[test]
fn edges_are_cut_off_both_ends() {
    assert_eq!(trim("  a b \t\n"), "a b");
    assert_eq!(trim(" \n "), "");
    assert_eq!(trim(""), "");
    assert_eq!(trim_edges("\"\"12\"3\"\"", Edge::Quote), "12\"3");
    assert_eq!(trim_edges("\"", Edge::Quote), "");
    assert_eq!(trim_edges(" \"1\"", Edge::Quote), " \"1");
    assert_eq!(trim_edges("\u{3000}Jos\u{e9}\u{a0}", Edge::WhiteSpace), "Jos\u{e9}");
}

#[test]
fn prefixes_are_cut_between_characters() {
    assert_eq!(prefix("0123456789abcdef", 8).as_deref(), Some("01234567"));
    assert_eq!(prefix("01234567", 8).as_deref(), Some("01234567"));
    assert_eq!(prefix("0123456", 8), None);
    assert_eq!(prefix("\u{e9}\u{e9}\u{e9}\u{e9}\u{e9}", 8).as_deref(), Some("\u{e9}\u{e9}\u{e9}\u{e9}"));
    assert_eq!(prefix("a\u{e9}\u{e9}\u{e9}\u{e9}\u{e9}", 8), None);
    assert_eq!(prefix("", 0).as_deref(), Some(""));
}

#[test]
fn texts_are_ordered_as_std_orders_them() {
    let texts = [
        "", "a", "b", "ab", "abc", "master", "main", "REL_16_STABLE", "REL_9_6_STABLE", "\u{e9}",
        "\u{ffff}", "\u{10000}", "z", "Z", "a\u{0}",
    ];
    for a in texts {
        for b in texts {
            let expected = if a < b {
                Place::Before
            } else if a == b {
                Place::Same
            } else {
                Place::After
            };
            assert_eq!(place_texts(a, b), expected, "{:?} {:?}", a, b);
            assert_eq!(same_text(a, b), a == b);
        }
        assert_eq!(chars_of(a), a.chars().collect::<Vec<char>>());
    }
}
