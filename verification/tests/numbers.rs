use fishbowl::number::{
    count_fraction, float_text_ok, has_only_digits, parse_i32, parse_u32, parse_usize,
    read_int_operand, round_through_double, write_digits, write_int, written_as_int,
};
use fishbowl::text::{
    begins_with, char_is_white_space, ends_with, equals_ignoring_case, find_first, find_last_end,
    is_text, join_texts, split_text, split_words, to_lower_text, to_upper_text, trim,
};

fn chars(s: &str) -> Vec<char> {
    s.chars().collect()
}

fn text(v: &[char]) -> String {
    v.iter().collect()
}

#[test]
fn white_space_is_that_of_unicode() {
    for c in '\0'..=char::MAX {
        assert_eq!(char_is_white_space(c), c.is_whitespace(), "{c:?}");
    }
}

#[test]
fn trimming_and_words_agree_with_std() {
    for s in ["", " ", "a", " a b\t", "\u{a0}x\u{3000}", "a  b\nc", "\r\n"] {
        assert_eq!(text(trim(&chars(s))), s.trim());
        let words: Vec<String> = split_words(&chars(s)).iter().map(|w| text(w)).collect();
        assert_eq!(words, s.split_whitespace().collect::<Vec<_>>());
    }
}

#[test]
fn splitting_and_joining() {
    for s in ["", "/", "a/b", "/a//b/", "abc"] {
        let pieces = split_text(&chars(s), '/');
        let std: Vec<&str> = s.split('/').collect();
        assert_eq!(pieces.iter().map(|p| text(p)).collect::<Vec<_>>(), std);
        assert_eq!(text(&join_texts(&pieces, &['/'])), s);
    }
    assert_eq!(text(&join_texts(&[], &['/'])), "");
}

#[test]
fn searching() {
    let s = chars("a=b=c");
    assert_eq!(find_first(&s, '='), 1);
    assert_eq!(find_first(&s, 'x'), 5);
    assert_eq!(find_last_end(&s, '='), 4);
    assert_eq!(find_last_end(&s, 'x'), 0);
    assert!(begins_with(&s, &chars("a=")) && !begins_with(&s, &chars("=")));
    assert!(ends_with(&s, &chars("=c")) && !ends_with(&s, &chars("xa=b=c")));
    assert!(is_text(&s, "a=b=c") && !is_text(&s, "a=b="));
}

#[test]
fn letter_case() {
    assert_eq!(text(&to_upper_text(&chars("az\u{e9}Z9"))), "AZ\u{e9}Z9");
    assert_eq!(text(&to_lower_text(&chars("AZ\u{c9}z9"))), "az\u{c9}z9");
    assert!(equals_ignoring_case(&chars("Fish"), &chars("fISH")));
    assert!(!equals_ignoring_case(&chars("\u{c9}"), &chars("\u{e9}")));
}

const INTS: [&str; 22] = [
    "", "0", "-0", "+0", "7", "-7", "+7", "+", "-", "--7", "+-7", "007", "2147483647",
    "2147483648", "-2147483648", "-2147483649", "4294967295", "4294967296",
    "18446744073709551615", "18446744073709551616", " 1", "1a",
];

#[test]
fn integers_are_read_as_std_does() {
    for s in INTS {
        let v = chars(s);
        assert_eq!(parse_i32(&v), s.parse().ok(), "{s}");
        assert_eq!(parse_u32(&v), s.parse().ok(), "{s}");
        assert_eq!(parse_usize(&v), s.parse().ok(), "{s}");
    }
}

#[test]
fn integers_are_written_as_std_does() {
    for i in [0, 1, -1, 9, 10, -10, 12345, i64::MAX, i64::MIN] {
        assert_eq!(text(&write_int(i)), i.to_string());
    }
    for n in [0, 9, 10, 99, 100, u64::MAX] {
        assert_eq!(text(&write_digits(n)), n.to_string());
    }
}

const FLOATS: [&str; 40] = [
    "", "0", "1", "-1", "+1", "1.", ".1", ".", "1.5", "-.5", "1e5", "1E5", "1e+5", "1e-5", "1e",
    "e5", "1e5.", "1.5e3", ".e3", "inf", "INF", "-inf", "+Infinity", "infinit", "nan", "NaN",
    "-nan", "1_0", "0x1", " 1", "1 ", "--1", "+-1", "1.2.3", "1e5e5", "+", "-", "infinity",
    "1e+", "\u{661}",
];

#[test]
fn floats_are_recognised_as_std_does() {
    for s in FLOATS {
        assert_eq!(float_text_ok(&chars(s)), s.parse::<f64>().is_ok(), "{s:?}");
    }
}

#[test]
fn integers_and_fractions_in_text() {
    assert!(written_as_int(&chars("-12")));
    for s in ["1.", "1e2", "1E2", "nan", "INF"] {
        assert!(!written_as_int(&chars(s)), "{s}");
    }
    assert_eq!(count_fraction(&chars("1.250e3")), 3);
    assert_eq!(count_fraction(&chars("1.")), 0);
    assert_eq!(count_fraction(&chars("12")), 0);
    assert_eq!(count_fraction(&chars("1.5E-12")), 1);
    assert!(has_only_digits(&chars("0123")) && !has_only_digits(&chars("1-")));
}

#[test]
fn rounding_to_double_precision() {
    let big = 1i64 << 53;
    for i in [0, 1, -1, big - 1, big, big + 1, big + 2, big + 3, -big - 1, -big - 3, i64::MAX,
        i64::MIN, i64::MAX - 511, i64::MAX - 512, i64::MAX - 513, (1 << 60) + 129, (1 << 60) + 128,
        (1 << 60) + 384, 1234567890123456789] {
        assert_eq!(round_through_double(i), (i as f64) as i64, "{i}");
    }
    let mut state: u64 = 88172645463325252;
    for _ in 0..100_000 {
        state ^= state << 13;
        state ^= state >> 7;
        state ^= state << 17;
        let i = (state as i64) >> (state % 60);
        assert_eq!(round_through_double(i), (i as f64) as i64, "{i}");
    }
}

#[test]
fn integer_operands() {
    for s in ["0", "-5", "+5", "007", "9007199254740993", "9223372036854775807",
        "9223372036854775808", "-9223372036854775809", "99999999999999999999999999",
        "-99999999999999999999999999"] {
        assert_eq!(read_int_operand(&chars(s)), s.parse::<f64>().unwrap() as i64, "{s}");
    }
}

#[test]
fn what_is_written_reads_back() {
    for i in [0, 1, -1, 10, -10, 99, i32::MAX, i32::MIN] {
        assert_eq!(parse_i32(&write_int(i as i64)), Some(i));
    }
    for n in [0u32, 9, 10, 4096, u32::MAX] {
        assert_eq!(parse_u32(&write_digits(n as u64)), Some(n));
    }
}
