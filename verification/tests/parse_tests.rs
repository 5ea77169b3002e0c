use ps5_emulator::parse::{contains_str, find_char, parse_u64_in, read_state, slice_eq};
use ps5_emulator::text::decimal_string;

#[test]
fn numbers_read_like_from_str() {
    for s in ["0", "42", "+7", "18446744073709551615", "", "+", "-1", "18446744073709551616", "1a", " 1"] {
        assert_eq!(parse_u64_in(s, 0, s.chars().count()), s.parse::<u64>().ok(), "{}", s);
    }
}

#[test]
fn finding_and_comparing() {
    let s = "ab=cd";
    assert_eq!(find_char(s, 0, 5, '='), 2);
    assert_eq!(find_char(s, 3, 5, '='), 5);
    assert!(slice_eq(s, 0, 2, "ab"));
    assert!(!slice_eq(s, 0, 2, "abc"));
    assert!(contains_str("hello world", "o w"));
    assert!(!contains_str("hello", "hello!"));
    assert!(contains_str("x", ""));
}

#[test]
fn state_entries_apply_in_order() {
    let (level, time) = read_state("level=One;time=5;level=Two", "Start".to_string(), 0);
    assert_eq!(level, "Two");
    assert_eq!(time, 5);
    let (level, time) = read_state("time=9999999999999999999999;level", "Keep".to_string(), 3);
    assert_eq!(level, "Keep");
    assert_eq!(time, 3);
    let (level, _) = read_state("level=é;", "x".to_string(), 0);
    assert_eq!(level, "é");
}

#[test]
fn decimal_text_reads_back() {
    for n in [0u64, 7, 10, 77, 1_000_000, u64::MAX] {
        let s = decimal_string(n);
        assert_eq!(parse_u64_in(&s, 0, s.chars().count()), Some(n));
    }
}
