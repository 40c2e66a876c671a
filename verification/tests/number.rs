use rime_word_counter::number::{format_count, parse_i64};

#[test]
fn counts_get_thousands_separators() {
    assert_eq!(format_count(12345), "12,345");
    assert_eq!(format_count(0), "0");
    assert_eq!(format_count(999), "999");
    assert_eq!(format_count(1000), "1,000");
    assert_eq!(format_count(-1234567), "-1,234,567");
    assert_eq!(format_count(-12), "-12");
    assert_eq!(format_count(i64::MAX), "9,223,372,036,854,775,807");
}

#[test]
fn integers_read_as_rust_reads_them() {
    for s in ["0", "42", "-42", "+42", "007", "9223372036854775807", "-9223372036854775808",
              "9223372036854775808", "-9223372036854775809", "", "-", "+", "4 2", "1e3", "--1",
              "99999999999999999999999"] {
        assert_eq!(parse_i64(s), s.parse::<i64>().ok(), "input {s:?}");
    }
}

#[test]
fn formatted_counts_read_back_without_commas() {
    for n in [0i64, 7, 12345, -98765432, i64::MAX, i64::MIN + 1] {
        let text = format_count(n).replace(',', "");
        assert_eq!(parse_i64(&text), Some(n));
    }
}
