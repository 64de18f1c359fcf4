use http_load_gen::decimal::{parse_below, push_decimal, push_hundredths, push_text};

#[test]
fn reads_numerals_below_the_bound() {
    assert_eq!(parse_below(b"0", 10), Some(0));
    assert_eq!(parse_below(b"9", 10), Some(9));
    assert_eq!(parse_below(b"10", 10), None);
    assert_eq!(parse_below(b"+9", 10), Some(9));
    assert_eq!(parse_below(b"0009", 10), Some(9));
    assert_eq!(parse_below(b"399999999", 400_000_000), Some(399_999_999));
    assert_eq!(parse_below(b"400000000", 400_000_000), None);
    assert_eq!(parse_below(b"0", 0), None);
}

#[test]
fn turns_down_what_is_no_numeral() {
    assert_eq!(parse_below(b"", 10), None);
    assert_eq!(parse_below(b"+", 10), None);
    assert_eq!(parse_below(b"-1", 10), None);
    assert_eq!(parse_below(b"1+", 10), None);
    assert_eq!(parse_below(b"1 ", 10), None);
    assert_eq!(parse_below(b"/", 10), None);
    assert_eq!(parse_below(b":", 10), None);
    assert_eq!(parse_below(b"1\n", 10), None);
}

#[test]
fn writes_whole_numbers() {
    let mut out = b"n=".to_vec();
    push_decimal(&mut out, 0);
    out.push(b' ');
    push_decimal(&mut out, 7);
    out.push(b' ');
    push_decimal(&mut out, 10);
    out.push(b' ');
    push_decimal(&mut out, 1234567890);
    out.push(b' ');
    push_decimal(&mut out, u64::MAX);
    assert_eq!(out, b"n=0 7 10 1234567890 18446744073709551615".to_vec());
}

#[test]
fn writes_two_decimal_places() {
    let mut out = Vec::new();
    for value in [0u64, 5, 50, 99, 100, 101, 1000000, 123456] {
        push_hundredths(&mut out, value);
        out.push(b' ');
    }
    assert_eq!(out, b"0.00 0.05 0.50 0.99 1.00 1.01 10000.00 1234.56 ".to_vec());
}

#[test]
fn writes_agree_with_the_standard_formatter() {
    let mut seed: u64 = 1;
    for _ in 0..200 {
        seed = seed.wrapping_mul(6364136223846793005).wrapping_add(1442695040888963407);
        let value = seed >> (seed % 64);
        let mut out = Vec::new();
        push_decimal(&mut out, value);
        assert_eq!(out, format!("{}", value).into_bytes());
        let small = value % 10_000_000_000;
        let mut fixed = Vec::new();
        push_hundredths(&mut fixed, small);
        assert_eq!(fixed, format!("{}.{:02}", small / 100, small % 100).into_bytes());
    }
}

#[test]
fn what_is_written_reads_back() {
    for value in [0u32, 1, 9, 10, 99, 100, 64999, 399_999_999] {
        let mut out = Vec::new();
        push_decimal(&mut out, value as u64);
        assert_eq!(parse_below(&out, 400_000_000), Some(value));
    }
}

#[test]
fn writes_text_as_it_is() {
    let mut out = vec![b'>'];
    push_text(&mut out, "a,b\n");
    push_text(&mut out, "");
    push_text(&mut out, "μs");
    assert_eq!(out, ">a,b\nμs".as_bytes().to_vec());
}
