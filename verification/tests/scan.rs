use aster_bench::scan::parse_one;

#[test]
fn benchmark_record() {
    // String contents: id, name, alpha, val, flag = 2+4+5+3+4 = 18 bytes;
    // digit runs: 123 and 456. `true` is neither quoted nor numeric.
    let text = "{\"id\":123,\"name\":\"alpha\",\"val\":456,\"flag\":true}";
    assert_eq!(parse_one(text.as_bytes()), 18 + 123 + 456);
}

#[test]
fn empty_and_plain_inputs() {
    assert_eq!(parse_one(b""), 0);
    assert_eq!(parse_one(b"true"), 0);
    assert_eq!(parse_one(b"\"\""), 0);
    assert_eq!(parse_one(b"42"), 42);
    assert_eq!(parse_one(b"4 2"), 6);
    assert_eq!(parse_one(b"\"abc\""), 3);
}

#[test]
fn digits_after_string_content_do_not_mix() {
    // The digits inside the string count as content bytes, not as a number.
    assert_eq!(parse_one(b"\"12\""), 2);
    assert_eq!(parse_one(b"\"12\"34"), 2 + 34);
}

#[test]
fn unterminated_string_counts_rest() {
    assert_eq!(parse_one(b"\"abcd"), 4);
}

#[test]
fn long_digit_run_wraps() {
    let mut expected: u64 = 0;
    let digits = b"184467440737095516199";
    for &d in digits {
        expected = expected.wrapping_mul(10).wrapping_add((d - b'0') as u64);
    }
    assert_eq!(parse_one(digits), expected);
}

#[test]
fn repeated_records_accumulate_like_the_benchmark() {
    let text = "{\"id\":123,\"name\":\"alpha\",\"val\":456,\"flag\":true}";
    let one = parse_one(text.as_bytes());
    let mut total: u64 = 0;
    for _ in 0..1000 {
        total += parse_one(text.as_bytes());
    }
    assert_eq!(total, one * 1000);
}
