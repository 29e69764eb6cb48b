use aster_bench::lcg::lcg_next;
use aster_bench::matcher::count_matches;

#[test]
fn simple_patterns() {
    assert_eq!(count_matches(b"abc"), 1);
    assert_eq!(count_matches(b"ac"), 1);
    assert_eq!(count_matches(b"abbbbc"), 1);
    assert_eq!(count_matches(b"ab"), 0);
    assert_eq!(count_matches(b"abx"), 0);
    assert_eq!(count_matches(b"bc"), 0);
    assert_eq!(count_matches(b""), 0);
    assert_eq!(count_matches(b"abcabc"), 2);
    assert_eq!(count_matches(b"aabc"), 1);
}

#[test]
fn every_start_checked_on_its_own() {
    // Only the 'a' directly followed by the b-run-and-c matches.
    assert_eq!(count_matches(b"aac"), 1);
    assert_eq!(count_matches(b"aaabc"), 1);
    assert_eq!(count_matches(b"acac"), 2);
    assert_eq!(count_matches(b"abcbc"), 1);
}

#[test]
fn run_of_b_must_end_in_c() {
    assert_eq!(count_matches(b"abbbbbbx"), 0);
    assert_eq!(count_matches(b"abbbbbb"), 0);
    assert_eq!(count_matches(b"xxabbcxx"), 1);
}

#[test]
fn matches_against_naive_count_on_generated_data() {
    // The benchmark's own data: bytes drawn from {a, b, c, x} by the LCG.
    let n = 4096;
    let mut buf = vec![0u8; n];
    let mut seed: u64 = 1;
    for i in 0..n {
        seed = lcg_next(seed);
        buf[i] = match (seed >> 32) & 3 {
            0 => b'a',
            1 => b'b',
            2 => b'c',
            _ => b'x',
        };
    }
    let mut expected: u64 = 0;
    for i in 0..n {
        if buf[i] == b'a' {
            let mut j = i + 1;
            while j < n && buf[j] == b'b' {
                j += 1;
            }
            if j < n && buf[j] == b'c' {
                expected += 1;
            }
        }
    }
    assert_eq!(count_matches(&buf), expected);
}
