//! A one-pass scanner over JSON-like bytes.
//!
//! The scanner walks the buffer once and accumulates a single wrapped total:
//! every byte inside a double-quoted string adds one, and every maximal run
//! of decimal digits outside a string adds its (wrapped) numeric value.
//! Everything else is skipped.

use vstd::prelude::*;
use vstd::wrapping::u64_specs;

verus! {

/// The double-quote byte that opens and closes a string.
pub const QUOTE: u8 = 34;

/// Whether `b` is a decimal digit.
pub open spec fn is_digit(b: u8) -> bool {
    48 <= b <= 57
}

/// The first index at or after `i` that holds a quote, or the length.
pub open spec fn quote_end(s: Seq<u8>, i: int) -> int
    decreases s.len() - i
        when 0 <= i <= s.len()
{
    if i < s.len() && s[i] != QUOTE {
        quote_end(s, i + 1)
    } else {
        i
    }
}

/// The first index at or after `i` that is not a digit, or the length.
pub open spec fn digits_end(s: Seq<u8>, i: int) -> int
    decreases s.len() - i
        when 0 <= i <= s.len()
{
    if i < s.len() && is_digit(s[i]) {
        digits_end(s, i + 1)
    } else {
        i
    }
}

/// `quote_end` never leaves the buffer.
proof fn lemma_quote_end(s: Seq<u8>, i: int)
    requires
        0 <= i <= s.len(),
    ensures
        i <= quote_end(s, i) <= s.len(),
    decreases s.len() - i,
{
    if i < s.len() && s[i] != QUOTE {
        lemma_quote_end(s, i + 1);
    }
}

/// `digits_end` never leaves the buffer, and moves past a digit.
proof fn lemma_digits_end(s: Seq<u8>, i: int)
    requires
        0 <= i <= s.len(),
    ensures
        i <= digits_end(s, i) <= s.len(),
        i < s.len() && is_digit(s[i]) ==> i < digits_end(s, i),
    decreases s.len() - i,
{
    if i < s.len() && is_digit(s[i]) {
        lemma_digits_end(s, i + 1);
    }
}

/// The wrapped decimal value of the digits `s[from..to)`.
pub open spec fn digits_value(s: Seq<u8>, from: int, to: int) -> u64
    decreases to - from,
{
    if to <= from {
        0u64
    } else {
        u64_specs::wrapping_add(
            u64_specs::wrapping_mul(digits_value(s, from, to - 1), 10),
            (s[to - 1] - 48) as u64,
        )
    }
}

/// The scanner's wrapped total from index `i` to the end of the buffer.
pub open spec fn scan_from(s: Seq<u8>, i: int) -> u64
    decreases s.len() + 1 - i
        when 0 <= i <= s.len() + 1
        via scan_from_decreases
{
    if i >= s.len() {
        0u64
    } else if s[i] == QUOTE {
        let e = quote_end(s, i + 1);
        u64_specs::wrapping_add((e - i - 1) as u64, scan_from(s, e + 1))
    } else if is_digit(s[i]) {
        let e = digits_end(s, i);
        u64_specs::wrapping_add(digits_value(s, i, e), scan_from(s, e))
    } else {
        scan_from(s, i + 1)
    }
}

#[via_fn]
proof fn scan_from_decreases(s: Seq<u8>, i: int) {
    if 0 <= i < s.len() {
        if s[i] == QUOTE {
            lemma_quote_end(s, i + 1);
        } else if is_digit(s[i]) {
            lemma_digits_end(s, i);
        }
    }
}

/// Wrapped addition associates: adding `b`, then `c`, is adding `b + c`.
proof fn lemma_wadd_assoc(a: u64, b: u64, c: u64)
    ensures
        u64_specs::wrapping_add(u64_specs::wrapping_add(a, b), c) == u64_specs::wrapping_add(
            a,
            u64_specs::wrapping_add(b, c),
        ),
{
}

/// Scans the whole buffer: the wrapped sum of one per string-content byte
/// and of the value of every digit run outside a string.
pub fn parse_one(bytes: &[u8]) -> (total: u64)
    ensures
        total == scan_from(bytes@, 0),
{
    let len = bytes.len();
    let mut sum: u64 = 0;
    let mut i: usize = 0;
    while i < len
        invariant
            len == bytes@.len(),
            i <= len,
            u64_specs::wrapping_add(sum, scan_from(bytes@, i as int)) == scan_from(bytes@, 0),
        decreases len - i,
    {
        let c = bytes[i];
        let ghost s0 = sum;
        let ghost i0 = i as int;
        if c == QUOTE {
            let mut j = i + 1;
            loop
                invariant
                    len == bytes@.len(),
                    i0 == i,
                    i < len,
                    bytes@[i0] == QUOTE,
                    i + 1 <= j <= len,
                    quote_end(bytes@, i0 + 1) == quote_end(bytes@, j as int),
                    sum == u64_specs::wrapping_add(s0, (j - i - 1) as u64),
                ensures
                    i + 1 <= j <= len,
                    quote_end(bytes@, i0 + 1) == j,
                    sum == u64_specs::wrapping_add(s0, (j - i - 1) as u64),
                decreases len - j,
            {
                if j >= len {
                    break ;
                }
                if bytes[j] == QUOTE {
                    break ;
                }
                proof {
                    lemma_wadd_assoc(s0, (j - i - 1) as u64, 1);
                }
                sum = sum.wrapping_add(1);
                j = j + 1;
            }
            proof {
                lemma_wadd_assoc(s0, (j - i - 1) as u64, scan_from(bytes@, j as int + 1));
            }
            if j < len {
                i = j + 1;
            } else {
                i = j;
            }
        } else if c >= 48 && c <= 57 {
            let mut num: u64 = 0;
            let mut j = i;
            loop
                invariant
                    len == bytes@.len(),
                    i0 == i,
                    i <= j <= len,
                    is_digit(bytes@[i0]),
                    digits_end(bytes@, i0) == digits_end(bytes@, j as int),
                    forall|k: int| i0 <= k < j ==> is_digit(bytes@[k]),
                    num == digits_value(bytes@, i0, j as int),
                ensures
                    i <= j <= len,
                    digits_end(bytes@, i0) == j,
                    num == digits_value(bytes@, i0, j as int),
                decreases len - j,
            {
                if j >= len {
                    break ;
                }
                let d = bytes[j];
                if d < 48 || d > 57 {
                    break ;
                }
                num = num.wrapping_mul(10).wrapping_add((d - 48) as u64);
                j = j + 1;
            }
            proof {
                lemma_digits_end(bytes@, i0);
                lemma_wadd_assoc(s0, num, scan_from(bytes@, j as int));
            }
            sum = sum.wrapping_add(num);
            i = j;
        } else {
            i = i + 1;
        }
    }
    sum
}

} // verus!
