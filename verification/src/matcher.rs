//! Counting occurrences of the pattern `a b* c` in a byte buffer.
//!
//! A match starts at any index holding `b'a'` whose following run of `b'b'`
//! bytes (possibly empty) is terminated by a `b'c'`. Match starts may overlap:
//! every index is examined on its own.

use vstd::prelude::*;

verus! {

/// The byte that starts a match: `a`.
pub const HEAD: u8 = 97;

/// The byte that may repeat in the middle of a match: `b`.
pub const BODY: u8 = 98;

/// The byte that ends a match: `c`.
pub const TAIL: u8 = 99;

/// The first index at or after `i` whose byte is not `b'b'`, or the length of
/// the buffer when the run of `b'b'` bytes reaches its end.
pub open spec fn skip_b(s: Seq<u8>, i: int) -> int
    decreases s.len() - i
        when 0 <= i <= s.len()
{
    if i < s.len() && s[i] == BODY {
        skip_b(s, i + 1)
    } else {
        i
    }
}

/// Whether the pattern `a b* c` matches starting at index `i`.
pub open spec fn is_match_at(s: Seq<u8>, i: int) -> bool {
    &&& 0 <= i < s.len()
    &&& s[i] == HEAD
    &&& skip_b(s, i + 1) < s.len()
    &&& s[skip_b(s, i + 1)] == TAIL
}

/// The number of match starts at indices below `i`.
pub open spec fn count_matches_below(s: Seq<u8>, i: int) -> int
    decreases i,
{
    if i <= 0 {
        0
    } else {
        count_matches_below(s, i - 1) + if is_match_at(s, i - 1) {
            1int
        } else {
            0int
        }
    }
}

/// There are never more match starts below `i` than indices below `i`.
proof fn lemma_count_below_bound(s: Seq<u8>, i: int)
    requires
        i >= 0,
    ensures
        0 <= count_matches_below(s, i) <= i,
    decreases i,
{
    if i > 0 {
        lemma_count_below_bound(s, i - 1);
    }
}

/// Counts the starts of `a b* c` matches in `buf`.
pub fn count_matches(buf: &[u8]) -> (count: u64)
    ensures
        count == count_matches_below(buf@, buf@.len() as int),
{
    let mut count: u64 = 0;
    let len = buf.len();
    let mut i: usize = 0;
    while i < len
        invariant
            len == buf@.len(),
            i <= len,
            count == count_matches_below(buf@, i as int),
        decreases len - i,
    {
        proof {
            lemma_count_below_bound(buf@, i as int);
        }
        if buf[i] == HEAD {
            let mut j = i + 1;
            loop
                invariant
                    len == buf@.len(),
                    i < len,
                    i + 1 <= j <= len,
                    skip_b(buf@, i as int + 1) == skip_b(buf@, j as int),
                ensures
                    i + 1 <= j <= len,
                    skip_b(buf@, i as int + 1) == j,
                decreases len - j,
            {
                if j >= len {
                    break ;
                }
                if buf[j] != BODY {
                    break ;
                }
                j = j + 1;
            }
            if j < len && buf[j] == TAIL {
                count = count + 1;
            }
        }
        i = i + 1;
    }
    count
}

} // verus!
