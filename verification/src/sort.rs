//! A least-significant-digit radix sort of `u64` keys.
//!
//! The sort makes six passes over the data, each a stable counting sort on an
//! 11-bit digit, alternating between the data buffer and a scratch buffer of
//! the same length. Six passes cover 66 bits, so the keys end fully sorted.
//! One pass counts the digits, turns the counts into cumulative bucket ends,
//! and then scatters the keys backward — backward so that, with cumulative
//! ends, keys of equal digit keep their relative order. Stability is what
//! lets pass `k + 1` preserve the order that passes `0..=k` established.

use vstd::prelude::*;
use vstd::seq_lib::lemma_multiset_commutative;

verus! {

/// The number of digit values one pass distinguishes: 2^11.
pub const RADIX: usize = 2048;

/// The 11-bit digit of `x` at bit position `sh`.
pub open spec fn dig(x: u64, sh: u64) -> u64 {
    (x >> sh) & 2047
}

/// The low `k` bits of `x` (all of `x` once `k` reaches the width).
pub open spec fn low_bits(x: u64, k: u64) -> u64 {
    if k >= 64 {
        x
    } else {
        x & (((1u64 << k) - 1) as u64)
    }
}

/// Whether `s` is sorted by its low `k` bits.
pub open spec fn sorted_low(s: Seq<u64>, k: u64) -> bool {
    forall|i: int, j: int|
        0 <= i < j < s.len() ==> low_bits(s[i], k) <= low_bits(s[j], k)
}

/// How many of the first `m` keys of `s` have digit `d` at position `sh`.
pub open spec fn cnt_eq(s: Seq<u64>, sh: u64, d: u64, m: int) -> int
    decreases m,
{
    if m <= 0 {
        0
    } else {
        cnt_eq(s, sh, d, m - 1) + if dig(s[m - 1], sh) == d {
            1int
        } else {
            0int
        }
    }
}

/// How many of the first `m` keys of `s` have a digit below `d` at `sh`.
pub open spec fn cnt_lt(s: Seq<u64>, sh: u64, d: int, m: int) -> int
    decreases d,
{
    if d <= 0 {
        0
    } else {
        cnt_lt(s, sh, d - 1, m) + cnt_eq(s, sh, (d - 1) as u64, m)
    }
}

/// The keys of `s` with digit `d` at `sh`, in their original order.
pub open spec fn bucket(s: Seq<u64>, sh: u64, d: u64) -> Seq<u64> {
    s.filter(|x: u64| dig(x, sh) == d)
}

/// The buckets of the digits below `d`, one after the other: the result of
/// one stable counting-sort pass once `d` reaches the radix.
pub open spec fn buckets_concat(s: Seq<u64>, sh: u64, d: int) -> Seq<u64>
    decreases d,
{
    if d <= 0 {
        Seq::empty()
    } else {
        buckets_concat(s, sh, d - 1) + bucket(s, sh, (d - 1) as u64)
    }
}

/// A digit is a value of 11 bits.
proof fn lemma_dig_bound(x: u64, sh: u64)
    ensures
        dig(x, sh) < 2048,
{
    assert((x >> sh) & 2047 < 2048) by (bit_vector);
}

/// Ordering transfer of one pass: if `x` precedes `y` by digit at `sh`, or
/// ties by digit and already precedes by the low `sh` bits, then `x` precedes
/// `y` by the low `sh + 11` bits.
proof fn lemma_digit_order(x: u64, y: u64, sh: u64)
    requires
        sh <= 55,
        dig(x, sh) < dig(y, sh) || (dig(x, sh) == dig(y, sh) && low_bits(x, sh) <= low_bits(
            y,
            sh,
        )),
    ensures
        low_bits(x, (sh + 11) as u64) <= low_bits(y, (sh + 11) as u64),
{
    if sh + 11 >= 64 {
        assert(((x >> sh) & 2047 < (y >> sh) & 2047 || ((x >> sh) & 2047 == (y >> sh) & 2047 && (x
            & (((1u64 << sh) - 1) as u64)) <= (y & (((1u64 << sh) - 1) as u64)))) && 53 <= sh <= 55 ==> x <= y)
            by (bit_vector);
    } else {
        assert(((x >> sh) & 2047 < (y >> sh) & 2047 || ((x >> sh) & 2047 == (y >> sh) & 2047 && (x
            & (((1u64 << sh) - 1) as u64)) <= (y & (((1u64 << sh) - 1) as u64)))) && sh <= 52 ==> (x & (((1u64 << (sh
            + 11)) - 1) as u64)) <= (y & (((1u64 << (sh + 11)) - 1) as u64))) by (bit_vector);
    }
}

/// Every sequence is sorted by its low 0 bits.
proof fn lemma_sorted_low_zero(s: Seq<u64>)
    ensures
        sorted_low(s, 0),
{
    assert forall|i: int, j: int| 0 <= i < j < s.len() implies low_bits(s[i], 0) <= low_bits(
        s[j],
        0,
    ) by {
        let x = s[i];
        let y = s[j];
        assert((x & (((1u64 << 0) - 1) as u64)) == 0 && (y & (((1u64 << 0) - 1) as u64)) == 0) by (bit_vector);
    }
}

/// Sorted by 66 low bits is sorted outright.
proof fn lemma_sorted_low_full(s: Seq<u64>)
    requires
        sorted_low(s, 66),
    ensures
        forall|i: int, j: int| 0 <= i < j < s.len() ==> s[i] <= s[j],
{
}

/// A digit count never exceeds the counted prefix.
proof fn lemma_cnt_eq_bounds(s: Seq<u64>, sh: u64, d: u64, m: int)
    requires
        m >= 0,
    ensures
        0 <= cnt_eq(s, sh, d, m) <= m,
    decreases m,
{
    if m > 0 {
        lemma_cnt_eq_bounds(s, sh, d, m - 1);
    }
}

/// A digit count grows with the prefix.
proof fn lemma_cnt_eq_monotone(s: Seq<u64>, sh: u64, d: u64, m1: int, m2: int)
    requires
        0 <= m1 <= m2,
    ensures
        cnt_eq(s, sh, d, m1) <= cnt_eq(s, sh, d, m2),
    decreases m2 - m1,
{
    if m1 < m2 {
        lemma_cnt_eq_monotone(s, sh, d, m1, m2 - 1);
    }
}

/// A below-digit count is never negative.
proof fn lemma_cnt_lt_nonneg(s: Seq<u64>, sh: u64, d: int, m: int)
    requires
        m >= 0,
    ensures
        cnt_lt(s, sh, d, m) >= 0,
    decreases d,
{
    if d > 0 {
        lemma_cnt_lt_nonneg(s, sh, d - 1, m);
        lemma_cnt_eq_bounds(s, sh, (d - 1) as u64, m);
    }
}

/// Bucket windows of distinct digits do not overlap: the end of digit `d1`'s
/// window is at or before the start of digit `d2`'s.
proof fn lemma_cnt_lt_disjoint(s: Seq<u64>, sh: u64, d1: int, d2: int, m: int)
    requires
        0 <= d1 < d2,
        m >= 0,
    ensures
        cnt_lt(s, sh, d1, m) + cnt_eq(s, sh, d1 as u64, m) <= cnt_lt(s, sh, d2, m),
    decreases d2,
{
    if d2 == d1 + 1 {
    } else {
        lemma_cnt_lt_disjoint(s, sh, d1, d2 - 1, m);
        lemma_cnt_eq_bounds(s, sh, (d2 - 1) as u64, m);
    }
}

/// One more key raises the below-`d` count exactly when its digit is below
/// `d`.
proof fn lemma_cnt_lt_unfold(s: Seq<u64>, sh: u64, d: int, m: int)
    requires
        m >= 1,
        d <= 2048,
    ensures
        cnt_lt(s, sh, d, m) == cnt_lt(s, sh, d, m - 1) + if 0 <= dig(s[m - 1], sh) < d {
            1int
        } else {
            0int
        },
    decreases d,
{
    if d > 0 {
        lemma_cnt_lt_unfold(s, sh, d - 1, m);
    }
}

/// An empty prefix has no keys below any digit.
proof fn lemma_cnt_lt_empty(s: Seq<u64>, sh: u64, d: int)
    ensures
        cnt_lt(s, sh, d, 0) == 0,
    decreases d,
{
    if d > 0 {
        lemma_cnt_lt_empty(s, sh, d - 1);
    }
}

/// Every digit lies below the radix, so the below-radix count is the whole
/// prefix.
proof fn lemma_cnt_lt_radix(s: Seq<u64>, sh: u64, m: int)
    requires
        0 <= m <= s.len(),
    ensures
        cnt_lt(s, sh, 2048, m) == m,
    decreases m,
{
    if m > 0 {
        lemma_cnt_lt_radix(s, sh, m - 1);
        lemma_cnt_lt_unfold(s, sh, 2048, m);
        lemma_dig_bound(s[m - 1], sh);
    } else {
        lemma_cnt_lt_empty(s, sh, 2048);
    }
}

/// Filtering keeps relative order: a filtered slice of a low-bit-sorted
/// sequence is still low-bit-sorted, and its keys all come from the
/// sequence.
proof fn lemma_filter_sorted_low(s: Seq<u64>, k: u64, pred: spec_fn(u64) -> bool)
    requires
        sorted_low(s, k),
    ensures
        sorted_low(s.filter(pred), k),
        forall|i: int|
            0 <= i < s.filter(pred).len() ==> s.contains(#[trigger] s.filter(pred)[i]),
    decreases s.len(),
{
    reveal(Seq::filter);
    if s.len() == 0 {
    } else {
        let s0 = s.drop_last();
        let x = s.last();
        assert(sorted_low(s0, k));
        lemma_filter_sorted_low(s0, k, pred);
        let f0 = s0.filter(pred);
        assert forall|i: int| 0 <= i < f0.len() implies s.contains(#[trigger] f0[i]) by {
            assert(s0.contains(f0[i]));
            let q = choose|q: int| 0 <= q < s0.len() && s0[q] == f0[i];
            assert(s[q] == f0[i]);
        }
        if pred(x) {
            assert(s.filter(pred) == f0.push(x));
            assert forall|i: int| 0 <= i < f0.len() implies low_bits(#[trigger] f0[i], k)
                <= low_bits(x, k) by {
                assert(s0.contains(f0[i]));
                let q = choose|q: int| 0 <= q < s0.len() && s0[q] == f0[i];
                assert(s[q] == f0[i] && s[s.len() - 1] == x);
            }
            assert forall|i: int, j: int|
                0 <= i < j < s.filter(pred).len() implies low_bits(s.filter(pred)[i], k)
                <= low_bits(s.filter(pred)[j], k) by {
                if j < f0.len() {
                    assert(low_bits(f0[i], k) <= low_bits(f0[j], k));
                } else {
                    assert(s.filter(pred)[j] == x);
                }
            }
            assert(s.contains(x)) by {
                assert(s[s.len() - 1] == x);
            }
        } else {
            assert(s.filter(pred) == f0);
        }
    }
}

/// The concatenated buckets below `d` are sorted by the low `sh + 11` bits,
/// and hold only keys whose digit is below `d`.
proof fn lemma_concat_sorted_below(s: Seq<u64>, sh: u64, d: int)
    requires
        sorted_low(s, sh),
        sh <= 55,
        0 <= d <= 2048,
    ensures
        sorted_low(buckets_concat(s, sh, d), (sh + 11) as u64),
        forall|i: int|
            0 <= i < buckets_concat(s, sh, d).len() ==> dig(
                #[trigger] buckets_concat(s, sh, d)[i],
                sh,
            ) < d,
    decreases d,
{
    if d > 0 {
        lemma_concat_sorted_below(s, sh, d - 1);
        let c0 = buckets_concat(s, sh, d - 1);
        let pred = |x: u64| dig(x, sh) == (d - 1) as u64;
        let b = s.filter(pred);
        let c = buckets_concat(s, sh, d);
        assert(c == c0 + b);
        lemma_filter_sorted_low(s, sh, pred);
        assert forall|i: int| 0 <= i < b.len() implies dig(#[trigger] b[i], sh) == (d - 1) as u64 by {
            Seq::lemma_filter_pred(s, pred, i);
        }
        assert forall|i: int| 0 <= i < c.len() implies dig(#[trigger] c[i], sh) < d by {
            if i < c0.len() {
                assert(c[i] == c0[i]);
            } else {
                assert(c[i] == b[i - c0.len()]);
            }
        }
        assert forall|i: int, j: int| 0 <= i < j < c.len() implies low_bits(
            c[i],
            (sh + 11) as u64,
        ) <= low_bits(c[j], (sh + 11) as u64) by {
            if j < c0.len() {
                assert(c[i] == c0[i] && c[j] == c0[j]);
            } else if i >= c0.len() {
                assert(c[i] == b[i - c0.len()] && c[j] == b[j - c0.len()]);
                assert(low_bits(b[i - c0.len()], sh) <= low_bits(b[j - c0.len()], sh));
                lemma_digit_order(c[i], c[j], sh);
            } else {
                assert(c[i] == c0[i] && c[j] == b[j - c0.len()]);
                assert(dig(c[i], sh) < (d - 1) as u64);
                lemma_digit_order(c[i], c[j], sh);
            }
        }
    }
}

/// The buckets of an empty sequence are empty.
proof fn lemma_concat_empty(sh: u64, d: int)
    ensures
        buckets_concat(Seq::<u64>::empty(), sh, d).len() == 0,
    decreases d,
{
    reveal(Seq::filter);
    if d > 0 {
        lemma_concat_empty(sh, d - 1);
        assert(Seq::<u64>::empty().filter(|x: u64| dig(x, sh) == (d - 1) as u64).len() == 0);
    }
}

/// Appending one key to the input adds exactly that key to the concatenated
/// buckets below `d` — when its digit falls below `d` — and nothing else.
proof fn lemma_concat_multiset_push(s0: Seq<u64>, x: u64, sh: u64, d: int)
    requires
        0 <= d <= 2048,
    ensures
        buckets_concat(s0.push(x), sh, d).to_multiset() == if 0 <= dig(x, sh) < d {
            buckets_concat(s0, sh, d).to_multiset().insert(x)
        } else {
            buckets_concat(s0, sh, d).to_multiset()
        },
    decreases d,
{
    broadcast use vstd::seq_lib::group_to_multiset_ensures;
    broadcast use vstd::multiset::group_multiset_axioms;

    if d > 0 {
        lemma_concat_multiset_push(s0, x, sh, d - 1);
        let s = s0.push(x);
        let pred = |y: u64| dig(y, sh) == (d - 1) as u64;
        reveal(Seq::filter);
        assert(s.drop_last() =~= s0);
        assert(s.last() == x);
        let b0 = s0.filter(pred);
        let b = s.filter(pred);
        lemma_multiset_commutative(buckets_concat(s, sh, d - 1), b);
        lemma_multiset_commutative(buckets_concat(s0, sh, d - 1), b0);
        if pred(x) {
            assert(b == b0.push(x));
            assert(b.to_multiset() == b0.to_multiset().insert(x));
            assert(buckets_concat(s, sh, d).to_multiset() =~= buckets_concat(
                s0,
                sh,
                d,
            ).to_multiset().insert(x));
        } else {
            assert(b == b0);
            if 0 <= dig(x, sh) < d - 1 {
                assert(buckets_concat(s, sh, d).to_multiset() =~= buckets_concat(
                    s0,
                    sh,
                    d,
                ).to_multiset().insert(x));
            } else {
                assert(buckets_concat(s, sh, d).to_multiset() =~= buckets_concat(
                    s0,
                    sh,
                    d,
                ).to_multiset());
            }
        }
    }
}

/// One pass is a permutation: the concatenated buckets hold exactly the keys
/// of the input.
proof fn lemma_pass_multiset(s: Seq<u64>, sh: u64)
    ensures
        buckets_concat(s, sh, 2048).to_multiset() == s.to_multiset(),
        buckets_concat(s, sh, 2048).len() == s.len(),
    decreases s.len(),
{
    broadcast use vstd::seq_lib::group_to_multiset_ensures;
    broadcast use vstd::multiset::group_multiset_axioms;

    if s.len() == 0 {
        assert(s =~= Seq::<u64>::empty());
        lemma_concat_empty(sh, 2048);
        let c = buckets_concat(s, sh, 2048);
        assert(c.len() == 0);
        assert forall|x: u64| c.to_multiset().count(x) == s.to_multiset().count(x) by {
            assert(!c.contains(x) && !s.contains(x));
        }
        assert(c.to_multiset() =~= s.to_multiset());
    } else {
        let s0 = s.drop_last();
        let x = s.last();
        lemma_pass_multiset(s0, sh);
        lemma_dig_bound(x, sh);
        lemma_concat_multiset_push(s0, x, sh, 2048);
        assert(s0.push(x) =~= s);
        assert(s.to_multiset() == s0.to_multiset().insert(x));
    }
    assert(buckets_concat(s, sh, 2048).to_multiset().len() == s.to_multiset().len());
}

/// Everything one pass guarantees: the concatenated buckets are a
/// permutation of the input, of the same length, sorted by eleven more low
/// bits than the input was.
proof fn lemma_pass(s: Seq<u64>, sh: u64)
    requires
        sorted_low(s, sh),
        sh <= 55,
    ensures
        buckets_concat(s, sh, 2048).to_multiset() == s.to_multiset(),
        buckets_concat(s, sh, 2048).len() == s.len(),
        sorted_low(buckets_concat(s, sh, 2048), (sh + 11) as u64),
{
    lemma_pass_multiset(s, sh);
    lemma_concat_sorted_below(s, sh, 2048);
}

/// Gluing: a buffer whose bucket windows each hold their bucket is, up to the
/// end of digit `d`'s window, exactly the concatenation of the buckets below
/// `d`.
proof fn lemma_glue(dst: Seq<u64>, s: Seq<u64>, sh: u64, d: int)
    requires
        0 <= d <= 2048,
        dst.len() == s.len(),
        forall|e: int|
            0 <= e < 2048 ==> dst.subrange(
                cnt_lt(s, sh, e, s.len() as int),
                cnt_lt(s, sh, e, s.len() as int) + #[trigger] cnt_eq(s, sh, e as u64, s.len() as int),
            ) == bucket(s, sh, e as u64),
    ensures
        dst.subrange(0, cnt_lt(s, sh, d, s.len() as int)) == buckets_concat(s, sh, d),
    decreases d,
{
    let n = s.len() as int;
    if d == 0 {
        assert(dst.subrange(0, 0) =~= buckets_concat(s, sh, 0));
    } else {
        lemma_glue(dst, s, sh, d - 1);
        lemma_cnt_lt_nonneg(s, sh, d - 1, n);
        lemma_cnt_eq_bounds(s, sh, (d - 1) as u64, n);
        lemma_cnt_lt_radix(s, sh, n);
        if d < 2048 {
            lemma_cnt_lt_disjoint(s, sh, d - 1, 2048, n);
        }
        let a = cnt_lt(s, sh, d - 1, n);
        let b = cnt_lt(s, sh, d, n);
        assert(b == a + cnt_eq(s, sh, (d - 1) as u64, n));
        assert(b <= n);
        assert(dst.subrange(0, b) =~= dst.subrange(0, a) + dst.subrange(a, b));
        assert(dst.subrange(a, b) == bucket(s, sh, (d - 1) as u64));
    }
}

/// One stable counting-sort pass on the 11-bit digit at `shift`: counts the
/// digits of `src`, turns the counts into cumulative bucket ends, and
/// scatters the keys backward into `dst`, so that `dst` holds the buckets of
/// `src` in digit order, each bucket in original key order.
fn radix_pass(src: &Vec<u64>, dst: &mut Vec<u64>, counts: &mut Vec<u32>, shift: u64)
    requires
        old(dst)@.len() == src@.len(),
        old(counts)@.len() == 2048,
        src@.len() < 0x1_0000_0000,
        shift <= 55,
    ensures
        final(dst)@ == buckets_concat(src@, shift, 2048),
        final(dst)@.len() == src@.len(),
        final(counts)@.len() == 2048,
{
    let n = src.len();
    let ghost s = src@;
    let ghost nn = n as int;
    let mut d: usize = 0;
    while d < 2048
        invariant
            counts@.len() == 2048,
            d <= 2048,
            forall|e: int| 0 <= e < d ==> counts@[e] == 0u32,
        decreases 2048 - d,
    {
        counts[d] = 0;
        d = d + 1;
    }
    let mut i: usize = 0;
    while i < n
        invariant
            counts@.len() == 2048,
            i <= n,
            n == s.len(),
            s == src@,
            n < 0x1_0000_0000,
            shift <= 55,
            forall|e: int| 0 <= e < 2048 ==> counts@[e] as int == cnt_eq(s, shift, e as u64, i as int),
        decreases n - i,
    {
        let key = src[i];
        proof {
            lemma_dig_bound(key, shift);
        }
        let digit = ((key >> shift) & 2047) as usize;
        proof {
            lemma_cnt_eq_bounds(s, shift, digit as u64, i as int);
        }
        let cur = counts[digit];
        counts[digit] = cur + 1;
        i = i + 1;
    }
    let mut sum: u32 = 0;
    let mut d: usize = 0;
    while d < 2048
        invariant
            counts@.len() == 2048,
            d <= 2048,
            n == s.len(),
            s == src@,
            n < 0x1_0000_0000,
            nn == n as int,
            sum as int == cnt_lt(s, shift, d as int, nn),
            forall|e: int| 0 <= e < d ==> counts@[e] as int == cnt_lt(s, shift, e + 1, nn),
            forall|e: int| d <= e < 2048 ==> counts@[e] as int == cnt_eq(s, shift, e as u64, nn),
        decreases 2048 - d,
    {
        proof {
            lemma_cnt_lt_radix(s, shift, nn);
            lemma_cnt_lt_disjoint(s, shift, d as int, 2048, nn);
            lemma_cnt_lt_nonneg(s, shift, d as int, nn);
            lemma_cnt_eq_bounds(s, shift, d as u64, nn);
        }
        let cur = counts[d];
        sum = sum + cur;
        counts[d] = sum;
        d = d + 1;
    }
    proof {
        assert(s.subrange(nn, nn) =~= Seq::<u64>::empty());
        reveal_with_fuel(Seq::filter, 2);
        assert forall|e: int| 0 <= e < 2048 implies dst@.subrange(
            cnt_lt(s, shift, e, nn) + cnt_eq(s, shift, e as u64, nn),
            cnt_lt(s, shift, e, nn) + #[trigger] cnt_eq(s, shift, e as u64, nn),
        ) =~= s.subrange(nn, nn).filter(|x: u64| dig(x, shift) == e as u64) by {
            lemma_cnt_lt_nonneg(s, shift, e, nn);
            lemma_cnt_eq_bounds(s, shift, e as u64, nn);
            lemma_cnt_lt_radix(s, shift, nn);
            lemma_cnt_lt_disjoint(s, shift, e, 2048, nn);
        }
    }
    let mut i: usize = n;
    while i > 0
        invariant
            counts@.len() == 2048,
            dst@.len() == n,
            i <= n,
            n == s.len(),
            s == src@,
            n < 0x1_0000_0000,
            nn == n as int,
            shift <= 55,
            forall|e: int|
                0 <= e < 2048 ==> counts@[e] as int == cnt_lt(s, shift, e, nn) + #[trigger] cnt_eq(
                    s,
                    shift,
                    e as u64,
                    i as int,
                ),
            forall|e: int|
                0 <= e < 2048 ==> dst@.subrange(
                    cnt_lt(s, shift, e, nn) + #[trigger] cnt_eq(s, shift, e as u64, i as int),
                    cnt_lt(s, shift, e, nn) + cnt_eq(s, shift, e as u64, nn),
                ) == s.subrange(i as int, nn).filter(|x: u64| dig(x, shift) == e as u64),
        decreases i,
    {
        i = i - 1;
        let ghost t = i as int;
        let key = src[i];
        proof {
            lemma_dig_bound(key, shift);
        }
        let digit = ((key >> shift) & 2047) as usize;
        let ghost dt = digit as int;
        proof {
            lemma_cnt_lt_nonneg(s, shift, dt, nn);
            lemma_cnt_eq_bounds(s, shift, digit as u64, t);
            lemma_cnt_eq_monotone(s, shift, digit as u64, t + 1, nn);
            lemma_cnt_lt_radix(s, shift, nn);
            lemma_cnt_lt_disjoint(s, shift, dt, 2048, nn);
            assert(cnt_eq(s, shift, digit as u64, t + 1) == cnt_eq(s, shift, digit as u64, t) + 1);
        }
        let cur = counts[digit];
        let c = cur - 1;
        counts[digit] = c;
        let ghost old_dst = dst@;
        dst[c as usize] = key;
        proof {
            assert(dig(s[t], shift) == digit as u64);
            assert forall|e: int| 0 <= e < 2048 implies counts@[e] as int == cnt_lt(s, shift, e, nn)
                + #[trigger] cnt_eq(s, shift, e as u64, t) by {
                if e != dt {
                    assert(cnt_eq(s, shift, e as u64, t + 1) == cnt_eq(s, shift, e as u64, t));
                }
            }
            let pos = cnt_lt(s, shift, dt, nn) + cnt_eq(s, shift, digit as u64, t);
            assert(c as int == pos);
            assert(s.subrange(t, nn) =~= seq![key] + s.subrange(t + 1, nn));
            reveal_with_fuel(Seq::filter, 3);
            assert forall|e: int|
                0 <= e < 2048 implies dst@.subrange(
                cnt_lt(s, shift, e, nn) + #[trigger] cnt_eq(s, shift, e as u64, t),
                cnt_lt(s, shift, e, nn) + cnt_eq(s, shift, e as u64, nn),
            ) == s.subrange(t, nn).filter(|x: u64| dig(x, shift) == e as u64) by {
                let pred = |x: u64| dig(x, shift) == e as u64;
                lemma_cnt_lt_nonneg(s, shift, e, nn);
                lemma_cnt_eq_bounds(s, shift, e as u64, t);
                lemma_cnt_eq_monotone(s, shift, e as u64, t, t + 1);
                lemma_cnt_eq_monotone(s, shift, e as u64, t + 1, nn);
                lemma_cnt_lt_radix(s, shift, nn);
                lemma_cnt_lt_disjoint(s, shift, e, 2048, nn);
                Seq::filter_distributes_over_add(seq![key], s.subrange(t + 1, nn), pred);
                if e == dt {
                    assert(pred(key));
                    assert(seq![key].filter(pred) =~= seq![key]);
                    assert(s.subrange(t, nn).filter(pred) =~= seq![key] + s.subrange(
                        t + 1,
                        nn,
                    ).filter(pred));
                    assert(dst@.subrange(
                        pos,
                        cnt_lt(s, shift, e, nn) + cnt_eq(s, shift, e as u64, nn),
                    ) =~= seq![key] + old_dst.subrange(
                        pos + 1,
                        cnt_lt(s, shift, e, nn) + cnt_eq(s, shift, e as u64, nn),
                    ));
                } else {
                    assert(!pred(key));
                    assert(seq![key].filter(pred) =~= Seq::<u64>::empty());
                    assert(s.subrange(t, nn).filter(pred) =~= s.subrange(t + 1, nn).filter(pred));
                    assert(cnt_eq(s, shift, e as u64, t + 1) == cnt_eq(s, shift, e as u64, t));
                    if e < dt {
                        lemma_cnt_lt_disjoint(s, shift, e, dt, nn);
                    } else {
                        lemma_cnt_lt_disjoint(s, shift, dt, e, nn);
                    }
                    assert(dst@.subrange(
                        cnt_lt(s, shift, e, nn) + cnt_eq(s, shift, e as u64, t),
                        cnt_lt(s, shift, e, nn) + cnt_eq(s, shift, e as u64, nn),
                    ) =~= old_dst.subrange(
                        cnt_lt(s, shift, e, nn) + cnt_eq(s, shift, e as u64, t),
                        cnt_lt(s, shift, e, nn) + cnt_eq(s, shift, e as u64, nn),
                    ));
                }
            }
        }
    }
    proof {
        assert(s.subrange(0, nn) =~= s);
        assert forall|e: int|
            0 <= e < 2048 implies dst@.subrange(
            cnt_lt(s, shift, e, nn),
            cnt_lt(s, shift, e, nn) + #[trigger] cnt_eq(s, shift, e as u64, nn),
        ) == bucket(s, shift, e as u64) by {
            assert(cnt_eq(s, shift, e as u64, 0) == 0);
            assert(dst@.subrange(
                cnt_lt(s, shift, e, nn) + cnt_eq(s, shift, e as u64, 0),
                cnt_lt(s, shift, e, nn) + cnt_eq(s, shift, e as u64, nn),
            ) == s.subrange(0, nn).filter(|x: u64| dig(x, shift) == e as u64));
        }
        lemma_glue(dst@, s, shift, 2048);
        lemma_cnt_lt_radix(s, shift, nn);
        assert(dst@.subrange(0, nn) =~= dst@);
    }
}

/// Sorts the keys of `a` in place: six stable counting-sort passes over the
/// 11-bit digits from the least significant up, ping-ponging between `a` and
/// the scratch buffer `tmp`, with `counts` as the per-pass digit counters.
/// Afterwards `a` holds the same keys in nondecreasing order.
pub fn radix_sort_ws(a: &mut Vec<u64>, tmp: &mut Vec<u64>, counts: &mut Vec<u32>)
    requires
        old(tmp)@.len() == old(a)@.len(),
        old(counts)@.len() == 2048,
        old(a)@.len() < 0x1_0000_0000,
    ensures
        final(a)@.len() == old(a)@.len(),
        final(a)@.to_multiset() == old(a)@.to_multiset(),
        forall|i: int, j: int| 0 <= i < j < final(a)@.len() ==> final(a)@[i] <= final(a)@[j],
        final(tmp)@.len() == old(a)@.len(),
        final(counts)@.len() == 2048,
{
    let n = a.len();
    if n < 2 {
        return ;
    }
    let ghost s0 = a@;
    proof {
        lemma_sorted_low_zero(s0);
        lemma_pass(s0, 0);
    }
    radix_pass(a, tmp, counts, 0);
    let ghost s1 = buckets_concat(s0, 0, 2048);
    proof {
        lemma_pass(s1, 11);
    }
    radix_pass(tmp, a, counts, 11);
    let ghost s2 = buckets_concat(s1, 11, 2048);
    proof {
        lemma_pass(s2, 22);
    }
    radix_pass(a, tmp, counts, 22);
    let ghost s3 = buckets_concat(s2, 22, 2048);
    proof {
        lemma_pass(s3, 33);
    }
    radix_pass(tmp, a, counts, 33);
    let ghost s4 = buckets_concat(s3, 33, 2048);
    proof {
        lemma_pass(s4, 44);
    }
    radix_pass(a, tmp, counts, 44);
    let ghost s5 = buckets_concat(s4, 44, 2048);
    proof {
        lemma_pass(s5, 55);
    }
    radix_pass(tmp, a, counts, 55);
    proof {
        let s6 = buckets_concat(s5, 55, 2048);
        lemma_sorted_low_full(s6);
    }
}

} // verus!
