use aster_bench::lcg::{lcg_next, LCG_A, LCG_C};

#[test]
fn first_states() {
    assert_eq!(lcg_next(0), LCG_C);
    assert_eq!(lcg_next(1), LCG_A.wrapping_add(LCG_C));
    assert_eq!(lcg_next(1), 6364136223846793006);
}

#[test]
fn wraps_like_u64() {
    let s = u64::MAX;
    assert_eq!(lcg_next(s), s.wrapping_mul(LCG_A).wrapping_add(LCG_C));
}
