use aster_bench::lcg::lcg_next;
use aster_bench::sort::{radix_sort_ws, RADIX};

fn sort(mut data: Vec<u64>) -> Vec<u64> {
    let mut tmp = vec![0u64; data.len()];
    let mut counts = vec![0u32; RADIX];
    radix_sort_ws(&mut data, &mut tmp, &mut counts);
    data
}

#[test]
fn small_inputs() {
    assert_eq!(sort(vec![]), vec![]);
    assert_eq!(sort(vec![7]), vec![7]);
    assert_eq!(sort(vec![2, 1]), vec![1, 2]);
    assert_eq!(sort(vec![3, 1, 2]), vec![1, 2, 3]);
    assert_eq!(sort(vec![5, 5, 5]), vec![5, 5, 5]);
}

#[test]
fn extremes_and_high_bits() {
    // Keys that differ only in the top digit, which the last pass orders.
    let data = vec![u64::MAX, 0, 1u64 << 63, 1, (1u64 << 63) - 1];
    assert_eq!(sort(data), vec![0, 1, (1u64 << 63) - 1, 1u64 << 63, u64::MAX]);
}

#[test]
fn matches_std_sort_on_generated_data() {
    let n = 20000;
    let mut data = vec![0u64; n];
    let mut seed: u64 = 1;
    for i in 0..n {
        seed = lcg_next(seed);
        data[i] = seed;
    }
    let mut expected = data.clone();
    expected.sort_unstable();
    assert_eq!(sort(data), expected);
}

#[test]
fn already_sorted_and_reversed() {
    let asc: Vec<u64> = (0..1000).collect();
    let desc: Vec<u64> = (0..1000).rev().collect();
    assert_eq!(sort(asc.clone()), asc);
    assert_eq!(sort(desc), asc);
}
