use aster_bench::lcg::lcg_next;
use aster_bench::table::{hash_u64, map_get_present, map_put, TAB_LEN};

#[test]
fn hash_is_low_twenty_bits() {
    assert_eq!(hash_u64(0), 0);
    assert_eq!(hash_u64(5), 5);
    assert_eq!(hash_u64(1048575), 1048575);
    assert_eq!(hash_u64(1048576), 0);
    assert_eq!(hash_u64(u64::MAX), 1048575);
}

#[test]
fn put_then_get() {
    let mut tab = vec![0u64; TAB_LEN];
    map_put(&mut tab, 5, 70);
    assert_eq!(map_get_present(&tab, 5), 70);
}

#[test]
fn colliding_keys_both_stored() {
    // Same home slot: the keys differ only above the low 20 bits.
    let mut tab = vec![0u64; TAB_LEN];
    let a = 123u64;
    let b = a + (1u64 << 20);
    let c = a + (2u64 << 20);
    map_put(&mut tab, a, 1);
    map_put(&mut tab, b, 2);
    map_put(&mut tab, c, 3);
    assert_eq!(map_get_present(&tab, a), 1);
    assert_eq!(map_get_present(&tab, b), 2);
    assert_eq!(map_get_present(&tab, c), 3);
}

#[test]
fn same_key_overwrites() {
    let mut tab = vec![0u64; TAB_LEN];
    map_put(&mut tab, 9, 1);
    map_put(&mut tab, 9, 2);
    assert_eq!(map_get_present(&tab, 9), 2);
}

#[test]
fn benchmark_workload_round_trips() {
    // The benchmark's own data: LCG keys forced odd (never the empty marker).
    let n = 20000u64;
    let mut tab = vec![0u64; TAB_LEN];
    let mut seed: u64 = 1;
    for i in 0..n {
        seed = lcg_next(seed);
        map_put(&mut tab, seed | 1, i);
    }
    let mut seed: u64 = 1;
    let mut total: u64 = 0;
    for _ in 0..n {
        seed = lcg_next(seed);
        total = total.wrapping_add(map_get_present(&tab, seed | 1));
    }
    // Keys are distinct (or repeated with the same final value), so the sum
    // is the sum of the stored indices of the distinct keys in last-write
    // order; with no duplicates it is 0 + 1 + ... + n-1.
    let mut keys: Vec<u64> = Vec::new();
    let mut seed: u64 = 1;
    for _ in 0..n {
        seed = lcg_next(seed);
        keys.push(seed | 1);
    }
    let mut sorted = keys.clone();
    sorted.sort_unstable();
    sorted.dedup();
    if sorted.len() == keys.len() {
        assert_eq!(total, n * (n - 1) / 2);
    }
}
