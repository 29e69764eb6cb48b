use aster_bench::fswalk::{
    cap_workers, clamp_threads, fold_hash, hash_bytes, line_end, merge_totals, normalize_lines,
    tally_entry, EntryKind, WalkTotals, HASH_OFFSET, HASH_PRIME,
};

fn fnv(mut h: u64, bytes: &[u8]) -> u64 {
    for &b in bytes {
        h ^= b as u64;
        h = h.wrapping_mul(HASH_PRIME);
    }
    h
}

#[test]
fn hash_bytes_folds_fnv() {
    let mut h = HASH_OFFSET;
    let len = hash_bytes(&mut h, b"abc");
    assert_eq!(len, 3);
    assert_eq!(h, fnv(HASH_OFFSET, b"abc"));

    let mut h2 = HASH_OFFSET;
    hash_bytes(&mut h2, b"ab");
    hash_bytes(&mut h2, b"c");
    assert_eq!(h2, h);

    let mut h3 = 12345u64;
    assert_eq!(hash_bytes(&mut h3, b""), 0);
    assert_eq!(h3, 12345);
}

#[test]
fn clamp_threads_range() {
    assert_eq!(clamp_threads(0), 1);
    assert_eq!(clamp_threads(1), 1);
    assert_eq!(clamp_threads(17), 17);
    assert_eq!(clamp_threads(32), 32);
    assert_eq!(clamp_threads(33), 32);
}

#[test]
fn cap_workers_fits_lines() {
    assert_eq!(cap_workers(8, 3), 3);
    assert_eq!(cap_workers(2, 3), 2);
    assert_eq!(cap_workers(0, 3), 1);
    assert_eq!(cap_workers(4, 0), 1);
}

#[test]
fn normalize_finds_line_starts() {
    let (buf, starts) = normalize_lines(b"foo\nbar\r\nbaz".to_vec());
    assert_eq!(buf, b"foo\0bar\0\0baz\0".to_vec());
    assert_eq!(starts, vec![0, 4, 9]);
}

#[test]
fn normalize_empty_and_blank_lines() {
    let (buf, starts) = normalize_lines(Vec::new());
    assert_eq!(buf, vec![0]);
    assert!(starts.is_empty());

    let (_, starts) = normalize_lines(b"\n\n".to_vec());
    assert!(starts.is_empty());

    let (_, starts) = normalize_lines(b"\na\n".to_vec());
    assert_eq!(starts, vec![1]);
}

#[test]
fn line_end_stops_at_separator() {
    let (buf, starts) = normalize_lines(b"one\ntwo".to_vec());
    assert_eq!(starts, vec![0, 4]);
    assert_eq!(line_end(&buf, 0), 3);
    assert_eq!(line_end(&buf, 4), 7);
    assert_eq!(&buf[4..line_end(&buf, 4)], b"two");
}

#[test]
fn tally_classifies_entries() {
    let mut t = WalkTotals::new();
    tally_entry(&mut t, EntryKind::Directory, 0, false, false);
    tally_entry(&mut t, EntryKind::File, 100, false, false);
    tally_entry(&mut t, EntryKind::File, 50, true, false);
    tally_entry(&mut t, EntryKind::Symlink, 0, false, false);
    tally_entry(&mut t, EntryKind::Symlink, 0, false, true);
    tally_entry(&mut t, EntryKind::Other, 0, false, true);
    assert_eq!(t.dirs, 1);
    assert_eq!(t.files, 2);
    assert_eq!(t.bytes, 100);
    assert_eq!(t.links, 1);
    assert_eq!(t.name_hash, HASH_OFFSET);
}

#[test]
fn fold_hash_mixes_eight_bytes() {
    let mut expected = HASH_OFFSET;
    let mut h = 0x0123_4567_89ab_cdefu64;
    for _ in 0..8 {
        expected ^= h & 0xff;
        expected = expected.wrapping_mul(HASH_PRIME);
        h >>= 8;
    }
    assert_eq!(fold_hash(HASH_OFFSET, 0x0123_4567_89ab_cdef), expected);
}

#[test]
fn merge_adds_and_folds() {
    let w0 = WalkTotals { files: 2, dirs: 1, bytes: 10, links: 0, name_bytes: 5, name_hash: 111 };
    let w1 = WalkTotals { files: 3, dirs: 0, bytes: 20, links: 2, name_bytes: 7, name_hash: 222 };
    let merged = merge_totals(&vec![w0, w1], true);
    assert_eq!(merged.files, 5);
    assert_eq!(merged.dirs, 1);
    assert_eq!(merged.bytes, 30);
    assert_eq!(merged.links, 2);
    assert_eq!(merged.name_bytes, 12);
    assert_eq!(merged.name_hash, fold_hash(fold_hash(HASH_OFFSET, 111), 222));

    let plain = merge_totals(&vec![w0, w1], false);
    assert_eq!(plain.name_hash, HASH_OFFSET);
    assert_eq!(plain.files, 5);

    let empty = merge_totals(&Vec::new(), true);
    assert_eq!(empty, WalkTotals::new());
}
