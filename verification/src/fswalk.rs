//! The computational core of the filesystem-walk benchmarks: FNV-style name
//! hashing, worker-count clamping, newline-separated list preparation, and
//! the bookkeeping that classifies and totals directory entries.
//!
//! Everything that touches the filesystem — reading the list file, statting
//! paths, expanding directories — stays with the caller; these functions work
//! on plain bytes and counters.

use vstd::prelude::*;

verus! {

/// The FNV-1a offset basis, the initial value of every name hash.
pub const HASH_OFFSET: u64 = 1469598103934665603;

/// The FNV-1a prime, the multiplier of every hash round.
pub const HASH_PRIME: u64 = 1099511628211;

/// One FNV-1a round: fold byte `b` into hash `h`.
pub open spec fn fnv_step(h: u64, b: u8) -> u64 {
    vstd::wrapping::u64_specs::wrapping_mul(h ^ (b as u64), HASH_PRIME)
}

/// Hash `h` after the first `i` bytes of `s` have been folded in.
pub open spec fn fnv_fold(h: u64, s: Seq<u8>, i: int) -> u64
    decreases i,
{
    if i <= 0 {
        h
    } else {
        fnv_step(fnv_fold(h, s, i - 1), s[i - 1])
    }
}

/// Folds `bytes` into the running FNV-1a hash and returns how many bytes
/// were folded.
pub fn hash_bytes(hash: &mut u64, bytes: &[u8]) -> (len: usize)
    ensures
        *final(hash) == fnv_fold(*old(hash), bytes@, bytes@.len() as int),
        len == bytes@.len(),
{
    let len = bytes.len();
    let mut k: usize = 0;
    while k < len
        invariant
            len == bytes@.len(),
            k <= len,
            *hash == fnv_fold(*old(hash), bytes@, k as int),
        decreases len - k,
    {
        let b = bytes[k];
        *hash = (*hash ^ (b as u64)).wrapping_mul(HASH_PRIME);
        k = k + 1;
    }
    len
}

/// Clamps a requested thread count to the supported range `[1, 32]`.
pub fn clamp_threads(n: usize) -> (r: usize)
    ensures
        r == if n < 1 {
            1int
        } else if n > 32 {
            32int
        } else {
            n as int
        },
{
    let mut n = n;
    if n < 1 {
        n = 1;
    }
    if n > 32 {
        n = 32;
    }
    n
}

/// Caps a worker count at the number of list lines, and floors it at one, so
/// that every worker gets at least one line and no line gets two workers.
pub fn cap_workers(requested: usize, nlines: usize) -> (n: usize)
    ensures
        n == if requested > nlines {
            if nlines < 1 {
                1int
            } else {
                nlines as int
            }
        } else if requested < 1 {
            1int
        } else {
            requested as int
        },
{
    let mut n = requested;
    if n > nlines {
        n = nlines;
    }
    if n < 1 {
        n = 1;
    }
    n
}

/// A newline byte (`\n` or `\r`) becomes the separator 0; anything else is
/// kept.
pub open spec fn norm_byte(b: u8) -> u8 {
    if b == 10 || b == 13 {
        0u8
    } else {
        b
    }
}

/// Whether a line starts at index `i` of a separator-normalized buffer: a
/// non-separator byte at the buffer's start or right after a separator.
pub open spec fn is_line_start(s: Seq<u8>, i: int) -> bool {
    &&& 0 <= i < s.len()
    &&& s[i] != 0
    &&& (i == 0 || s[i - 1] == 0)
}

/// The line-start indices of `s` that lie below `n`, in increasing order.
pub open spec fn line_starts(s: Seq<u8>, n: int) -> Seq<usize>
    decreases n,
{
    if n <= 0 {
        Seq::empty()
    } else {
        line_starts(s, n - 1) + if is_line_start(s, n - 1) {
            seq![(n - 1) as usize]
        } else {
            Seq::empty()
        }
    }
}

/// Prepares a newline-separated list: every `\n` and `\r` becomes the
/// separator 0, a trailing separator is appended, and the start index of
/// every line is collected.
pub fn normalize_lines(list: Vec<u8>) -> (r: (Vec<u8>, Vec<usize>))
    requires
        list@.len() < usize::MAX,
    ensures
        r.0@.len() == list@.len() + 1,
        forall|k: int| 0 <= k < list@.len() ==> r.0@[k] == norm_byte(list@[k]),
        r.0@[list@.len() as int] == 0,
        r.1@ == line_starts(r.0@, list@.len() as int),
{
    let ghost orig = list@;
    let read = list.len();
    let mut buf = list;
    let mut k: usize = 0;
    while k < read
        invariant
            read == orig.len(),
            buf@.len() == orig.len(),
            k <= read,
            forall|q: int| 0 <= q < k ==> buf@[q] == norm_byte(orig[q]),
            forall|q: int| k <= q < read ==> buf@[q] == orig[q],
        decreases read - k,
    {
        if buf[k] == 10 || buf[k] == 13 {
            buf[k] = 0;
        }
        k = k + 1;
    }
    buf.push(0);
    let mut starts: Vec<usize> = Vec::new();
    proof {
        assert(starts@ =~= line_starts(buf@, 0));
    }
    let mut i: usize = 0;
    while i < read
        invariant
            read + 1 == buf@.len(),
            i <= read,
            starts@ == line_starts(buf@, i as int),
        decreases read - i,
    {
        if buf[i] != 0 && (i == 0 || buf[i - 1] == 0) {
            starts.push(i);
            proof {
                assert(starts@ =~= line_starts(buf@, i as int + 1));
            }
        } else {
            proof {
                assert(starts@ =~= line_starts(buf@, i as int + 1));
            }
        }
        i = i + 1;
    }
    (buf, starts)
}

/// What a walked directory entry turned out to be.
#[derive(Clone, Copy, Debug, PartialEq, Eq, Structural)]
pub enum EntryKind {
    /// A directory.
    Directory,
    /// A regular file.
    File,
    /// A symbolic link.
    Symlink,
    /// Anything else (a device, a socket, a pipe).
    Other,
}

/// The running totals of one walk: entry counts, file bytes, and the
/// inventory extras (link count, name bytes, name hash).
#[derive(Clone, Copy, Debug, PartialEq, Eq, Structural)]
pub struct WalkTotals {
    /// Regular files seen.
    pub files: u64,
    /// Directories seen.
    pub dirs: u64,
    /// Bytes of the regular files seen (zero when only counting).
    pub bytes: u64,
    /// Symbolic links seen (inventory mode only).
    pub links: u64,
    /// Name bytes hashed (inventory mode only).
    pub name_bytes: u64,
    /// Running FNV-1a hash of the names seen (inventory mode only).
    pub name_hash: u64,
}

impl WalkTotals {
    /// Fresh totals: every counter zero, the name hash at its offset basis.
    pub fn new() -> (t: WalkTotals)
        ensures
            t == (WalkTotals {
                files: 0,
                dirs: 0,
                bytes: 0,
                links: 0,
                name_bytes: 0,
                name_hash: HASH_OFFSET,
            }),
    {
        WalkTotals { files: 0, dirs: 0, bytes: 0, links: 0, name_bytes: 0, name_hash: HASH_OFFSET }
    }
}

/// Classifies one walked entry into the totals: a directory counts as a
/// directory; a file counts as a file and, unless only counting, adds its
/// size to the byte total; a symbolic link counts only in inventory mode;
/// anything else is ignored. Counters wrap on overflow.
pub fn tally_entry(t: &mut WalkTotals, kind: EntryKind, size: u64, count_only: bool, inventory: bool)
    ensures
        final(t).dirs == if kind == EntryKind::Directory {
            vstd::wrapping::u64_specs::wrapping_add(old(t).dirs, 1)
        } else {
            old(t).dirs
        },
        final(t).files == if kind == EntryKind::File {
            vstd::wrapping::u64_specs::wrapping_add(old(t).files, 1)
        } else {
            old(t).files
        },
        final(t).bytes == if kind == EntryKind::File && !count_only {
            vstd::wrapping::u64_specs::wrapping_add(old(t).bytes, size)
        } else {
            old(t).bytes
        },
        final(t).links == if kind == EntryKind::Symlink && inventory {
            vstd::wrapping::u64_specs::wrapping_add(old(t).links, 1)
        } else {
            old(t).links
        },
        final(t).name_bytes == old(t).name_bytes,
        final(t).name_hash == old(t).name_hash,
{
    match kind {
        EntryKind::Directory => {
            t.dirs = t.dirs.wrapping_add(1);
        },
        EntryKind::File => {
            t.files = t.files.wrapping_add(1);
            if !count_only {
                t.bytes = t.bytes.wrapping_add(size);
            }
        },
        EntryKind::Symlink => {
            if inventory {
                t.links = t.links.wrapping_add(1);
            }
        },
        EntryKind::Other => {},
    }
}

/// The hash after `k` of the eight byte-rounds that fold one worker's name
/// hash `h` into the combined hash `acc`.
pub open spec fn fold_hash_spec(acc: u64, h: u64, k: int) -> u64
    decreases k,
{
    if k <= 0 {
        acc
    } else {
        fold_hash_spec(
            vstd::wrapping::u64_specs::wrapping_mul(acc ^ (h & 0xff), HASH_PRIME),
            h >> 8,
            k - 1,
        )
    }
}

/// Folds one worker's name hash into the combined hash, one byte-round per
/// byte of the worker hash.
pub fn fold_hash(acc: u64, h: u64) -> (r: u64)
    ensures
        r == fold_hash_spec(acc, h, 8),
{
    let mut acc = acc;
    let mut h = h;
    let mut round: usize = 0;
    let ghost acc0 = acc;
    let ghost h0 = h;
    while round < 8
        invariant
            round <= 8,
            fold_hash_spec(acc0, h0, 8) == fold_hash_spec(acc, h, 8 - round),
        decreases 8 - round,
    {
        acc = (acc ^ (h & 0xff)).wrapping_mul(HASH_PRIME);
        h = h >> 8u64;
        round = round + 1;
    }
    acc
}

/// The totals of all workers combined, in worker order: the counters are
/// summed (wrapping), and in inventory mode each worker's name hash is folded
/// into a combined hash that starts at the offset basis.
pub open spec fn merge_spec(rs: Seq<WalkTotals>, inventory: bool) -> WalkTotals
    decreases rs.len(),
{
    if rs.len() == 0 {
        WalkTotals { files: 0, dirs: 0, bytes: 0, links: 0, name_bytes: 0, name_hash: HASH_OFFSET }
    } else {
        let prev = merge_spec(rs.drop_last(), inventory);
        let last = rs.last();
        WalkTotals {
            files: vstd::wrapping::u64_specs::wrapping_add(prev.files, last.files),
            dirs: vstd::wrapping::u64_specs::wrapping_add(prev.dirs, last.dirs),
            bytes: vstd::wrapping::u64_specs::wrapping_add(prev.bytes, last.bytes),
            links: vstd::wrapping::u64_specs::wrapping_add(prev.links, last.links),
            name_bytes: vstd::wrapping::u64_specs::wrapping_add(prev.name_bytes, last.name_bytes),
            name_hash: if inventory {
                fold_hash_spec(prev.name_hash, last.name_hash, 8)
            } else {
                prev.name_hash
            },
        }
    }
}

/// Combines the per-worker totals, in worker order.
pub fn merge_totals(results: &Vec<WalkTotals>, inventory: bool) -> (t: WalkTotals)
    ensures
        t == merge_spec(results@, inventory),
{
    let mut t = WalkTotals::new();
    proof {
        assert(results@.take(0) =~= Seq::<WalkTotals>::empty());
    }
    let mut k: usize = 0;
    while k < results.len()
        invariant
            k <= results@.len(),
            t == merge_spec(results@.take(k as int), inventory),
        decreases results@.len() - k,
    {
        let r = results[k];
        t.files = t.files.wrapping_add(r.files);
        t.dirs = t.dirs.wrapping_add(r.dirs);
        t.bytes = t.bytes.wrapping_add(r.bytes);
        t.links = t.links.wrapping_add(r.links);
        t.name_bytes = t.name_bytes.wrapping_add(r.name_bytes);
        if inventory {
            t.name_hash = fold_hash(t.name_hash, r.name_hash);
        }
        proof {
            assert(results@.take(k as int + 1).drop_last() =~= results@.take(k as int));
            assert(results@.take(k as int + 1).last() == results@[k as int]);
        }
        k = k + 1;
    }
    proof {
        assert(results@.take(results@.len() as int) =~= results@);
    }
    t
}

/// Scans from `start` to the next separator byte. The buffer must hold one —
/// the trailing separator that [`normalize_lines`] appends guarantees it.
pub fn line_end(buf: &Vec<u8>, start: usize) -> (e: usize)
    requires
        exists|k: int| start <= k < buf@.len() && buf@[k] == 0,
    ensures
        start <= e < buf@.len(),
        buf@[e as int] == 0,
        forall|k: int| start <= k < e ==> buf@[k] != 0,
{
    let n = buf.len();
    let mut e = start;
    while buf[e] != 0
        invariant
            n == buf@.len(),
            start <= e < n,
            exists|k: int| e <= k < buf@.len() && buf@[k] == 0,
            forall|k: int| start <= k < e ==> buf@[k] != 0,
        decreases buf@.len() - e,
    {
        e = e + 1;
        proof {
            let k = choose|k: int| e - 1 <= k < buf@.len() && buf@[k] == 0;
            assert(e <= k < buf@.len() && buf@[k] == 0);
        }
    }
    e
}

} // verus!
