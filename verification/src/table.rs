//! An open-addressing hash table of `u64` keys and values, packed flat.
//!
//! The table is one `Vec<u64>` of `2 * CAP` words: slot `s` keeps its key at
//! index `2s` and its value at index `2s + 1`, so one lookup touches a single
//! cache line. Key 0 marks an empty slot, so 0 cannot be stored as a key. A
//! key's home slot is its low 20 bits; collisions probe the next slot, slot
//! by slot, wrapping at the end of the table.
//!
//! The probe loops terminate only when the probe sequence meets an empty
//! slot (for inserts) or the key (for lookups); the contracts demand such a
//! slot within one full sweep of the table, exactly the discipline under
//! which the benchmark runs (the table is never more than a fraction full,
//! and only present keys are looked up).

use vstd::prelude::*;

verus! {

/// The number of slots.
pub const CAP: usize = 1048576;

/// The mask that maps a key to its home slot: `CAP - 1`.
pub const MASK: u64 = 1048575;

/// The number of `u64` words in the flat table: `2 * CAP`.
pub const TAB_LEN: usize = 2097152;

/// The flat index of the key word that the `j`-th probe for `key` visits:
/// the home slot's key word, then two words further per probe, wrapping at
/// the table's end.
pub open spec fn probe(key: u64, j: nat) -> int
    decreases j,
{
    if j == 0 {
        2 * ((key as int) % 1048576)
    } else {
        (probe(key, (j - 1) as nat) + 2) % 2097152
    }
}

/// Every probe lands on the key word of a slot: an even index below the
/// table's end.
pub proof fn lemma_probe_bounds(key: u64, j: nat)
    ensures
        0 <= probe(key, j) <= 2097150,
        probe(key, j) % 2 == 0,
    decreases j,
{
    if j > 0 {
        lemma_probe_bounds(key, (j - 1) as nat);
    }
}

/// Whether the `j`-th probe for `key` may take the key: the slot is empty or
/// already holds `key`.
pub open spec fn slot_open(t: Seq<u64>, key: u64, j: nat) -> bool {
    t[probe(key, j)] == 0 || t[probe(key, j)] == key
}

/// Whether the `j`-th probe for `key` holds the key.
pub open spec fn slot_holds(t: Seq<u64>, key: u64, j: nat) -> bool {
    t[probe(key, j)] == key
}

/// The home slot of a key: its low 20 bits.
pub fn hash_u64(key: u64) -> (r: usize)
    ensures
        r == (key as int) % 1048576,
{
    proof {
        assert((key & 1048575u64) == key % 1048576u64) by (bit_vector);
    }
    (key & MASK) as usize
}

/// Stores `key -> val` in the first probe slot that is empty or already
/// holds `key`. The table must offer such a slot within one sweep; the two
/// words of that slot are the only ones written.
pub fn map_put(tab: &mut Vec<u64>, key: u64, val: u64)
    requires
        old(tab)@.len() == 2097152,
        exists|j: nat| j < 1048576 && slot_open(old(tab)@, key, j),
    ensures
        final(tab)@.len() == 2097152,
        exists|j: nat|
            j < 1048576 && #[trigger] slot_open(old(tab)@, key, j) && (forall|q: nat|
                q < j ==> !slot_open(old(tab)@, key, q)) && final(tab)@ == old(tab)@.update(
                probe(key, j),
                key,
            ).update(probe(key, j) + 1, val),
{
    let ghost jw = choose|j: nat| j < 1048576 && slot_open(old(tab)@, key, j);
    let mut base = hash_u64(key) * 2;
    let ghost mut j: nat = 0nat;
    loop
        invariant_except_break
            tab@ == old(tab)@,
        invariant
            tab@.len() == 2097152,
            base == probe(key, j),
            jw < 1048576,
            slot_open(old(tab)@, key, jw),
            j <= jw,
            forall|q: nat| q < j ==> !slot_open(old(tab)@, key, q),
        ensures
            exists|q: nat|
                q < 1048576 && #[trigger] slot_open(old(tab)@, key, q) && (forall|q2: nat|
                    q2 < q ==> !slot_open(old(tab)@, key, q2)) && tab@ == old(tab)@.update(
                    probe(key, q),
                    key,
                ).update(probe(key, q) + 1, val),
        decreases jw - j,
    {
        proof {
            lemma_probe_bounds(key, j);
        }
        let cur = tab[base];
        if cur == 0 || cur == key {
            tab[base] = key;
            tab[base + 1] = val;
            proof {
                assert(slot_open(old(tab)@, key, j));
                assert(j < 1048576);
            }
            break ;
        }
        proof {
            assert(!slot_open(old(tab)@, key, j));
            assert(j < jw) by {
                assert(slot_open(old(tab)@, key, jw));
            }
            j = j + 1;
        }
        base = (base + 2) % 2097152;
    }
}

/// Looks up a key that is present in the table: returns the value word of
/// the first probe slot that holds the key. Only present keys may be looked
/// up — the fast path the benchmark relies on, which skips the empty-slot
/// check.
pub fn map_get_present(tab: &Vec<u64>, key: u64) -> (val: u64)
    requires
        tab@.len() == 2097152,
        exists|j: nat| j < 1048576 && slot_holds(tab@, key, j),
    ensures
        exists|j: nat|
            j < 1048576 && #[trigger] slot_holds(tab@, key, j) && (forall|q: nat|
                q < j ==> !slot_holds(tab@, key, q)) && val == tab@[probe(key, j) + 1],
{
    let ghost jw = choose|j: nat| j < 1048576 && slot_holds(tab@, key, j);
    let mut base = hash_u64(key) * 2;
    let ghost mut j: nat = 0nat;
    loop
        invariant
            tab@.len() == 2097152,
            base == probe(key, j),
            jw < 1048576,
            slot_holds(tab@, key, jw),
            j <= jw,
            forall|q: nat| q < j ==> !slot_holds(tab@, key, q),
        ensures
            base == probe(key, j),
            j < 1048576,
            slot_holds(tab@, key, j),
            forall|q: nat| q < j ==> !slot_holds(tab@, key, q),
        decreases jw - j,
    {
        proof {
            lemma_probe_bounds(key, j);
        }
        let cur = tab[base];
        if cur == key {
            break ;
        }
        proof {
            assert(!slot_holds(tab@, key, j));
            assert(j < jw) by {
                assert(slot_holds(tab@, key, jw));
            }
            j = j + 1;
        }
        base = (base + 2) % 2097152;
    }
    proof {
        lemma_probe_bounds(key, j);
    }
    tab[base + 1]
}

} // verus!
