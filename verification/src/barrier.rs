//! A reusable spin barrier.
//!
//! `count` participants rendezvous at every call to [`SpinBarrier::wait`]: a
//! caller blocks until all `count` participants of the round have called, then
//! all are released together and the barrier is ready for the next round. The
//! release signal is a monotonically increasing phase counter, so no round can
//! observe a stale release from an earlier round. Waiters busy-wait instead of
//! parking — a deliberate policy for the short stalls of small worker pools;
//! a blocking barrier could replace this one behind the same interface.
//!
//! `count` must equal the exact number of distinct callers per round; fewer
//! actual callers stall every round forever, and more release a round early.
//! That discipline — like every property that needs several threads to state —
//! lives outside what is verified here: the atomics are opaque, and `wait`
//! promises nothing about the values they hold.

use std::sync::atomic::{AtomicU64, Ordering};
use vstd::prelude::*;

verus! {

/// A reusable rendezvous for a fixed set of participants.
pub struct SpinBarrier {
    waiting: AtomicU64,
    phase: AtomicU64,
    count: u64,
}

impl SpinBarrier {
    /// The number of participants fixed at construction.
    pub closed spec fn expected(&self) -> u64 {
        self.count
    }

    /// A barrier for exactly `count` participants per round.
    pub fn new(count: u64) -> (b: SpinBarrier)
        ensures
            b.expected() == count,
    {
        SpinBarrier { waiting: AtomicU64::new(0), phase: AtomicU64::new(0), count }
    }

    /// Blocks until all participants of the current round have called, then
    /// returns. The last arriver resets the arrival counter for the next
    /// round and bumps the phase counter, which releases the spinners.
    pub fn wait(&self) {
        let phase = self.phase.load(Ordering::Acquire);
        let arrived = self.waiting.fetch_add(1, Ordering::AcqRel).wrapping_add(1);
        if arrived == self.count {
            self.waiting.store(0, Ordering::Relaxed);
            self.phase.fetch_add(1, Ordering::Release);
            return ;
        }
        spin_until_phase_change(&self.phase, phase);
    }
}

/// Relies on std::sync::atomic::AtomicU64::load (acquire ordering): returns
/// once the phase counter is observed to differ from `p`. Termination waits
/// on another participant's release store, which no sequential contract can
/// capture; nothing is promised about the value observed.
#[verifier::external_body]
fn spin_until_phase_change(phase: &AtomicU64, p: u64) {
    while phase.load(Ordering::Acquire) == p {
    }
}

} // verus!
