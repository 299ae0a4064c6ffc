//! Progress channel: a thread-safe percentage counter shared between a
//! worker and a presentation layer.
//!
//! The counter is a single atomic cell updated with relaxed stores by the
//! worker and polled by the presentation side; the displayed value is
//! advisory only. For verification each handle additionally carries the
//! ghost history of the values stored through it, so contracts on the
//! backup and restore operations can state that the reported percentages
//! are non-decreasing and end in the terminal sentinel.

use core::sync::atomic::AtomicU32;
use core::sync::atomic::Ordering;
use std::sync::Arc;
use vstd::prelude::*;

verus! {

use crate::PROGRESS_DONE;

/// Atomic counter for tracking progress percentages, cloneable so a
/// worker thread and the presentation layer can share one cell.
pub struct Progress {
    cell: Arc<AtomicU32>,
    hist: Ghost<Seq<u32>>,
}

impl Progress {
    /// The values stored through this handle, oldest first, starting
    /// with the initial zero.
    pub closed spec fn view(&self) -> Seq<u32> {
        self.hist@
    }

    pub fn new() -> (p: Progress)
        ensures
            p@ == seq![0u32],
    {
        let ghost h: Seq<u32> = seq![0u32];
        Progress { cell: Arc::new(AtomicU32::new(0)), hist: Ghost(h) }
    }

    /// Stores a new percentage in the shared cell.
    pub fn set(&mut self, pct: u32)
        ensures
            final(self)@ == old(self)@.push(pct),
    {
        self.cell.store(pct, Ordering::Relaxed);
        proof {
            self.hist@ = self.hist@.push(pct);
        }
    }

    /// Reads the most recently stored percentage. Other handles may
    /// store concurrently, so nothing relates the result to this
    /// handle's own history.
    pub fn get(&self) -> u32 {
        self.cell.load(Ordering::Relaxed)
    }

    /// Marks the operation as complete with the terminal sentinel,
    /// distinct from every in-progress percentage.
    pub fn done(&mut self)
        ensures
            final(self)@ == old(self)@.push(PROGRESS_DONE),
    {
        self.set(PROGRESS_DONE);
    }
}

impl Clone for Progress {
    /// The clone shares the same cell; its ghost history restarts from
    /// the values recorded so far on this handle.
    fn clone(&self) -> (p: Progress)
        ensures
            p@ == self@,
    {
        Progress { cell: self.cell.clone(), hist: Ghost(self.hist@) }
    }
}

impl Default for Progress {
    fn default() -> (p: Progress)
        ensures
            p@ == seq![0u32],
    {
        Progress::new()
    }
}

/// Every value of `s` lies at or below every later value: the sequence
/// of reported percentages never goes backwards.
pub open spec fn non_decreasing(s: Seq<u32>) -> bool {
    forall|i: int, j: int| 0 <= i <= j < s.len() ==> s[i] <= s[j]
}

/// The percentages a worker reports while completing `count` items out
/// of `total`: after the k-th item it stores `k * 100 / total`.
pub open spec fn pct_seq(count: int, total: int) -> Seq<u32>
    recommends
        0 <= count,
        1 <= total,
{
    Seq::new(count as nat, |k: int| (((k + 1) * 100) / total) as u32)
}

} // verus!
