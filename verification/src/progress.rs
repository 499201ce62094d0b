//! How far a run has come.

use vstd::prelude::*;

verus! {

/// How many of a run's items are dealt with, and how many there are.
#[derive(Clone, Copy, Debug, PartialEq, Eq, Structural)]
pub struct Progress {
    done: u64,
    total: u64,
}

impl Default for Progress {
    fn default() -> (progress: Progress)
        ensures
            progress.so_far() == (0u64, 0u64),
    {
        Progress { done: 0, total: 0 }
    }
}

impl Progress {
    /// The number of items dealt with, and of all items.
    pub closed spec fn so_far(self) -> (u64, u64) {
        (self.done, self.total)
    }

    /// Sets the number of all items.
    pub fn set_total(&mut self, total: u64)
        ensures
            final(self).so_far() == (old(self).so_far().0, total),
    {
        self.total = total;
    }

    /// Counts `n` more items as dealt with. The count wraps around.
    pub fn add_done(&mut self, n: u64)
        ensures
            final(self).so_far().0 == (old(self).so_far().0 + n) % 0x1_0000_0000_0000_0000,
            final(self).so_far().1 == old(self).so_far().1,
    {
        self.done = self.done.wrapping_add(n);
    }

    /// The number of items dealt with, and of all items.
    pub fn snapshot(&self) -> (counts: (u64, u64))
        ensures
            counts == self.so_far(),
    {
        (self.done, self.total)
    }
}

}
