//! The frame source: a capability that yields one physical page-sized
//! allocation per call and never frees.
//!
//! The library works against a finite supply of page-aligned physical frame
//! addresses. The caller that owns the firmware allocator fills the supply;
//! inside the library each `allocate_frame` call hands out one frame until
//! the supply is exhausted, and exhaustion is reported, never ignored.

use vstd::prelude::*;

verus! {

use crate::{MAX_ALIGNABLE, PAGE_SIZE};

/// A finite supply of physical frames. `allocate_frame` hands out the last
/// element first; no operation ever returns a frame to the pool.
pub struct FrameSource {
    pub pool: Vec<u64>,
}

impl FrameSource {
    /// Every frame in the pool is page-aligned, does not wrap the address
    /// space, and occurs only once.
    pub open spec fn wf(self) -> bool {
        &&& forall|i: int|
            0 <= i < self.pool@.len() ==> (#[trigger] self.pool@[i]) % PAGE_SIZE == 0
                && self.pool@[i] <= MAX_ALIGNABLE
        &&& forall|i: int, j: int|
            0 <= i < j < self.pool@.len() ==> #[trigger] self.pool@[i] != #[trigger] self.pool@[j]
    }

    /// Number of frames still available.
    pub fn remaining(&self) -> (n: usize)
        ensures
            n == self.pool@.len(),
    {
        self.pool.len()
    }

    /// Yield one frame, or report exhaustion. The pool shrinks by exactly
    /// the returned frame; nothing else changes.
    pub fn allocate_frame(&mut self) -> (r: Option<u64>)
        ensures
            old(self).pool@.len() == 0 ==> r is None && final(self).pool@ == old(self).pool@,
            old(self).pool@.len() > 0 ==> r == Some(old(self).pool@.last())
                && final(self).pool@ == old(self).pool@.drop_last(),
    {
        self.pool.pop()
    }
}

} // verus!
