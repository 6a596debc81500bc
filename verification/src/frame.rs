//! Ownership token for one physical frame.

use vstd::prelude::*;
use crate::addr::PhysPageNum;

verus! {

/// Exclusive ownership of exactly one physical page frame.
///
/// A tracker is produced only by the frame allocator and is deliberately
/// neither `Clone` nor `Copy`: a physical page number has at most one live
/// tracker at a time, and ownership moves with the value. Whoever holds the
/// tracker when the frame's lifetime ends is responsible for returning the
/// frame to the allocator.
#[derive(Debug)]
pub struct FrameTracker {
    /// The physical page number of the owned frame.
    pub ppn: PhysPageNum,
}

} // verus!
