//! Explicit model of physical memory and the frame allocator.
//!
//! Physical memory is a bump-allocated store of page frames. Each frame
//! offers the two typed views the kernel uses: an array of 512 page-table
//! entry words (for page-table nodes) and an array of 4096 bytes (for data
//! pages); the codec is applied at these read/write boundaries instead of
//! reinterpreting raw memory in place. Frames are handed out by
//! [`PhysMem::alloc_frame`], the allocator capability that page-table
//! construction and mapping calls receive explicitly.

use vstd::prelude::*;
use crate::addr::PhysPageNum;
use crate::frame::FrameTracker;

verus! {

/// Capacity of the modeled physical memory, in frames.
pub const FRAME_LIMIT: usize = 0x40000;

/// Whether page `p` of memory `mem` can be read as a full entry array.
pub open spec fn table_page(mem: Seq<u64>, p: int) -> bool {
    0 <= p && 512 * p + 512 <= mem.len()
}

/// Position of entry `i` of page `p` in the flat entry store.
pub open spec fn cell(p: int, i: int) -> int {
    512 * p + i
}

/// Entry `i` of page `p`, or zero when out of range.
pub open spec fn entry_spec(mem: Seq<u64>, p: int, i: int) -> u64 {
    if table_page(mem, p) && 0 <= i < 512 {
        mem[cell(p, i)]
    } else {
        0
    }
}

/// Position of byte `i` of page `p` in the flat byte store.
pub open spec fn byte_cell(p: int, i: int) -> int {
    4096 * p + i
}

/// Physical memory: a growing store of frames, each readable either as an
/// array of 512 entry words or as an array of 4096 bytes.
pub struct PhysMem {
    cells: Vec<u64>,
    bytes: Vec<u8>,
    count: usize,
}

impl PhysMem {
    /// The entry-array view of all frames, flattened.
    pub closed spec fn entries(self) -> Seq<u64> {
        self.cells@
    }

    /// The byte view of all frames, flattened.
    pub closed spec fn bytes_view(self) -> Seq<u8> {
        self.bytes@
    }

    /// Number of frames allocated so far.
    pub closed spec fn frame_count(self) -> int {
        self.count as int
    }

    /// Well-formedness: both views cover exactly the allocated frames.
    pub open spec fn inv(self) -> bool {
        &&& self.entries().len() == 512 * self.frame_count()
        &&& self.bytes_view().len() == 4096 * self.frame_count()
        &&& 0 <= self.frame_count() <= FRAME_LIMIT
    }

    /// Fresh physical memory with no frames allocated.
    pub fn new() -> (r: PhysMem)
        ensures
            r.inv(),
            r.frame_count() == 0,
            r.entries().len() == 0,
            r.bytes_view().len() == 0,
    {
        PhysMem { cells: Vec::new(), bytes: Vec::new(), count: 0 }
    }

    /// Number of frames allocated so far.
    pub fn frames_allocated(&self) -> (r: usize)
        ensures
            r == self.frame_count(),
    {
        self.count
    }

    /// Allocates one zeroed frame and returns the ownership token for it.
    ///
    /// The new frame's page number is the old frame count; existing memory
    /// is unchanged and the new frame is all zeroes under both views.
    pub fn alloc_frame(&mut self) -> (r: FrameTracker)
        requires
            old(self).inv(),
            old(self).frame_count() < FRAME_LIMIT,
        ensures
            final(self).inv(),
            final(self).frame_count() == old(self).frame_count() + 1,
            r.ppn.0 == old(self).frame_count(),
            final(self).entries().len() == old(self).entries().len() + 512,
            forall|i: int| 0 <= i < old(self).entries().len()
                ==> final(self).entries()[i] == old(self).entries()[i],
            forall|i: int| old(self).entries().len() <= i < final(self).entries().len()
                ==> final(self).entries()[i] == 0,
            final(self).bytes_view().len() == old(self).bytes_view().len() + 4096,
            forall|i: int| 0 <= i < old(self).bytes_view().len()
                ==> final(self).bytes_view()[i] == old(self).bytes_view()[i],
            forall|i: int| old(self).bytes_view().len() <= i < final(self).bytes_view().len()
                ==> final(self).bytes_view()[i] == 0,
    {
        let ppn = self.count as u64;
        let mut k: usize = 0;
        while k < 512
            invariant
                k <= 512,
                self.cells@.len() == old(self).cells@.len() + k,
                forall|i: int| 0 <= i < old(self).cells@.len()
                    ==> self.cells@[i] == old(self).cells@[i],
                forall|i: int| old(self).cells@.len() <= i < self.cells@.len()
                    ==> self.cells@[i] == 0,
                self.bytes == old(self).bytes,
                self.count == old(self).count,
            decreases 512 - k,
        {
            self.cells.push(0u64);
            k = k + 1;
        }
        let mut k: usize = 0;
        while k < 4096
            invariant
                k <= 4096,
                self.bytes@.len() == old(self).bytes@.len() + k,
                forall|i: int| 0 <= i < old(self).bytes@.len()
                    ==> self.bytes@[i] == old(self).bytes@[i],
                forall|i: int| old(self).bytes@.len() <= i < self.bytes@.len()
                    ==> self.bytes@[i] == 0,
                self.cells@.len() == old(self).cells@.len() + 512,
                forall|i: int| 0 <= i < old(self).cells@.len()
                    ==> self.cells@[i] == old(self).cells@[i],
                forall|i: int| old(self).cells@.len() <= i < self.cells@.len()
                    ==> self.cells@[i] == 0,
                self.count == old(self).count,
            decreases 4096 - k,
        {
            self.bytes.push(0u8);
            k = k + 1;
        }
        self.count = self.count + 1;
        FrameTracker { ppn: PhysPageNum(ppn) }
    }

    /// Reads entry word `i` of page-table node `p`.
    pub fn read_entry(&self, p: u64, i: u64) -> (r: u64)
        requires
            self.inv(),
            table_page(self.entries(), p as int),
            i < 512,
        ensures
            r == entry_spec(self.entries(), p as int, i as int),
    {
        self.cells[(p as usize) * 512 + (i as usize)]
    }

    /// Writes entry word `i` of page-table node `p`.
    pub fn write_entry(&mut self, p: u64, i: u64, v: u64)
        requires
            old(self).inv(),
            table_page(old(self).entries(), p as int),
            i < 512,
        ensures
            final(self).inv(),
            final(self).entries() == old(self).entries().update(cell(p as int, i as int), v),
            final(self).bytes_view() == old(self).bytes_view(),
            final(self).frame_count() == old(self).frame_count(),
    {
        self.cells.set((p as usize) * 512 + (i as usize), v);
    }

    /// Reads byte `i` of frame `p`.
    pub fn read_byte(&self, p: u64, i: u64) -> (r: u8)
        requires
            self.inv(),
            (p as int) < self.frame_count(),
            i < 4096,
        ensures
            r == self.bytes_view()[byte_cell(p as int, i as int)],
    {
        self.bytes[(p as usize) * 4096 + (i as usize)]
    }

    /// Writes byte `i` of frame `p`.
    pub fn write_byte(&mut self, p: u64, i: u64, b: u8)
        requires
            old(self).inv(),
            (p as int) < old(self).frame_count(),
            i < 4096,
        ensures
            final(self).inv(),
            final(self).bytes_view() == old(self).bytes_view().update(byte_cell(p as int, i as int), b),
            final(self).entries() == old(self).entries(),
            final(self).frame_count() == old(self).frame_count(),
    {
        self.bytes.set((p as usize) * 4096 + (i as usize), b);
    }
}

} // verus!
