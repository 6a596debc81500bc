//! Page-table-entry codec.
//!
//! An entry is a single 64-bit word: an 8-bit permission-flag field in the
//! low byte (bits 8 and 9 are reserved) and a 44-bit physical page number
//! immediately above it, matching the Sv39 hardware entry format.

use vstd::prelude::*;
use crate::addr::{PhysPageNum, PPN_FIELD_LIMIT};

verus! {

/// Entry is valid (present).
pub const FLAG_V: u8 = 0x01;

/// Page is readable.
pub const FLAG_R: u8 = 0x02;

/// Page is writable.
pub const FLAG_W: u8 = 0x04;

/// Page is executable.
pub const FLAG_X: u8 = 0x08;

/// Page is accessible from user mode.
pub const FLAG_U: u8 = 0x10;

/// Mapping is global.
pub const FLAG_G: u8 = 0x20;

/// Page has been accessed.
pub const FLAG_A: u8 = 0x40;

/// Page has been written.
pub const FLAG_D: u8 = 0x80;

/// The permission-flag field of a page-table entry.
#[derive(Clone, Copy, PartialEq, Eq, Structural, Debug)]
pub struct PTEFlags(pub u8);

impl PTEFlags {
    /// No flags set.
    pub fn empty() -> (r: PTEFlags)
        ensures
            r.0 == 0,
    {
        PTEFlags(0)
    }

    /// Whether every flag of `other` is set in `self`.
    pub fn contains(self, other: PTEFlags) -> (r: bool)
        ensures
            r == (self.0 & other.0 == other.0),
    {
        self.0 & other.0 == other.0
    }

    /// The union of two flag sets.
    pub fn union(self, other: PTEFlags) -> (r: PTEFlags)
        ensures
            r.0 == (self.0 | other.0),
    {
        PTEFlags(self.0 | other.0)
    }
}

/// The packed word for physical page number `ppn` and flag byte `flags`.
pub open spec fn pte_encode(ppn: u64, flags: u8) -> u64 {
    ((ppn & 0xfff_ffff_ffff) << 10) | flags as u64
}

/// The physical-page-number field of a packed entry.
pub open spec fn pte_ppn(bits: u64) -> u64 {
    (bits >> 10) & 0xfff_ffff_ffff
}

/// The flag byte of a packed entry.
pub open spec fn pte_flags(bits: u64) -> u8 {
    bits as u8
}

/// Whether the Valid flag of a packed entry is set.
pub open spec fn pte_v(bits: u64) -> bool {
    bits & 1 == 1
}

/// Round-trip of the codec: for any flag byte and any physical page number
/// representable in the 44-bit field, decoding an encoded entry restores
/// both fields exactly; and a decoded page number always fits the field.
pub proof fn lemma_pte_roundtrip(ppn: u64, flags: u8)
    by (bit_vector)
    ensures
        ppn < PPN_FIELD_LIMIT ==> pte_ppn(pte_encode(ppn, flags)) == ppn,
        pte_flags(pte_encode(ppn, flags)) == flags,
        pte_v(pte_encode(ppn, flags)) == (flags & FLAG_V == FLAG_V),
        forall|bits: u64| #[trigger] pte_ppn(bits) < PPN_FIELD_LIMIT,
        forall|bits: u64| #[trigger] pte_v(bits) == (pte_flags(bits) & FLAG_V == FLAG_V),
{
}

/// A page-table entry: a plain copyable word, owner of nothing.
#[derive(Clone, Copy, PartialEq, Eq, Structural, Debug)]
pub struct PageTableEntry {
    pub bits: u64,
}

impl PageTableEntry {
    /// Packs a physical page number and a flag byte into an entry word.
    pub fn new(ppn: PhysPageNum, flags: PTEFlags) -> (r: PageTableEntry)
        ensures
            r.bits == pte_encode(ppn.0, flags.0),
    {
        PageTableEntry { bits: ((ppn.0 & 0xfff_ffff_ffff) << 10) | flags.0 as u64 }
    }

    /// The all-zero entry: not valid, names nothing.
    pub fn empty() -> (r: PageTableEntry)
        ensures
            r.bits == 0,
    {
        PageTableEntry { bits: 0 }
    }

    /// The physical page number named by this entry; meaningless unless valid.
    pub fn ppn(&self) -> (r: PhysPageNum)
        ensures
            r.0 == pte_ppn(self.bits),
    {
        PhysPageNum((self.bits >> 10) & 0xfff_ffff_ffff)
    }

    /// The flag byte of this entry.
    pub fn flags(&self) -> (r: PTEFlags)
        ensures
            r.0 == pte_flags(self.bits),
    {
        PTEFlags(self.bits as u8)
    }

    /// Whether the Valid flag is set.
    pub fn is_valid(&self) -> (r: bool)
        ensures
            r == pte_v(self.bits),
    {
        proof {
            lemma_flag_tests(self.bits);
        }
        self.bits as u8 & FLAG_V != 0
    }

    /// Whether the Read flag is set.
    pub fn readable(&self) -> (r: bool)
        ensures
            r == (pte_flags(self.bits) & FLAG_R != 0),
    {
        self.bits as u8 & FLAG_R != 0
    }

    /// Whether the Write flag is set.
    pub fn writable(&self) -> (r: bool)
        ensures
            r == (pte_flags(self.bits) & FLAG_W != 0),
    {
        self.bits as u8 & FLAG_W != 0
    }

    /// Whether the Execute flag is set.
    pub fn executable(&self) -> (r: bool)
        ensures
            r == (pte_flags(self.bits) & FLAG_X != 0),
    {
        self.bits as u8 & FLAG_X != 0
    }
}

/// The Valid test on the flag byte agrees with the Valid test on the word.
proof fn lemma_flag_tests(bits: u64)
    by (bit_vector)
    ensures
        (bits as u8 & FLAG_V != 0) == pte_v(bits),
{
}

} // verus!
