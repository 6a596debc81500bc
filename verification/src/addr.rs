//! Typed virtual/physical addresses and page numbers.
//!
//! A virtual address is 39 bits wide and decomposes into a 27-bit virtual
//! page number plus a 12-bit intra-page offset; the page number further
//! decomposes into three 9-bit level indices for the 3-level walk.

use vstd::prelude::*;

verus! {

/// Bytes per page.
pub const PAGE_SIZE: u64 = 4096;

/// One past the largest representable virtual address (39-bit space).
pub const VA_LIMIT: u64 = 0x80_0000_0000;

/// One past the largest virtual page number (27 bits of page number).
pub const VPN_LIMIT: u64 = 0x800_0000;

/// Width of the physical-page-number field of a page-table entry: 44 bits.
pub const PPN_FIELD_LIMIT: u64 = 0x1000_0000_0000;

/// Intra-page offset of a virtual address.
pub open spec fn va_offset(va: u64) -> u64 {
    va & 0xfff
}

/// Page number containing a virtual address (offset truncated).
pub open spec fn va_floor(va: u64) -> u64 {
    va >> 12
}

/// Page number just past a virtual address range ending at `va`.
pub open spec fn va_ceil(va: u64) -> u64 {
    ((va + 4095) as u64) >> 12
}

/// Level-0 (most significant) index of the 3-level walk.
pub open spec fn idx0(vpn: u64) -> u64 {
    (vpn >> 18) & 0x1ff
}

/// Level-1 index of the 3-level walk.
pub open spec fn idx1(vpn: u64) -> u64 {
    (vpn >> 9) & 0x1ff
}

/// Level-2 (leaf) index of the 3-level walk.
pub open spec fn idx2(vpn: u64) -> u64 {
    vpn & 0x1ff
}

/// How a virtual address splits into page number and offset.
pub proof fn lemma_va_split(va: u64)
    by (bit_vector)
    ensures
        va_offset(va) < 4096,
        va == va_floor(va) * 4096 + va_offset(va),
        va <= VA_LIMIT ==> va_ceil(va) * 4096 <= va + 4095 < (va_ceil(va) + 1) * 4096,
        va < VA_LIMIT ==> va_floor(va) < VPN_LIMIT,
        va <= VA_LIMIT ==> va_ceil(va) <= VPN_LIMIT,
        va_offset(va) == 0 ==> va_ceil(va) == va_floor(va),
        va_offset(va) != 0 && va < VA_LIMIT ==> va_ceil(va) == va_floor(va) + 1,
{
}

/// How a virtual page number splits into the three level indices.
pub proof fn lemma_vpn_decompose(vpn: u64)
    by (bit_vector)
    ensures
        idx0(vpn) < 512,
        idx1(vpn) < 512,
        idx2(vpn) < 512,
        vpn < VPN_LIMIT ==> vpn == (idx0(vpn) * 512 + idx1(vpn)) * 512 + idx2(vpn),
{
}

/// A virtual address: a raw machine word interpreted through the 39-bit scheme.
#[derive(Clone, Copy, PartialEq, Eq, Structural, Debug)]
pub struct VirtAddr(pub u64);

/// A virtual page number.
#[derive(Clone, Copy, PartialEq, Eq, Structural, Debug)]
pub struct VirtPageNum(pub u64);

/// A physical page number: names one physical frame.
#[derive(Clone, Copy, PartialEq, Eq, Structural, Debug)]
pub struct PhysPageNum(pub u64);

impl VirtAddr {
    /// The page containing this address.
    pub fn floor(self) -> (r: VirtPageNum)
        ensures
            r.0 == va_floor(self.0),
    {
        VirtPageNum(self.0 >> 12)
    }

    /// The page just past this address, unless this address is page-aligned.
    pub fn ceil(self) -> (r: VirtPageNum)
        requires
            self.0 < VA_LIMIT,
        ensures
            r.0 == va_ceil(self.0),
    {
        VirtPageNum((self.0 + 4095) >> 12)
    }

    /// The intra-page offset of this address.
    pub fn page_offset(self) -> (r: u64)
        ensures
            r == va_offset(self.0),
    {
        self.0 & 0xfff
    }

    /// Whether this address sits on a page boundary.
    pub fn aligned(self) -> (r: bool)
        ensures
            r == (va_offset(self.0) == 0),
    {
        self.0 & 0xfff == 0
    }
}

impl VirtPageNum {
    /// The three level indices of the walk, most significant first.
    pub fn indexes(self) -> (r: (u64, u64, u64))
        ensures
            r.0 == idx0(self.0),
            r.1 == idx1(self.0),
            r.2 == idx2(self.0),
    {
        ((self.0 >> 18) & 0x1ff, (self.0 >> 9) & 0x1ff, self.0 & 0x1ff)
    }

    /// The first address of this page.
    pub fn addr(self) -> (r: VirtAddr)
        requires
            self.0 < VPN_LIMIT,
        ensures
            r.0 == self.0 * 4096,
            va_floor(r.0) == self.0,
            va_offset(r.0) == 0,
    {
        proof {
            lemma_vpn_mul_page(self.0);
        }
        VirtAddr(self.0 * 4096)
    }
}

/// Multiplying a page number by the page size restores offset zero.
proof fn lemma_vpn_mul_page(vpn: u64)
    by (bit_vector)
    requires
        vpn < VPN_LIMIT,
    ensures
        va_floor((vpn * 4096) as u64) == vpn,
        va_offset((vpn * 4096) as u64) == 0,
        vpn * 4096 < VA_LIMIT,
{
}

} // verus!
