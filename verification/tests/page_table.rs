use vmcore::addr::{PhysPageNum, VirtAddr, VirtPageNum};
use vmcore::mem::PhysMem;
use vmcore::page_table::PageTable;
use vmcore::pte::{PTEFlags, PageTableEntry, FLAG_R, FLAG_U, FLAG_V, FLAG_W, FLAG_X};

#[test]
fn pte_roundtrip_codec() {
    let flags = PTEFlags(FLAG_V | FLAG_R | FLAG_W);
    let e = PageTableEntry::new(PhysPageNum(0xABCDE), flags);
    assert_eq!(e.ppn().0, 0xABCDE);
    assert_eq!(e.flags().0, FLAG_V | FLAG_R | FLAG_W);
    assert!(e.is_valid());
    assert!(e.readable());
    assert!(e.writable());
    assert!(!e.executable());
}

#[test]
fn pte_exact_bit_layout() {
    let e = PageTableEntry::new(PhysPageNum(1), PTEFlags(0x0f));
    assert_eq!(e.bits, (1u64 << 10) | 0x0f);
}

#[test]
fn pte_ppn_field_is_masked_to_44_bits() {
    let e = PageTableEntry::new(PhysPageNum(u64::MAX), PTEFlags(0));
    assert_eq!(e.ppn().0, (1u64 << 44) - 1);
}

#[test]
fn pte_empty_is_invalid() {
    let e = PageTableEntry::empty();
    assert_eq!(e.bits, 0);
    assert!(!e.is_valid());
    assert!(!e.readable());
    assert!(!e.writable());
    assert!(!e.executable());
}

#[test]
fn pte_flags_operations() {
    let f = PTEFlags(FLAG_R | FLAG_W);
    assert!(f.contains(PTEFlags(FLAG_R)));
    assert!(!f.contains(PTEFlags(FLAG_X)));
    assert_eq!(f.union(PTEFlags(FLAG_V)).0, FLAG_V | FLAG_R | FLAG_W);
    assert_eq!(PTEFlags::empty().0, 0);
}

#[test]
fn address_decomposition() {
    let va = VirtAddr(0x1234_5678);
    assert_eq!(va.floor().0, 0x1234_5678 >> 12);
    assert_eq!(va.page_offset(), 0x678);
    assert!(!va.aligned());
    assert!(VirtAddr(0x1000).aligned());
    assert_eq!(VirtAddr(0x1000).ceil().0, 1);
    assert_eq!(VirtAddr(0x1001).ceil().0, 2);
    let vpn = VirtPageNum(0b101_000000011_000000111);
    let (i0, i1, i2) = vpn.indexes();
    assert_eq!(i0, 0b101);
    assert_eq!(i1, 0b11);
    assert_eq!(i2, 0b111);
    assert_eq!(VirtPageNum(3).addr().0, 3 * 4096);
}

#[test]
fn fresh_table_translates_nothing() {
    let mut mem = PhysMem::new();
    let pt = PageTable::new(&mut mem);
    assert!(pt.translate(&mem, VirtPageNum(0)).is_none());
    assert!(pt.translate(&mem, VirtPageNum(0x12345)).is_none());
}

#[test]
fn map_then_translate_shows_frame_and_flags() {
    let mut mem = PhysMem::new();
    let mut pt = PageTable::new(&mut mem);
    let frame = mem.alloc_frame();
    let ppn = frame.ppn;
    pt.map(&mut mem, VirtPageNum(0x12345), ppn, PTEFlags(FLAG_R | FLAG_W | FLAG_U));
    let e = pt.translate(&mem, VirtPageNum(0x12345)).unwrap();
    assert!(e.is_valid());
    assert_eq!(e.ppn().0, ppn.0);
    assert_eq!(e.flags().0, FLAG_V | FLAG_R | FLAG_W | FLAG_U);
}

#[test]
fn unmap_clears_translation() {
    let mut mem = PhysMem::new();
    let mut pt = PageTable::new(&mut mem);
    let frame = mem.alloc_frame();
    pt.map(&mut mem, VirtPageNum(7), frame.ppn, PTEFlags(FLAG_R));
    pt.unmap(&mut mem, VirtPageNum(7));
    // the leaf location stays reachable but reports "not mapped"
    let e = pt.translate(&mem, VirtPageNum(7)).unwrap();
    assert!(!e.is_valid());
    assert_eq!(e.bits, 0);
}

#[test]
fn distinct_pages_never_alias() {
    let mut mem = PhysMem::new();
    let mut pt = PageTable::new(&mut mem);
    // neighbours in one leaf node, plus a page under another top-level slot
    let pages = [0x00000u64, 0x00001, 0x40000];
    let mut frames = Vec::new();
    for &v in pages.iter() {
        let f = mem.alloc_frame();
        let p = f.ppn;
        frames.push((v, p, f));
        pt.map(&mut mem, VirtPageNum(v), p, PTEFlags(FLAG_R | FLAG_U));
    }
    for &(v, p, _) in frames.iter() {
        let e = pt.translate(&mem, VirtPageNum(v)).unwrap();
        assert!(e.is_valid());
        assert_eq!(e.ppn().0, p.0);
    }
    // clearing one leaf leaves the others exactly as they were
    pt.unmap(&mut mem, VirtPageNum(0x00000));
    assert!(!pt.translate(&mem, VirtPageNum(0x00000)).unwrap().is_valid());
    let e1 = pt.translate(&mem, VirtPageNum(0x00001)).unwrap();
    assert!(e1.is_valid());
    assert_eq!(e1.ppn().0, frames[1].1 .0);
    let e2 = pt.translate(&mem, VirtPageNum(0x40000)).unwrap();
    assert!(e2.is_valid());
    assert_eq!(e2.ppn().0, frames[2].1 .0);
}

#[test]
fn token_encodes_mode_and_root() {
    let mut mem = PhysMem::new();
    let pt = PageTable::new(&mut mem);
    let token = pt.token();
    assert_eq!(token >> 60, 8);
    assert_eq!(token & ((1u64 << 44) - 1), 0);  // first frame allocated is the root
}

#[test]
fn from_token_view_translates_like_the_owner() {
    let mut mem = PhysMem::new();
    let mut pt = PageTable::new(&mut mem);
    let frame = mem.alloc_frame();
    let ppn = frame.ppn;
    pt.map(&mut mem, VirtPageNum(0x222), ppn, PTEFlags(FLAG_R | FLAG_U));
    let view = PageTable::from_token(pt.token());
    let e = view.translate(&mem, VirtPageNum(0x222)).unwrap();
    assert!(e.is_valid());
    assert_eq!(e.ppn().0, ppn.0);
    // a neighbour sharing the intermediate nodes is reachable but invalid
    assert!(!view.translate(&mem, VirtPageNum(0x223)).unwrap().is_valid());
    // a page under an untouched top-level slot is a translation miss
    assert!(view.translate(&mem, VirtPageNum(0x7_0000_00)).is_none());
}

#[test]
fn allocator_hands_out_sequential_frames() {
    let mut mem = PhysMem::new();
    assert_eq!(mem.frames_allocated(), 0);
    let a = mem.alloc_frame();
    let b = mem.alloc_frame();
    let c = mem.alloc_frame();
    assert_eq!(a.ppn.0, 0);
    assert_eq!(b.ppn.0, 1);
    assert_eq!(c.ppn.0, 2);
    assert_eq!(mem.frames_allocated(), 3);
}

#[test]
fn intermediate_nodes_are_reused_within_one_leaf_node() {
    let mut mem = PhysMem::new();
    let mut pt = PageTable::new(&mut mem);
    let f1 = mem.alloc_frame();
    let p1 = f1.ppn;
    pt.map(&mut mem, VirtPageNum(0x10), p1, PTEFlags(FLAG_R));
    let used = mem.frames_allocated();
    let f2 = mem.alloc_frame();
    let p2 = f2.ppn;
    pt.map(&mut mem, VirtPageNum(0x11), p2, PTEFlags(FLAG_R));
    // second map shares both intermediate nodes: only the data frame was new
    assert_eq!(mem.frames_allocated(), used + 1);
    assert_eq!(pt.translate(&mem, VirtPageNum(0x10)).unwrap().ppn().0, p1.0);
    assert_eq!(pt.translate(&mem, VirtPageNum(0x11)).unwrap().ppn().0, p2.0);
}
