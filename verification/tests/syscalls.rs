use vmcore::addr::{VirtAddr, VirtPageNum};
use vmcore::copyio::{copyout, translated_byte_buffer};
use vmcore::frame::FrameTracker;
use vmcore::mem::PhysMem;
use vmcore::page_table::PageTable;
use vmcore::pte::{PTEFlags, FLAG_R, FLAG_U, FLAG_V, FLAG_W, FLAG_X};
use vmcore::syscall::{
    sys_exit, sys_get_time, sys_mmap, sys_munmap, sys_set_priority, sys_task_info, sys_yield,
    TaskInfo, TaskStatus, TimeVal,
};

fn space_with_pages(vpn0: u64, n: u64) -> (PhysMem, PageTable, Vec<FrameTracker>) {
    let mut mem = PhysMem::new();
    let mut pt = PageTable::new(&mut mem);
    let mut owner = Vec::new();
    let r = sys_mmap(&mut pt, &mut mem, &mut owner, vpn0 * 4096, n * 4096, 0b011);
    assert_eq!(r, 0);
    (mem, pt, owner)
}

#[test]
fn mmap_rejects_unaligned_start() {
    let mut mem = PhysMem::new();
    let mut pt = PageTable::new(&mut mem);
    let mut owner = Vec::new();
    assert_eq!(sys_mmap(&mut pt, &mut mem, &mut owner, 4097, 4096, 0b011), -1);
    assert!(owner.is_empty());
}

#[test]
fn mmap_rejects_bad_port() {
    let mut mem = PhysMem::new();
    let mut pt = PageTable::new(&mut mem);
    let mut owner = Vec::new();
    // no permission bits at all
    assert_eq!(sys_mmap(&mut pt, &mut mem, &mut owner, 0x10000, 4096, 0b000), -1);
    // a bit outside the low three
    assert_eq!(sys_mmap(&mut pt, &mut mem, &mut owner, 0x10000, 4096, 0b1000), -1);
    assert!(pt.translate(&mem, VirtPageNum(0x10)).is_none());
}

#[test]
fn mmap_rejects_request_physical_memory_cannot_hold() {
    let mut mem = PhysMem::new();
    let mut pt = PageTable::new(&mut mem);
    let mut owner = Vec::new();
    // more pages than the frame store could ever back
    assert_eq!(sys_mmap(&mut pt, &mut mem, &mut owner, 0, 0x2000_0000, 0b001), -1);
    assert!(owner.is_empty());
    assert_eq!(mem.frames_allocated(), 1);
}

#[test]
fn mmap_rejects_range_leaving_the_address_space() {
    let mut mem = PhysMem::new();
    let mut pt = PageTable::new(&mut mem);
    let mut owner = Vec::new();
    let top = 1u64 << 39;
    assert_eq!(sys_mmap(&mut pt, &mut mem, &mut owner, top, 4096, 0b011), -1);
    assert_eq!(sys_mmap(&mut pt, &mut mem, &mut owner, top - 4096, 2 * 4096, 0b011), -1);
}

#[test]
fn mmap_zero_length_is_a_successful_noop() {
    let mut mem = PhysMem::new();
    let mut pt = PageTable::new(&mut mem);
    let mut owner = Vec::new();
    assert_eq!(sys_mmap(&mut pt, &mut mem, &mut owner, 0x10000, 0, 0b011), 0);
    assert!(pt.translate(&mem, VirtPageNum(0x10)).is_none());
    assert!(owner.is_empty());
}

#[test]
fn mmap_maps_fresh_user_pages() {
    let mut mem = PhysMem::new();
    let mut pt = PageTable::new(&mut mem);
    let mut owner = Vec::new();
    assert_eq!(sys_mmap(&mut pt, &mut mem, &mut owner, 0x10000, 4096, 0b011), 0);
    let e = pt.translate(&mem, VirtPageNum(0x10)).unwrap();
    assert!(e.is_valid());
    assert!(e.readable());
    assert!(e.writable());
    assert!(!e.executable());
    assert_eq!(e.flags().0 & FLAG_U, FLAG_U);
    assert_eq!(owner.len(), 1);
    assert_eq!(owner[0].ppn.0, e.ppn().0);
}

#[test]
fn mmap_execute_bit_comes_through() {
    let mut mem = PhysMem::new();
    let mut pt = PageTable::new(&mut mem);
    let mut owner = Vec::new();
    assert_eq!(sys_mmap(&mut pt, &mut mem, &mut owner, 0x3000, 4096, 0b100), 0);
    let e = pt.translate(&mem, VirtPageNum(3)).unwrap();
    assert!(e.executable());
    assert!(!e.readable());
    assert!(!e.writable());
    assert_eq!(e.flags().0, FLAG_V | FLAG_X | FLAG_U);
}

#[test]
fn munmap_after_mmap_clears_the_range() {
    let (mut mem, mut pt, _owner) = space_with_pages(0x20, 3);
    assert_eq!(sys_munmap(&mut pt, &mut mem, 0x20 * 4096, 3 * 4096), 0);
    for v in 0x20..0x23u64 {
        let e = pt.translate(&mem, VirtPageNum(v));
        assert!(e.is_none() || !e.unwrap().is_valid());
    }
}

#[test]
fn munmap_unmapped_range_fails() {
    let mut mem = PhysMem::new();
    let mut pt = PageTable::new(&mut mem);
    assert_eq!(sys_munmap(&mut pt, &mut mem, 0x5000, 4096), -1);
    // partially mapped range fails too, and changes nothing
    let (mut mem2, mut pt2, _owner) = space_with_pages(0x40, 1);
    assert_eq!(sys_munmap(&mut pt2, &mut mem2, 0x40 * 4096, 2 * 4096), -1);
    assert!(pt2.translate(&mem2, VirtPageNum(0x40)).unwrap().is_valid());
}

#[test]
fn munmap_rejects_unaligned_start() {
    let (mut mem, mut pt, _owner) = space_with_pages(0x20, 1);
    assert_eq!(sys_munmap(&mut pt, &mut mem, 0x20 * 4096 + 1, 4096), -1);
    assert!(pt.translate(&mem, VirtPageNum(0x20)).unwrap().is_valid());
}

#[test]
fn double_mmap_is_rejected_and_first_mapping_survives() {
    let (mut mem, mut pt, mut owner) = space_with_pages(0x30, 2);
    let first = pt.translate(&mem, VirtPageNum(0x30)).unwrap();
    // overlapping: second page of the old range is the first of the new one
    let r = sys_mmap(&mut pt, &mut mem, &mut owner, 0x31 * 4096, 2 * 4096, 0b001);
    assert_eq!(r, -1);
    let again = pt.translate(&mem, VirtPageNum(0x30)).unwrap();
    assert_eq!(again.bits, first.bits);
    let second = pt.translate(&mem, VirtPageNum(0x31)).unwrap();
    assert!(second.is_valid());
    assert!(second.writable());
    // and the page past the old range stayed unmapped
    let past = pt.translate(&mem, VirtPageNum(0x32));
    assert!(past.is_none() || !past.unwrap().is_valid());
}

#[test]
fn mmap_after_munmap_succeeds_again() {
    let (mut mem, mut pt, mut owner) = space_with_pages(0x50, 1);
    assert_eq!(sys_munmap(&mut pt, &mut mem, 0x50 * 4096, 4096), 0);
    assert_eq!(sys_mmap(&mut pt, &mut mem, &mut owner, 0x50 * 4096, 4096, 0b001), 0);
    let e = pt.translate(&mem, VirtPageNum(0x50)).unwrap();
    assert!(e.is_valid());
    assert!(e.readable());
    assert!(!e.writable());
}

#[test]
fn gather_zero_length_is_empty() {
    let (mem, pt, _owner) = space_with_pages(0x100, 1);
    let slices = translated_byte_buffer(&mem, pt.token(), VirtAddr(0x100 * 4096 + 5), 0);
    assert!(slices.is_empty());
}

#[test]
fn gather_single_page_range() {
    let (mem, pt, _owner) = space_with_pages(0x100, 1);
    let e = pt.translate(&mem, VirtPageNum(0x100)).unwrap();
    let slices = translated_byte_buffer(&mem, pt.token(), VirtAddr(0x100 * 4096 + 10), 100);
    assert_eq!(slices.len(), 1);
    assert_eq!(slices[0].ppn.0, e.ppn().0);
    assert_eq!(slices[0].start, 10);
    assert_eq!(slices[0].end, 110);
}

#[test]
fn gather_spanning_three_pages() {
    let mut mem = PhysMem::new();
    let mut pt = PageTable::new(&mut mem);
    // map three consecutive virtual pages to deliberately non-contiguous frames
    let mut ppns = Vec::new();
    for v in 0x100..0x103u64 {
        let f = mem.alloc_frame();
        let _gap = mem.alloc_frame();
        ppns.push(f.ppn.0);
        pt.map(&mut mem, VirtPageNum(v), f.ppn, PTEFlags(FLAG_R | FLAG_W | FLAG_U));
    }
    let base = 0x100u64 * 4096;
    let slices = translated_byte_buffer(&mem, pt.token(), VirtAddr(base + 100), 2 * 4096);
    assert_eq!(slices.len(), 3);
    assert_eq!(slices[0].ppn.0, ppns[0]);
    assert_eq!(slices[0].start, 100);
    assert_eq!(slices[0].end, 4096);
    assert_eq!(slices[1].ppn.0, ppns[1]);
    assert_eq!(slices[1].start, 0);
    assert_eq!(slices[1].end, 4096);
    assert_eq!(slices[2].ppn.0, ppns[2]);
    assert_eq!(slices[2].start, 0);
    assert_eq!(slices[2].end, 100);
    let total: u64 = slices.iter().map(|s| s.end - s.start).sum();
    assert_eq!(total, 2 * 4096);
}

#[test]
fn gather_concatenation_reproduces_the_written_range() {
    let (mut mem, pt, _owner) = space_with_pages(0x100, 3);
    let token = pt.token();
    let base = 0x100u64 * 4096;
    // fill the three virtual pages with a recognizable pattern, page by page
    for p in 0..3u64 {
        let mut chunk: Vec<u8> = Vec::new();
        for j in 0..4096u64 {
            chunk.push((((p * 4096 + j) * 31 + 7) % 251) as u8);
        }
        copyout(&mut mem, token, VirtAddr(base + p * 4096), &chunk);
    }
    // gather an unaligned sub-range crossing both page boundaries
    let slices = translated_byte_buffer(&mem, token, VirtAddr(base + 100), 2 * 4096);
    let mut collected: Vec<u8> = Vec::new();
    for s in slices.iter() {
        for i in s.start..s.end {
            collected.push(mem.read_byte(s.ppn.0, i));
        }
    }
    assert_eq!(collected.len(), 2 * 4096);
    for (k, b) in collected.iter().enumerate() {
        let logical = 100 + k as u64;
        assert_eq!(*b, ((logical * 31 + 7) % 251) as u8);
    }
}

#[test]
fn copyout_writes_the_destination_window_only() {
    let (mut mem, pt, _owner) = space_with_pages(0x80, 1);
    let token = pt.token();
    let ppn = pt.translate(&mem, VirtPageNum(0x80)).unwrap().ppn().0;
    let payload = vec![1u8, 2, 3, 4, 5];
    copyout(&mut mem, token, VirtAddr(0x80 * 4096 + 64), &payload);
    for (j, b) in payload.iter().enumerate() {
        assert_eq!(mem.read_byte(ppn, 64 + j as u64), *b);
    }
    assert_eq!(mem.read_byte(ppn, 63), 0);
    assert_eq!(mem.read_byte(ppn, 69), 0);
}

#[test]
fn get_time_writes_seconds_and_microseconds() {
    let (mut mem, pt, _owner) = space_with_pages(0x90, 1);
    let token = pt.token();
    let ts = VirtAddr(0x90 * 4096 + 8);
    let r = sys_get_time(&mut mem, token, ts, 0, 3_456_789);
    assert_eq!(r, 0);
    let ppn = pt.translate(&mem, VirtPageNum(0x90)).unwrap().ppn().0;
    let mut sec_bytes = [0u8; 8];
    let mut usec_bytes = [0u8; 8];
    for j in 0..8u64 {
        sec_bytes[j as usize] = mem.read_byte(ppn, 8 + j);
        usec_bytes[j as usize] = mem.read_byte(ppn, 16 + j);
    }
    assert_eq!(u64::from_le_bytes(sec_bytes), 3);
    assert_eq!(u64::from_le_bytes(usec_bytes), 456_789);
}

#[test]
fn task_info_snapshot_is_serialized_in_order() {
    let (mut mem, pt, _owner) = space_with_pages(0xa0, 1);
    let token = pt.token();
    let mut times = [0u32; 500];
    times[64] = 9;
    times[499] = 123_456;
    let info = TaskInfo { status: TaskStatus::Running, syscall_times: times, time: 777 };
    let r = sys_task_info(&mut mem, token, VirtAddr(0xa0 * 4096), &info);
    assert_eq!(r, 0);
    let ppn = pt.translate(&mem, VirtPageNum(0xa0)).unwrap().ppn().0;
    let read32 = |mem: &PhysMem, off: u64| {
        let mut b = [0u8; 4];
        for j in 0..4u64 {
            b[j as usize] = mem.read_byte(ppn, off + j);
        }
        u32::from_le_bytes(b)
    };
    assert_eq!(read32(&mem, 0), 2); // Running
    assert_eq!(read32(&mem, 4 + 64 * 4), 9);
    assert_eq!(read32(&mem, 4 + 499 * 4), 123_456);
    let mut t = [0u8; 8];
    for j in 0..8u64 {
        t[j as usize] = mem.read_byte(ppn, 2004 + j);
    }
    assert_eq!(u64::from_le_bytes(t), 777);
}

#[test]
fn timeval_wire_form() {
    let tv = TimeVal { sec: 0x0102_0304, usec: 7 };
    let b = tv.to_bytes();
    assert_eq!(b.len(), 16);
    assert_eq!(&b[0..8], &[0x04, 0x03, 0x02, 0x01, 0, 0, 0, 0]);
    assert_eq!(&b[8..16], &[7, 0, 0, 0, 0, 0, 0, 0]);
}

#[test]
fn task_status_codes() {
    assert_eq!(TaskStatus::UnInit.code(), 0);
    assert_eq!(TaskStatus::Ready.code(), 1);
    assert_eq!(TaskStatus::Running.code(), 2);
    assert_eq!(TaskStatus::Exited.code(), 3);
}

#[test]
fn thin_scheduler_forwards() {
    assert_eq!(sys_exit(42), 42);
    assert_eq!(sys_yield(), 0);
    assert_eq!(sys_set_priority(10), -1);
}
