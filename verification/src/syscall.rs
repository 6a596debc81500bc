//! Process-facing syscalls built on the memory core: timestamp and
//! task-info copy-out, memory mapping, and thin scheduler forwards.
//!
//! Every handler takes the state it operates on explicitly: the physical
//! memory (which is also the frame allocator capability) and, for the
//! mapping calls, the current address space's page table.

use vstd::prelude::*;
use crate::addr::{lemma_va_split, va_floor, va_offset, VirtAddr, VirtPageNum, PPN_FIELD_LIMIT, VA_LIMIT, VPN_LIMIT};
use crate::copyio::{copyout, phys_pos, range_page_count};
use crate::frame::FrameTracker;
use crate::mem::{PhysMem, FRAME_LIMIT};
use crate::page_table::{leaf, lemma_alloc_preserves_pt, mapped, pt_wf, satp_root, walk, PageTable};
use crate::pte::{lemma_pte_roundtrip, pte_flags, pte_ppn, PTEFlags, FLAG_U, FLAG_V};

verus! {

/// Number of distinct syscall ids whose invocation counts a task records.
pub const MAX_SYSCALL_NUM: usize = 500;

/// A two-field timestamp written into user memory by `sys_get_time`.
#[derive(Clone, Copy, PartialEq, Eq, Structural, Debug)]
pub struct TimeVal {
    /// Whole seconds.
    pub sec: u64,
    /// Microseconds within the second.
    pub usec: u64,
}

/// Scheduling state of a task, as reported by `sys_task_info`.
#[derive(Clone, Copy, PartialEq, Eq, Structural, Debug)]
pub enum TaskStatus {
    /// Not yet initialized.
    UnInit,
    /// Ready to run.
    Ready,
    /// Currently running.
    Running,
    /// Finished.
    Exited,
}

/// Snapshot of a task's status, syscall counts and elapsed time. The
/// scheduler computes it; this core only copies it into user memory.
#[derive(Clone, Copy)]
pub struct TaskInfo {
    /// Scheduling state.
    pub status: TaskStatus,
    /// Invocation count per syscall id.
    pub syscall_times: [u32; MAX_SYSCALL_NUM],
    /// Elapsed time since first scheduling, in milliseconds.
    pub time: u64,
}

/// Little-endian bytes of a 64-bit word.
pub open spec fn le64_bytes(x: u64) -> Seq<u8> {
    seq![
        x as u8,
        (x >> 8) as u8,
        (x >> 16) as u8,
        (x >> 24) as u8,
        (x >> 32) as u8,
        (x >> 40) as u8,
        (x >> 48) as u8,
        (x >> 56) as u8,
    ]
}

/// Little-endian bytes of a 32-bit word.
pub open spec fn le32_bytes(x: u32) -> Seq<u8> {
    seq![x as u8, (x >> 8) as u8, (x >> 16) as u8, (x >> 24) as u8]
}

/// Wire code of a task status.
pub open spec fn task_status_code(s: TaskStatus) -> u32 {
    match s {
        TaskStatus::UnInit => 0,
        TaskStatus::Ready => 1,
        TaskStatus::Running => 2,
        TaskStatus::Exited => 3,
    }
}

/// Wire form of a timestamp: seconds then microseconds, little-endian.
pub open spec fn timeval_bytes_spec(tv: TimeVal) -> Seq<u8> {
    le64_bytes(tv.sec) + le64_bytes(tv.usec)
}

/// Wire form of a task-info snapshot: status code, the syscall counts in
/// id order, then the elapsed time, all little-endian.
pub open spec fn task_info_bytes_spec(ti: TaskInfo) -> Seq<u8> {
    le32_bytes(task_status_code(ti.status)) + Seq::new(2000, |i: int| le32_bytes(ti.syscall_times@[i / 4])[i % 4]) + le64_bytes(ti.time)
}

/// Appends the little-endian bytes of a 64-bit word.
fn push_le64(v: &mut Vec<u8>, x: u64)
    ensures
        final(v)@ == old(v)@ + le64_bytes(x),
{
    v.push(x as u8);
    v.push((x >> 8) as u8);
    v.push((x >> 16) as u8);
    v.push((x >> 24) as u8);
    v.push((x >> 32) as u8);
    v.push((x >> 40) as u8);
    v.push((x >> 48) as u8);
    v.push((x >> 56) as u8);
    proof {
        assert(v@ =~= old(v)@ + le64_bytes(x));
    }
}

/// Appends the little-endian bytes of a 32-bit word.
fn push_le32(v: &mut Vec<u8>, x: u32)
    ensures
        final(v)@ == old(v)@ + le32_bytes(x),
{
    v.push(x as u8);
    v.push((x >> 8) as u8);
    v.push((x >> 16) as u8);
    v.push((x >> 24) as u8);
    proof {
        assert(v@ =~= old(v)@ + le32_bytes(x));
    }
}

impl TaskStatus {
    /// The wire code of this status.
    pub fn code(&self) -> (r: u32)
        ensures
            r == task_status_code(*self),
    {
        match self {
            TaskStatus::UnInit => 0,
            TaskStatus::Ready => 1,
            TaskStatus::Running => 2,
            TaskStatus::Exited => 3,
        }
    }
}

impl TimeVal {
    /// The wire form of this timestamp.
    pub fn to_bytes(&self) -> (r: Vec<u8>)
        ensures
            r@ == timeval_bytes_spec(*self),
            r@.len() == 16,
    {
        let mut r: Vec<u8> = Vec::new();
        push_le64(&mut r, self.sec);
        push_le64(&mut r, self.usec);
        proof {
            assert(r@ =~= timeval_bytes_spec(*self));
        }
        r
    }
}

impl TaskInfo {
    /// The wire form of this snapshot.
    pub fn to_bytes(&self) -> (r: Vec<u8>)
        ensures
            r@ == task_info_bytes_spec(*self),
            r@.len() == 2012,
    {
        let mut r: Vec<u8> = Vec::new();
        push_le32(&mut r, self.status.code());
        let mut k: usize = 0;
        while k < MAX_SYSCALL_NUM
            invariant
                k <= 500,
                r@.len() == 4 + 4 * k,
                forall|i: int| 0 <= i < 4
                    ==> #[trigger] r@[i] == le32_bytes(task_status_code(self.status))[i],
                forall|i: int| 4 <= i < 4 + 4 * k
                    ==> #[trigger] r@[i] == le32_bytes(self.syscall_times@[(i - 4) / 4])[(i - 4) % 4],
            decreases 500 - k,
        {
            let ghost k0 = k as int;
            push_le32(&mut r, self.syscall_times[k]);
            proof {
                assert forall|i: int| 4 + 4 * k0 <= i < 8 + 4 * k0
                    implies #[trigger] r@[i] == le32_bytes(self.syscall_times@[(i - 4) / 4])[(i
                    - 4) % 4] by {
                    assert((i - 4) / 4 == k0);
                    assert((i - 4) % 4 == i - 4 - 4 * k0);
                    assert(r@[i] == le32_bytes(self.syscall_times@[k0])[i - 4 - 4 * k0]);
                }
            }
            k = k + 1;
        }
        push_le64(&mut r, self.time);
        proof {
            let full = task_info_bytes_spec(*self);
            assert forall|i: int| 0 <= i < 2012 implies r@[i] == full[i] by {
                if i < 4 {
                    assert(full[i] == le32_bytes(task_status_code(self.status))[i]);
                } else if i < 2004 {
                    assert(full[i] == Seq::new(2000, |j: int| le32_bytes(self.syscall_times@[j
                        / 4])[j % 4])[i - 4]);
                } else {
                    assert(full[i] == le64_bytes(self.time)[i - 2004]);
                }
            }
            assert(r@ =~= full);
        }
        r
    }
}

/// Hands the exit code to the scheduler, which tears the task down and
/// never schedules it again; in a running kernel control does not come
/// back from that hand-off. Returns the code being handed over.
pub fn sys_exit(exit_code: i32) -> (r: i32)
    ensures
        r == exit_code,
{
    exit_code
}

/// The current task gives up the processor for other tasks.
/// The suspend-and-reschedule action itself belongs to the scheduler.
pub fn sys_yield() -> (r: isize)
    ensures
        r == 0,
{
    0
}

/// Priority scheduling is not supported by this kernel.
pub fn sys_set_priority(_prio: isize) -> (r: isize)
    ensures
        r == -1,
{
    -1
}

/// Validity of an mmap permission argument: no bits outside the low
/// three, and at least one of them set.
pub open spec fn mmap_port_ok(port: u64) -> bool {
    port & 0xffff_ffff_ffff_fff8 == 0 && port & 0x7 != 0
}

/// The leaf flag byte an mmap'd page carries: the requested permissions
/// shifted into the Read/Write/Execute flag positions, plus
/// user-accessible. Valid is added by `map` itself.
pub open spec fn port_flags(port: u64) -> u8 {
    ((port as u8) << 1) | FLAG_U
}

/// Maps the pages covering `[start, start + len)` in the address space of
/// `pt`, backing each with a fresh frame from the allocator; the frames'
/// ownership tokens are appended to `owner`, whose holder owns the mapped
/// memory. Fails, changing nothing, when `start` is unaligned, `port` has
/// bits outside the low three or none of them, the range leaves the
/// virtual address space, physical memory could not hold it, or any page
/// of the range is already mapped: the whole range is validated before
/// anything is mutated, so the operation is atomic. A zero-length request
/// succeeds without mapping anything.
pub fn sys_mmap(
    pt: &mut PageTable,
    mem: &mut PhysMem,
    owner: &mut Vec<FrameTracker>,
    start: u64,
    len: u64,
    port: u64,
) -> (r: isize)
    requires
        old(mem).inv(),
        pt_wf(old(mem).entries(), old(pt).root()),
    ensures
        final(mem).inv(),
        final(pt).root() == old(pt).root(),
        pt_wf(final(mem).entries(), old(pt).root()),
        r == 0 || r == -1,
        (r == -1) <==> (va_offset(start) != 0 || !mmap_port_ok(port) || (len > 0 && start + len
            > VA_LIMIT) || (len > 0 && start + len <= VA_LIMIT && old(mem).frame_count() + 3
            * range_page_count(start, len) > FRAME_LIMIT) || (len > 0 && start + len <= VA_LIMIT
            && exists|k: int|
            0 <= k < range_page_count(start, len) && #[trigger] mapped(old(mem).entries(),
            old(pt).root(), (va_floor(start) + k) as u64))),
        r == -1 ==> final(mem).entries() == old(mem).entries() && final(mem).bytes_view() == old(
            mem,
        ).bytes_view() && final(mem).frame_count() == old(mem).frame_count() && final(owner)@
            == old(owner)@ && final(pt).owned() == old(pt).owned(),
        r == 0 ==> {
            &&& forall|k: int| 0 <= k < range_page_count(start, len) ==> {
                &&& #[trigger] mapped(final(mem).entries(), old(pt).root(), (va_floor(start)
                    + k) as u64)
                &&& pte_flags(leaf(final(mem).entries(), old(pt).root(), (va_floor(start)
                    + k) as u64)) == (port_flags(port) | FLAG_V)
                &&& pte_ppn(leaf(final(mem).entries(), old(pt).root(), (va_floor(start)
                    + k) as u64)) < final(mem).frame_count()
            }
            &&& forall|v: u64| v < VPN_LIMIT && !(va_floor(start) <= v < va_floor(start)
                + range_page_count(start, len))
                ==> #[trigger] mapped(final(mem).entries(), old(pt).root(), v) == mapped(
                    old(mem).entries(), old(pt).root(), v)
            &&& forall|v: u64| v < VPN_LIMIT && !(va_floor(start) <= v < va_floor(start)
                + range_page_count(start, len)) && mapped(old(mem).entries(), old(pt).root(), v)
                ==> #[trigger] leaf(final(mem).entries(), old(pt).root(), v) == leaf(
                    old(mem).entries(), old(pt).root(), v)
            &&& final(owner)@.len() == old(owner)@.len() + range_page_count(start, len)
            &&& forall|i: int| 0 <= i < old(owner)@.len() ==> #[trigger] final(owner)@[i] == old(
                owner,
            )@[i]
            &&& forall|k: int| 0 <= k < range_page_count(start, len)
                ==> #[trigger] final(owner)@[old(owner)@.len() + k].ppn.0 == pte_ppn(
                    leaf(final(mem).entries(), old(pt).root(), (va_floor(start) + k) as u64))
            &&& forall|k1: int, k2: int| 0 <= k1 < k2 < range_page_count(start, len)
                ==> #[trigger] final(owner)@[old(owner)@.len() + k1].ppn.0
                    < #[trigger] final(owner)@[old(owner)@.len() + k2].ppn.0
        },
{
    let ghost root = old(pt).root();
    if start & 0xfff != 0 || port & 0xffff_ffff_ffff_fff8 != 0 || port & 0x7 == 0 {
        return -1;
    }
    if len == 0 {
        return 0;
    }
    if start > VA_LIMIT || len > VA_LIMIT - start {
        return -1;
    }
    let end = start + len;
    proof {
        lemma_va_split(start);
        lemma_va_split(end);
    }
    let vpn0 = start >> 12;
    let npages = ((end + 4095) >> 12) - vpn0;
    proof {
        assert(vpn0 == va_floor(start));
        assert(npages == range_page_count(start, len));
        assert(vpn0 + npages <= VPN_LIMIT);
        assert(1 <= npages);
    }
    if mem.frames_allocated() as u64 + 3 * npages > FRAME_LIMIT as u64 {
        return -1;
    }
    // Validate the whole range before mutating anything: the call is
    // all-or-nothing.
    let mut k: u64 = 0;
    while k < npages
        invariant
            mem.inv(),
            *mem == *old(mem),
            *pt == *old(pt),
            *owner == *old(owner),
            pt_wf(mem.entries(), root),
            pt.root() == root,
            root == old(pt).root(),
            k <= npages,
            0 < len,
            start + len <= VA_LIMIT,
            va_offset(start) == 0,
            vpn0 == va_floor(start),
            vpn0 + npages <= VPN_LIMIT,
            npages == range_page_count(start, len),
            mmap_port_ok(port),
            old(mem).frame_count() + 3 * npages <= FRAME_LIMIT,
            forall|j: int| 0 <= j < k
                ==> !(#[trigger] mapped(mem.entries(), root, (vpn0 + j) as u64)),
        decreases npages - k,
    {
        let checked = pt.translate(mem, VirtPageNum(vpn0 + k));
        match checked {
            Some(e) => {
                if e.is_valid() {
                    proof {
                        assert(0 <= (k as int) && (k as int) < range_page_count(start, len));
                        assert(mapped(old(mem).entries(), root, (va_floor(start)
                            + k as int) as u64));
                    }
                    return -1;
                }
            },
            None => {},
        }
        proof {
            assert(!mapped(mem.entries(), root, (vpn0 + k as int) as u64));
        }
        k = k + 1;
    }
    // Map every page of the range to a fresh frame.
    let flags = PTEFlags(((port as u8) << 1) | FLAG_U);
    let ghost olen = old(owner)@.len();
    let mut k: u64 = 0;
    while k < npages
        invariant
            mem.inv(),
            pt_wf(mem.entries(), root),
            pt.root() == root,
            root == old(pt).root(),
            k <= npages,
            0 < len,
            start + len <= VA_LIMIT,
            va_offset(start) == 0,
            vpn0 == va_floor(start),
            vpn0 + npages <= VPN_LIMIT,
            npages == range_page_count(start, len),
            mmap_port_ok(port),
            flags.0 == port_flags(port),
            old(mem).frame_count() + 3 * npages <= FRAME_LIMIT,
            forall|j: int| 0 <= j < npages
                ==> !(#[trigger] mapped(old(mem).entries(), root, (vpn0 + j) as u64)),
            old(mem).frame_count() <= mem.frame_count(),
            mem.frame_count() + 3 * (npages - k) <= FRAME_LIMIT,
            owner@.len() == olen + k,
            forall|i: int| 0 <= i < olen ==> #[trigger] owner@[i] == old(owner)@[i],
            forall|j: int| 0 <= j < k ==> {
                &&& #[trigger] mapped(mem.entries(), root, (vpn0 + j) as u64)
                &&& pte_flags(leaf(mem.entries(), root, (vpn0 + j) as u64)) == (port_flags(port)
                    | FLAG_V)
                &&& pte_ppn(leaf(mem.entries(), root, (vpn0 + j) as u64)) < mem.frame_count()
                &&& owner@[olen + j].ppn.0 == pte_ppn(leaf(mem.entries(), root, (vpn0
                    + j) as u64))
                &&& owner@[olen + j].ppn.0 < mem.frame_count()
            },
            forall|j1: int, j2: int| 0 <= j1 < j2 < k
                ==> #[trigger] owner@[olen + j1].ppn.0 < #[trigger] owner@[olen + j2].ppn.0,
            forall|j: int| k <= j < npages
                ==> !(#[trigger] mapped(mem.entries(), root, (vpn0 + j) as u64)),
            forall|v: u64| v < VPN_LIMIT && !(vpn0 <= v < vpn0 + npages)
                ==> #[trigger] mapped(mem.entries(), root, v) == mapped(old(mem).entries(), root,
                    v),
            forall|v: u64| v < VPN_LIMIT && !(vpn0 <= v < vpn0 + npages) && mapped(
                old(mem).entries(), root, v)
                ==> #[trigger] leaf(mem.entries(), root, v) == leaf(old(mem).entries(), root, v),
        decreases npages - k,
    {
        let ghost pre = mem.entries();
        let frame = mem.alloc_frame();
        let fppn = frame.ppn;
        proof {
            assert(pre.len() % 512 == 0);
            lemma_alloc_preserves_pt(pre, mem.entries(), root);
            assert(fppn.0 < PPN_FIELD_LIMIT);
        }
        let ghost mid = mem.entries();
        proof {
            assert(!mapped(mid, root, (vpn0 + k as int) as u64));
        }
        let ghost pre_owner = owner@;
        pt.map(mem, VirtPageNum(vpn0 + k), fppn, flags);
        owner.push(frame);
        proof {
            let vk = (vpn0 + k as int) as u64;
            assert(owner@ == pre_owner.push(frame));
            lemma_pte_roundtrip(fppn.0, flags.0 | FLAG_V);
            assert(mapped(mem.entries(), root, vk));
            assert(pte_flags(leaf(mem.entries(), root, vk)) == (flags.0 | FLAG_V));
            assert(pte_ppn(leaf(mem.entries(), root, vk)) == fppn.0);
            assert(fppn.0 < mem.frame_count());
            assert forall|j: int| 0 <= j < k implies {
                &&& #[trigger] mapped(mem.entries(), root, (vpn0 + j) as u64)
                &&& pte_flags(leaf(mem.entries(), root, (vpn0 + j) as u64)) == (port_flags(port)
                    | FLAG_V)
                &&& pte_ppn(leaf(mem.entries(), root, (vpn0 + j) as u64)) < mem.frame_count()
                &&& owner@[olen + j].ppn.0 == pte_ppn(leaf(mem.entries(), root, (vpn0
                    + j) as u64))
            } by {
                let vj = (vpn0 + j) as u64;
                assert(vj != vk);
                assert(vj < VPN_LIMIT);
                assert(mapped(mid, root, vj));
                assert(leaf(mid, root, vj) == leaf(pre, root, vj));
                assert(mapped(mem.entries(), root, vj) == mapped(mid, root, vj));
                assert(leaf(mem.entries(), root, vj) == leaf(mid, root, vj));
                assert(owner@[olen + j] == pre_owner[olen + j]);
                assert(owner@[olen + j].ppn.0 < fppn.0);
            }
            assert forall|j1: int, j2: int| 0 <= j1 < j2 < k as int + 1
                implies #[trigger] owner@[olen + j1].ppn.0
                    < #[trigger] owner@[olen + j2].ppn.0 by {
                if j2 == k as int {
                    assert(mapped(pre, root, (vpn0 + j1) as u64));
                    assert(pre_owner[olen + j1].ppn.0 < fppn.0);
                    assert(owner@[olen + j1] == pre_owner[olen + j1]);
                    assert(owner@[olen + k as int].ppn.0 == fppn.0);
                } else {
                    assert(owner@[olen + j1] == pre_owner[olen + j1]);
                    assert(owner@[olen + j2] == pre_owner[olen + j2]);
                }
            }
            assert forall|j: int| k as int + 1 <= j < npages implies !(#[trigger] mapped(
                mem.entries(), root, (vpn0 + j) as u64)) by {
                let vj = (vpn0 + j) as u64;
                assert(vj != vk);
                assert(vj < VPN_LIMIT);
                assert(!mapped(pre, root, vj));
                assert(mapped(mid, root, vj) == mapped(pre, root, vj));
                assert(mapped(mem.entries(), root, vj) == mapped(mid, root, vj));
            }
            assert forall|v: u64| v < VPN_LIMIT && !(vpn0 <= v < vpn0 + npages)
                implies #[trigger] mapped(mem.entries(), root, v) == mapped(old(mem).entries(),
                root, v) && (mapped(old(mem).entries(), root, v) ==> leaf(mem.entries(), root, v)
                == leaf(old(mem).entries(), root, v)) by {
                assert(v != vk);
                assert(mapped(mid, root, v) == mapped(pre, root, v));
                assert(mapped(mem.entries(), root, v) == mapped(mid, root, v));
                if mapped(old(mem).entries(), root, v) {
                    assert(leaf(mid, root, v) == leaf(pre, root, v));
                    assert(leaf(mem.entries(), root, v) == leaf(mid, root, v));
                }
            }
        }
        k = k + 1;
    }
    proof {
        assert forall|j: int| 0 <= j < range_page_count(start, len)
            implies #[trigger] owner@[old(owner)@.len() + j].ppn.0 == pte_ppn(
            leaf(mem.entries(), root, (va_floor(start) + j) as u64)) by {
            assert(mapped(mem.entries(), root, (vpn0 + j) as u64));
        }
    }
    0
}

/// Unmaps the pages covering `[start, start + len)`. Fails, changing
/// nothing, when `start` is unaligned, the range leaves the virtual
/// address space, or any page of the range is not mapped: the whole range
/// is validated before anything is mutated, so the operation is atomic.
/// A zero-length request succeeds without unmapping anything. The frames
/// the leaves named are not released here; their owner is.
pub fn sys_munmap(pt: &mut PageTable, mem: &mut PhysMem, start: u64, len: u64) -> (r: isize)
    requires
        old(mem).inv(),
        pt_wf(old(mem).entries(), old(pt).root()),
    ensures
        final(mem).inv(),
        final(pt).root() == old(pt).root(),
        final(pt).owned() == old(pt).owned(),
        pt_wf(final(mem).entries(), old(pt).root()),
        final(mem).frame_count() == old(mem).frame_count(),
        final(mem).bytes_view() == old(mem).bytes_view(),
        r == 0 || r == -1,
        (r == -1) <==> (va_offset(start) != 0 || (len > 0 && start + len > VA_LIMIT) || (len > 0
            && start + len <= VA_LIMIT && exists|k: int|
            0 <= k < range_page_count(start, len) && !(#[trigger] mapped(old(mem).entries(),
            old(pt).root(), (va_floor(start) + k) as u64)))),
        r == -1 ==> final(mem).entries() == old(mem).entries(),
        r == 0 ==> {
            &&& forall|k: int| 0 <= k < range_page_count(start, len)
                ==> !(#[trigger] mapped(final(mem).entries(), old(pt).root(), (va_floor(start)
                    + k) as u64))
            &&& forall|v: u64| v < VPN_LIMIT && !(va_floor(start) <= v < va_floor(start)
                + range_page_count(start, len))
                ==> #[trigger] walk(final(mem).entries(), old(pt).root(), v) == walk(
                    old(mem).entries(), old(pt).root(), v)
        },
{
    let ghost root = old(pt).root();
    if start & 0xfff != 0 {
        return -1;
    }
    if len == 0 {
        return 0;
    }
    if start > VA_LIMIT || len > VA_LIMIT - start {
        return -1;
    }
    let end = start + len;
    proof {
        lemma_va_split(start);
        lemma_va_split(end);
    }
    let vpn0 = start >> 12;
    let npages = ((end + 4095) >> 12) - vpn0;
    proof {
        assert(vpn0 == va_floor(start));
        assert(npages == range_page_count(start, len));
        assert(vpn0 + npages <= VPN_LIMIT);
        assert(1 <= npages);
    }
    // Validate the whole range before mutating anything: the call is
    // all-or-nothing.
    let mut k: u64 = 0;
    while k < npages
        invariant
            mem.inv(),
            *mem == *old(mem),
            *pt == *old(pt),
            pt_wf(mem.entries(), root),
            pt.root() == root,
            root == old(pt).root(),
            k <= npages,
            0 < len,
            start + len <= VA_LIMIT,
            va_offset(start) == 0,
            vpn0 == va_floor(start),
            vpn0 + npages <= VPN_LIMIT,
            npages == range_page_count(start, len),
            forall|j: int| 0 <= j < k ==> #[trigger] mapped(mem.entries(), root, (vpn0
                + j) as u64),
        decreases npages - k,
    {
        let checked = pt.translate(mem, VirtPageNum(vpn0 + k));
        let ok = match checked {
            Some(e) => e.is_valid(),
            None => false,
        };
        if !ok {
            proof {
                assert(0 <= (k as int) && (k as int) < range_page_count(start, len));
                assert(!mapped(old(mem).entries(), root, (va_floor(start)
                    + k as int) as u64));
            }
            return -1;
        }
        proof {
            assert(mapped(mem.entries(), root, (vpn0 + k as int) as u64));
        }
        k = k + 1;
    }
    // Clear every leaf of the range.
    let mut k: u64 = 0;
    while k < npages
        invariant
            mem.inv(),
            pt_wf(mem.entries(), root),
            pt.root() == root,
            root == old(pt).root(),
            pt.owned() == old(pt).owned(),
            mem.frame_count() == old(mem).frame_count(),
            mem.bytes_view() == old(mem).bytes_view(),
            k <= npages,
            0 < len,
            start + len <= VA_LIMIT,
            va_offset(start) == 0,
            vpn0 == va_floor(start),
            vpn0 + npages <= VPN_LIMIT,
            npages == range_page_count(start, len),
            forall|j: int| 0 <= j < npages ==> #[trigger] mapped(old(mem).entries(), root, (vpn0
                + j) as u64),
            forall|j: int| 0 <= j < k
                ==> !(#[trigger] mapped(mem.entries(), root, (vpn0 + j) as u64)),
            forall|j: int| k <= j < npages ==> #[trigger] mapped(mem.entries(), root, (vpn0
                + j) as u64),
            forall|v: u64| v < VPN_LIMIT && !(vpn0 <= v < vpn0 + npages)
                ==> #[trigger] walk(mem.entries(), root, v) == walk(old(mem).entries(), root, v),
        decreases npages - k,
    {
        let ghost pre = mem.entries();
        pt.unmap(mem, VirtPageNum(vpn0 + k));
        proof {
            assert forall|j: int| 0 <= j < k as int + 1 implies !(#[trigger] mapped(
                mem.entries(), root, (vpn0 + j) as u64)) by {
                let vj = (vpn0 + j) as u64;
                if j < k as int {
                    assert(mapped(mem.entries(), root, vj) == mapped(pre, root, vj));
                }
            }
            assert forall|j: int| k as int + 1 <= j < npages implies #[trigger] mapped(
                mem.entries(), root, (vpn0 + j) as u64) by {
                let vj = (vpn0 + j) as u64;
                assert(mapped(mem.entries(), root, vj) == mapped(pre, root, vj));
            }
            assert forall|v: u64| v < VPN_LIMIT && !(vpn0 <= v < vpn0 + npages)
                implies #[trigger] walk(mem.entries(), root, v) == walk(old(mem).entries(), root,
                v) by {
                assert(walk(mem.entries(), root, v) == walk(pre, root, v));
            }
        }
        k = k + 1;
    }
    0
}

/// Writes the timestamp derived from `us` microseconds of uptime into user
/// memory at `ts`: whole seconds, then the microsecond remainder. The
/// destination window must lie inside one mapped, allocator-backed page.
pub fn sys_get_time(mem: &mut PhysMem, token: u64, ts: VirtAddr, _tz: u64, us: u64) -> (r: isize)
    requires
        old(mem).inv(),
        pt_wf(old(mem).entries(), satp_root(token)),
        ts.0 < VA_LIMIT,
        va_offset(ts.0) + 16 <= 4096,
        mapped(old(mem).entries(), satp_root(token), va_floor(ts.0)),
        pte_ppn(leaf(old(mem).entries(), satp_root(token), va_floor(ts.0))) < old(
            mem,
        ).frame_count(),
    ensures
        r == 0,
        final(mem).inv(),
        final(mem).entries() == old(mem).entries(),
        final(mem).frame_count() == old(mem).frame_count(),
        final(mem).bytes_view().len() == old(mem).bytes_view().len(),
        forall|j: int| 0 <= j < 16
            ==> #[trigger] final(mem).bytes_view()[phys_pos(old(mem).entries(), satp_root(token),
                ts.0) + j] == timeval_bytes_spec(
                TimeVal { sec: (us / 1000000) as u64, usec: (us % 1000000) as u64 },
            )[j],
        forall|i: int| 0 <= i < old(mem).bytes_view().len()
                && !(phys_pos(old(mem).entries(), satp_root(token), ts.0) <= i < phys_pos(
                    old(mem).entries(), satp_root(token), ts.0) + 16)
            ==> #[trigger] final(mem).bytes_view()[i] == old(mem).bytes_view()[i],
{
    let tv = TimeVal { sec: us / 1000000, usec: us % 1000000 };
    let buf = tv.to_bytes();
    copyout(mem, token, ts, &buf);
    0
}

/// Writes the scheduler's task-info snapshot into user memory at `ti`.
/// The destination window must lie inside one mapped, allocator-backed
/// page. This core only copies the snapshot; the scheduler computes it.
pub fn sys_task_info(mem: &mut PhysMem, token: u64, ti: VirtAddr, info: &TaskInfo) -> (r: isize)
    requires
        old(mem).inv(),
        pt_wf(old(mem).entries(), satp_root(token)),
        ti.0 < VA_LIMIT,
        va_offset(ti.0) + 2012 <= 4096,
        mapped(old(mem).entries(), satp_root(token), va_floor(ti.0)),
        pte_ppn(leaf(old(mem).entries(), satp_root(token), va_floor(ti.0))) < old(
            mem,
        ).frame_count(),
    ensures
        r == 0,
        final(mem).inv(),
        final(mem).entries() == old(mem).entries(),
        final(mem).frame_count() == old(mem).frame_count(),
        final(mem).bytes_view().len() == old(mem).bytes_view().len(),
        forall|j: int| 0 <= j < 2012
            ==> #[trigger] final(mem).bytes_view()[phys_pos(old(mem).entries(), satp_root(token),
                ti.0) + j] == task_info_bytes_spec(*info)[j],
        forall|i: int| 0 <= i < old(mem).bytes_view().len()
                && !(phys_pos(old(mem).entries(), satp_root(token), ti.0) <= i < phys_pos(
                    old(mem).entries(), satp_root(token), ti.0) + 2012)
            ==> #[trigger] final(mem).bytes_view()[i] == old(mem).bytes_view()[i],
{
    let buf = info.to_bytes();
    copyout(mem, token, ti, &buf);
    0
}

} // verus!
