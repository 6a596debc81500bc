//! User/kernel copy layer: gathering the physical pieces of a virtual byte
//! range, and the single-page copy-out primitive.

use vstd::prelude::*;
use crate::addr::{lemma_va_split, va_ceil, va_floor, va_offset, PhysPageNum, VirtAddr, VA_LIMIT};
use crate::mem::{byte_cell, PhysMem};
use crate::page_table::{leaf, mapped, pt_wf, satp_root, PageTable};
use crate::pte::pte_ppn;

verus! {

/// One physically contiguous piece of a gathered virtual range: byte
/// offsets `start..end` of the frame named by `ppn`.
#[derive(Clone, Copy, PartialEq, Eq, Structural, Debug)]
pub struct PhysSlice {
    /// The physical page holding this piece.
    pub ppn: PhysPageNum,
    /// First byte offset of the piece within the page.
    pub start: u64,
    /// One past the last byte offset of the piece within the page.
    pub end: u64,
}

/// Number of pages the virtual byte range `[start, start + len)` touches.
pub open spec fn range_page_count(start: u64, len: u64) -> int {
    if len == 0 {
        0
    } else {
        va_ceil((start + len) as u64) - va_floor(start)
    }
}

/// What the `k`-th gathered slice of range `[start, start + len)` must be:
/// it names the physical page backing the `k`-th touched virtual page, runs
/// from the range's first offset (first slice only) to either the page's
/// end or the range's last offset (last slice of an unaligned end only).
pub open spec fn gather_slice_ok(
    mem: Seq<u64>,
    root: u64,
    start: u64,
    len: u64,
    k: int,
    s: PhysSlice,
) -> bool {
    let vpn = (va_floor(start) + k) as u64;
    let n = range_page_count(start, len);
    let end_off = va_offset((start + len) as u64);
    &&& s.ppn.0 == pte_ppn(leaf(mem, root, vpn))
    &&& s.start == if k == 0 {
        va_offset(start)
    } else {
        0
    }
    &&& s.end == if k == n - 1 && end_off != 0 {
        end_off
    } else {
        4096
    }
    &&& s.start < s.end <= 4096
}

/// Gathers the ordered physical slices covering the virtual byte range
/// `[ptr, ptr + len)` of the address space named by `token`: one slice per
/// touched page, each page translated independently, so the pieces need
/// not be physically contiguous. A zero-length range gathers nothing and
/// translates nothing.
pub fn translated_byte_buffer(mem: &PhysMem, token: u64, ptr: VirtAddr, len: u64) -> (r: Vec<
    PhysSlice,
>)
    requires
        mem.inv(),
        pt_wf(mem.entries(), satp_root(token)),
        ptr.0 + len <= VA_LIMIT,
        forall|k: int| 0 <= k < range_page_count(ptr.0, len)
            ==> #[trigger] mapped(mem.entries(), satp_root(token), (va_floor(ptr.0) + k) as u64),
    ensures
        r@.len() == range_page_count(ptr.0, len),
        forall|k: int| 0 <= k < r@.len()
            ==> gather_slice_ok(mem.entries(), satp_root(token), ptr.0, len, k, #[trigger] r@[k]),
{
    let page_table = PageTable::from_token(token);
    let mut v: Vec<PhysSlice> = Vec::new();
    if len == 0 {
        return v;
    }
    let end = ptr.0 + len;
    let mut start = ptr.0;
    proof {
        lemma_va_split(ptr.0);
        lemma_va_split(end);
    }
    while start < end
        invariant
            mem.inv(),
            pt_wf(mem.entries(), satp_root(token)),
            page_table.root() == satp_root(token),
            ptr.0 <= start <= end,
            end == ptr.0 + len,
            0 < len,
            end <= VA_LIMIT,
            ptr.0 < start && start < end ==> va_offset(start) == 0,
            start < end ==> v@.len() == va_floor(start) - va_floor(ptr.0),
            start == end ==> v@.len() == range_page_count(ptr.0, len),
            forall|k: int| 0 <= k < range_page_count(ptr.0, len)
                ==> #[trigger] mapped(mem.entries(), satp_root(token), (va_floor(ptr.0) + k) as u64),
            forall|k: int| 0 <= k < v@.len()
                ==> gather_slice_ok(mem.entries(), satp_root(token), ptr.0, len, k, #[trigger] v@[k]),
        decreases end - start,
    {
        proof {
            lemma_va_split(ptr.0);
            lemma_va_split(start);
            lemma_va_split(end);
        }
        let start_va = VirtAddr(start);
        let vpn = start_va.floor();
        let ghost k = va_floor(start) - va_floor(ptr.0);
        proof {
            assert(0 <= k < range_page_count(ptr.0, len));
            assert((va_floor(ptr.0) + k) as u64 == vpn.0);
            assert(mapped(mem.entries(), satp_root(token), vpn.0));
        }
        let pte_opt = page_table.translate(mem, vpn);
        let pte = pte_opt.unwrap();
        let ppn = pte.ppn();
        proof {
            assert(pte.bits == leaf(mem.entries(), satp_root(token), vpn.0));
        }
        let next = (vpn.0 + 1) * 4096;
        proof {
            lemma_va_split(next);
        }
        let end_va = if end < next {
            end
        } else {
            next
        };
        let s_off = start_va.page_offset();
        let e_off_raw = VirtAddr(end_va).page_offset();
        let e_off = if e_off_raw == 0 {
            4096
        } else {
            e_off_raw
        };
        proof {
            if end < next {
                assert(va_floor(end) == vpn.0);
                assert(va_offset(end) != 0);
                assert(k == range_page_count(ptr.0, len) - 1);
            } else {
                assert(va_floor(next) == vpn.0 + 1);
                assert(va_offset(next) == 0);
                if k == range_page_count(ptr.0, len) - 1 {
                    assert(va_offset(end) == 0);
                }
            }
        }
        v.push(PhysSlice { ppn, start: s_off, end: e_off });
        start = end_va;
        proof {
            assert(gather_slice_ok(mem.entries(), satp_root(token), ptr.0, len, k,
                v@[v@.len() - 1]));
        }
    }
    v
}

/// Total number of bytes a sequence of slices covers.
pub open spec fn slices_len(s: Seq<PhysSlice>) -> int
    decreases s.len(),
{
    if s.len() == 0 {
        0
    } else {
        slices_len(s.drop_last()) + (s.last().end - s.last().start)
    }
}

/// Bytes covered by the first `j` slices of a gathered range: everything
/// up to the end of the `j`-th touched page (all of it for the final
/// slice), measured from the range's first byte.
pub proof fn lemma_gather_prefix_len(
    mem: Seq<u64>,
    root: u64,
    start: u64,
    len: u64,
    s: Seq<PhysSlice>,
    j: int,
)
    requires
        start + len <= VA_LIMIT,
        0 < len,
        s.len() == range_page_count(start, len),
        forall|k: int| 0 <= k < s.len() ==> gather_slice_ok(mem, root, start, len, k, #[trigger] s[k]),
        0 <= j <= s.len(),
    ensures
        slices_len(s.take(j)) == if j == 0 {
            0
        } else if j < s.len() {
            (va_floor(start) + j) * 4096 - start
        } else {
            len as int
        },
    decreases j,
{
    let end = (start + len) as u64;
    lemma_va_split(start);
    lemma_va_split(end);
    if j == 0 {
        assert(s.take(0).len() == 0);
    } else {
        lemma_gather_prefix_len(mem, root, start, len, s, j - 1);
        assert(s.take(j).drop_last() =~= s.take(j - 1));
        assert(s.take(j).last() == s[j - 1]);
        assert(gather_slice_ok(mem, root, start, len, j - 1, s[j - 1]));
        let n = s.len();
        let eo = va_offset(end);
        if j == n {
            if eo == 0 {
                assert(va_ceil(end) == va_floor(end));
                assert(end == va_floor(end) * 4096);
            } else {
                assert(va_ceil(end) == va_floor(end) + 1);
                assert(end == va_floor(end) * 4096 + eo);
            }
        }
    }
}

/// Concatenation correctness of a gathered range: the slices' lengths sum
/// to the range's length, and the byte at logical offset `c` of the range
/// lies in the slice of its page, at the page offset of its address, at
/// position `c` of the concatenation. Reading the slices in order
/// therefore reproduces the logical contiguous range byte for byte.
pub proof fn lemma_gather_concat(mem: Seq<u64>, root: u64, start: u64, len: u64, s: Seq<PhysSlice>)
    requires
        start + len <= VA_LIMIT,
        0 < len,
        s.len() == range_page_count(start, len),
        forall|k: int| 0 <= k < s.len() ==> gather_slice_ok(mem, root, start, len, k, #[trigger] s[k]),
    ensures
        slices_len(s) == len,
        forall|c: int| #![trigger va_floor((start + c) as u64)] 0 <= c < len ==> {
            let j = va_floor((start + c) as u64) - va_floor(start);
            let off = va_offset((start + c) as u64);
            &&& 0 <= j < s.len()
            &&& s[j].start <= off < s[j].end
            &&& s[j].ppn.0 == pte_ppn(leaf(mem, root, va_floor((start + c) as u64)))
            &&& slices_len(s.take(j)) + (off - s[j].start) == c
        },
{
    let end = (start + len) as u64;
    lemma_va_split(start);
    lemma_va_split(end);
    lemma_gather_prefix_len(mem, root, start, len, s, s.len() as int);
    assert(s.take(s.len() as int) =~= s);
    assert forall|c: int| #![trigger va_floor((start + c) as u64)] 0 <= c < len implies {
        let j = va_floor((start + c) as u64) - va_floor(start);
        let off = va_offset((start + c) as u64);
        &&& 0 <= j < s.len()
        &&& s[j].start <= off < s[j].end
        &&& s[j].ppn.0 == pte_ppn(leaf(mem, root, va_floor((start + c) as u64)))
        &&& slices_len(s.take(j)) + (off - s[j].start) == c
    } by {
        let a = (start + c) as u64;
        lemma_va_split(a);
        let j = va_floor(a) - va_floor(start);
        let off = va_offset(a);
        let eo = va_offset(end);
        assert(va_floor(start) <= va_floor(a)) by {
            assert(va_floor(start) * 4096 <= start <= a);
        }
        assert(va_floor(a) < va_ceil(end)) by {
            assert(a < end);
            if eo == 0 {
                assert(end == va_floor(end) * 4096);
                assert(va_floor(a) * 4096 <= a);
            } else {
                assert(va_floor(a) <= va_floor(end)) by {
                    assert(va_floor(a) * 4096 <= a < end);
                }
            }
        }
        assert(0 <= j < s.len());
        assert(gather_slice_ok(mem, root, start, len, j, s[j]));
        assert((va_floor(start) + j) as u64 == va_floor(a));
        if j == 0 {
            assert(va_floor(a) == va_floor(start));
            assert(s[j].start == va_offset(start));
            assert(off >= va_offset(start)) by {
                assert(a == va_floor(start) * 4096 + off);
                assert(start == va_floor(start) * 4096 + va_offset(start));
            }
        } else {
            assert(s[j].start == 0);
        }
        if j == s.len() - 1 && eo != 0 {
            assert(s[j].end == eo);
            assert(va_floor(a) == va_floor(end)) by {
                assert(va_ceil(end) == va_floor(end) + 1);
            }
            assert(off < eo) by {
                assert(a < end);
                assert(a == va_floor(end) * 4096 + off);
                assert(end == va_floor(end) * 4096 + eo);
            }
        } else {
            assert(s[j].end == 4096);
        }
        lemma_gather_prefix_len(mem, root, start, len, s, j);
        if j == 0 {
            assert(slices_len(s.take(0)) == 0);
            assert(off - va_offset(start) == c) by {
                assert(a == va_floor(start) * 4096 + off);
                assert(start == va_floor(start) * 4096 + va_offset(start));
            }
        } else {
            assert(slices_len(s.take(j)) == (va_floor(start) + j) * 4096 - start);
            assert(a == (va_floor(start) + j) * 4096 + off);
        }
    }
}

/// Physical position, in the flat byte store, of the byte backing virtual
/// address `va` in the address space rooted per `root`.
pub open spec fn phys_pos(mem: Seq<u64>, root: u64, va: u64) -> int {
    byte_cell(pte_ppn(leaf(mem, root, va_floor(va))) as int, va_offset(va) as int)
}

/// Copies `src` into user memory at `dst_va` in the address space named by
/// `token`. Single-page variant: the destination window must not cross a
/// page boundary, so the destination page is translated exactly once.
/// The window precondition is checked here rather than inherited silently:
/// callers must guarantee `page offset + length <= page size`.
pub fn copyout(mem: &mut PhysMem, token: u64, dst_va: VirtAddr, src: &Vec<u8>)
    requires
        old(mem).inv(),
        pt_wf(old(mem).entries(), satp_root(token)),
        dst_va.0 < VA_LIMIT,
        va_offset(dst_va.0) + src@.len() <= 4096,
        mapped(old(mem).entries(), satp_root(token), va_floor(dst_va.0)),
        pte_ppn(leaf(old(mem).entries(), satp_root(token), va_floor(dst_va.0)))
            < old(mem).frame_count(),
    ensures
        final(mem).inv(),
        final(mem).entries() == old(mem).entries(),
        final(mem).frame_count() == old(mem).frame_count(),
        final(mem).bytes_view().len() == old(mem).bytes_view().len(),
        forall|j: int| 0 <= j < src@.len()
            ==> #[trigger] final(mem).bytes_view()[phys_pos(old(mem).entries(), satp_root(token),
                dst_va.0) + j] == src@[j],
        forall|i: int| 0 <= i < old(mem).bytes_view().len()
                && !(phys_pos(old(mem).entries(), satp_root(token), dst_va.0) <= i
                    < phys_pos(old(mem).entries(), satp_root(token), dst_va.0) + src@.len())
            ==> #[trigger] final(mem).bytes_view()[i] == old(mem).bytes_view()[i],
{
    let page_table = PageTable::from_token(token);
    let vpn = dst_va.floor();
    let pte_opt = page_table.translate(mem, vpn);
    let pte = pte_opt.unwrap();
    let ppn = pte.ppn();
    let off = dst_va.page_offset();
    let ghost pos = phys_pos(old(mem).entries(), satp_root(token), dst_va.0);
    proof {
        lemma_va_split(dst_va.0);
        assert(pte.bits == leaf(mem.entries(), satp_root(token), vpn.0));
        assert(pos == 4096 * (ppn.0 as int) + va_offset(dst_va.0));
    }
    let mut k: usize = 0;
    while k < src.len()
        invariant
            mem.inv(),
            k <= src@.len(),
            va_offset(dst_va.0) + src@.len() <= 4096,
            off == va_offset(dst_va.0),
            (ppn.0 as int) < mem.frame_count(),
            pos == 4096 * (ppn.0 as int) + va_offset(dst_va.0),
            mem.entries() == old(mem).entries(),
            mem.frame_count() == old(mem).frame_count(),
            mem.bytes_view().len() == old(mem).bytes_view().len(),
            forall|j: int| 0 <= j < k
                ==> #[trigger] mem.bytes_view()[pos + j] == src@[j],
            forall|i: int| 0 <= i < old(mem).bytes_view().len() && !(pos <= i < pos + k)
                ==> #[trigger] mem.bytes_view()[i] == old(mem).bytes_view()[i],
        decreases src@.len() - k,
    {
        mem.write_byte(ppn.0, off + k as u64, src[k]);
        k = k + 1;
    }
}

} // verus!
