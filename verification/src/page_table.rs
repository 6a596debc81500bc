//! The 3-level radix page table over the explicit physical-memory model.
//!
//! The abstract meaning of a table is given by [`walk`]: the leaf entry word
//! the hardware would reach for a virtual page number, if every intermediate
//! entry on the path is valid. Structural well-formedness, [`pt_wf`], says
//! there are maps from level indices to node frames describing the tree:
//! valid top-level entries point at distinct level-1 nodes, valid level-1
//! entries point at distinct leaf nodes, and no node doubles as another
//! node or as the root. That disjointness is what makes a leaf write for
//! one page invisible to every other page's translation.

use vstd::prelude::*;
use crate::addr::{idx0, idx1, idx2, lemma_vpn_decompose, PhysPageNum, VirtPageNum, PPN_FIELD_LIMIT, VPN_LIMIT};
use crate::frame::FrameTracker;
use crate::mem::{cell, entry_spec, table_page, PhysMem, FRAME_LIMIT};
use crate::pte::{lemma_pte_roundtrip, pte_encode, pte_flags, pte_ppn, pte_v, PTEFlags, PageTableEntry, FLAG_V};

verus! {

/// The leaf entry word the 3-level walk reaches for `vpn`, if every
/// intermediate entry on the path is valid; `None` on a translation miss.
pub open spec fn walk(mem: Seq<u64>, root: u64, vpn: u64) -> Option<u64> {
    let e0 = entry_spec(mem, root as int, idx0(vpn) as int);
    if !pte_v(e0) {
        None
    } else {
        let e1 = entry_spec(mem, pte_ppn(e0) as int, idx1(vpn) as int);
        if !pte_v(e1) {
            None
        } else {
            Some(entry_spec(mem, pte_ppn(e1) as int, idx2(vpn) as int))
        }
    }
}

/// Whether `vpn` is mapped: the walk reaches a leaf entry that is valid.
pub open spec fn mapped(mem: Seq<u64>, root: u64, vpn: u64) -> bool {
    match walk(mem, root, vpn) {
        Some(e) => pte_v(e),
        None => false,
    }
}

/// The leaf entry word for `vpn`, or zero on a translation miss.
pub open spec fn leaf(mem: Seq<u64>, root: u64, vpn: u64) -> u64 {
    match walk(mem, root, vpn) {
        Some(e) => e,
        None => 0,
    }
}

/// The key under which the level-1 map records the leaf node of `vpn`:
/// the two upper level indices combined.
pub open spec fn l2_key(vpn: u64) -> int {
    512 * (idx0(vpn) as int) + (idx1(vpn) as int)
}

/// Structural well-formedness of the radix tree rooted at `root`, witnessed
/// by `l1` (top-level index to level-1 node frame) and `l2` (combined upper
/// indices to leaf node frame).
pub open spec fn pt_wf_with(mem: Seq<u64>, root: u64, l1: Map<int, int>, l2: Map<int, int>) -> bool {
    &&& table_page(mem, root as int)
    &&& forall|i: int| 0 <= i < 512
            ==> (pte_v(#[trigger] entry_spec(mem, root as int, i)) <==> l1.dom().contains(i))
    &&& forall|i: int| #[trigger] l1.dom().contains(i) ==> {
            &&& 0 <= i < 512
            &&& pte_ppn(entry_spec(mem, root as int, i)) == l1[i]
            &&& table_page(mem, l1[i])
            &&& l1[i] != root as int
        }
    &&& forall|a: int, b: int| l1.dom().contains(a) && l1.dom().contains(b) && a != b
            ==> #[trigger] l1[a] != #[trigger] l1[b]
    &&& forall|k: int| #[trigger] l2.dom().contains(k) ==> {
            &&& 0 <= k < 0x40000
            &&& l1.dom().contains(k / 512)
            &&& table_page(mem, l2[k])
            &&& l2[k] != root as int
        }
    &&& forall|k: int, i: int| l2.dom().contains(k) && l1.dom().contains(i)
            ==> #[trigger] l2[k] != #[trigger] l1[i]
    &&& forall|i: int, j: int| l1.dom().contains(i) && 0 <= j < 512
            ==> (pte_v(#[trigger] entry_spec(mem, l1[i], j)) <==> l2.dom().contains(512 * i + j))
    &&& forall|i: int, j: int| l1.dom().contains(i) && 0 <= j < 512 && l2.dom().contains(512 * i + j)
            ==> pte_ppn(#[trigger] entry_spec(mem, l1[i], j)) == l2[512 * i + j]
    &&& forall|a: int, b: int| l2.dom().contains(a) && l2.dom().contains(b) && a != b
            ==> #[trigger] l2[a] != #[trigger] l2[b]
}

/// Structural well-formedness of the tree rooted at `root`.
pub open spec fn pt_wf(mem: Seq<u64>, root: u64) -> bool {
    exists|l1: Map<int, int>, l2: Map<int, int>| pt_wf_with(mem, root, l1, l2)
}

/// The all-zero entry word is invalid and names page zero.
pub proof fn lemma_pte_zero()
    by (bit_vector)
    ensures
        !pte_v(0),
        pte_ppn(0) == 0,
{
}

/// Updating one entry cell leaves every other entry unchanged.
proof fn lemma_update_entry(mem1: Seq<u64>, mem2: Seq<u64>, p: int, i: int, v: u64)
    requires
        table_page(mem1, p),
        0 <= i < 512,
        mem2 == mem1.update(cell(p, i), v),
    ensures
        mem2.len() == mem1.len(),
        entry_spec(mem2, p, i) == v,
        forall|q: int, j: int| !(q == p && j == i)
            ==> #[trigger] entry_spec(mem2, q, j) == entry_spec(mem1, q, j),
{
    assert forall|q: int, j: int| !(q == p && j == i)
        implies #[trigger] entry_spec(mem2, q, j) == entry_spec(mem1, q, j) by {
        if table_page(mem1, q) && 0 <= j < 512 {
            assert(cell(q, j) != cell(p, i));
        }
    }
}

/// Growing memory by whole zeroed pages changes no entry and no walk.
proof fn lemma_grow_preserves(mem1: Seq<u64>, mem2: Seq<u64>)
    requires
        mem1.len() % 512 == 0,
        mem1.len() <= mem2.len(),
        forall|i: int| 0 <= i < mem1.len() ==> mem2[i] == mem1[i],
        forall|i: int| mem1.len() <= i < mem2.len() ==> mem2[i] == 0,
    ensures
        forall|p: int, i: int| #[trigger] entry_spec(mem2, p, i) == entry_spec(mem1, p, i),
        forall|root: u64, vpn: u64| #[trigger] walk(mem2, root, vpn) == walk(mem1, root, vpn),
        forall|root: u64, vpn: u64| #[trigger] mapped(mem2, root, vpn) == mapped(mem1, root, vpn),
{
    assert forall|p: int, i: int| #[trigger] entry_spec(mem2, p, i) == entry_spec(mem1, p, i) by {
        if 0 <= i < 512 {
            if table_page(mem1, p) {
                assert(cell(p, i) < mem1.len());
            } else if table_page(mem2, p) {
                let q = mem1.len() / 512;
                assert(mem1.len() == 512 * q);
                assert(p >= q);
                assert(cell(p, i) >= mem1.len());
                assert(entry_spec(mem2, p, i) == mem2[cell(p, i)]);
            }
        }
    }
    assert forall|root: u64, vpn: u64| #[trigger] walk(mem2, root, vpn) == walk(mem1, root, vpn) by {
        let e0 = entry_spec(mem1, root as int, idx0(vpn) as int);
        assert(entry_spec(mem2, root as int, idx0(vpn) as int) == e0);
        let e1 = entry_spec(mem1, pte_ppn(e0) as int, idx1(vpn) as int);
        assert(entry_spec(mem2, pte_ppn(e0) as int, idx1(vpn) as int) == e1);
        assert(entry_spec(mem2, pte_ppn(e1) as int, idx2(vpn) as int)
            == entry_spec(mem1, pte_ppn(e1) as int, idx2(vpn) as int));
    }
    assert forall|root: u64, vpn: u64| #[trigger] mapped(mem2, root, vpn) == mapped(mem1, root, vpn) by {
        assert(walk(mem2, root, vpn) == walk(mem1, root, vpn));
    }
}

/// Growing memory by whole zeroed pages preserves well-formedness.
proof fn lemma_grow_wf(mem1: Seq<u64>, mem2: Seq<u64>, root: u64, l1: Map<int, int>, l2: Map<int, int>)
    requires
        mem1.len() % 512 == 0,
        mem1.len() <= mem2.len(),
        forall|i: int| 0 <= i < mem1.len() ==> mem2[i] == mem1[i],
        forall|i: int| mem1.len() <= i < mem2.len() ==> mem2[i] == 0,
        pt_wf_with(mem1, root, l1, l2),
    ensures
        pt_wf_with(mem2, root, l1, l2),
{
    lemma_grow_preserves(mem1, mem2);
    assert forall|i: int| 0 <= i < 512
        implies (pte_v(#[trigger] entry_spec(mem2, root as int, i)) <==> l1.dom().contains(i)) by {
        assert(entry_spec(mem2, root as int, i) == entry_spec(mem1, root as int, i));
    }
    assert forall|i: int| #[trigger] l1.dom().contains(i) implies {
        &&& 0 <= i < 512
        &&& pte_ppn(entry_spec(mem2, root as int, i)) == l1[i]
        &&& table_page(mem2, l1[i])
        &&& l1[i] != root as int
    } by {
        assert(entry_spec(mem2, root as int, i) == entry_spec(mem1, root as int, i));
    }
    assert forall|i: int, j: int| l1.dom().contains(i) && 0 <= j < 512
        implies (pte_v(#[trigger] entry_spec(mem2, l1[i], j)) <==> l2.dom().contains(512 * i + j)) by {
        assert(entry_spec(mem2, l1[i], j) == entry_spec(mem1, l1[i], j));
    }
    assert forall|i: int, j: int| l1.dom().contains(i) && 0 <= j < 512 && l2.dom().contains(512 * i + j)
        implies pte_ppn(#[trigger] entry_spec(mem2, l1[i], j)) == l2[512 * i + j] by {
        assert(entry_spec(mem2, l1[i], j) == entry_spec(mem1, l1[i], j));
    }
}

/// Distinct mapped virtual pages have distinct leaf entry locations: the
/// leaf cells the walk would write for two different page numbers never
/// alias, in any well-formed table.
pub proof fn lemma_no_leaf_aliasing(mem: Seq<u64>, root: u64, l1: Map<int, int>, l2: Map<int, int>, v1: u64, v2: u64)
    requires
        pt_wf_with(mem, root, l1, l2),
        v1 < VPN_LIMIT,
        v2 < VPN_LIMIT,
        v1 != v2,
        l2.dom().contains(l2_key(v1)),
        l2.dom().contains(l2_key(v2)),
    ensures
        cell(l2[l2_key(v1)], idx2(v1) as int) != cell(l2[l2_key(v2)], idx2(v2) as int),
{
    lemma_vpn_decompose(v1);
    lemma_vpn_decompose(v2);
    if l2_key(v1) == l2_key(v2) {
        assert(idx2(v1) != idx2(v2));
    } else {
        assert(l2[l2_key(v1)] != l2[l2_key(v2)]);
    }
}

/// Growing memory by whole zeroed frames (allocation) preserves
/// well-formedness and every page's walk.
pub proof fn lemma_alloc_preserves_pt(mem1: Seq<u64>, mem2: Seq<u64>, root: u64)
    requires
        mem1.len() % 512 == 0,
        mem1.len() <= mem2.len(),
        forall|i: int| 0 <= i < mem1.len() ==> mem2[i] == mem1[i],
        forall|i: int| mem1.len() <= i < mem2.len() ==> mem2[i] == 0,
        pt_wf(mem1, root),
    ensures
        pt_wf(mem2, root),
        forall|vpn: u64| #[trigger] walk(mem2, root, vpn) == walk(mem1, root, vpn),
        forall|vpn: u64| #[trigger] mapped(mem2, root, vpn) == mapped(mem1, root, vpn),
        forall|vpn: u64| #[trigger] leaf(mem2, root, vpn) == leaf(mem1, root, vpn),
{
    let (a, b) = choose|a: Map<int, int>, b: Map<int, int>| pt_wf_with(mem1, root, a, b);
    lemma_grow_preserves(mem1, mem2);
    lemma_grow_wf(mem1, mem2, root, a, b);
    assert(pt_wf_with(mem2, root, a, b));
    assert forall|vpn: u64| #[trigger] mapped(mem2, root, vpn) == mapped(mem1, root, vpn)
        && #[trigger] leaf(mem2, root, vpn) == leaf(mem1, root, vpn) by {
        assert(walk(mem2, root, vpn) == walk(mem1, root, vpn));
    }
}

/// Bit facts about the Valid flag needed when packing entries.
proof fn lemma_valid_flag_facts()
    by (bit_vector)
    ensures
        FLAG_V & FLAG_V == FLAG_V,
        forall|f: u8| (#[trigger] (f | FLAG_V)) & FLAG_V == FLAG_V,
        forall|f: u8| (#[trigger] (f | FLAG_V)) & f == f,
{
}

/// Consistency of mapping and translation: a page whose leaf entry was
/// written for physical page `ppn` with flags `flags` plus Valid reads
/// back through the walk as exactly that entry; decoding it restores the
/// physical page number, every requested flag, and Valid.
pub proof fn lemma_map_translate_consistent(mem: Seq<u64>, root: u64, vpn: u64, ppn: u64, flags: u8)
    requires
        ppn < PPN_FIELD_LIMIT,
        mapped(mem, root, vpn),
        leaf(mem, root, vpn) == pte_encode(ppn, flags | FLAG_V),
    ensures
        walk(mem, root, vpn) == Some(pte_encode(ppn, flags | FLAG_V)),
        pte_ppn(leaf(mem, root, vpn)) == ppn,
        pte_flags(leaf(mem, root, vpn)) == (flags | FLAG_V),
        pte_flags(leaf(mem, root, vpn)) & flags == flags,
        pte_flags(leaf(mem, root, vpn)) & FLAG_V == FLAG_V,
        pte_v(leaf(mem, root, vpn)),
{
    lemma_pte_roundtrip(ppn, flags | FLAG_V);
    lemma_valid_flag_facts();
}

/// Writing a fresh zeroed level-1 node into an invalid top-level slot keeps
/// the tree well-formed and changes no page's mapped-ness.
proof fn lemma_write_root_child(
    mem1: Seq<u64>,
    mem2: Seq<u64>,
    root: u64,
    l1: Map<int, int>,
    l2: Map<int, int>,
    i0: int,
    n1: int,
)
    requires
        pt_wf_with(mem1, root, l1, l2),
        0 <= i0 < 512,
        !l1.dom().contains(i0),
        table_page(mem1, n1),
        n1 != root as int,
        0 <= n1 < PPN_FIELD_LIMIT,
        forall|i: int| #[trigger] l1.dom().contains(i) ==> l1[i] != n1,
        forall|k: int| #[trigger] l2.dom().contains(k) ==> l2[k] != n1,
        forall|j: int| 0 <= j < 512 ==> #[trigger] entry_spec(mem1, n1, j) == 0,
        mem2 == mem1.update(cell(root as int, i0), pte_encode(n1 as u64, FLAG_V)),
    ensures
        pt_wf_with(mem2, root, l1.insert(i0, n1), l2),
        forall|v: u64| #[trigger] mapped(mem2, root, v) == mapped(mem1, root, v),
        forall|v: u64| mapped(mem1, root, v) ==> #[trigger] walk(mem2, root, v) == walk(mem1, root, v),
        forall|v: u64| idx0(v) != i0 ==> #[trigger] walk(mem2, root, v) == walk(mem1, root, v),
        forall|v: u64| idx0(v) == i0
            ==> walk(mem1, root, v) is None && #[trigger] walk(mem2, root, v) is None,
{
    lemma_update_entry(mem1, mem2, root as int, i0, pte_encode(n1 as u64, FLAG_V));
    lemma_pte_roundtrip(n1 as u64, FLAG_V);
    lemma_valid_flag_facts();
    lemma_pte_zero();
    let l1b = l1.insert(i0, n1);
    let e_new = pte_encode(n1 as u64, FLAG_V);
    assert(pte_v(e_new));
    assert(pte_ppn(e_new) == n1);
    assert forall|i: int| 0 <= i < 512
        implies (pte_v(#[trigger] entry_spec(mem2, root as int, i)) <==> l1b.dom().contains(i)) by {
        if i == i0 {
            assert(entry_spec(mem2, root as int, i0) == e_new);
        } else {
            assert(entry_spec(mem2, root as int, i) == entry_spec(mem1, root as int, i));
        }
    }
    assert forall|i: int| #[trigger] l1b.dom().contains(i) implies {
        &&& 0 <= i < 512
        &&& pte_ppn(entry_spec(mem2, root as int, i)) == l1b[i]
        &&& table_page(mem2, l1b[i])
        &&& l1b[i] != root as int
    } by {
        if i == i0 {
            assert(entry_spec(mem2, root as int, i0) == e_new);
        } else {
            assert(l1.dom().contains(i));
            assert(entry_spec(mem2, root as int, i) == entry_spec(mem1, root as int, i));
        }
    }
    assert forall|a: int, b: int| l1b.dom().contains(a) && l1b.dom().contains(b) && a != b
        implies #[trigger] l1b[a] != #[trigger] l1b[b] by {
        if a == i0 {
            assert(l1.dom().contains(b));
        } else if b == i0 {
            assert(l1.dom().contains(a));
        } else {
            assert(l1.dom().contains(a));
            assert(l1.dom().contains(b));
        }
    }
    assert forall|k: int, i: int| l2.dom().contains(k) && l1b.dom().contains(i)
        implies #[trigger] l2[k] != #[trigger] l1b[i] by {
        if i != i0 {
            assert(l1.dom().contains(i));
        }
    }
    assert forall|i: int, j: int| l1b.dom().contains(i) && 0 <= j < 512
        implies (pte_v(#[trigger] entry_spec(mem2, l1b[i], j)) <==> l2.dom().contains(512 * i + j)) by {
        if i == i0 {
            assert(entry_spec(mem2, n1, j) == entry_spec(mem1, n1, j));
            assert(!pte_v(entry_spec(mem2, n1, j)));
            if l2.dom().contains(512 * i0 + j) {
                assert((512 * i0 + j) / 512 == i0);
                assert(l1.dom().contains(i0));
            }
        } else {
            assert(l1.dom().contains(i));
            assert(entry_spec(mem2, l1[i], j) == entry_spec(mem1, l1[i], j));
        }
    }
    assert forall|i: int, j: int| l1b.dom().contains(i) && 0 <= j < 512 && l2.dom().contains(512 * i + j)
        implies pte_ppn(#[trigger] entry_spec(mem2, l1b[i], j)) == l2[512 * i + j] by {
        if i == i0 {
            assert((512 * i0 + j) / 512 == i0);
            assert(l1.dom().contains(i0));
        } else {
            assert(l1.dom().contains(i));
            assert(entry_spec(mem2, l1[i], j) == entry_spec(mem1, l1[i], j));
        }
    }
    assert(pt_wf_with(mem2, root, l1b, l2));
    assert forall|v: u64| idx0(v) != i0
        implies #[trigger] walk(mem2, root, v) == walk(mem1, root, v) by {
        lemma_vpn_decompose(v);
        assert(entry_spec(mem2, root as int, idx0(v) as int)
            == entry_spec(mem1, root as int, idx0(v) as int));
        let e0 = entry_spec(mem1, root as int, idx0(v) as int);
        if pte_v(e0) {
            assert(l1.dom().contains(idx0(v) as int));
            assert(pte_ppn(e0) == l1[idx0(v) as int]);
            assert(l1[idx0(v) as int] != root as int);
            assert(entry_spec(mem2, pte_ppn(e0) as int, idx1(v) as int)
                == entry_spec(mem1, pte_ppn(e0) as int, idx1(v) as int));
            let e1 = entry_spec(mem1, pte_ppn(e0) as int, idx1(v) as int);
            if pte_v(e1) {
                let k = 512 * (idx0(v) as int) + (idx1(v) as int);
                assert(pte_v(entry_spec(mem1, l1[idx0(v) as int], idx1(v) as int)));
                assert(l2.dom().contains(k));
                assert(pte_ppn(e1) == l2[k]);
                assert(l2[k] != root as int);
                assert(entry_spec(mem2, pte_ppn(e1) as int, idx2(v) as int)
                    == entry_spec(mem1, pte_ppn(e1) as int, idx2(v) as int));
            }
        }
    }
    assert forall|v: u64| idx0(v) == i0
        implies walk(mem1, root, v) is None && #[trigger] walk(mem2, root, v) is None by {
        lemma_vpn_decompose(v);
        assert(!pte_v(entry_spec(mem1, root as int, idx0(v) as int)));
        assert(entry_spec(mem2, root as int, i0) == e_new);
        assert(entry_spec(mem2, n1, idx1(v) as int) == entry_spec(mem1, n1, idx1(v) as int));
        assert(!pte_v(entry_spec(mem2, n1, idx1(v) as int)));
    }
    assert forall|v: u64| #[trigger] mapped(mem2, root, v) == mapped(mem1, root, v) by {
        if idx0(v) != i0 {
            assert(walk(mem2, root, v) == walk(mem1, root, v));
        } else {
            assert(walk(mem2, root, v) is None);
            assert(walk(mem1, root, v) is None);
        }
    }
    assert forall|v: u64| mapped(mem1, root, v)
        implies #[trigger] walk(mem2, root, v) == walk(mem1, root, v) by {
        if idx0(v) == i0 {
            assert(walk(mem1, root, v) is None);
        }
    }
}

/// Writing a fresh zeroed leaf node into an invalid level-1 slot keeps the
/// tree well-formed and changes no page's mapped-ness.
proof fn lemma_write_l1_child(
    mem1: Seq<u64>,
    mem2: Seq<u64>,
    root: u64,
    l1: Map<int, int>,
    l2: Map<int, int>,
    i0: int,
    i1: int,
    n2: int,
)
    requires
        pt_wf_with(mem1, root, l1, l2),
        l1.dom().contains(i0),
        0 <= i1 < 512,
        !l2.dom().contains(512 * i0 + i1),
        table_page(mem1, n2),
        n2 != root as int,
        0 <= n2 < PPN_FIELD_LIMIT,
        forall|i: int| #[trigger] l1.dom().contains(i) ==> l1[i] != n2,
        forall|k: int| #[trigger] l2.dom().contains(k) ==> l2[k] != n2,
        forall|j: int| 0 <= j < 512 ==> #[trigger] entry_spec(mem1, n2, j) == 0,
        mem2 == mem1.update(cell(l1[i0], i1), pte_encode(n2 as u64, FLAG_V)),
    ensures
        pt_wf_with(mem2, root, l1, l2.insert(512 * i0 + i1, n2)),
        forall|v: u64| #[trigger] mapped(mem2, root, v) == mapped(mem1, root, v),
        forall|v: u64| mapped(mem1, root, v) ==> #[trigger] walk(mem2, root, v) == walk(mem1, root, v),
        forall|v: u64| !(idx0(v) == i0 && idx1(v) == i1)
            ==> #[trigger] walk(mem2, root, v) == walk(mem1, root, v),
        forall|v: u64| idx0(v) == i0 && idx1(v) == i1
            ==> walk(mem1, root, v) is None && #[trigger] walk(mem2, root, v) == Some(0u64),
{
    let p1 = l1[i0];
    lemma_update_entry(mem1, mem2, p1, i1, pte_encode(n2 as u64, FLAG_V));
    lemma_pte_roundtrip(n2 as u64, FLAG_V);
    lemma_valid_flag_facts();
    lemma_pte_zero();
    let l2b = l2.insert(512 * i0 + i1, n2);
    let e_new = pte_encode(n2 as u64, FLAG_V);
    assert(pte_v(e_new));
    assert(pte_ppn(e_new) == n2);
    assert(p1 != root as int);
    assert forall|i: int| 0 <= i < 512
        implies (pte_v(#[trigger] entry_spec(mem2, root as int, i)) <==> l1.dom().contains(i)) by {
        assert(entry_spec(mem2, root as int, i) == entry_spec(mem1, root as int, i));
    }
    assert forall|i: int| #[trigger] l1.dom().contains(i) implies {
        &&& 0 <= i < 512
        &&& pte_ppn(entry_spec(mem2, root as int, i)) == l1[i]
        &&& table_page(mem2, l1[i])
        &&& l1[i] != root as int
    } by {
        assert(entry_spec(mem2, root as int, i) == entry_spec(mem1, root as int, i));
    }
    assert forall|k: int| #[trigger] l2b.dom().contains(k) implies {
        &&& 0 <= k < 0x40000
        &&& l1.dom().contains(k / 512)
        &&& table_page(mem2, l2b[k])
        &&& l2b[k] != root as int
    } by {
        if k == 512 * i0 + i1 {
            assert((512 * i0 + i1) / 512 == i0);
        } else {
            assert(l2.dom().contains(k));
        }
    }
    assert forall|k: int, i: int| l2b.dom().contains(k) && l1.dom().contains(i)
        implies #[trigger] l2b[k] != #[trigger] l1[i] by {
        if k != 512 * i0 + i1 {
            assert(l2.dom().contains(k));
        }
    }
    assert forall|i: int, j: int| l1.dom().contains(i) && 0 <= j < 512
        implies (pte_v(#[trigger] entry_spec(mem2, l1[i], j)) <==> l2b.dom().contains(512 * i + j)) by {
        if i == i0 && j == i1 {
            assert(entry_spec(mem2, p1, i1) == e_new);
        } else {
            if l1[i] == p1 {
                assert(i == i0);
            }
            assert(entry_spec(mem2, l1[i], j) == entry_spec(mem1, l1[i], j));
            if 512 * i + j == 512 * i0 + i1 {
                assert(i == i0 && j == i1);
            }
        }
    }
    assert forall|i: int, j: int| l1.dom().contains(i) && 0 <= j < 512 && l2b.dom().contains(512 * i + j)
        implies pte_ppn(#[trigger] entry_spec(mem2, l1[i], j)) == l2b[512 * i + j] by {
        if i == i0 && j == i1 {
            assert(entry_spec(mem2, p1, i1) == e_new);
        } else {
            if l1[i] == p1 {
                assert(i == i0);
            }
            assert(entry_spec(mem2, l1[i], j) == entry_spec(mem1, l1[i], j));
            if 512 * i + j == 512 * i0 + i1 {
                assert(i == i0 && j == i1);
            }
            assert(l2.dom().contains(512 * i + j));
        }
    }
    assert forall|a: int, b: int| l2b.dom().contains(a) && l2b.dom().contains(b) && a != b
        implies #[trigger] l2b[a] != #[trigger] l2b[b] by {
        if a == 512 * i0 + i1 {
            assert(l2.dom().contains(b));
        } else if b == 512 * i0 + i1 {
            assert(l2.dom().contains(a));
        } else {
            assert(l2.dom().contains(a));
            assert(l2.dom().contains(b));
        }
    }
    assert(pt_wf_with(mem2, root, l1, l2b));
    assert forall|v: u64| !(idx0(v) == i0 && idx1(v) == i1)
        implies #[trigger] walk(mem2, root, v) == walk(mem1, root, v) by {
        lemma_vpn_decompose(v);
        assert(entry_spec(mem2, root as int, idx0(v) as int)
            == entry_spec(mem1, root as int, idx0(v) as int));
        let e0 = entry_spec(mem1, root as int, idx0(v) as int);
        if pte_v(e0) {
            let j0 = idx0(v) as int;
            assert(l1.dom().contains(j0));
            assert(pte_ppn(e0) == l1[j0]);
            if l1[j0] == p1 {
                assert(j0 == i0);
            }
            assert(entry_spec(mem2, pte_ppn(e0) as int, idx1(v) as int)
                == entry_spec(mem1, pte_ppn(e0) as int, idx1(v) as int));
            let e1 = entry_spec(mem1, pte_ppn(e0) as int, idx1(v) as int);
            if pte_v(e1) {
                let k = 512 * j0 + (idx1(v) as int);
                assert(pte_v(entry_spec(mem1, l1[j0], idx1(v) as int)));
                assert(l2.dom().contains(k));
                assert(pte_ppn(e1) == l2[k]);
                assert(l2[k] != p1);
                assert(entry_spec(mem2, pte_ppn(e1) as int, idx2(v) as int)
                    == entry_spec(mem1, pte_ppn(e1) as int, idx2(v) as int));
            }
        }
    }
    assert forall|v: u64| idx0(v) == i0 && idx1(v) == i1
        implies walk(mem1, root, v) is None && #[trigger] walk(mem2, root, v) == Some(0u64) by {
        lemma_vpn_decompose(v);
        let j0 = idx0(v) as int;
        assert(pte_v(entry_spec(mem1, root as int, j0)) <==> l1.dom().contains(j0));
        assert(entry_spec(mem2, root as int, j0) == entry_spec(mem1, root as int, j0));
        let e0 = entry_spec(mem1, root as int, j0);
        assert(pte_v(e0));
        assert(pte_ppn(e0) == p1);
        assert(!pte_v(entry_spec(mem1, p1, i1)));
        assert(entry_spec(mem2, p1, i1) == e_new);
        assert(entry_spec(mem2, n2, idx2(v) as int) == entry_spec(mem1, n2, idx2(v) as int));
        assert(entry_spec(mem2, n2, idx2(v) as int) == 0);
    }
    assert forall|v: u64| #[trigger] mapped(mem2, root, v) == mapped(mem1, root, v) by {
        if idx0(v) == i0 && idx1(v) == i1 {
            assert(walk(mem1, root, v) is None);
            assert(walk(mem2, root, v) == Some(0u64));
        } else {
            assert(walk(mem2, root, v) == walk(mem1, root, v));
        }
    }
    assert forall|v: u64| mapped(mem1, root, v)
        implies #[trigger] walk(mem2, root, v) == walk(mem1, root, v) by {
        if idx0(v) == i0 && idx1(v) == i1 {
            assert(walk(mem1, root, v) is None);
        }
    }
}

/// Writing the leaf entry of one page changes no other page's walk.
proof fn lemma_write_leaf(
    mem1: Seq<u64>,
    mem2: Seq<u64>,
    root: u64,
    l1: Map<int, int>,
    l2: Map<int, int>,
    vpn: u64,
    w: u64,
)
    requires
        pt_wf_with(mem1, root, l1, l2),
        vpn < VPN_LIMIT,
        l2.dom().contains(l2_key(vpn)),
        mem2 == mem1.update(cell(l2[l2_key(vpn)], idx2(vpn) as int), w),
    ensures
        pt_wf_with(mem2, root, l1, l2),
        walk(mem2, root, vpn) == Some(w),
        forall|v: u64| v < VPN_LIMIT && v != vpn
            ==> #[trigger] walk(mem2, root, v) == walk(mem1, root, v),
{
    lemma_vpn_decompose(vpn);
    let n2 = l2[l2_key(vpn)];
    let i2v = idx2(vpn) as int;
    lemma_update_entry(mem1, mem2, n2, i2v, w);
    let i0v = idx0(vpn) as int;
    let i1v = idx1(vpn) as int;
    assert(l2_key(vpn) / 512 == i0v) by {
        assert(l2_key(vpn) == 512 * i0v + i1v);
    }
    assert(l1.dom().contains(i0v));
    assert(n2 != root as int);
    assert(n2 != l1[i0v]);
    assert forall|i: int| 0 <= i < 512
        implies (pte_v(#[trigger] entry_spec(mem2, root as int, i)) <==> l1.dom().contains(i)) by {
        assert(entry_spec(mem2, root as int, i) == entry_spec(mem1, root as int, i));
    }
    assert forall|i: int| #[trigger] l1.dom().contains(i) implies {
        &&& 0 <= i < 512
        &&& pte_ppn(entry_spec(mem2, root as int, i)) == l1[i]
        &&& table_page(mem2, l1[i])
        &&& l1[i] != root as int
    } by {
        assert(entry_spec(mem2, root as int, i) == entry_spec(mem1, root as int, i));
    }
    assert forall|i: int, j: int| l1.dom().contains(i) && 0 <= j < 512
        implies (pte_v(#[trigger] entry_spec(mem2, l1[i], j)) <==> l2.dom().contains(512 * i + j)) by {
        assert(l1[i] != n2);
        assert(entry_spec(mem2, l1[i], j) == entry_spec(mem1, l1[i], j));
    }
    assert forall|i: int, j: int| l1.dom().contains(i) && 0 <= j < 512 && l2.dom().contains(512 * i + j)
        implies pte_ppn(#[trigger] entry_spec(mem2, l1[i], j)) == l2[512 * i + j] by {
        assert(l1[i] != n2);
        assert(entry_spec(mem2, l1[i], j) == entry_spec(mem1, l1[i], j));
    }
    assert(pt_wf_with(mem2, root, l1, l2));
    assert(walk(mem2, root, vpn) == Some(w)) by {
        assert(entry_spec(mem2, root as int, i0v) == entry_spec(mem1, root as int, i0v));
        let e0 = entry_spec(mem2, root as int, i0v);
        assert(pte_v(e0));
        assert(pte_ppn(e0) == l1[i0v]);
        assert(pte_v(entry_spec(mem1, l1[i0v], i1v)) <==> l2.dom().contains(512 * i0v + i1v));
        assert(entry_spec(mem2, l1[i0v], i1v) == entry_spec(mem1, l1[i0v], i1v));
        let e1 = entry_spec(mem2, l1[i0v], i1v);
        assert(pte_v(e1));
        assert(pte_ppn(e1) == l2[512 * i0v + i1v]);
        assert(entry_spec(mem2, n2, i2v) == w);
    }
    assert forall|v: u64| v < VPN_LIMIT && v != vpn
        implies #[trigger] walk(mem2, root, v) == walk(mem1, root, v) by {
        lemma_vpn_decompose(v);
        assert(entry_spec(mem2, root as int, idx0(v) as int)
            == entry_spec(mem1, root as int, idx0(v) as int));
        let e0 = entry_spec(mem1, root as int, idx0(v) as int);
        if pte_v(e0) {
            let j0 = idx0(v) as int;
            let j1 = idx1(v) as int;
            let j2 = idx2(v) as int;
            assert(l1.dom().contains(j0));
            assert(pte_ppn(e0) == l1[j0]);
            assert(l1[j0] != n2);
            assert(entry_spec(mem2, pte_ppn(e0) as int, j1)
                == entry_spec(mem1, pte_ppn(e0) as int, j1));
            let e1 = entry_spec(mem1, pte_ppn(e0) as int, j1);
            if pte_v(e1) {
                let k = 512 * j0 + j1;
                assert(pte_v(entry_spec(mem1, l1[j0], j1)));
                assert(l2.dom().contains(k));
                assert(pte_ppn(e1) == l2[k]);
                if l2[k] == n2 {
                    assert(k == l2_key(vpn));
                    assert(j0 == i0v && j1 == i1v);
                    assert(j2 != i2v);
                } else {
                    assert(l2[k] != n2);
                }
                assert(entry_spec(mem2, pte_ppn(e1) as int, j2)
                    == entry_spec(mem1, pte_ppn(e1) as int, j2));
            }
        }
    }
}

/// The opaque token format consumed by the translation-enable register:
/// the mode tag in the top bits, the root page number in the low 44.
pub open spec fn satp_token(root: u64) -> u64 {
    (8u64 << 60) | root
}

/// The root page number recovered from a token.
pub open spec fn satp_root(token: u64) -> u64 {
    token & 0xfff_ffff_ffff
}

/// A token built from a representable root decodes back to that root.
pub proof fn lemma_token_roundtrip(root: u64)
    by (bit_vector)
    requires
        root < PPN_FIELD_LIMIT,
    ensures
        satp_root(satp_token(root)) == root,
{
}

/// The 3-level page table: the root node's physical page number, plus the
/// ownership tokens of every internal-node frame this table has allocated.
/// Leaf-mapped frames are *not* owned here; they belong to whichever
/// subsystem requested the mapping.
pub struct PageTable {
    root_ppn: PhysPageNum,
    frames: Vec<FrameTracker>,
}

impl PageTable {
    /// The root node's physical page number.
    pub closed spec fn root(self) -> u64 {
        self.root_ppn.0
    }

    /// The internal-node frames this table owns.
    pub closed spec fn owned(self) -> Seq<FrameTracker> {
        self.frames@
    }

    /// Builds a fresh, empty address space: allocates one frame for the
    /// root node and takes ownership of it. Nothing is mapped.
    pub fn new(mem: &mut PhysMem) -> (r: PageTable)
        requires
            old(mem).inv(),
            old(mem).frame_count() < FRAME_LIMIT,
        ensures
            final(mem).inv(),
            final(mem).frame_count() == old(mem).frame_count() + 1,
            r.root() == old(mem).frame_count(),
            r.root() < PPN_FIELD_LIMIT,
            pt_wf(final(mem).entries(), r.root()),
            forall|v: u64| !(#[trigger] mapped(final(mem).entries(), r.root(), v)),
            r.owned().len() == 1,
            r.owned()[0].ppn.0 == r.root(),
            forall|i: int| 0 <= i < old(mem).bytes_view().len()
                ==> final(mem).bytes_view()[i] == old(mem).bytes_view()[i],
            final(mem).bytes_view().len() >= old(mem).bytes_view().len(),
    {
        let frame = mem.alloc_frame();
        let root = frame.ppn;
        let mut frames: Vec<FrameTracker> = Vec::new();
        frames.push(frame);
        proof {
            let l1e = Map::<int, int>::empty();
            let l2e = Map::<int, int>::empty();
            assert forall|i: int| 0 <= i < 512
                implies !pte_v(#[trigger] entry_spec(mem.entries(), root.0 as int, i)) by {
                assert(cell(root.0 as int, i) >= old(mem).entries().len());
                assert(entry_spec(mem.entries(), root.0 as int, i) == 0);
                lemma_pte_zero();
            }
            assert(pt_wf_with(mem.entries(), root.0, l1e, l2e));
            assert forall|v: u64| !(#[trigger] mapped(mem.entries(), root.0, v)) by {
                crate::addr::lemma_vpn_decompose(v);
                assert(!pte_v(entry_spec(mem.entries(), root.0 as int, idx0(v) as int)));
            }
        }
        PageTable { root_ppn: root, frames }
    }

    /// A translate-only view of another address space, rebuilt from its
    /// token. The view owns no frames.
    pub fn from_token(satp: u64) -> (r: PageTable)
        ensures
            r.root() == satp_root(satp),
            r.owned().len() == 0,
    {
        PageTable { root_ppn: PhysPageNum(satp & 0xfff_ffff_ffff), frames: Vec::new() }
    }

    /// The opaque token naming this address space to the hardware.
    pub fn token(&self) -> (r: u64)
        ensures
            r == satp_token(self.root()),
    {
        8u64 << 60 | self.root_ppn.0
    }

    /// Read-only walk: the leaf entry reached for `vpn`, or `None` if an
    /// intermediate entry on the path is invalid. The leaf entry itself is
    /// returned even when it is invalid; callers treat an invalid entry as
    /// "not mapped".
    pub fn translate(&self, mem: &PhysMem, vpn: VirtPageNum) -> (r: Option<PageTableEntry>)
        requires
            mem.inv(),
            pt_wf(mem.entries(), self.root()),
        ensures
            match walk(mem.entries(), self.root(), vpn.0) {
                Some(bits) => r == Some(PageTableEntry { bits }),
                None => r == None::<PageTableEntry>,
            },
    {
        let ghost memv = mem.entries();
        let ghost root = self.root();
        let ghost (l1, l2) = choose|l1: Map<int, int>, l2: Map<int, int>| pt_wf_with(memv, root, l1, l2);
        let (i0, i1, i2) = vpn.indexes();
        proof {
            lemma_vpn_decompose(vpn.0);
        }
        let e0 = mem.read_entry(self.root_ppn.0, i0);
        if e0 & 1 != 1 {
            return None;
        }
        proof {
            assert(pte_v(e0));
            assert(l1.dom().contains(i0 as int));
        }
        let p1 = (e0 >> 10) & 0xfff_ffff_ffff;
        proof {
            assert(p1 == pte_ppn(e0));
            assert(p1 as int == l1[i0 as int]);
            assert(table_page(memv, p1 as int));
        }
        let e1 = mem.read_entry(p1, i1);
        if e1 & 1 != 1 {
            return None;
        }
        proof {
            assert(pte_v(e1));
            assert(l2.dom().contains(512 * (i0 as int) + (i1 as int)));
            assert(table_page(memv, l2[512 * (i0 as int) + (i1 as int)]));
        }
        let p2 = (e1 >> 10) & 0xfff_ffff_ffff;
        let e2 = mem.read_entry(p2, i2);
        Some(PageTableEntry { bits: e2 })
    }

    /// Create-walk to the leaf for `vpn`, materializing missing intermediate
    /// nodes, then write the leaf entry for `ppn` with `flags` plus Valid.
    ///
    /// Mapping an already-mapped page is a kernel-logic contract violation,
    /// excluded by precondition. Ownership of the leaf frame named by `ppn`
    /// stays with the caller; the table takes ownership only of intermediate
    /// node frames it allocates here. Every other page's translation is
    /// left exactly as it was.
    pub fn map(&mut self, mem: &mut PhysMem, vpn: VirtPageNum, ppn: PhysPageNum, flags: PTEFlags)
        requires
            old(mem).inv(),
            pt_wf(old(mem).entries(), old(self).root()),
            vpn.0 < VPN_LIMIT,
            ppn.0 < PPN_FIELD_LIMIT,
            !mapped(old(mem).entries(), old(self).root(), vpn.0),
            old(mem).frame_count() + 2 <= FRAME_LIMIT,
        ensures
            final(mem).inv(),
            final(self).root() == old(self).root(),
            pt_wf(final(mem).entries(), old(self).root()),
            mapped(final(mem).entries(), old(self).root(), vpn.0),
            leaf(final(mem).entries(), old(self).root(), vpn.0)
                == pte_encode(ppn.0, flags.0 | FLAG_V),
            forall|v: u64| v < VPN_LIMIT && v != vpn.0
                ==> #[trigger] mapped(final(mem).entries(), old(self).root(), v)
                    == mapped(old(mem).entries(), old(self).root(), v),
            forall|v: u64| v < VPN_LIMIT && v != vpn.0
                    && mapped(old(mem).entries(), old(self).root(), v)
                ==> #[trigger] leaf(final(mem).entries(), old(self).root(), v)
                    == leaf(old(mem).entries(), old(self).root(), v),
            old(mem).frame_count() <= final(mem).frame_count() <= old(mem).frame_count() + 2,
            final(mem).bytes_view().len() >= old(mem).bytes_view().len(),
            forall|i: int| 0 <= i < old(mem).bytes_view().len()
                ==> #[trigger] final(mem).bytes_view()[i] == old(mem).bytes_view()[i],
            final(self).owned().len() >= old(self).owned().len(),
            forall|i: int| 0 <= i < old(self).owned().len()
                ==> #[trigger] final(self).owned()[i] == old(self).owned()[i],
    {
        let ghost root = self.root();
        let ghost mem0 = mem.entries();
        let ghost mut gl1: Map<int, int> = Map::empty();
        let ghost mut gl2: Map<int, int> = Map::empty();
        proof {
            let (a, b) = choose|a: Map<int, int>, b: Map<int, int>| pt_wf_with(mem0, root, a, b);
            gl1 = a;
            gl2 = b;
            lemma_vpn_decompose(vpn.0);
            lemma_pte_zero();
        }
        let (i0, i1, i2) = vpn.indexes();

        // Level 0: follow the top-level entry, materializing the level-1
        // node when the slot is invalid.
        let e0 = mem.read_entry(self.root_ppn.0, i0);
        let p1: u64;
        if e0 & 1 != 1 {
            proof {
                assert(!pte_v(e0));
                assert(!gl1.dom().contains(i0 as int));
            }
            let frame = mem.alloc_frame();
            let n1 = frame.ppn.0;
            proof {
                lemma_grow_preserves(mem0, mem.entries());
                lemma_grow_wf(mem0, mem.entries(), root, gl1, gl2);
                assert(table_page(mem.entries(), n1 as int));
                assert forall|j: int| 0 <= j < 512
                    implies #[trigger] entry_spec(mem.entries(), n1 as int, j) == 0 by {
                    assert(cell(n1 as int, j) >= mem0.len());
                }
                assert forall|i: int| #[trigger] gl1.dom().contains(i)
                    implies gl1[i] != n1 as int by {
                    assert(table_page(mem0, gl1[i]));
                }
                assert forall|k: int| #[trigger] gl2.dom().contains(k)
                    implies gl2[k] != n1 as int by {
                    assert(table_page(mem0, gl2[k]));
                }
                assert(table_page(mem0, root as int));
                assert(n1 as int != root as int);
                assert(!pte_v(entry_spec(mem.entries(), root as int, i0 as int)));
            }
            let ghost mem_a = mem.entries();
            mem.write_entry(self.root_ppn.0, i0, ((n1 & 0xfff_ffff_ffff) << 10) | (FLAG_V as u64));
            self.frames.push(frame);
            proof {
                lemma_write_root_child(mem_a, mem.entries(), root, gl1, gl2, i0 as int, n1 as int);
                gl1 = gl1.insert(i0 as int, n1 as int);
                assert forall|v: u64| #[trigger] mapped(mem.entries(), root, v)
                    == mapped(mem0, root, v) by {
                    assert(mapped(mem.entries(), root, v) == mapped(mem_a, root, v));
                    assert(mapped(mem_a, root, v) == mapped(mem0, root, v));
                }
                assert forall|v: u64| mapped(mem0, root, v)
                    implies #[trigger] walk(mem.entries(), root, v) == walk(mem0, root, v) by {
                    assert(mapped(mem_a, root, v));
                    assert(walk(mem.entries(), root, v) == walk(mem_a, root, v));
                    assert(walk(mem_a, root, v) == walk(mem0, root, v));
                }
            }
            p1 = n1;
        } else {
            proof {
                assert(pte_v(e0));
                assert(gl1.dom().contains(i0 as int));
            }
            p1 = (e0 >> 10) & 0xfff_ffff_ffff;
        }
        proof {
            assert(pt_wf_with(mem.entries(), root, gl1, gl2));
            assert(gl1.dom().contains(i0 as int));
            assert(p1 as int == gl1[i0 as int]);
            assert(table_page(mem.entries(), p1 as int));
        }

        // Level 1: follow the level-1 entry, materializing the leaf node
        // when the slot is invalid.
        let ghost mem_b = mem.entries();
        let e1 = mem.read_entry(p1, i1);
        let p2: u64;
        if e1 & 1 != 1 {
            proof {
                assert(!pte_v(e1));
                assert(!gl2.dom().contains(512 * (i0 as int) + (i1 as int)));
            }
            let frame = mem.alloc_frame();
            let n2 = frame.ppn.0;
            proof {
                lemma_grow_preserves(mem_b, mem.entries());
                lemma_grow_wf(mem_b, mem.entries(), root, gl1, gl2);
                assert(table_page(mem.entries(), n2 as int));
                assert forall|j: int| 0 <= j < 512
                    implies #[trigger] entry_spec(mem.entries(), n2 as int, j) == 0 by {
                    assert(cell(n2 as int, j) >= mem_b.len());
                }
                assert forall|i: int| #[trigger] gl1.dom().contains(i)
                    implies gl1[i] != n2 as int by {
                    assert(table_page(mem_b, gl1[i]));
                }
                assert forall|k: int| #[trigger] gl2.dom().contains(k)
                    implies gl2[k] != n2 as int by {
                    assert(table_page(mem_b, gl2[k]));
                }
                assert(table_page(mem_b, root as int));
                assert(n2 as int != root as int);
            }
            let ghost mem_c = mem.entries();
            mem.write_entry(p1, i1, ((n2 & 0xfff_ffff_ffff) << 10) | (FLAG_V as u64));
            self.frames.push(frame);
            proof {
                assert(cell(gl1[i0 as int], i1 as int) == cell(p1 as int, i1 as int));
                lemma_write_l1_child(mem_c, mem.entries(), root, gl1, gl2, i0 as int, i1 as int,
                    n2 as int);
                gl2 = gl2.insert(512 * (i0 as int) + (i1 as int), n2 as int);
                assert forall|v: u64| #[trigger] mapped(mem.entries(), root, v)
                    == mapped(mem0, root, v) by {
                    assert(mapped(mem.entries(), root, v) == mapped(mem_c, root, v));
                    assert(mapped(mem_c, root, v) == mapped(mem_b, root, v));
                    assert(mapped(mem_b, root, v) == mapped(mem0, root, v));
                }
                assert forall|v: u64| mapped(mem0, root, v)
                    implies #[trigger] walk(mem.entries(), root, v) == walk(mem0, root, v) by {
                    assert(mapped(mem_c, root, v));
                    assert(walk(mem.entries(), root, v) == walk(mem_c, root, v));
                    assert(walk(mem_c, root, v) == walk(mem_b, root, v));
                    assert(walk(mem_b, root, v) == walk(mem0, root, v));
                }
            }
            p2 = n2;
        } else {
            proof {
                assert(pte_v(e1));
                assert(pte_v(entry_spec(mem_b, gl1[i0 as int], i1 as int)));
                assert(gl2.dom().contains(512 * (i0 as int) + (i1 as int)));
            }
            p2 = (e1 >> 10) & 0xfff_ffff_ffff;
        }
        proof {
            assert(pt_wf_with(mem.entries(), root, gl1, gl2));
            assert(gl2.dom().contains(512 * (i0 as int) + (i1 as int)));
            assert(p2 as int == gl2[512 * (i0 as int) + (i1 as int)]);
            assert(table_page(mem.entries(), p2 as int));
        }

        // Leaf: the slot must not already hold a valid mapping; write the
        // caller's frame and flags, with Valid set.
        let ghost mem_d = mem.entries();
        let e2 = mem.read_entry(p2, i2);
        proof {
            assert(pte_v(entry_spec(mem_d, root as int, i0 as int)));
            assert(pte_ppn(entry_spec(mem_d, root as int, i0 as int)) == p1 as int);
            assert(pte_v(entry_spec(mem_d, p1 as int, i1 as int)));
            assert(pte_ppn(entry_spec(mem_d, p1 as int, i1 as int)) == p2 as int);
            assert(walk(mem_d, root, vpn.0) == Some(e2));
            assert(!mapped(mem_d, root, vpn.0));
            assert(!pte_v(e2));
            assert(l2_key(vpn.0) == 512 * (i0 as int) + (i1 as int));
        }
        mem.write_entry(p2, i2, ((ppn.0 & 0xfff_ffff_ffff) << 10) | ((flags.0 | FLAG_V) as u64));
        proof {
            lemma_write_leaf(mem_d, mem.entries(), root, gl1, gl2, vpn.0,
                pte_encode(ppn.0, flags.0 | FLAG_V));
            lemma_pte_roundtrip(ppn.0, flags.0 | FLAG_V);
            lemma_valid_flag_facts();
            assert(pte_v(pte_encode(ppn.0, flags.0 | FLAG_V)));
            assert(mapped(mem.entries(), root, vpn.0));
            assert forall|v: u64| v < VPN_LIMIT && v != vpn.0
                implies #[trigger] mapped(mem.entries(), root, v) == mapped(mem0, root, v) by {
                assert(walk(mem.entries(), root, v) == walk(mem_d, root, v));
                assert(mapped(mem_d, root, v) == mapped(mem0, root, v));
            }
            assert forall|v: u64| v < VPN_LIMIT && v != vpn.0 && mapped(mem0, root, v)
                implies #[trigger] leaf(mem.entries(), root, v) == leaf(mem0, root, v) by {
                assert(walk(mem.entries(), root, v) == walk(mem_d, root, v));
                assert(walk(mem_d, root, v) == walk(mem0, root, v));
            }
        }
    }

    /// Walk to the leaf for `vpn`, which must hold a valid mapping, and
    /// overwrite it with the empty entry. The physical frame the leaf named
    /// is not released: this table never owned it, the caller does.
    /// Unmapping a page that is not mapped is a kernel-logic contract
    /// violation, excluded by precondition. Every other page's translation
    /// is left exactly as it was.
    pub fn unmap(&mut self, mem: &mut PhysMem, vpn: VirtPageNum)
        requires
            old(mem).inv(),
            pt_wf(old(mem).entries(), old(self).root()),
            vpn.0 < VPN_LIMIT,
            mapped(old(mem).entries(), old(self).root(), vpn.0),
        ensures
            final(mem).inv(),
            final(self).root() == old(self).root(),
            final(self).owned() == old(self).owned(),
            pt_wf(final(mem).entries(), old(self).root()),
            !mapped(final(mem).entries(), old(self).root(), vpn.0),
            walk(final(mem).entries(), old(self).root(), vpn.0) == Some(0u64),
            forall|v: u64| v < VPN_LIMIT && v != vpn.0
                ==> #[trigger] walk(final(mem).entries(), old(self).root(), v)
                    == walk(old(mem).entries(), old(self).root(), v),
            forall|v: u64| v < VPN_LIMIT && v != vpn.0
                ==> #[trigger] mapped(final(mem).entries(), old(self).root(), v)
                    == mapped(old(mem).entries(), old(self).root(), v),
            final(mem).frame_count() == old(mem).frame_count(),
            final(mem).bytes_view() == old(mem).bytes_view(),
    {
        let ghost root = self.root();
        let ghost mem0 = mem.entries();
        let ghost (gl1, gl2) = choose|a: Map<int, int>, b: Map<int, int>| pt_wf_with(mem0, root, a, b);
        let (i0, i1, i2) = vpn.indexes();
        proof {
            lemma_vpn_decompose(vpn.0);
            lemma_pte_zero();
        }
        let e0 = mem.read_entry(self.root_ppn.0, i0);
        proof {
            assert(pte_v(e0));
            assert(gl1.dom().contains(i0 as int));
        }
        let p1 = (e0 >> 10) & 0xfff_ffff_ffff;
        let e1 = mem.read_entry(p1, i1);
        proof {
            assert(pte_v(e1));
            assert(pte_v(entry_spec(mem0, gl1[i0 as int], i1 as int)));
            assert(gl2.dom().contains(512 * (i0 as int) + (i1 as int)));
            assert(l2_key(vpn.0) == 512 * (i0 as int) + (i1 as int));
        }
        let p2 = (e1 >> 10) & 0xfff_ffff_ffff;
        mem.write_entry(p2, i2, 0);
        proof {
            lemma_write_leaf(mem0, mem.entries(), root, gl1, gl2, vpn.0, 0u64);
            assert(!pte_v(0u64));
            assert forall|v: u64| v < VPN_LIMIT && v != vpn.0
                implies #[trigger] mapped(mem.entries(), root, v) == mapped(mem0, root, v) by {
                assert(walk(mem.entries(), root, v) == walk(mem0, root, v));
            }
        }
    }
}

} // verus!
