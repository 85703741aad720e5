//! The kernel heap: a first-fit allocator over a list of free regions.
//!
//! The list of free regions is kept in a `Vec`. A region is never split into a piece smaller
//! than a list node (16 bytes, aligned to 8), the room a node takes when the list is written
//! into the free memory itself, so every region could hold its own node. An allocation takes
//! the first region that fits, hands out an aligned block from it and gives the rest of the
//! region after the block back to the list; the bytes skipped to align the block are not
//! reused. A region given back goes to the front of the list and is merged with the next
//! region when the two touch.
//!
//! The `Vec` takes its own memory from Rust's allocator: an allocator built on this heap has
//! to serve those requests from elsewhere while a heap operation is under way.

use vstd::prelude::*;

use crate::address::{align_up_spec, lemma_mod_facts, VirtualAddress};
use crate::power::is_power_of_two;

verus! {

/// The size of a free-list node: a region is never split into a piece smaller than this.
pub const FREE_NODE_SIZE: usize = 16;

/// The alignment of a free-list node: every block is aligned at least this much.
pub const FREE_NODE_ALIGN: usize = 8;

/// The number of bytes of heap the kernel starts with.
pub const HEAP_SIZE: usize = 1048576;

/// A free region of the heap: `size` bytes from `start`.
#[derive(Clone, Copy, PartialEq, Eq, Structural, Debug)]
pub struct FreeNode {
    pub start: usize,
    pub size: usize,
}

/// The end of a region, excluded.
pub open spec fn end_of(n: FreeNode) -> int {
    n.start + n.size
}

/// Where a block of `size` bytes aligned to `align` can start in region `n`: at the first
/// aligned address, provided the block ends within the region and leaves either nothing or
/// room for a node after it.
pub open spec fn fit(n: FreeNode, size: int, align: int) -> Option<int> {
    let s = align_up_spec(n.start as int, align);
    if s > usize::MAX || s + size > usize::MAX || s + size > end_of(n) {
        None
    } else if 0 < end_of(n) - (s + size) < FREE_NODE_SIZE {
        None
    } else {
        Some(s)
    }
}

/// Region `i` is the first of `list` that fits the block.
pub open spec fn is_first_fit(list: Seq<FreeNode>, size: int, align: int, i: int) -> bool {
    &&& 0 <= i < list.len()
    &&& fit(list[i], size, align) is Some
    &&& forall|j: int| 0 <= j < i ==> #[trigger] fit(list[j], size, align) is None
}

/// The index of the first region of `list` that fits the block.
pub open spec fn first_fit(list: Seq<FreeNode>, size: int, align: int) -> Option<int> {
    if exists|i: int| is_first_fit(list, size, align, i) {
        Some(choose|i: int| is_first_fit(list, size, align, i))
    } else {
        None
    }
}

/// `list` after merging its first region with the second when they touch.
pub open spec fn defragged(list: Seq<FreeNode>) -> Seq<FreeNode> {
    if list.len() >= 2 && end_of(list[0]) == list[1].start {
        seq![FreeNode { start: list[0].start, size: (list[0].size + list[1].size) as usize }] + list.subrange(
            2,
            list.len() as int,
        )
    } else {
        list
    }
}

/// `list` with the region of `size` bytes at `start` given back.
pub open spec fn with_region(list: Seq<FreeNode>, start: int, size: int) -> Seq<FreeNode> {
    defragged(seq![FreeNode { start: start as usize, size: size as usize }] + list)
}

/// The free list and the returned address after allocating a block of `size` bytes aligned
/// to `align` (both already adjusted) from `list`; the address is 0 when nothing fits.
pub open spec fn alloc_outcome(list: Seq<FreeNode>, size: int, align: int) -> (Seq<FreeNode>, int) {
    match first_fit(list, size, align) {
        None => (list, 0),
        Some(i) => {
            let p = fit(list[i], size, align).unwrap();
            let rest = list.remove(i);
            let excess = end_of(list[i]) - (p + size);
            if excess > 0 {
                (with_region(rest, p + size, excess), p)
            } else {
                (rest, p)
            }
        },
    }
}

/// The alignment of a request once raised to that of a node.
pub open spec fn adjusted_align(align: int) -> int {
    if align < FREE_NODE_ALIGN {
        FREE_NODE_ALIGN as int
    } else {
        align
    }
}

/// The size of a request once padded to its alignment and raised to the size of a node.
pub open spec fn adjusted_size(size: int, align: int) -> int {
    let padded = align_up_spec(size, adjusted_align(align));
    if padded < FREE_NODE_SIZE {
        FREE_NODE_SIZE as int
    } else {
        padded
    }
}

/// Every region of `list` ends within the address space.
pub open spec fn regions_ok(list: Seq<FreeNode>) -> bool {
    forall|i: int| 0 <= i < list.len() ==> end_of(#[trigger] list[i]) <= usize::MAX
}

impl FreeNode {
    /// The address of the region, where its node lives.
    pub fn node_start_addr(&self) -> (r: usize)
        ensures
            r == self.start,
    {
        self.start
    }

    /// The end of the region, excluded.
    pub fn end_addr(&self) -> (r: usize)
        requires
            end_of(*self) <= usize::MAX,
        ensures
            r == end_of(*self),
    {
        self.start + self.size
    }

    /// Where a block of `size` bytes aligned to `align` can start in the region, if it fits.
    pub fn fit_layout(&self, size: usize, align: usize) -> (r: Option<usize>)
        requires
            align > 0,
            end_of(*self) <= usize::MAX,
        ensures
            match fit(*self, size as int, align as int) {
                None => r is None,
                Some(p) => r == Some(p as usize),
            },
    {
        let alloc_start = match VirtualAddress::align_ptr_up(self.node_start_addr(), align) {
            Some(s) => s,
            None => {
                return None;
            },
        };
        let alloc_end = match alloc_start.checked_add(size) {
            Some(e) => e,
            None => {
                return None;
            },
        };
        if alloc_end > self.end_addr() {
            return None;
        }
        let excess_size = self.end_addr() - alloc_end;
        if excess_size > 0 && excess_size < FREE_NODE_SIZE {
            return None;
        }
        Some(alloc_start)
    }
}

/// There is at most one first region that fits.
pub proof fn lemma_first_fit_unique(list: Seq<FreeNode>, size: int, align: int, i: int)
    requires
        is_first_fit(list, size, align, i),
    ensures
        first_fit(list, size, align) == Some(i),
{
    let k = choose|k: int| is_first_fit(list, size, align, k);
    if k < i {
        assert(fit(list[k], size, align) is None);
    } else if k > i {
        assert(fit(list[i], size, align) is None);
    }
}

/// Take the first region of `list` that fits a block of `size` bytes aligned to `align` out of
/// the list; returns it with the address of the block.
pub fn allocate_from(list: &mut Vec<FreeNode>, size: usize, align: usize) -> (r: Option<(FreeNode, usize)>)
    requires
        align > 0,
        regions_ok(old(list)@),
    ensures
        regions_ok(final(list)@),
        match first_fit(old(list)@, size as int, align as int) {
            None => r is None && final(list)@ == old(list)@,
            Some(i) => r == Some((old(list)@[i], fit(old(list)@[i], size as int, align as int).unwrap() as usize))
                && final(list)@ == old(list)@.remove(i),
        },
{
    let ghost before = list@;
    let mut i: usize = 0;
    while i < list.len()
        invariant
            0 <= i <= list@.len(),
            list@ == before,
            before == old(list)@,
            regions_ok(before),
            align > 0,
            forall|j: int| 0 <= j < i ==> #[trigger] fit(before[j], size as int, align as int) is None,
        decreases list@.len() - i,
    {
        let node = list[i];
        proof {
            assert(end_of(before[i as int]) <= usize::MAX);
        }
        match node.fit_layout(size, align) {
            Some(ptr) => {
                proof {
                    assert(is_first_fit(before, size as int, align as int, i as int));
                    lemma_first_fit_unique(before, size as int, align as int, i as int);
                }
                let taken = list.remove(i);
                proof {
                    assert forall|j: int| 0 <= j < list@.len() implies end_of(#[trigger] list@[j]) <= usize::MAX by {
                        if j < i {
                            assert(list@[j] == before[j]);
                        } else {
                            assert(list@[j] == before[j + 1]);
                        }
                    }
                }
                return Some((taken, ptr));
            },
            None => {},
        }
        i = i + 1;
    }
    proof {
        if exists|k: int| is_first_fit(before, size as int, align as int, k) {
            let k = choose|k: int| is_first_fit(before, size as int, align as int, k);
            assert(fit(before[k], size as int, align as int) is None);
        }
    }
    None
}

/// Merge the first region of `list` with the second when they touch.
pub fn defrag(list: &mut Vec<FreeNode>)
    requires
        regions_ok(old(list)@),
    ensures
        final(list)@ == defragged(old(list)@),
        regions_ok(final(list)@),
{
    if list.len() < 2 {
        return;
    }
    let first = list[0];
    let next = list[1];
    proof {
        assert(end_of(old(list)@[0]) <= usize::MAX);
        assert(end_of(old(list)@[1]) <= usize::MAX);
    }
    if first.end_addr() == next.node_start_addr() {
        let merged = FreeNode { start: first.start, size: first.size + next.size };
        list.set(0, merged);
        list.remove(1);
        proof {
            assert(list@ =~= defragged(old(list)@));
        }
    }
}

/// Law: merging leaves the bytes covered by the regions as they were.
pub proof fn lemma_defrag_keeps_bytes(list: Seq<FreeNode>, a: int)
    requires
        list.len() >= 2,
        end_of(list[0]) == list[1].start,
        regions_ok(list),
    ensures
        (list[0].start <= a < end_of(list[0])) || (list[1].start <= a < end_of(list[1])) <==> defragged(list)[0].start
            <= a < end_of(defragged(list)[0]),
{
    assert(end_of(list[1]) <= usize::MAX);
}

/// Law: giving back a block and asking again for the same layout hands out the same
/// address, unless the region right after the block is too small to stay on its own once the
/// two are merged.
pub proof fn lemma_reuse_after_deallocate(list: Seq<FreeNode>, p: int, size: int, align: int)
    requires
        regions_ok(list),
        align > 0,
        p >= 0,
        p % adjusted_align(align) == 0,
        p + adjusted_size(size, align) <= usize::MAX,
        size >= 0,
        !(list.len() > 0 && list[0].start == p + adjusted_size(size, align) && 0 < list[0].size
            < FREE_NODE_SIZE),
    ensures
        alloc_outcome(
            with_region(list, p, adjusted_size(size, align)),
            adjusted_size(size, align),
            adjusted_align(align),
        ).1 == p,
{
    let s = adjusted_size(size, align);
    let a = adjusted_align(align);
    let l1 = with_region(list, p, s);
    if list.len() > 0 {
        assert(end_of(list[0]) <= usize::MAX);
    }
    assert((seq![FreeNode { start: p as usize, size: s as usize }] + list)[0] == FreeNode {
        start: p as usize,
        size: s as usize,
    });
    assert(l1[0].start == p);
    assert(align_up_spec(p, a) == p);
    assert(fit(l1[0], s, a) == Some(p));
    assert(is_first_fit(l1, s, a, 0));
    lemma_first_fit_unique(l1, s, a, 0);
}

/// Two regions share no byte.
pub open spec fn disjoint(a: FreeNode, b: FreeNode) -> bool {
    end_of(a) <= b.start || end_of(b) <= a.start
}

/// No two regions of `list` share a byte.
pub open spec fn pairwise_disjoint(list: Seq<FreeNode>) -> bool {
    forall|i: int, j: int| 0 <= i < list.len() && 0 <= j < list.len() && i != j ==> disjoint(#[trigger] list[i], #[trigger] list[j])
}

/// Law: when the free regions share no byte, a block that the heap hands out shares no byte
/// with the free regions left, and these still share no byte with each other.
pub proof fn lemma_allocate_disjoint(list: Seq<FreeNode>, size: int, align: int)
    requires
        regions_ok(list),
        pairwise_disjoint(list),
        forall|k: int| 0 <= k < list.len() ==> (#[trigger] list[k]).size > 0,
        align > 0,
        size > 0,
        first_fit(list, size, align) is Some,
    ensures
        ({
            let (after, p) = alloc_outcome(list, size, align);
            let block = FreeNode { start: p as usize, size: size as usize };
            &&& pairwise_disjoint(after)
            &&& forall|k: int| 0 <= k < after.len() ==> (#[trigger] after[k]).size > 0
            &&& forall|k: int| 0 <= k < after.len() ==> disjoint(block, #[trigger] after[k])
        }),
{
    let i = first_fit(list, size, align).unwrap();
    let ghost k0 = choose|k: int| is_first_fit(list, size, align, k);
    assert(is_first_fit(list, size, align, i));
    let p = fit(list[i], size, align).unwrap();
    let n = list[i];
    assert(end_of(n) <= usize::MAX);
    crate::address::lemma_mod_facts(n.start as int, align);
    assert(n.start <= p);
    let rest = list.remove(i);
    let excess = end_of(n) - (p + size);
    let block = FreeNode { start: p as usize, size: size as usize };
    assert forall|k: int| 0 <= k < rest.len() implies disjoint(block, #[trigger] rest[k]) && disjoint(n, rest[k]) by {
        if k < i {
            assert(rest[k] == list[k]);
            assert(disjoint(list[k], list[i]));
        } else {
            assert(rest[k] == list[k + 1]);
            assert(disjoint(list[k + 1], list[i]));
        }
    }
    assert forall|x: int, y: int| 0 <= x < rest.len() && 0 <= y < rest.len() && x != y implies disjoint(
        #[trigger] rest[x],
        #[trigger] rest[y],
    ) by {
        let xi = if x < i { x } else { x + 1 };
        let yi = if y < i { y } else { y + 1 };
        assert(rest[x] == list[xi]);
        assert(rest[y] == list[yi]);
        assert(disjoint(list[xi], list[yi]));
    }
    if excess > 0 {
        let tail = FreeNode { start: (p + size) as usize, size: excess as usize };
        let pushed = seq![tail] + rest;
        assert forall|k: int| 0 <= k < rest.len() implies disjoint(tail, #[trigger] rest[k]) by {}
        let after = with_region(rest, p + size, excess);
        assert(pushed[0] == tail);
        assert forall|k: int| 0 <= k < rest.len() implies #[trigger] pushed[k + 1] == rest[k] by {}
        if rest.len() >= 2 - 1 && pushed.len() >= 2 && end_of(pushed[0]) == pushed[1].start {
            let merged = FreeNode { start: tail.start, size: (tail.size + rest[0].size) as usize };
            assert(end_of(rest[0]) <= usize::MAX);
            assert(after == seq![merged] + pushed.subrange(2, pushed.len() as int));
            assert forall|k: int| 0 <= k < after.len() implies disjoint(block, #[trigger] after[k]) by {
                if k > 0 {
                    assert(after[k] == rest[k]);
                }
            }
            assert forall|k: int| 1 <= k < after.len() implies disjoint(merged, #[trigger] after[k]) by {
                assert(after[k] == rest[k]);
                assert(rest[k].size > 0) by {
                    if k < i {
                        assert(rest[k] == list[k]);
                    } else {
                        assert(rest[k] == list[k + 1]);
                    }
                }
                assert(disjoint(rest[0], rest[k]));
                assert(disjoint(tail, rest[k]));
            }
            assert forall|x: int, y: int| 0 <= x < after.len() && 0 <= y < after.len() && x != y implies disjoint(
                #[trigger] after[x],
                #[trigger] after[y],
            ) by {
                if x == 0 {
                    assert(disjoint(merged, after[y]));
                } else if y == 0 {
                    assert(disjoint(merged, after[x]));
                } else {
                    assert(after[x] == rest[x]);
                    assert(after[y] == rest[y]);
                }
            }
        } else {
            assert(after == pushed);
            assert forall|x: int, y: int| 0 <= x < after.len() && 0 <= y < after.len() && x != y implies disjoint(
                #[trigger] after[x],
                #[trigger] after[y],
            ) by {
                if x == 0 {
                    assert(after[y] == rest[y - 1]);
                } else if y == 0 {
                    assert(after[x] == rest[x - 1]);
                } else {
                    assert(after[x] == rest[x - 1]);
                    assert(after[y] == rest[y - 1]);
                }
            }
            assert forall|k: int| 0 <= k < after.len() implies disjoint(block, #[trigger] after[k]) by {
                if k > 0 {
                    assert(after[k] == rest[k - 1]);
                }
            }
        }
    }
}

/// Law: when the free regions share no byte, giving back a block that shares no byte with
/// them leaves regions that still share no byte with each other.
pub proof fn lemma_deallocate_disjoint(list: Seq<FreeNode>, start: int, size: int)
    requires
        regions_ok(list),
        pairwise_disjoint(list),
        forall|k: int| 0 <= k < list.len() ==> (#[trigger] list[k]).size > 0,
        0 <= start,
        0 < size,
        start + size <= usize::MAX,
        forall|k: int| 0 <= k < list.len() ==> disjoint(FreeNode { start: start as usize, size: size as usize }, #[trigger] list[k]),
    ensures
        pairwise_disjoint(with_region(list, start, size)),
        forall|k: int| 0 <= k < with_region(list, start, size).len() ==> (#[trigger] with_region(list, start, size)[k]).size > 0,
{
    let block = FreeNode { start: start as usize, size: size as usize };
    let pushed = seq![block] + list;
    let after = with_region(list, start, size);
    assert(pushed[0] == block);
    assert forall|k: int| 0 <= k < list.len() implies #[trigger] pushed[k + 1] == list[k] by {}
    if list.len() >= 1 && end_of(block) == list[0].start {
        assert(end_of(list[0]) <= usize::MAX);
        let merged = FreeNode { start: block.start, size: (block.size + list[0].size) as usize };
        assert(after == seq![merged] + pushed.subrange(2, pushed.len() as int));
        assert forall|k: int| 1 <= k < after.len() implies after[k] == list[k] && disjoint(merged, #[trigger] after[k]) by {
            assert(after[k] == list[k]);
            assert(list[k].size > 0);
            assert(disjoint(list[0], list[k]));
            assert(disjoint(block, list[k]));
        }
        assert forall|x: int, y: int| 0 <= x < after.len() && 0 <= y < after.len() && x != y implies disjoint(
            #[trigger] after[x],
            #[trigger] after[y],
        ) by {
            if x == 0 {
                assert(disjoint(merged, after[y]));
            } else if y == 0 {
                assert(disjoint(merged, after[x]));
            } else {
                assert(after[x] == list[x]);
                assert(after[y] == list[y]);
            }
        }
        assert forall|k: int| 0 <= k < after.len() implies (#[trigger] after[k]).size > 0 by {
            if k > 0 {
                assert(after[k] == list[k]);
            }
        }
    } else {
        assert(after == pushed);
        assert forall|x: int, y: int| 0 <= x < after.len() && 0 <= y < after.len() && x != y implies disjoint(
            #[trigger] after[x],
            #[trigger] after[y],
        ) by {
            if x == 0 {
                assert(after[y] == list[y - 1]);
            } else if y == 0 {
                assert(after[x] == list[x - 1]);
            } else {
                assert(after[x] == list[x - 1]);
                assert(after[y] == list[y - 1]);
            }
        }
        assert forall|k: int| 0 <= k < after.len() implies (#[trigger] after[k]).size > 0 by {
            if k > 0 {
                assert(after[k] == list[k - 1]);
            }
        }
    }
}

/// The kernel heap.
pub struct KernelAlloc {
    head: Vec<FreeNode>,
}

impl View for KernelAlloc {
    type V = Seq<FreeNode>;

    closed spec fn view(&self) -> Seq<FreeNode> {
        self.head@
    }
}

impl KernelAlloc {
    /// The heap is well formed: every free region ends within the address space.
    pub open spec fn wf(&self) -> bool {
        regions_ok(self@)
    }

    /// A heap with no memory.
    pub fn new() -> (r: Self)
        ensures
            r@ == Seq::<FreeNode>::empty(),
            r.wf(),
    {
        KernelAlloc { head: Vec::new() }
    }

    /// Give the `size` bytes at `addr` to the heap.
    pub fn add_free_region(&mut self, addr: usize, size: usize)
        requires
            old(self).wf(),
            addr + size <= usize::MAX,
        ensures
            final(self).wf(),
            final(self)@ == with_region(old(self)@, addr as int, size as int),
    {
        self.head.insert(0, FreeNode { start: addr, size });
        proof {
            assert forall|j: int| 0 <= j < self.head@.len() implies end_of(#[trigger] self.head@[j]) <= usize::MAX by {
                if j > 0 {
                    assert(self.head@[j] == old(self)@[j - 1]);
                }
            }
            assert(self.head@ =~= seq![FreeNode { start: addr, size }] + old(self)@);
        }
        defrag(&mut self.head);
    }

    /// Give the heap a backing of `len` eight-byte words at `addr`.
    pub fn add_backing(&mut self, addr: usize, len: usize)
        requires
            old(self).wf(),
            len >= FREE_NODE_SIZE,
            addr % FREE_NODE_ALIGN == 0,
            addr + len * 8 <= usize::MAX,
        ensures
            final(self).wf(),
            final(self)@ == with_region(old(self)@, addr as int, len * 8),
    {
        self.add_free_region(addr, len * 8);
    }

    /// The size and alignment a request is served with: the alignment raised to that of a
    /// node, the size padded to it and raised to the size of a node.
    pub fn size_align(size: usize, align: usize) -> (r: (usize, usize))
        requires
            is_power_of_two(align as nat),
            align_up_spec(size as int, adjusted_align(align as int)) <= isize::MAX,
        ensures
            r.0 == adjusted_size(size as int, align as int),
            r.1 == adjusted_align(align as int),
            r.1 > 0,
    {
        let a: usize = if align < FREE_NODE_ALIGN {
            FREE_NODE_ALIGN
        } else {
            align
        };
        proof {
            lemma_mod_facts(size as int, a as int);
        }
        let rem: usize = size % a;
        let padded: usize = if rem == 0 {
            size
        } else {
            size - rem + a
        };
        let s: usize = if padded < FREE_NODE_SIZE {
            FREE_NODE_SIZE
        } else {
            padded
        };
        (s, a)
    }

    /// Allocate `size` bytes aligned to `align`; returns the address of the block, or 0 when
    /// no free region fits it.
    pub fn allocate(&mut self, size: usize, align: usize) -> (r: usize)
        requires
            old(self).wf(),
            is_power_of_two(align as nat),
            align_up_spec(size as int, adjusted_align(align as int)) <= isize::MAX,
        ensures
            final(self).wf(),
            (final(self)@, r as int) == alloc_outcome(
                old(self)@,
                adjusted_size(size as int, align as int),
                adjusted_align(align as int),
            ),
    {
        let (s, a) = Self::size_align(size, align);
        match allocate_from(&mut self.head, s, a) {
            Some((node, ptr)) => {
                let ghost i = first_fit(old(self)@, s as int, a as int).unwrap();
                proof {
                    assert(end_of(old(self)@[i]) <= usize::MAX);
                }
                let alloc_end: usize = ptr + s;
                let excess_size: usize = node.end_addr() - alloc_end;
                if excess_size > 0 {
                    self.add_free_region(alloc_end, excess_size);
                }
                ptr
            },
            None => 0,
        }
    }

    /// Give back the block of `size` bytes aligned to `align` at `ptr`.
    pub fn deallocate(&mut self, ptr: usize, size: usize, align: usize)
        requires
            old(self).wf(),
            is_power_of_two(align as nat),
            align_up_spec(size as int, adjusted_align(align as int)) <= isize::MAX,
            ptr + adjusted_size(size as int, align as int) <= usize::MAX,
        ensures
            final(self).wf(),
            final(self)@ == with_region(old(self)@, ptr as int, adjusted_size(size as int, align as int)),
    {
        let (s, _a) = Self::size_align(size, align);
        self.add_free_region(ptr, s);
    }
}

/// The memory the heap starts with, handed over at most once.
pub struct HeapBacking {
    backing: Option<(usize, usize)>,
}

impl HeapBacking {
    /// The backing not handed over yet.
    pub closed spec fn pending(&self) -> Option<(usize, usize)> {
        self.backing
    }

    /// The backing of `len` eight-byte words at `addr`, not handed over yet.
    pub fn new(addr: usize, len: usize) -> (r: Self)
        ensures
            r.pending() == Some((addr, len)),
    {
        HeapBacking { backing: Some((addr, len)) }
    }
}

/// What one call of [`init_heap`] does, from the heap's free regions `h0` and the pending
/// backing `p0` to `h1`, `p1` and the result `r`: a pending backing is added to the heap and
/// [`HEAP_SIZE`] returned; with none pending the heap stays as it is and 0 is returned; no
/// backing is pending afterwards.
pub open spec fn init_heap_step(
    h0: Seq<FreeNode>,
    p0: Option<(usize, usize)>,
    h1: Seq<FreeNode>,
    p1: Option<(usize, usize)>,
    r: int,
) -> bool {
    &&& p1 is None
    &&& match p0 {
        Some((addr, len)) => r == HEAP_SIZE && h1 == with_region(h0, addr as int, len * 8),
        None => r == 0 && h1 == h0,
    }
}

/// Law: over any number of calls of [`init_heap`] that starts with a backing pending, the
/// first call returns [`HEAP_SIZE`] and every later call returns 0 and leaves the heap as the
/// first call left it.
pub proof fn lemma_init_heap_calls(
    heaps: Seq<Seq<FreeNode>>,
    pending: Seq<Option<(usize, usize)>>,
    results: Seq<int>,
)
    requires
        heaps.len() == results.len() + 1,
        pending.len() == results.len() + 1,
        pending[0] is Some,
        forall|n: int|
            0 <= n < results.len() ==> init_heap_step(
                heaps[n],
                pending[n],
                heaps[n + 1],
                pending[n + 1],
                #[trigger] results[n],
            ),
    ensures
        forall|n: int| 0 <= n < results.len() ==> #[trigger] results[n] == if n == 0 {
            HEAP_SIZE as int
        } else {
            0
        },
        forall|n: int| 1 <= n < heaps.len() ==> #[trigger] heaps[n] == heaps[1],
    decreases results.len(),
{
    if results.len() > 1 {
        let m = results.len() - 1;
        lemma_init_heap_calls(heaps.take(m + 1), pending.take(m + 1), results.take(m));
        assert(init_heap_step(heaps[m - 1], pending[m - 1], heaps[m], pending[m], results[m - 1]));
        assert(init_heap_step(heaps[m], pending[m], heaps[m + 1], pending[m + 1], results[m]));
        assert forall|n: int| 0 <= n < results.len() implies #[trigger] results[n] == if n == 0 {
            HEAP_SIZE as int
        } else {
            0
        } by {
            if n < m {
                assert(results.take(m)[n] == results[n]);
            }
        }
        assert forall|n: int| 1 <= n < heaps.len() implies #[trigger] heaps[n] == heaps[1] by {
            assert(heaps.take(m + 1)[1] == heaps[1]);
            assert(heaps.take(m + 1)[m] == heaps[m]);
            if n <= m {
                assert(heaps.take(m + 1)[n] == heaps[n]);
            } else {
                assert(pending[m] is None);
                assert(heaps[m + 1] == heaps[m]);
            }
        }
    } else if results.len() == 1 {
        assert(init_heap_step(heaps[0], pending[0], heaps[1], pending[1], results[0]));
    }
}

/// Give the heap its backing; returns the number of bytes added, [`HEAP_SIZE`] the first time
/// and 0 after that.
///
/// The first call leaves no backing pending, and a call with none pending returns 0 and
/// leaves the heap as it is: every later call does nothing.
pub fn init_heap(heap: &mut KernelAlloc, backing: &mut HeapBacking) -> (r: usize)
    requires
        old(heap).wf(),
        old(backing).pending() matches Some((addr, len)) ==> len >= FREE_NODE_SIZE && addr % FREE_NODE_ALIGN
            == 0 && addr + len * 8 <= usize::MAX && len * 8 == HEAP_SIZE,
    ensures
        final(heap).wf(),
        init_heap_step(old(heap)@, old(backing).pending(), final(heap)@, final(backing).pending(), r as int),
{
    match backing.backing.take() {
        Some((addr, len)) => {
            heap.add_backing(addr, len);
            HEAP_SIZE
        },
        None => 0,
    }
}

} // verus!
