//! The memory mapper: it walks the four levels of a page-table tree over a range of virtual
//! addresses and decides, entry by entry, what to change.
//!
//! The tables live in physical memory. The walk is a sequence of steps: a [`Navigator`]
//! looks at the entry under its cursor in the table on top of its stack and says what to do
//! (pop the table, look into a child table, apply a decision to the entry, descend into the
//! child); whoever holds the tables carries that out and reports back. The decisions of the
//! mapper's operations (map, unmap, share, read) are functions from the entry to its new value.

use vstd::prelude::*;

use crate::address::{PhysicalAddress, VirtualAddress};
use crate::frame_alloc::{zone_clashes, FrameAllocator};
use crate::memory_map::{
    flags_for, flags_to_props, lemma_props_round_trip, props_to_flags, MemoryError, MemoryErrorKind, MemoryProperties, ModifyMapError,
    NewMapError, PageFault, ReadMapError,
};
use crate::address::align_up_spec;
use crate::paging::{bit_set, custom_bit, lemma_u64_bits, page_bytes, PageSize, PageTableEntry, PageTableEntryFlags, ADDR_MASK, FLAGS_MASK};

verus! {

/// The number of bytes of a small page.
pub const PAGE_SIZE: usize = 4096;

/// The custom entry flag that marks a page as borrowed: it belongs to another mapper.
pub const BORROW_BIT: u64 = 0;

/// The custom entry flag that marks a frame as taken from the frame allocator by this mapper.
pub const ALLOCATED_BIT: u64 = 1;

/// The number of bytes one entry of a table at depth `depth` (0 for the top table) covers.
pub open spec fn entry_span(depth: int) -> int {
    if depth <= 0 {
        549755813888
    } else if depth == 1 {
        1073741824
    } else if depth == 2 {
        2097152
    } else {
        4096
    }
}

/// The address whose table indices, top level first, are `ix`.
pub open spec fn address_of(ix: Seq<u16>) -> int {
    ix[0] * 549755813888 + ix[1] * 1073741824 + ix[2] * 2097152 + ix[3] * 4096
}

/// The table indices of `addr`, top level first.
pub open spec fn indices_of(addr: int) -> Seq<u16> {
    seq![
        ((addr / 549755813888) % 512) as u16,
        ((addr / 1073741824) % 512) as u16,
        ((addr / 2097152) % 512) as u16,
        ((addr / 4096) % 512) as u16,
    ]
}

/// Law: the table indices of an address name its page: put back together they give the
/// address within the 48 bits that the four levels of tables translate, rounded down to its
/// page; the index into the top table is the address's 512 GiB slot.
pub proof fn lemma_indices_name_the_page(a: u64)
    ensures
        address_of(indices_of(a as int)) == (a as int % 281474976710656) - (a as int % 4096),
        indices_of(a as int)[0] == (a as int / 549755813888) % 512,
        forall|i: int| 0 <= i < 4 ==> #[trigger] indices_of(a as int)[i] < 512,
{
    assert(((a / 549755813888u64) % 512) * 549755813888 + ((a / 1073741824u64) % 512) * 1073741824 + ((a
        / 2097152u64) % 512) * 2097152 + ((a / 4096u64) % 512) * 4096 == (a % 281474976710656) - (a % 4096))
        by (bit_vector);
    let ix = indices_of(a as int);
    assert(ix[0] == (a / 549755813888u64) % 512);
    assert(ix[1] == (a / 1073741824u64) % 512);
    assert(ix[2] == (a / 2097152u64) % 512);
    assert(ix[3] == (a / 4096u64) % 512);
}

/// The table indices of `addr`, top level first.
pub fn indices(addr: VirtualAddress) -> (r: [u16; 4])
    ensures
        r@ == indices_of(addr.value as int),
        address_of(r@) == (addr.value as int % 281474976710656) - (addr.value as int % 4096),
        r@[0] == (addr.value as int / 549755813888) % 512,
{
    proof {
        lemma_indices_name_the_page(addr.value as u64);
    }
    let a: u64 = addr.as_u64();
    let r = [
        ((a / 549755813888u64) % 512) as u16,
        ((a / 1073741824u64) % 512) as u16,
        ((a / 2097152u64) % 512) as u16,
        ((a / 4096u64) % 512) as u16,
    ];
    proof {
        assert(r@ =~= indices_of(addr.value as int));
    }
    r
}

/// The address whose table indices are `ix`; an index may have run one past the end of its
/// table.
pub fn from_indices(ix: [u16; 4]) -> (r: VirtualAddress)
    requires
        usize::BITS == 64,
        forall|i: int| 0 <= i < 4 ==> #[trigger] ix@[i] <= 512,
    ensures
        r.value == address_of(ix@),
{
    let a: u64 = ix[0] as u64 * 549755813888u64 + ix[1] as u64 * 1073741824u64 + ix[2] as u64 * 2097152u64
        + ix[3] as u64 * 4096u64;
    proof {
        assert(usize::MAX == 0xffff_ffff_ffff_ffffu64);
    }
    VirtualAddress::new(a as usize)
}

/// What the walker knows of the entry under its cursor.
#[derive(Clone, Copy, PartialEq, Eq, Structural, Debug)]
pub struct NavigateCtx {
    pub entry: PageTableEntry,
    pub depth: u8,
    pub is_last_present_entry: bool,
    pub entry_index: u16,
    pub points_to_backing: bool,
    pub addr: VirtualAddress,
    pub size: usize,
    pub is_empty: bool,
}

/// Bit `i` of the entry's value.
pub open spec fn entry_bit(e: PageTableEntry, i: u64) -> bool {
    bit_set(e.value, i)
}

/// The index of the last entry of `table` that is present, or 0 when none is.
pub open spec fn last_present(table: Seq<PageTableEntry>) -> int {
    if exists|i: int| 0 <= i < table.len() && entry_bit(#[trigger] table[i], 0) {
        choose|i: int|
            0 <= i < table.len() && entry_bit(table[i], 0) && forall|j: int|
                i < j < table.len() ==> !entry_bit(#[trigger] table[j], 0)
    } else {
        0
    }
}

/// Whether the entry is present.
pub fn entry_present(e: &PageTableEntry) -> (r: bool)
    ensures
        r == entry_bit(*e, 0),
{
    proof {
        lemma_u64_bits();
    }
    e.value & (1u64 << 0u64) != 0
}

/// Whether the entry maps a huge page.
pub fn entry_huge(e: &PageTableEntry) -> (r: bool)
    ensures
        r == entry_bit(*e, 7),
{
    proof {
        lemma_u64_bits();
    }
    e.value & (1u64 << 7u64) != 0
}

/// Whether custom flag `index` of the entry is set.
pub fn entry_custom(e: &PageTableEntry, index: u64) -> (r: bool)
    requires
        index <= 13,
    ensures
        r == entry_bit(*e, custom_bit(index)),
{
    proof {
        lemma_u64_bits();
    }
    let bit: u64 = if index <= 2 {
        index + 9
    } else {
        index + 52 - 3
    };
    e.value & (1u64 << bit) != 0
}

/// The index of the last present entry of `table`, or 0 when none is present.
pub fn last_present_index(table: &[PageTableEntry]) -> (r: usize)
    ensures
        r == last_present(table@),
        table@.len() > 0 ==> r < table@.len(),
{
    let mut i: usize = table.len();
    while i > 0
        invariant
            0 <= i <= table@.len(),
            forall|j: int| i <= j < table@.len() ==> !entry_bit(#[trigger] table@[j], 0),
        decreases i,
    {
        if entry_present(&table[i - 1]) {
            proof {
                let k = (i - 1) as int;
                let c = choose|c: int|
                    0 <= c < table@.len() && entry_bit(table@[c], 0) && forall|j: int|
                        c < j < table@.len() ==> !entry_bit(#[trigger] table@[j], 0);
                assert(0 <= k < table@.len() && entry_bit(table@[k], 0));
                if c < k {
                    assert(!entry_bit(table@[k], 0));
                } else if c > k {
                    assert(!entry_bit(table@[c], 0));
                }
            }
            return i - 1;
        }
        i = i - 1;
    }
    proof {
        if exists|c: int| 0 <= c < table@.len() && entry_bit(#[trigger] table@[c], 0) {
            let c = choose|c: int| 0 <= c < table@.len() && entry_bit(#[trigger] table@[c], 0);
            assert(!entry_bit(table@[c], 0));
        }
    }
    0
}

/// Whether some entry of `table` is present.
pub fn any_present(table: &[PageTableEntry]) -> (r: bool)
    ensures
        r == exists|i: int| 0 <= i < table@.len() && entry_bit(#[trigger] table@[i], 0),
{
    let mut i: usize = 0;
    while i < table.len()
        invariant
            0 <= i <= table@.len(),
            forall|j: int| 0 <= j < i ==> !entry_bit(#[trigger] table@[j], 0),
        decreases table@.len() - i,
    {
        if entry_present(&table[i]) {
            return true;
        }
        i = i + 1;
    }
    false
}

/// The page size an entry of a table at `depth` maps when the remaining range allows a
/// whole one: 1 GiB at depth 1, 2 MiB at depth 2, never at the top or at the last level.
pub open spec fn huge_size_for(depth: int, remaining: int) -> Option<PageSize> {
    if depth == 1 && page_bytes(PageSize::Size1Gib) <= remaining {
        Some(PageSize::Size1Gib)
    } else if depth == 2 && page_bytes(PageSize::Size2Mib) <= remaining {
        Some(PageSize::Size2Mib)
    } else {
        None
    }
}

/// What the walker asks for after looking at the entry under its cursor.
#[derive(Clone, Copy, PartialEq, Eq, Structural, Debug)]
pub enum Visit {
    /// The table on top of the stack is done: drop it.
    Pop,
    /// The walk is over; it started at this address.
    Finished(VirtualAddress),
    /// The walk stops with this error.
    Failed(ModifyMapError),
    /// Report whether the child table at this address has a present entry.
    ScanChild(PhysicalAddress),
    /// Apply the operation's decision to the entry described by `ctx`.
    Apply { ctx: NavigateCtx, huge_size: Option<PageSize> },
    /// The entry, at this index of the table, is borrowed: nothing is applied to it.
    Skip { index: u16, entry: PageTableEntry },
}

/// What the walker asks for once the entry under its cursor was handled.
#[derive(Clone, Copy, PartialEq, Eq, Structural, Debug)]
pub enum Advance {
    /// Push the child table at this address.
    Descend(PhysicalAddress),
    /// Look at the next entry.
    Continue,
    /// The walk is over; it started at this address.
    Finished(VirtualAddress),
}

/// A walk over the entries that cover a range of virtual addresses, for a mapper that may
/// change them.
pub struct Navigator {
    indices: [u16; 4],
    depth: usize,
    last_entry_index: usize,
    scanned: bool,
    revisit: bool,
    current_addr: usize,
    end: usize,
    start_addr: usize,
    max_depth: usize,
    fail_on_unowned: bool,
    fail_on_missing: bool,
    revisit_parent: bool,
    read_only: bool,
    at_entry: bool,
    pending: Option<(PageTableEntry, Option<PageSize>)>,
}

impl Navigator {
    pub closed spec fn indices_spec(&self) -> Seq<u16> {
        self.indices@
    }

    /// The number of tables on the stack.
    pub closed spec fn depth_spec(&self) -> int {
        self.depth as int
    }

    pub closed spec fn current_spec(&self) -> int {
        self.current_addr as int
    }

    pub closed spec fn end_spec(&self) -> int {
        self.end as int
    }

    pub closed spec fn start_spec(&self) -> int {
        self.start_addr as int
    }

    pub closed spec fn max_depth_spec(&self) -> int {
        self.max_depth as int
    }

    pub closed spec fn revisit_spec(&self) -> bool {
        self.revisit
    }

    /// The index of the last present entry of the top table, once it was looked for.
    pub closed spec fn last_spec(&self) -> Option<int> {
        if self.scanned {
            Some(self.last_entry_index as int)
        } else {
            None
        }
    }

    /// The entry that waits for the answer about its child table.
    pub closed spec fn pending_spec(&self) -> Option<(PageTableEntry, Option<PageSize>)> {
        self.pending
    }

    pub closed spec fn flags_spec(&self) -> (bool, bool, bool) {
        (self.fail_on_unowned, self.fail_on_missing, self.revisit_parent)
    }

    /// The walk only reads: it applies to every entry, borrowed or not, and never looks into
    /// child tables ahead.
    pub closed spec fn read_only_spec(&self) -> bool {
        self.read_only
    }

    /// The cursor is on an entry that was handed out to be handled.
    pub closed spec fn at_entry_spec(&self) -> bool {
        self.at_entry
    }

    /// The walker is consistent: at most four tables, indices at most one past the end of a
    /// table, and the cursor at the address of the indices.
    pub open spec fn wf(&self) -> bool {
        &&& usize::BITS == 64
        &&& 0 <= self.depth_spec() <= 4
        &&& self.indices_spec().len() == 4
        &&& forall|i: int| 0 <= i < 4 ==> #[trigger] self.indices_spec()[i] <= 512
        &&& self.current_spec() == address_of(self.indices_spec())
        &&& self.max_depth_spec() <= 3
        &&& (self.last_spec() matches Some(l) ==> 0 <= l < 512)
        &&& forall|i: int| 0 <= i < self.depth_spec() - 1 ==> #[trigger] self.indices_spec()[i] < 512
        &&& self.at_entry_spec() ==> 1 <= self.depth_spec() && self.indices_spec()[self.depth_spec() - 1] < 512
        &&& self.pending_spec() is Some ==> self.at_entry_spec()
    }

    /// Start a walk over the `size` bytes from `start` in the tree whose top table is on the
    /// stack; entries deeper than `max_depth` (at most 3) are not entered.
    pub fn new(
        start: VirtualAddress,
        size: usize,
        max_depth: Option<usize>,
        fail_on_unowned: bool,
        fail_on_missing: bool,
        revisit_parent: bool,
    ) -> (r: Self)
        requires
            usize::BITS == 64,
            start.value + size <= usize::MAX,
        ensures
            r.wf(),
            r.depth_spec() == 1,
            r.indices_spec() == indices_of(start.value as int),
            r.start_spec() == address_of(indices_of(start.value as int)),
            r.current_spec() == r.start_spec(),
            r.end_spec() == start.value + size,
            r.max_depth_spec() == match max_depth {
                Some(d) => if d < 3 {
                    d as int
                } else {
                    3
                },
                None => 3,
            },
            r.last_spec() is None,
            !r.revisit_spec(),
            r.pending_spec() is None,
            !r.at_entry_spec(),
            !r.read_only_spec(),
            r.flags_spec() == (fail_on_unowned, fail_on_missing, revisit_parent),
    {
        let depth_limit: usize = match max_depth {
            Some(d) => if d < 3 {
                d
            } else {
                3
            },
            None => 3,
        };
        let ix = indices(start);
        proof {
            assert forall|i: int| 0 <= i < 4 implies #[trigger] ix@[i] <= 512 by {}
        }
        let start_addr = from_indices(ix).value;
        Navigator {
            indices: ix,
            depth: 1,
            last_entry_index: 0,
            scanned: false,
            revisit: false,
            current_addr: start_addr,
            end: start.value + size,
            start_addr,
            max_depth: depth_limit,
            fail_on_unowned,
            fail_on_missing,
            revisit_parent,
            read_only: false,
            at_entry: false,
            pending: None,
        }
    }

    /// Start a walk that only reads the `size` bytes from `start`.
    pub fn new_read_only(start: VirtualAddress, size: usize, max_depth: Option<usize>) -> (r: Self)
        requires
            usize::BITS == 64,
            start.value + size <= usize::MAX,
        ensures
            r.wf(),
            r.depth_spec() == 1,
            r.indices_spec() == indices_of(start.value as int),
            r.start_spec() == address_of(indices_of(start.value as int)),
            r.current_spec() == r.start_spec(),
            r.end_spec() == start.value + size,
            r.max_depth_spec() == match max_depth {
                Some(d) => if d < 3 {
                    d as int
                } else {
                    3
                },
                None => 3,
            },
            r.last_spec() is None,
            !r.revisit_spec(),
            r.pending_spec() is None,
            !r.at_entry_spec(),
            r.read_only_spec(),
            r.flags_spec() == (false, false, false),
    {
        let mut r = Self::new(start, size, max_depth, false, false, false);
        r.read_only = true;
        r
    }
}

/// The description of the entry `entry` at depth `depth`, under the cursor at `addr`.
pub open spec fn ctx_for(
    entry: PageTableEntry,
    depth: int,
    index: int,
    last: int,
    addr: int,
    is_empty: bool,
) -> NavigateCtx {
    NavigateCtx {
        entry,
        depth: depth as u8,
        is_last_present_entry: last == index,
        entry_index: index as u16,
        points_to_backing: (entry_bit(entry, 7) && entry_bit(entry, 0)) || depth == 3,
        addr: VirtualAddress { value: addr as usize },
        size: entry_span(depth) as usize,
        is_empty,
    }
}

impl Navigator {
    /// The description of `entry`, the entry under the cursor.
    fn ctx(&self, entry: PageTableEntry, is_empty: bool) -> (r: NavigateCtx)
        requires
            self.wf(),
            self.at_entry_spec(),
            self.last_spec() is Some,
        ensures
            r == ctx_for(
                entry,
                self.depth_spec() - 1,
                self.indices_spec()[self.depth_spec() - 1] as int,
                self.last_spec().unwrap(),
                self.current_spec(),
                is_empty,
            ),
    {
        let depth: usize = self.depth - 1;
        let size: usize = if depth == 0 {
            proof {
                assert(usize::MAX == 0xffff_ffff_ffff_ffffu64);
            }
            PAGE_SIZE * 512 * 512 * 512
        } else if depth == 1 {
            PAGE_SIZE * 512 * 512
        } else if depth == 2 {
            PAGE_SIZE * 512
        } else {
            PAGE_SIZE
        };
        let index = self.indices[depth];
        NavigateCtx {
            entry,
            depth: depth as u8,
            is_last_present_entry: self.last_entry_index == index as usize,
            entry_index: index,
            points_to_backing: (entry_huge(&entry) && entry_present(&entry)) || depth == 3,
            addr: VirtualAddress::new(self.current_addr),
            size,
            is_empty,
        }
    }
}

/// The number of bytes from `current` to `end`, or 0 past it.
pub open spec fn remaining(current: int, end: int) -> int {
    if current <= end {
        end - current
    } else {
        0
    }
}

impl Navigator {
    /// The page size the entry under the cursor maps when the rest of the range allows it.
    fn huge_size(&self) -> (r: Option<PageSize>)
        requires
            self.wf(),
            self.depth_spec() >= 1,
        ensures
            r == huge_size_for(self.depth_spec() - 1, remaining(self.current_spec(), self.end_spec())),
    {
        let left: usize = if self.current_addr <= self.end {
            self.end - self.current_addr
        } else {
            0
        };
        if self.depth == 2 && PageSize::Size1Gib.as_usize() <= left {
            Some(PageSize::Size1Gib)
        } else if self.depth == 3 && PageSize::Size2Mib.as_usize() <= left {
            Some(PageSize::Size2Mib)
        } else {
            None
        }
    }

    /// Look at the entry under the cursor of the table on top of the stack, `table`.
    ///
    /// - Without a table left, the walk is over.
    /// - When a read-only walk reached the end of the range, it is over.
    /// - Past the last entry of the table, the table is popped: its index goes back to 0 and
    ///   the parent's moves on, unless the parent is to be visited again.
    /// - A missing entry fails the walk when missing entries are refused and the cursor is not
    ///   at the end of the range.
    /// - A borrowed present entry fails the walk when unowned entries are refused, and is
    ///   skipped otherwise; a read-only walk applies to it as to any other.
    /// - Otherwise the decision is applied to the entry, after the child table was looked into
    ///   when the entry points at one that the walk may enter.
    #[verifier::spinoff_prover]
    #[verifier::rlimit(60)]
    pub fn visit(&mut self, table: &[PageTableEntry]) -> (r: Visit)
        requires
            old(self).wf(),
            !old(self).at_entry_spec(),
            table@.len() == 512,
        ensures
            final(self).wf(),
            final(self).start_spec() == old(self).start_spec(),
            final(self).end_spec() == old(self).end_spec(),
            final(self).max_depth_spec() == old(self).max_depth_spec(),
            final(self).flags_spec() == old(self).flags_spec(),
            final(self).read_only_spec() == old(self).read_only_spec(),
            ({
                let d = old(self).depth_spec();
                let idx = old(self).indices_spec()[d - 1] as int;
                let last = match old(self).last_spec() {
                    Some(l) => l,
                    None => last_present(table@),
                };
                let (fail_on_unowned, fail_on_missing, revisit_parent) = old(self).flags_spec();
                let entry = table@[idx];
                let present = entry_bit(entry, 0);
                let borrowed = entry_bit(entry, custom_bit(BORROW_BIT));
                let huge = huge_size_for(d - 1, remaining(old(self).current_spec(), old(self).end_spec()));
                if d == 0 || (old(self).read_only_spec() && old(self).current_spec() >= old(self).end_spec()) {
                    r == Visit::Finished(VirtualAddress { value: old(self).start_spec() as usize })
                        && final(self).depth_spec() == d && !final(self).at_entry_spec()
                } else if idx >= 512 {
                    let popped = old(self).indices_spec().update(d - 1, 0);
                    let ix = if revisit_parent || d == 1 {
                        popped
                    } else {
                        popped.update(d - 2, (popped[d - 2] + 1) as u16)
                    };
                    &&& r == Visit::Pop
                    &&& final(self).depth_spec() == d - 1
                    &&& final(self).indices_spec() == ix
                    &&& final(self).last_spec() is None
                    &&& final(self).revisit_spec() == (if revisit_parent { true } else { old(self).revisit_spec() })
                    &&& !final(self).at_entry_spec()
                } else {
                    &&& final(self).depth_spec() == d
                    &&& final(self).indices_spec() == old(self).indices_spec()
                    &&& final(self).last_spec() == Some(last)
                    &&& final(self).revisit_spec() == old(self).revisit_spec()
                    &&& if !old(self).read_only_spec() && !present && fail_on_missing && old(self).current_spec()
                        != old(self).end_spec() {
                        r == Visit::Failed(ModifyMapError::NotMapped)
                    } else if !old(self).read_only_spec() && present && borrowed {
                        if fail_on_unowned {
                            r == Visit::Failed(ModifyMapError::NotOwned)
                        } else {
                            r == (Visit::Skip { index: idx as u16, entry }) && final(self).at_entry_spec()
                                && final(self).pending_spec() is None
                        }
                    } else if !old(self).read_only_spec() && present && !entry_bit(entry, 7) && d
                        <= old(self).max_depth_spec() {
                        &&& r == Visit::ScanChild(PhysicalAddress { value: (entry.value & ADDR_MASK) as usize })
                        &&& final(self).pending_spec() == Some((entry, huge))
                        &&& final(self).at_entry_spec()
                    } else {
                        &&& r == (Visit::Apply {
                            ctx: ctx_for(entry, d - 1, idx, last, old(self).current_spec(), false),
                            huge_size: huge,
                        })
                        &&& final(self).at_entry_spec()
                        &&& final(self).pending_spec() is None
                    }
                }
            }),
    {
        if self.depth == 0 || (self.read_only && self.current_addr >= self.end) {
            return Visit::Finished(VirtualAddress::new(self.start_addr));
        }
        if !self.scanned {
            self.last_entry_index = last_present_index(table);
            self.scanned = true;
        }
        let d: usize = self.depth;
        let idx: u16 = self.indices[d - 1];
        if idx as usize >= table.len() {
            self.depth = d - 1;
            self.indices[d - 1] = 0;
            self.scanned = false;
            if !self.revisit_parent {
                if d >= 2 {
                    self.indices[d - 2] = self.indices[d - 2] + 1;
                }
            } else {
                self.revisit = true;
            }
            proof {
                assert forall|i: int| 0 <= i < 4 implies #[trigger] self.indices@[i] <= 512 by {}
            }
            self.current_addr = from_indices(self.indices).value;
            proof {
                let popped = old(self).indices_spec().update(d - 1, 0);
                if !self.revisit_parent && d >= 2 {
                    assert(self.indices@ =~= popped.update(d - 2, (popped[d - 2] + 1) as u16));
                } else {
                    assert(self.indices@ =~= popped);
                }
            }
            return Visit::Pop;
        }
        let entry = table[idx as usize];
        let present = entry_present(&entry);
        let huge = self.huge_size();
        if !self.read_only && !present && self.fail_on_missing && self.current_addr != self.end {
            return Visit::Failed(ModifyMapError::NotMapped);
        }
        if !self.read_only && present && entry_custom(&entry, BORROW_BIT) {
            if self.fail_on_unowned {
                return Visit::Failed(ModifyMapError::NotOwned);
            }
            self.at_entry = true;
            return Visit::Skip { index: idx, entry };
        }
        self.at_entry = true;
        if !self.read_only && present && !entry_huge(&entry) && d <= self.max_depth {
            self.pending = Some((entry, huge));
            return Visit::ScanChild(entry.addr());
        }
        Visit::Apply { ctx: self.ctx(entry, false), huge_size: huge }
    }

    /// The child table of the waiting entry is `child`: apply the decision to the entry,
    /// telling whether the child holds a present entry.
    pub fn child_scanned(&mut self, child: &[PageTableEntry]) -> (r: Visit)
        requires
            old(self).wf(),
            old(self).pending_spec() is Some,
            old(self).last_spec() is Some,
        ensures
            final(self).wf(),
            final(self).pending_spec() is None,
            final(self).at_entry_spec(),
            final(self).depth_spec() == old(self).depth_spec(),
            final(self).indices_spec() == old(self).indices_spec(),
            final(self).last_spec() == old(self).last_spec(),
            final(self).revisit_spec() == old(self).revisit_spec(),
            final(self).start_spec() == old(self).start_spec(),
            final(self).end_spec() == old(self).end_spec(),
            final(self).max_depth_spec() == old(self).max_depth_spec(),
            final(self).flags_spec() == old(self).flags_spec(),
            final(self).read_only_spec() == old(self).read_only_spec(),
            ({
                let (entry, huge) = old(self).pending_spec().unwrap();
                let d = old(self).depth_spec();
                r == (Visit::Apply {
                    ctx: ctx_for(
                        entry,
                        d - 1,
                        old(self).indices_spec()[d - 1] as int,
                        old(self).last_spec().unwrap(),
                        old(self).current_spec(),
                        !exists|i: int| 0 <= i < child@.len() && entry_bit(#[trigger] child@[i], 0),
                    ),
                    huge_size: huge,
                })
            }),
    {
        let (entry, huge) = match self.pending.take() {
            Some(p) => p,
            None => {
                return Visit::Finished(VirtualAddress::new(self.start_addr));
            },
        };
        let is_empty = !any_present(child);
        Visit::Apply { ctx: self.ctx(entry, is_empty), huge_size: huge }
    }

    /// The entry under the cursor was handled and now holds `entry`: enter its child table if
    /// it points at one that the walk may enter and the entry is not visited a second time;
    /// otherwise move to the next entry, and end a walk that may change entries at the end of
    /// the range.
    pub fn advance(&mut self, entry: PageTableEntry) -> (r: Advance)
        requires
            old(self).wf(),
            old(self).at_entry_spec(),
            old(self).pending_spec() is None,
        ensures
            final(self).wf(),
            !final(self).at_entry_spec(),
            final(self).pending_spec() is None,
            final(self).start_spec() == old(self).start_spec(),
            final(self).end_spec() == old(self).end_spec(),
            final(self).max_depth_spec() == old(self).max_depth_spec(),
            final(self).flags_spec() == old(self).flags_spec(),
            final(self).read_only_spec() == old(self).read_only_spec(),
            ({
                let d = old(self).depth_spec();
                if entry_bit(entry, 0) && d <= old(self).max_depth_spec() && !entry_bit(entry, 7)
                    && !old(self).revisit_spec() {
                    &&& r == Advance::Descend(PhysicalAddress { value: (entry.value & ADDR_MASK) as usize })
                    &&& final(self).depth_spec() == d + 1
                    &&& final(self).indices_spec() == old(self).indices_spec()
                    &&& final(self).last_spec() is None
                    &&& final(self).revisit_spec() == old(self).revisit_spec()
                } else {
                    let ix = old(self).indices_spec().update(
                        d - 1,
                        (old(self).indices_spec()[d - 1] + 1) as u16,
                    );
                    &&& final(self).depth_spec() == d
                    &&& final(self).indices_spec() == ix
                    &&& final(self).last_spec() == old(self).last_spec()
                    &&& !final(self).revisit_spec()
                    &&& if !old(self).read_only_spec() && address_of(ix) >= old(self).end_spec() {
                        r == Advance::Finished(VirtualAddress { value: old(self).start_spec() as usize })
                    } else {
                        r == Advance::Continue
                    }
                }
            }),
    {
        self.at_entry = false;
        let d: usize = self.depth;
        if entry_present(&entry) && d <= self.max_depth && !entry_huge(&entry) && !self.revisit {
            self.depth = d + 1;
            self.scanned = false;
            return Advance::Descend(entry.addr());
        }
        self.revisit = false;
        self.indices[d - 1] = self.indices[d - 1] + 1;
        proof {
            assert forall|i: int| 0 <= i < 4 implies #[trigger] self.indices@[i] <= 512 by {}
        }
        self.current_addr = from_indices(self.indices).value;
        if !self.read_only && self.current_addr >= self.end {
            return Advance::Finished(VirtualAddress::new(self.start_addr));
        }
        Advance::Continue
    }
}

/// Law: the cursor of a walk covers the addresses in order, without gaps. Moving past an entry
/// of a table at depth `d` moves the cursor by the span of that entry, which is the size that
/// the entry's description carries; leaving a table past its last entry, for the next entry of
/// the parent, leaves the cursor where it was.
pub proof fn lemma_cursor_in_order(ix: Seq<u16>, d: int)
    requires
        usize::BITS == 64,
        ix.len() == 4,
        1 <= d <= 4,
        forall|i: int| 0 <= i < 4 ==> #[trigger] ix[i] <= 512,
    ensures
        address_of(ix.update(d - 1, (ix[d - 1] + 1) as u16)) == address_of(ix) + entry_span(d - 1),
        forall|e: PageTableEntry, index: int, last: int, addr: int, empty: bool|
            #[trigger] ctx_for(e, d - 1, index, last, addr, empty).size == entry_span(d - 1),
        d >= 2 && ix[d - 1] == 512 ==> address_of(ix.update(d - 1, 0).update(d - 2, (ix[d - 2] + 1) as u16))
            == address_of(ix),
{
    assert(ix[0] <= 512 && ix[1] <= 512 && ix[2] <= 512 && ix[3] <= 512);
}

/// The flag bits the processor reads: all flags but the custom ones, bits 9 to 11 and 52 to 62.
pub const NATIVE_FLAGS_MASK: u64 = 0x8000_0000_0000_01ffu64;

/// Whether the processor's cached translation has to be dropped after an entry changed from
/// `old` to `new`: when its frame address or a flag that the processor reads differs. A change
/// of custom flags alone, such as marking a page borrowed, needs none.
pub fn needs_flush(old: PageTableEntry, new: PageTableEntry) -> (r: bool)
    ensures
        r == ((old.value & ADDR_MASK) != (new.value & ADDR_MASK) || (old.value & NATIVE_FLAGS_MASK) != (
        new.value & NATIVE_FLAGS_MASK)),
{
    (old.value & ADDR_MASK) != (new.value & ADDR_MASK) || (old.value & NATIVE_FLAGS_MASK) != (new.value
        & NATIVE_FLAGS_MASK)
}

/// The entry holds the flags `flags` and the address `addr`, each cut to its part.
pub open spec fn holds(e: PageTableEntry, flags: u64, addr: u64) -> bool {
    e.value & FLAGS_MASK == flags & FLAGS_MASK && e.value & ADDR_MASK == addr & ADDR_MASK
}

/// The decision of sharing: a present, owned entry that maps memory becomes borrowed; any
/// other entry is left alone.
pub fn share_entry(ctx: NavigateCtx) -> (r: Result<Option<PageTableEntry>, ModifyMapError>)
    ensures
        r is Ok,
        entry_bit(ctx.entry, custom_bit(BORROW_BIT)) || !entry_bit(ctx.entry, 0) || !ctx.points_to_backing
            ==> r == Ok::<Option<PageTableEntry>, ModifyMapError>(None),
        !(entry_bit(ctx.entry, custom_bit(BORROW_BIT)) || !entry_bit(ctx.entry, 0) || !ctx.points_to_backing)
            ==> (r matches Ok(Some(e)) && holds(
            e,
            (ctx.entry.value & FLAGS_MASK) | (1u64 << custom_bit(BORROW_BIT)),
            ctx.entry.value,
        )),
{
    let mut entry = ctx.entry;
    if entry_custom(&entry, BORROW_BIT) || !entry_present(&entry) || !ctx.points_to_backing {
        return Ok(None);
    }
    entry.set_flags(entry.flags().set_custom::<BORROW_BIT>(true));
    Ok(Some(entry))
}

/// What unmapping does to one entry.
#[derive(Clone, Copy, PartialEq, Eq, Structural, Debug)]
pub struct Unmapped {
    /// The entry, now empty.
    pub entry: PageTableEntry,
    /// The frame to give back to the frame allocator, when this mapper took it from there.
    pub freed: Option<PhysicalAddress>,
    /// The number of bytes the entry mapped.
    pub size: usize,
}

/// The number of bytes of a request for an entry: its huge page size, or a small page.
pub open spec fn request_bytes(huge_size: Option<PageSize>) -> int {
    match huge_size {
        Some(s) => page_bytes(s),
        None => 4096,
    }
}

/// The decision of unmapping: a present, owned entry that maps memory, or that points at an
/// empty table, is emptied, and its frame is given back when this mapper took it; a mapping
/// larger than the `size` bytes requested fails the walk when that is refused.
pub fn dealloc_entry(
    ctx: NavigateCtx,
    huge_size: Option<PageSize>,
    size: usize,
    fail_on_out_of_bounds: bool,
) -> (r: Result<Option<Unmapped>, ModifyMapError>)
    ensures
        ({
            let present = entry_bit(ctx.entry, 0);
            let borrowed = entry_bit(ctx.entry, custom_bit(BORROW_BIT));
            if (!ctx.points_to_backing && !ctx.is_empty) || !present || borrowed {
                r == Ok::<Option<Unmapped>, ModifyMapError>(None)
            } else if request_bytes(huge_size) > size && fail_on_out_of_bounds {
                r == Err::<Option<Unmapped>, ModifyMapError>(ModifyMapError::OutOfBounds)
            } else {
                r matches Ok(Some(u)) && u.entry.value == 0 && u.size == request_bytes(huge_size) && u.freed == (
                if entry_bit(ctx.entry, custom_bit(ALLOCATED_BIT)) {
                    Some(PhysicalAddress { value: (ctx.entry.value & ADDR_MASK) as usize })
                } else {
                    None
                })
            }
        }),
{
    let mut entry = ctx.entry;
    if (!ctx.points_to_backing && !ctx.is_empty) || !entry_present(&entry) || entry_custom(&entry, BORROW_BIT) {
        return Ok(None);
    }
    let request: usize = match huge_size {
        Some(s) => s.as_usize(),
        None => PageSize::Size4Kib.as_usize(),
    };
    if request > size && fail_on_out_of_bounds {
        return Err(ModifyMapError::OutOfBounds);
    }
    let freed = if entry_custom(&entry, ALLOCATED_BIT) {
        Some(entry.addr())
    } else {
        None
    };
    entry.set_flags(PageTableEntryFlags::null());
    entry.set_addr(PhysicalAddress::null());
    proof {
        crate::paging::lemma_entry_bits();
        assert(0u64 & FLAGS_MASK == 0 && 0u64 & ADDR_MASK == 0) by (bit_vector);
        assert(entry.value == (entry.value & FLAGS_MASK) | (entry.value & ADDR_MASK));
        assert((0u64 | 0u64) == 0u64) by (bit_vector);
    }
    Ok(Some(Unmapped { entry, freed, size: request }))
}

/// The flags a mapped entry gets: its own and those of the mapping, without the cache-disable
/// and no-execute bits; then, for an entry that was missing, the huge bit when a huge page is
/// mapped, the cache-disable and no-execute bits that the properties ask for when the frame
/// is given, and the allocated bit when the frame is taken from the allocator.
pub open spec fn mapped_flags(
    entry: u64,
    flags: u64,
    present: bool,
    huge: bool,
    given: bool,
    props: MemoryProperties,
    allocated: bool,
) -> u64 {
    let base = ((entry & FLAGS_MASK) | flags) & !(1u64 << 4u64) & !(1u64 << 63u64);
    if present {
        base
    } else {
        let h = if huge { base | (1u64 << 7u64) } else { base };
        let c = if given && props.mmio_spec() { h | (1u64 << 4u64) } else { h };
        let x = if given && !props.executable_spec() { c | (1u64 << 63u64) } else { c };
        if allocated { x | (1u64 << custom_bit(ALLOCATED_BIT)) } else { x }
    }
}

/// The low flag bits lie in the part of an entry that holds its flags.
proof fn lemma_low_flag_bits()
    ensures
        bit_set(FLAGS_MASK, 0),
        bit_set(FLAGS_MASK, 1),
        bit_set(FLAGS_MASK, 2),
{
    assert(bit_set(0xfff0_0000_0000_0fffu64, 0) && bit_set(0xfff0_0000_0000_0fffu64, 1) && bit_set(
        0xfff0_0000_0000_0fffu64,
        2,
    )) by (bit_vector);
}

/// Law: an entry that was missing and that the mapping decision fills in maps a huge page
/// (bit 7 set) when a huge page is asked for; when none is asked for, bit 7 is set only if the
/// old entry or the mapping's flags already had it.
pub proof fn lemma_missing_entry_huge_bit(
    n: PageTableEntry,
    e: u64,
    flags: u64,
    huge: bool,
    given: bool,
    props: MemoryProperties,
    allocated: bool,
    frame: u64,
)
    requires
        holds(n, mapped_flags(e, flags, false, huge, given, props, allocated), frame),
    ensures
        entry_bit(n, 7) == (huge || bit_set(e, 7) || bit_set(flags, 7)),
{
    lemma_u64_bits();
    assert(custom_bit(ALLOCATED_BIT) == 10);
    assert(bit_set(FLAGS_MASK, 7)) by {
        assert(bit_set(0xfff0_0000_0000_0fffu64, 7)) by (bit_vector);
    }
    let m = mapped_flags(e, flags, false, huge, given, props, allocated);
    let base = ((e & FLAGS_MASK) | flags) & !(1u64 << 4u64) & !(1u64 << 63u64);
    let h = if huge { base | (1u64 << 7u64) } else { base };
    let c = if given && props.mmio_spec() { h | (1u64 << 4u64) } else { h };
    let x = if given && !props.executable_spec() { c | (1u64 << 63u64) } else { c };
    let z = if allocated { x | (1u64 << 10u64) } else { x };
    assert(m == z);
    assert(bit_set((e & FLAGS_MASK) | flags, 7) == (bit_set(e, 7) || bit_set(flags, 7)));
    assert(bit_set(((e & FLAGS_MASK) | flags) & !(1u64 << 4u64), 7) == (bit_set(e, 7) || bit_set(flags, 7)));
    assert(bit_set(base, 7) == (bit_set(e, 7) || bit_set(flags, 7)));
    assert(bit_set(h, 7) == (huge || bit_set(e, 7) || bit_set(flags, 7)));
    assert(bit_set(c, 7) == bit_set(h, 7));
    assert(bit_set(x, 7) == bit_set(c, 7));
    assert(bit_set(z, 7) == bit_set(x, 7));
    assert(bit_set(n.value & FLAGS_MASK, 7) == bit_set(z & FLAGS_MASK, 7));
}

/// Law: an entry that the mapping decision fills in grants the flags of the mapping that a
/// lookup gathers from every level: present, writable and user-accessible, as the mapping's
/// flags have them.
pub proof fn lemma_mapped_entry_grants(
    e: u64,
    flags: u64,
    present: bool,
    huge: bool,
    given: bool,
    props: MemoryProperties,
    allocated: bool,
)
    ensures
        forall|i: u64|
            i <= 2 && bit_set(flags, i) ==> #[trigger] bit_set(
                mapped_flags(e, flags, present, huge, given, props, allocated) & FLAGS_MASK,
                i,
            ),
{
    lemma_u64_bits();
    lemma_low_flag_bits();
    assert(custom_bit(ALLOCATED_BIT) == 10);
    let base = ((e & FLAGS_MASK) | flags) & !(1u64 << 4u64) & !(1u64 << 63u64);
    let h = if huge { base | (1u64 << 7u64) } else { base };
    let c = if given && props.mmio_spec() { h | (1u64 << 4u64) } else { h };
    let x = if given && !props.executable_spec() { c | (1u64 << 63u64) } else { c };
    let z = if allocated { x | (1u64 << 10u64) } else { x };
    assert forall|i: u64| i <= 2 && bit_set(flags, i) implies #[trigger] bit_set(
        mapped_flags(e, flags, present, huge, given, props, allocated) & FLAGS_MASK,
        i,
    ) by {
        assert(bit_set((e & FLAGS_MASK) | flags, i));
        assert(bit_set(((e & FLAGS_MASK) | flags) & !(1u64 << 4u64), i));
        assert(bit_set(base, i));
        assert(bit_set(h, i));
        assert(bit_set(c, i));
        assert(bit_set(x, i));
        assert(bit_set(z, i));
        assert(bit_set(base & FLAGS_MASK, i));
        assert(bit_set(z & FLAGS_MASK, i));
    }
}

/// Law: a missing page that the mapping decision fills in, read back through the flags that a
/// lookup gathers from every level, is readable, writable and kernel-only exactly as the
/// mapping asked, at the frame it was given, when the levels above grant the mapping's flags,
/// as the mapping decision makes them do.
pub proof fn lemma_mapped_page_reads_back(
    upper: u64,
    leaf: u64,
    props: MemoryProperties,
    flags: u64,
    given: bool,
    allocated: bool,
    frame: u64,
)
    requires
        forall|i: u64| i < 64 ==> #[trigger] bit_set(flags, i) == flags_for(props, true, i),
        holds(
            PageTableEntry { value: leaf },
            mapped_flags(0, flags, false, false, given, props, allocated),
            frame,
        ),
        bit_set(flags, 0) ==> bit_set(upper, 0),
        bit_set(flags, 1) ==> bit_set(upper, 1),
        bit_set(flags, 2) ==> bit_set(upper, 2),
    ensures
        ({
            let gathered = upper & (leaf & FLAGS_MASK);
            &&& bit_set(gathered, 0) == props.readable_spec()
            &&& bit_set(gathered, 1) == props.writable_spec()
            &&& !bit_set(gathered, 2) == props.kernel_spec()
            &&& (leaf & ADDR_MASK) == (frame & ADDR_MASK)
        }),
{
    lemma_props_round_trip(props, flags);
    lemma_u64_bits();
    lemma_low_flag_bits();
    assert(custom_bit(ALLOCATED_BIT) == 10);
    let base = ((0u64 & FLAGS_MASK) | flags) & !(1u64 << 4u64) & !(1u64 << 63u64);
    let c = if given && props.mmio_spec() { base | (1u64 << 4u64) } else { base };
    let x = if given && !props.executable_spec() { c | (1u64 << 63u64) } else { c };
    let z = if allocated { x | (1u64 << 10u64) } else { x };
    assert(mapped_flags(0, flags, false, false, given, props, allocated) == z);
    assert(leaf & FLAGS_MASK == z & FLAGS_MASK);
    assert forall|i: u64| i <= 2 implies #[trigger] bit_set(upper & (leaf & FLAGS_MASK), i) == (bit_set(
        flags,
        i,
    ) && bit_set(upper, i)) by {
        assert(!bit_set(0u64 & FLAGS_MASK, i));
        assert(bit_set((0u64 & FLAGS_MASK) | flags, i) == bit_set(flags, i));
        assert(bit_set(((0u64 & FLAGS_MASK) | flags) & !(1u64 << 4u64), i) == bit_set(flags, i));
        assert(bit_set(base, i) == bit_set(flags, i));
        assert(bit_set(c, i) == bit_set(flags, i));
        assert(bit_set(x, i) == bit_set(flags, i));
        assert(bit_set(z, i) == bit_set(flags, i));
        assert(bit_set(z & FLAGS_MASK, i) == bit_set(flags, i));
        assert(bit_set(leaf & FLAGS_MASK, i) == bit_set(flags, i));
    }
    assert(bit_set(upper & (leaf & FLAGS_MASK), 0) == (bit_set(flags, 0) && bit_set(upper, 0)));
    assert(bit_set(upper & (leaf & FLAGS_MASK), 1) == (bit_set(flags, 1) && bit_set(upper, 1)));
    assert(bit_set(upper & (leaf & FLAGS_MASK), 2) == (bit_set(flags, 2) && bit_set(upper, 2)));
}

/// The decision of mapping, for one entry of the walk.
///
/// An entry that already maps memory fails the walk unless it maps the frame asked for. A
/// missing entry gets a frame: the next of the given frames for an entry that maps memory, or
/// else a zeroed frame from the allocator, and the walk fails when none is left. Every entry
/// visited gets the flags of the mapping. Each page placed, whichever frame backs it, adds its
/// size to `total_size`, the size of the mapped region.
///
/// Returns the new entry and, for a frame taken from the allocator, the frame and its size:
/// it has to be zeroed before use.
pub fn alloc_missing(
    ctx: NavigateCtx,
    huge_size: Option<PageSize>,
    flags: PageTableEntryFlags,
    properties: MemoryProperties,
    phys: &mut Option<PhysicalAddress>,
    total_size: &mut usize,
    frames: &mut FrameAllocator,
) -> (r: Result<(PageTableEntry, Option<(PhysicalAddress, usize)>), NewMapError>)
    requires
        old(frames).ready(),
        *old(phys) matches Some(p) ==> p.value + request_bytes(huge_size) <= usize::MAX,
        *old(total_size) + request_bytes(huge_size) <= usize::MAX,
    ensures
        final(frames).ready(),
        !entry_bit(ctx.entry, 0) ==> (r matches Ok((n, _)) ==> entry_bit(n, 7) == (huge_size is Some
            || entry_bit(ctx.entry, 7) || bit_set(flags@, 7))),
        ({
            let e = ctx.entry;
            let present = entry_bit(e, 0);
            let request = request_bytes(huge_size);
            let given = ctx.points_to_backing && *old(phys) is Some;
            if ctx.points_to_backing && present && !(*old(phys) matches Some(p) && p.value == (e.value & ADDR_MASK)
                as usize) {
                &&& r == Err::<(PageTableEntry, Option<(PhysicalAddress, usize)>), NewMapError>(
                    NewMapError::AlreadyMapped,
                )
                &&& *final(phys) == *old(phys)
                &&& *final(total_size) == *old(total_size)
                &&& final(frames).zones_spec() == old(frames).zones_spec()
            } else if present {
                &&& r matches Ok((n, z)) && z is None && holds(
                    n,
                    mapped_flags(e.value, flags@, true, false, false, properties, false),
                    e.value,
                )
                &&& *final(phys) == *old(phys)
                &&& *final(total_size) == *old(total_size)
                &&& final(frames).zones_spec() == old(frames).zones_spec()
            } else if given {
                let p = (*old(phys)).unwrap();
                &&& r matches Ok((n, z)) && z is None && holds(
                    n,
                    mapped_flags(e.value, flags@, false, huge_size is Some, true, properties, false),
                    p.value as u64,
                )
                &&& *final(phys) == Some(PhysicalAddress { value: (p.value + request) as usize })
                &&& *final(total_size) == *old(total_size) + request
                &&& final(frames).zones_spec() == old(frames).zones_spec()
            } else {
                &&& *final(phys) == *old(phys)
                &&& *final(total_size) == *old(total_size) + if r is Ok && ctx.points_to_backing {
                    request
                } else {
                    0
                }
                &&& r is Err ==> r == Err::<(PageTableEntry, Option<(PhysicalAddress, usize)>), NewMapError>(
                    NewMapError::OutOfFrames,
                ) && FrameAllocator::refused(
                    old(frames).zones_spec().unwrap(),
                    final(frames).zones_spec().unwrap(),
                    crate::power::next_pow2(request as nat) as int,
                )
                &&& r matches Ok((n, z)) ==> z matches Some((a, s)) && s >= request && holds(
                    n,
                    mapped_flags(e.value, flags@, false, huge_size is Some, false, properties, true),
                    a.value as u64,
                ) && exists|i: int|
                    #[trigger] FrameAllocator::served_by(
                        old(frames).zones_spec().unwrap(),
                        final(frames).zones_spec().unwrap(),
                        i,
                        s as int,
                        a.value as int,
                    )
            }
        }),
{
    let mut entry = ctx.entry;
    let mut new_flags = (entry.flags() | flags).set_no_cache(false).set_no_exec(false);
    let request: usize = match huge_size {
        Some(s) => s.as_usize(),
        None => PageSize::Size4Kib.as_usize(),
    };
    let present = entry_present(&entry);
    if ctx.points_to_backing && present {
        let unchanged = match *phys {
            Some(p) => p == entry.addr(),
            None => false,
        };
        if !unchanged {
            return Err(NewMapError::AlreadyMapped);
        }
    }
    let mut zero: Option<(PhysicalAddress, usize)> = None;
    if !present {
        if huge_size.is_some() {
            new_flags = new_flags.set_huge(true);
        }
        let mut frame_addr: Option<PhysicalAddress> = None;
        if ctx.points_to_backing {
            match *phys {
                Some(p) => {
                    frame_addr = Some(p);
                    *phys = Some(PhysicalAddress::new(p.value + request));
                    *total_size = *total_size + request;
                    if properties.mmio() {
                        new_flags = new_flags.set_no_cache(true);
                    }
                    if !properties.executable() {
                        new_flags = new_flags.set_no_exec(true);
                    }
                },
                None => {},
            }
        }
        let frame = match frame_addr {
            Some(a) => a,
            None => {
                match frames.allocate(request) {
                    Some((a, got)) => {
                        new_flags = new_flags.set_custom::<ALLOCATED_BIT>(true);
                        zero = Some((a, got));
                        if ctx.points_to_backing {
                            *total_size = *total_size + request;
                        }
                        a
                    },
                    None => {
                        return Err(NewMapError::OutOfFrames);
                    },
                }
            },
        };
        entry.set_addr(frame);
    }
    entry.set_flags(new_flags);
    proof {
        if !present {
            if ctx.points_to_backing && *old(phys) is Some {
                lemma_missing_entry_huge_bit(
                    entry,
                    ctx.entry.value,
                    flags@,
                    huge_size is Some,
                    true,
                    properties,
                    false,
                    (*old(phys)).unwrap().value as u64,
                );
            } else {
                lemma_missing_entry_huge_bit(
                    entry,
                    ctx.entry.value,
                    flags@,
                    huge_size is Some,
                    false,
                    properties,
                    true,
                    zero.unwrap().0.value as u64,
                );
            }
        }
    }
    Ok((entry, zero))
}

/// The walk over one address gathers the address and the size of the mapping and the flags
/// that all levels grant.
pub struct MappingInfo {
    addr: Option<PhysicalAddress>,
    flags: PageTableEntryFlags,
    size: usize,
}

impl MappingInfo {
    pub closed spec fn addr_spec(&self) -> Option<PhysicalAddress> {
        self.addr
    }

    pub closed spec fn flags_spec(&self) -> u64 {
        self.flags@
    }

    pub closed spec fn size_spec(&self) -> usize {
        self.size
    }

    /// The number of bytes gathered so far.
    pub fn size(&self) -> (r: usize)
        ensures
            r == self.size_spec(),
    {
        self.size
    }

    /// Nothing gathered yet.
    pub fn new() -> (r: Self)
        ensures
            r.addr_spec() is None,
            r.flags_spec() == 0,
            r.size_spec() == 0,
    {
        MappingInfo { addr: None, flags: PageTableEntryFlags::null(), size: 0 }
    }

    /// Gather what the entry described by `ctx` tells: the frame and the size when it maps
    /// memory; its flags at the top level, and what they have in common with those above
    /// further down.
    pub fn apply(&mut self, ctx: NavigateCtx)
        requires
            old(self).size_spec() + ctx.size <= usize::MAX,
        ensures
            ctx.points_to_backing ==> final(self).addr_spec() == Some(
                PhysicalAddress { value: (ctx.entry.value & ADDR_MASK) as usize },
            ) && final(self).size_spec() == old(self).size_spec() + ctx.size,
            !ctx.points_to_backing ==> final(self).addr_spec() == old(self).addr_spec()
                && final(self).size_spec() == old(self).size_spec(),
            final(self).flags_spec() == if ctx.depth == 0 {
                ctx.entry.value & FLAGS_MASK
            } else {
                old(self).flags_spec() & (ctx.entry.value & FLAGS_MASK)
            },
    {
        if ctx.points_to_backing {
            self.addr = Some(ctx.entry.addr());
            self.size = self.size + ctx.size;
        }
        if ctx.depth == 0 {
            self.flags = ctx.entry.flags();
        } else {
            self.flags = self.flags & ctx.entry.flags();
        }
    }

    /// The properties, the frame and the size of the mapping, or
    /// [`ReadMapError::NotMapped`] when no entry maps memory or the flags are not present.
    pub fn finish(self) -> (r: Result<(MemoryProperties, PhysicalAddress, usize), ReadMapError>)
        ensures
            self.addr_spec() is None || !bit_set(self.flags_spec(), 0) ==> r == Err::<
                (MemoryProperties, PhysicalAddress, usize),
                ReadMapError,
            >(ReadMapError::NotMapped),
            self.addr_spec() is Some && bit_set(self.flags_spec(), 0) ==> (r matches Ok((props, a, s)) && a
                == self.addr_spec().unwrap() && s == self.size_spec() && props.writable_spec() == bit_set(
                self.flags_spec(),
                1,
            ) && props.readable_spec() && props.kernel_spec() == !bit_set(self.flags_spec(), 2)
                && props.executable_spec() == !bit_set(self.flags_spec(), 63) && props.mmio_spec() == bit_set(
                self.flags_spec(),
                4,
            )),
    {
        let addr = match self.addr {
            Some(a) => a,
            None => {
                return Err(ReadMapError::NotMapped);
            },
        };
        if !self.flags.present() {
            return Err(ReadMapError::NotMapped);
        }
        Ok((flags_to_props(self.flags), addr, self.size))
    }
}

/// A mapper of one page-table tree, typically of one process.
///
/// Each page is owned or borrowed, as a custom flag of its entry tells: owned memory is given
/// back when it is unmapped, borrowed memory is left alone.
pub struct MemoryMapper {
    l4_table: PhysicalAddress,
    global_offset: usize,
    root: bool,
}

/// A mapping under way: the walk, and what the decision of each entry needs.
pub struct MapJob {
    pub navigator: Navigator,
    pub address: VirtualAddress,
    pub flags: PageTableEntryFlags,
    pub properties: MemoryProperties,
    pub phys: Option<PhysicalAddress>,
    pub total_size: usize,
}

/// How a mapping ended.
#[derive(Clone, Copy, PartialEq, Eq, Structural, Debug)]
pub enum MapOutcome {
    /// The mapping starts at this address and maps this many bytes: the pages it placed.
    Mapped(VirtualAddress, usize),
    /// The mapping failed; nothing is undone.
    Failed(NewMapError),
    /// The frames ran out: the `size` bytes mapped from `address` have to be unmapped before
    /// the mapping fails with [`NewMapError::OutOfFrames`].
    Undo { address: VirtualAddress, size: usize },
}

impl MemoryMapper {
    pub closed spec fn l4_spec(&self) -> PhysicalAddress {
        self.l4_table
    }

    pub closed spec fn offset_spec(&self) -> usize {
        self.global_offset
    }

    pub closed spec fn root_spec(&self) -> bool {
        self.root
    }

    /// The mapper of the tree whose top table is at `l4_table`, the tree the processor uses,
    /// with physical memory seen at `global_offset`.
    pub fn new_root_mapper(l4_table: PhysicalAddress, global_offset: usize) -> (r: Self)
        ensures
            r.l4_spec() == l4_table,
            r.offset_spec() == global_offset,
            r.root_spec(),
    {
        MemoryMapper { l4_table, global_offset, root: true }
    }

    /// Whether this is the root mapper, the one of the tree the processor started with.
    pub fn is_root(&self) -> (r: bool)
        ensures
            r == self.root_spec(),
    {
        self.root
    }

    /// The address of the top table.
    pub fn l4_table(&self) -> (r: PhysicalAddress)
        ensures
            r == self.l4_spec(),
    {
        self.l4_table
    }

    /// The virtual address at which the table in frame `phys` can be read.
    pub fn translate_table_frame(&self, phys: PhysicalAddress) -> (r: VirtualAddress)
        requires
            phys.value + self.offset_spec() <= usize::MAX,
        ensures
            r.value == phys.value + self.offset_spec(),
    {
        VirtualAddress::new(phys.value + self.global_offset)
    }

    /// Share all owned memory: the mapper stops being the root mapper, and the walk that
    /// follows marks every owned page as borrowed, with [`share_entry`] as its decision.
    ///
    /// The memory shared this way is never given back by this mapper.
    pub fn share_all(&mut self) -> (r: Navigator)
        requires
            usize::BITS == 64,
        ensures
            !final(self).root_spec(),
            final(self).l4_spec() == old(self).l4_spec(),
            final(self).offset_spec() == old(self).offset_spec(),
            r.wf(),
            r.depth_spec() == 1,
            r.indices_spec() == indices_of(0),
            r.end_spec() == usize::MAX,
            r.max_depth_spec() == 3,
            !r.read_only_spec(),
            r.flags_spec() == (false, false, false),
            r.pending_spec() is None,
            !r.at_entry_spec(),
    {
        self.root = false;
        Navigator::new(VirtualAddress::null(), usize::MAX, None, false, false, false)
    }

    /// The walk of an unmapping of `size` bytes from `address`, with [`dealloc_entry`] as its
    /// decision: a lax walk skips borrowed and missing entries, a strict one fails on them.
    /// Parent entries are visited again once their table is done, so that emptied tables are
    /// given back too.
    fn unmap_inner(&self, address: VirtualAddress, size: usize, lax: bool) -> (r: Navigator)
        requires
            usize::BITS == 64,
            address.value + size <= usize::MAX,
        ensures
            r.wf(),
            r.depth_spec() == 1,
            r.indices_spec() == indices_of(address.value as int),
            r.end_spec() == address.value + size,
            r.max_depth_spec() == 3,
            !r.read_only_spec(),
            r.flags_spec() == (!lax, !lax, true),
            r.pending_spec() is None,
            !r.at_entry_spec(),
    {
        Navigator::new(address, size, None, !lax, !lax, true)
    }

    /// Unmap everything this mapper owns: a lax unmapping of the whole address space that
    /// ignores sizes.
    pub fn unmap_all_owned(&self) -> (r: Navigator)
        requires
            usize::BITS == 64,
            !self.root_spec(),
        ensures
            r.wf(),
            r.depth_spec() == 1,
            r.indices_spec() == indices_of(0),
            r.end_spec() == usize::MAX,
            !r.read_only_spec(),
            r.flags_spec() == (false, false, true),
            r.pending_spec() is None,
            !r.at_entry_spec(),
    {
        self.unmap_inner(VirtualAddress::null(), usize::MAX, true)
    }

    /// Unmap `size` bytes from `address`: a strict unmapping that fails on borrowed or
    /// missing pages and on pages larger than the bytes asked for.
    pub fn unmap(&self, address: VirtualAddress, size: usize) -> (r: Navigator)
        requires
            usize::BITS == 64,
            address.value + size <= usize::MAX,
        ensures
            r.wf(),
            r.depth_spec() == 1,
            r.indices_spec() == indices_of(address.value as int),
            r.end_spec() == address.value + size,
            !r.read_only_spec(),
            r.flags_spec() == (true, true, true),
            r.pending_spec() is None,
            !r.at_entry_spec(),
    {
        self.unmap_inner(address, size, false)
    }

    /// A mapping of `size` bytes from `address` with `properties`: the frames are taken from
    /// the allocator, or from `phys` on, and [`alloc_missing`] decides each entry. Owned
    /// entries are refused.
    fn map_inner(
        &self,
        address: VirtualAddress,
        size: usize,
        properties: MemoryProperties,
        phys: Option<PhysicalAddress>,
    ) -> (r: MapJob)
        requires
            usize::BITS == 64,
            address.value + size <= usize::MAX,
        ensures
            r.navigator.wf(),
            r.navigator.depth_spec() == 1,
            r.navigator.indices_spec() == indices_of(address.value as int),
            r.navigator.end_spec() == address.value + size,
            !r.navigator.read_only_spec(),
            r.navigator.flags_spec() == (true, false, false),
            r.navigator.pending_spec() is None,
            !r.navigator.at_entry_spec(),
            r.address == address,
            r.properties == properties,
            r.phys == phys,
            r.total_size == 0,
            forall|i: u64| i < 64 ==> #[trigger] bit_set(r.flags@, i) == flags_for(properties, true, i),
    {
        MapJob {
            navigator: Navigator::new(address, size, None, true, false, false),
            address,
            flags: props_to_flags(properties, true),
            properties,
            phys,
            total_size: 0,
        }
    }

    /// Map `size` bytes from `address` with `properties`, with frames from the allocator.
    pub fn map(&self, address: VirtualAddress, size: usize, properties: MemoryProperties) -> (r: MapJob)
        requires
            usize::BITS == 64,
            address.value + size <= usize::MAX,
        ensures
            r.navigator.wf(),
            r.navigator.depth_spec() == 1,
            r.navigator.indices_spec() == indices_of(address.value as int),
            r.navigator.end_spec() == address.value + size,
            !r.navigator.read_only_spec(),
            r.navigator.flags_spec() == (true, false, false),
            r.navigator.pending_spec() is None,
            !r.navigator.at_entry_spec(),
            r.address == address,
            r.properties == properties,
            r.phys is None,
            r.total_size == 0,
            forall|i: u64| i < 64 ==> #[trigger] bit_set(r.flags@, i) == flags_for(properties, true, i),
    {
        self.map_inner(address, size, properties, None)
    }

    /// Map the `size` bytes of physical memory at `address` at the same virtual address, the
    /// range widened to whole pages.
    ///
    /// Fails with [`NewMapError::NotOwned`] when the range touches memory of the frame
    /// allocator.
    pub fn identity_map(
        &self,
        frames: &FrameAllocator,
        address: PhysicalAddress,
        size: usize,
        properties: MemoryProperties,
    ) -> (r: Result<MapJob, NewMapError>)
        requires
            usize::BITS == 64,
            self.root_spec(),
            frames.zones_spec() is Some,
            size + address.value % 4096 <= usize::MAX,
            align_up_spec(size + address.value % 4096, 4096) + address.value - address.value % 4096
                <= usize::MAX,
        ensures
            ({
                let aligned = address.value - address.value % 4096;
                let aligned_size = align_up_spec(size + address.value % 4096, 4096);
                if exists|i: int|
                    0 <= i < frames.zones_spec().unwrap().len() && #[trigger] zone_clashes(
                        frames.zones_spec().unwrap()[i],
                        aligned,
                        aligned_size,
                    ) {
                    r is Err && r == Err::<MapJob, NewMapError>(NewMapError::NotOwned)
                } else {
                    r matches Ok(job) && job.address.value == aligned && job.navigator.end_spec() == aligned
                        + aligned_size && job.phys == Some(PhysicalAddress { value: aligned as usize })
                        && job.navigator.wf() && job.navigator.depth_spec() == 1
                        && job.navigator.indices_spec() == indices_of(aligned) && job.total_size == 0
                        && job.properties == properties && !job.navigator.read_only_spec()
                        && job.navigator.flags_spec() == (true, false, false)
                        && job.navigator.pending_spec() is None && !job.navigator.at_entry_spec()
                }
            }),
    {
        let aligned_addr = address.align_down(PAGE_SIZE);
        let offset: usize = address.value - aligned_addr.value;
        let aligned_size: usize = match VirtualAddress::align_ptr_up(size + offset, PAGE_SIZE) {
            Some(s) => s,
            None => {
                return Err(NewMapError::NotOwned);
            },
        };
        if frames.clashes(aligned_addr, aligned_size) {
            return Err(NewMapError::NotOwned);
        }
        Ok(self.map_inner(VirtualAddress::new(aligned_addr.value), aligned_size, properties, Some(aligned_addr)))
    }

    /// How a mapping ended, from the outcome of its walk: when the frames ran out, the bytes
    /// mapped so far are unmapped before it fails.
    pub fn finish_map(job: &MapJob, walk: Result<VirtualAddress, NewMapError>) -> (r: MapOutcome)
        ensures
            r == match walk {
                Ok(start) => MapOutcome::Mapped(start, job.total_size),
                Err(NewMapError::OutOfFrames) => MapOutcome::Undo { address: job.address, size: job.total_size },
                Err(e) => MapOutcome::Failed(e),
            },
    {
        match walk {
            Ok(start) => MapOutcome::Mapped(start, job.total_size),
            Err(NewMapError::OutOfFrames) => MapOutcome::Undo { address: job.address, size: job.total_size },
            Err(e) => MapOutcome::Failed(e),
        }
    }

    /// The walk that undoes a mapping whose frames ran out: a strict unmapping of what it
    /// mapped, without the size check.
    pub fn undo_map(&self, address: VirtualAddress, size: usize) -> (r: Navigator)
        requires
            usize::BITS == 64,
            address.value + size <= usize::MAX,
        ensures
            r.wf(),
            r.depth_spec() == 1,
            r.indices_spec() == indices_of(address.value as int),
            r.end_spec() == address.value + size,
            !r.read_only_spec(),
            r.flags_spec() == (true, true, true),
            r.pending_spec() is None,
            !r.at_entry_spec(),
    {
        self.unmap_inner(address, size, false)
    }

    /// The read-only walk over the page at `address` that [`MappingInfo`] gathers from.
    pub fn mapping_info(&self, address: VirtualAddress) -> (r: (Navigator, MappingInfo))
        requires
            usize::BITS == 64,
            address.value + PAGE_SIZE <= usize::MAX,
        ensures
            r.0.wf(),
            r.0.depth_spec() == 1,
            r.0.indices_spec() == indices_of(address.value as int),
            r.0.end_spec() == address.value + PAGE_SIZE,
            r.0.read_only_spec(),
            r.0.max_depth_spec() == 3,
            r.1.addr_spec() is None,
            r.1.size_spec() == 0,
    {
        (Navigator::new_read_only(address, PAGE_SIZE, None), MappingInfo::new())
    }
}

/// The bits of the flag part of an entry that the mapper's laws look at.
proof fn lemma_flag_positions()
    ensures
        bit_set(FLAGS_MASK, 0),
        bit_set(FLAGS_MASK, 9),
        bit_set(FLAGS_MASK, 10),
        forall|e: u64, x: u64, i: u64|
            #![trigger bit_set(e, i), bit_set(x, i)]
            i < 64 && bit_set(FLAGS_MASK, i) && (e & FLAGS_MASK) == x & FLAGS_MASK ==> bit_set(e, i) == bit_set(x, i),
{
    assert(bit_set(0xfff0_0000_0000_0fffu64, 0) && bit_set(0xfff0_0000_0000_0fffu64, 9) && bit_set(
        0xfff0_0000_0000_0fffu64,
        10,
    )) by (bit_vector);
    assert(forall|e: u64, x: u64, i: u64|
        #![trigger bit_set(e, i), bit_set(x, i)]
        i < 64 && bit_set(0xfff0_0000_0000_0fffu64, i) && (e & 0xfff0_0000_0000_0fffu64) == x
            & 0xfff0_0000_0000_0fffu64 ==> bit_set(e, i) == bit_set(x, i)) by (bit_vector);
}

/// Law: an entry that sharing changed is borrowed, so that unmapping leaves it, and its frame,
/// alone.
pub proof fn lemma_shared_entry_is_borrowed(old: PageTableEntry, shared: PageTableEntry)
    requires
        holds(shared, (old.value & FLAGS_MASK) | (1u64 << custom_bit(BORROW_BIT)), old.value),
    ensures
        entry_bit(shared, custom_bit(BORROW_BIT)),
        shared.value & ADDR_MASK == old.value & ADDR_MASK,
{
    lemma_flag_positions();
    lemma_u64_bits();
    assert(bit_set(shared.value, 9) == bit_set((old.value & FLAGS_MASK) | (1u64 << 9u64), 9));
}

/// Law: an entry that a mapping filled with a frame from the allocator is present, owned and
/// marked as allocated, so that unmapping empties it and gives the frame back; this holds when
/// the mapping is readable and the entry was not borrowed before.
pub proof fn lemma_allocated_entry_is_freed_on_unmap(
    old: PageTableEntry,
    new: PageTableEntry,
    flags: u64,
    huge: bool,
    props: MemoryProperties,
    frame: u64,
)
    requires
        holds(new, mapped_flags(old.value, flags, false, huge, false, props, true), frame),
        bit_set(flags, 0),
        !bit_set(flags, 9),
        !entry_bit(old, 9),
    ensures
        entry_bit(new, 0),
        !entry_bit(new, custom_bit(BORROW_BIT)),
        entry_bit(new, custom_bit(ALLOCATED_BIT)),
        new.value & ADDR_MASK == frame & ADDR_MASK,
{
    lemma_flag_positions();
    lemma_u64_bits();
    let x = mapped_flags(old.value, flags, false, huge, false, props, true);
    let base = ((old.value & FLAGS_MASK) | flags) & !(1u64 << 4u64) & !(1u64 << 63u64);
    assert(bit_set(old.value & FLAGS_MASK, 9) == (bit_set(old.value, 9) && bit_set(FLAGS_MASK, 9)));
    assert(bit_set((old.value & FLAGS_MASK) | flags, 0));
    assert(!bit_set((old.value & FLAGS_MASK) | flags, 9));
    assert(bit_set(((old.value & FLAGS_MASK) | flags) & !(1u64 << 4u64), 0));
    assert(!bit_set(((old.value & FLAGS_MASK) | flags) & !(1u64 << 4u64), 9));
    assert(bit_set(base, 0));
    assert(!bit_set(base, 9));
    let h = if huge { base | (1u64 << 7u64) } else { base };
    assert(bit_set(h, 0) && !bit_set(h, 9));
    assert(bit_set(x, 0) && !bit_set(x, 9) && bit_set(x, 10));
    assert(bit_set(new.value, 0) == bit_set(x, 0));
    assert(bit_set(new.value, 9) == bit_set(x, 9));
    assert(bit_set(new.value, 10) == bit_set(x, 10));
}

/// The memory of an address space: its mapper.
pub struct MemoryManager {
    mapper: MemoryMapper,
}

impl MemoryManager {
    pub closed spec fn mapper_spec(&self) -> &MemoryMapper {
        &self.mapper
    }

    pub fn new(mapper: MemoryMapper) -> (r: Self)
        ensures
            *r.mapper_spec() == mapper,
    {
        MemoryManager { mapper }
    }

    /// Handle a page fault at the null page: it is refused as a null-pointer access.
    ///
    /// Faults at other addresses are not handled yet.
    pub fn handle_page_fault(&self, fault: PageFault) -> (r: Result<(), MemoryError>)
        requires
            fault.addr.value == 0,
        ensures
            r == Err::<(), MemoryError>(MemoryError { kind: MemoryErrorKind::NullPointer, fault }),
    {
        Err(MemoryError { fault, kind: MemoryErrorKind::NullPointer })
    }
}

} // verus!
