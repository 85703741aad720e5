//! The first frame allocator: it hands out memory from the usable regions of the boot
//! memory map, one after the other, and never takes any back.

use vstd::prelude::*;

use crate::address::PhysicalAddress;
use crate::power::is_power_of_two;

verus! {

/// The kind of a region of the boot memory map, as far as the allocator tells them apart.
#[derive(Clone, Copy, PartialEq, Eq, Structural, Debug)]
pub enum BootRegionKind {
    Usable,
    Kernel,
    KernelStack,
    Reserved,
    Other,
}

/// A region of the boot memory map: the frames from `start_frame_number` (included) to
/// `end_frame_number` (excluded).
#[derive(Clone, Copy, PartialEq, Eq, Structural, Debug)]
pub struct BootRegion {
    pub start_frame_number: u64,
    pub end_frame_number: u64,
    pub kind: BootRegionKind,
}

/// The number of bytes of a frame.
pub const FRAME_SIZE: u64 = 4096;

/// The first byte of a region.
pub open spec fn region_start(r: BootRegion) -> int {
    r.start_frame_number * 4096
}

/// The number of bytes of a region.
pub open spec fn region_bytes(r: BootRegion) -> int {
    r.end_frame_number * 4096 - r.start_frame_number * 4096
}

/// A region is well formed: it does not end before it starts, and its bounds are addresses.
pub open spec fn region_ok(r: BootRegion) -> bool {
    r.start_frame_number <= r.end_frame_number && r.end_frame_number * 4096 <= usize::MAX
}

/// A selection of region kinds that the memory snapshot sums over.
#[derive(Clone, Copy, PartialEq, Eq, Structural, Debug)]
pub enum Selection {
    Usable,
    Kernel,
    NotReserved,
}

/// The kind `k` is in the selection `sel`.
pub open spec fn selects(sel: Selection, k: BootRegionKind) -> bool {
    match sel {
        Selection::Usable => k == BootRegionKind::Usable,
        Selection::Kernel => k == BootRegionKind::Kernel || k == BootRegionKind::KernelStack,
        Selection::NotReserved => k != BootRegionKind::Reserved,
    }
}

/// The sum of the sizes of the regions of `map` whose kind `sel` selects.
pub open spec fn bytes_of(map: Seq<BootRegion>, sel: Selection) -> int
    decreases map.len(),
{
    if map.len() == 0 {
        0
    } else {
        bytes_of(map.drop_last(), sel) + if selects(sel, map.last().kind) {
            region_bytes(map.last())
        } else {
            0
        }
    }
}

/// A snapshot of the memory of the machine.
#[derive(Clone, Copy, PartialEq, Eq, Structural, Debug)]
pub struct MemoryInfo {
    pub usable: usize,
    pub allocated: usize,
    pub total_size: usize,
    pub kernel: usize,
}

/// An empty set of free blocks of one size.
pub struct FreeList {}

impl FreeList {
    pub fn new() -> (r: Self) {
        FreeList {}
    }
}

/// The frame allocator of the boot memory map.
pub struct FrameAllocator {
    memory_map: Option<Vec<BootRegion>>,
    start: usize,
}

/// Where the allocation `offset` bytes into the usable memory, of `size` bytes, lies: each
/// usable region in turn either holds it, or the offset moves past the region.
pub open spec fn place(map: Seq<BootRegion>, offset: int, size: int) -> Option<int>
    decreases map.len(),
{
    if map.len() == 0 {
        None
    } else if map[0].kind != BootRegionKind::Usable {
        place(map.drop_first(), offset, size)
    } else if offset + size > region_bytes(map[0]) {
        place(
            map.drop_first(),
            if offset >= region_bytes(map[0]) {
                offset - region_bytes(map[0])
            } else {
                0
            },
            size,
        )
    } else {
        Some(region_start(map[0]) + offset)
    }
}

impl FrameAllocator {
    /// The memory map, once given.
    pub closed spec fn map_spec(&self) -> Option<Seq<BootRegion>> {
        match self.memory_map {
            Some(m) => Some(m@),
            None => None,
        }
    }

    /// The number of bytes handed out so far.
    pub closed spec fn handed_out(&self) -> usize {
        self.start
    }

    /// An allocator with no memory map yet.
    pub fn new() -> (r: Self)
        ensures
            r.map_spec() is None,
            r.handed_out() == 0,
    {
        FrameAllocator { memory_map: None, start: 0 }
    }

    /// Give the allocator its memory map.
    pub fn init_with(&mut self, map: Vec<BootRegion>)
        requires
            old(self).map_spec() is None,
        ensures
            final(self).map_spec() == Some(map@),
            final(self).handed_out() == old(self).handed_out(),
    {
        self.memory_map = Some(map);
    }

    /// A snapshot of the memory: the bytes of the usable regions, of the kernel's regions, of
    /// all regions but the reserved ones, and the bytes handed out.
    pub fn info(&self) -> (r: MemoryInfo)
        requires
            self.map_spec() is Some,
            forall|i: int| 0 <= i < self.map_spec().unwrap().len() ==> region_ok(#[trigger] self.map_spec().unwrap()[i]),
            bytes_of(self.map_spec().unwrap(), Selection::NotReserved) <= usize::MAX,
        ensures
            r.allocated == self.handed_out(),
            r.usable == bytes_of(self.map_spec().unwrap(), Selection::Usable),
            r.kernel == bytes_of(self.map_spec().unwrap(), Selection::Kernel),
            r.total_size == bytes_of(self.map_spec().unwrap(), Selection::NotReserved),
    {
        let map = match &self.memory_map {
            Some(m) => m,
            None => {
                return MemoryInfo { allocated: 0, usable: 0, total_size: 0, kernel: 0 };
            },
        };
        proof {
            lemma_bytes_prefix(map@, Selection::NotReserved, Selection::Usable);
            lemma_bytes_prefix(map@, Selection::NotReserved, Selection::Kernel);
            lemma_bytes_prefix(map@, Selection::NotReserved, Selection::NotReserved);
        }
        let mut total_allocatable_bytes: usize = 0;
        let mut total_bytes: usize = 0;
        let mut kernel: usize = 0;
        let mut i: usize = 0;
        while i < map.len()
            invariant
                0 <= i <= map@.len(),
                forall|j: int| 0 <= j < map@.len() ==> region_ok(#[trigger] map@[j]),
                bytes_of(map@, Selection::NotReserved) <= usize::MAX,
                total_allocatable_bytes == bytes_of(map@.take(i as int), Selection::Usable),
                kernel == bytes_of(map@.take(i as int), Selection::Kernel),
                total_bytes == bytes_of(map@.take(i as int), Selection::NotReserved),
                forall|j: int| 0 <= j <= map@.len() ==> #[trigger] bytes_of(map@.take(j), Selection::Usable) <= bytes_of(map@, Selection::NotReserved),
                forall|j: int| 0 <= j <= map@.len() ==> #[trigger] bytes_of(map@.take(j), Selection::Kernel) <= bytes_of(map@, Selection::NotReserved),
                forall|j: int| 0 <= j <= map@.len() ==> #[trigger] bytes_of(map@.take(j), Selection::NotReserved) <= bytes_of(map@, Selection::NotReserved),
            decreases map@.len() - i,
        {
            let region = map[i];
            proof {
                assert(map@.take(i as int + 1).drop_last() =~= map@.take(i as int));
                assert(map@.take(i as int + 1).last() == region);
                assert(region_ok(map@[i as int]));
                assert(bytes_of(map@.take(i as int + 1), Selection::Usable) <= bytes_of(map@, Selection::NotReserved));
                assert(bytes_of(map@.take(i as int + 1), Selection::Kernel) <= bytes_of(map@, Selection::NotReserved));
                assert(bytes_of(map@.take(i as int + 1), Selection::NotReserved) <= bytes_of(map@, Selection::NotReserved));
            }
            let region_size: usize = (region.end_frame_number * 4096 - region.start_frame_number * 4096) as usize;
            proof {
                vstd::arithmetic::mul::lemma_mul_inequality(
                    region.start_frame_number as int,
                    region.end_frame_number as int,
                    4096,
                );
                assert(region_size == region_bytes(region));
                let next = map@.take(i as int + 1);
                assert(bytes_of(next, Selection::Usable) == bytes_of(map@.take(i as int), Selection::Usable) + if selects(Selection::Usable, region.kind) {
                    region_bytes(region)
                } else {
                    0
                });
                assert(bytes_of(next, Selection::Kernel) == bytes_of(map@.take(i as int), Selection::Kernel) + if selects(Selection::Kernel, region.kind) {
                    region_bytes(region)
                } else {
                    0
                });
                assert(bytes_of(next, Selection::NotReserved) == bytes_of(map@.take(i as int), Selection::NotReserved) + if selects(Selection::NotReserved, region.kind) {
                    region_bytes(region)
                } else {
                    0
                });
            }
            match region.kind {
                BootRegionKind::Usable => {
                    total_allocatable_bytes = total_allocatable_bytes + region_size;
                },
                BootRegionKind::KernelStack | BootRegionKind::Kernel => {
                    kernel = kernel + region_size;
                },
                _ => {},
            }
            if region.kind != BootRegionKind::Reserved {
                total_bytes = total_bytes + region_size;
            }
            i = i + 1;
        }
        proof {
            assert(map@.take(map@.len() as int) =~= map@);
        }
        MemoryInfo {
            allocated: self.start,
            usable: total_allocatable_bytes,
            total_size: total_bytes,
            kernel,
        }
    }

    /// The index of the free list of blocks of `size` bytes: the base-two logarithm of `size`.
    pub fn find_slot(size: usize) -> (r: usize)
        requires
            is_power_of_two(size as nat),
        ensures
            vstd::arithmetic::power2::pow2(r as nat) == size,
    {
        let ghost e = choose|e: nat| #[trigger] vstd::arithmetic::power2::pow2(e) == size as nat;
        let mut result: usize = 0;
        let mut value: usize = size;
        proof {
            vstd::arithmetic::power2::lemma_pow2_pos(e);
            vstd::arithmetic::power2::lemma_pow2(e);
            crate::power::lemma_pow2_facts(e);
        }
        while value > 1
            invariant
                result <= e,
                value as nat == vstd::arithmetic::power2::pow2((e - result) as nat),
                result < usize::BITS,
                e < usize::BITS,
            decreases value,
        {
            proof {
                let k = (e - result) as nat;
                if k == 0 {
                    vstd::arithmetic::power2::lemma2_to64();
                    assert(false);
                }
                vstd::arithmetic::power2::lemma_pow2_adds(1, (k - 1) as nat);
                vstd::arithmetic::power2::lemma2_to64();
            }
            value = value / 2;
            result = result + 1;
        }
        proof {
            if result < e {
                let k = (e - result) as nat;
                vstd::arithmetic::power2::lemma_pow2_adds(1, (k - 1) as nat);
                vstd::arithmetic::power2::lemma_pow2_pos((k - 1) as nat);
                vstd::arithmetic::power2::lemma2_to64();
            }
        }
        result
    }

    /// Hand out `size` bytes of physical memory for good: the next `size` bytes of the usable
    /// regions, moved to the start of a later region when they do not fit in the current one.
    pub fn allocate_eternally(&mut self, size: usize) -> (r: Option<PhysicalAddress>)
        requires
            old(self).map_spec() is Some,
            forall|i: int| 0 <= i < old(self).map_spec().unwrap().len() ==> region_ok(#[trigger] old(self).map_spec().unwrap()[i]),
            old(self).handed_out() + size <= usize::MAX,
        ensures
            final(self).map_spec() == old(self).map_spec(),
            final(self).handed_out() == old(self).handed_out() + size,
            match place(old(self).map_spec().unwrap(), old(self).handed_out() as int, size as int) {
                Some(a) => r == Some(PhysicalAddress { value: a as usize }),
                None => r is None,
            },
    {
        let start: usize = self.start;
        self.start = start + size;
        let map = match &self.memory_map {
            Some(m) => m,
            None => {
                return None;
            },
        };
        let mut current: usize = start;
        let mut i: usize = 0;
        proof {
            assert(map@.subrange(0, map@.len() as int) =~= map@);
        }
        while i < map.len()
            invariant
                0 <= i <= map@.len(),
                self.handed_out() == start + size,
                self.map_spec() == Some(map@),
                old(self).map_spec() == Some(map@),
                old(self).handed_out() == start,
                forall|j: int| 0 <= j < map@.len() ==> region_ok(#[trigger] map@[j]),
                current <= start,
                start + size <= usize::MAX,
                place(map@, start as int, size as int) == place(map@.subrange(i as int, map@.len() as int), current as int, size as int),
            decreases map@.len() - i,
        {
            let region = map[i];
            let ghost tail = map@.subrange(i as int, map@.len() as int);
            proof {
                assert(tail[0] == region);
                assert(tail.drop_first() =~= map@.subrange(i as int + 1, map@.len() as int));
                assert(region_ok(map@[i as int]));
            }
            if region.kind == BootRegionKind::Usable {
                let region_size: usize = (region.end_frame_number * 4096 - region.start_frame_number * 4096) as usize;
                if current + size > region_size {
                    current = current.saturating_sub(region_size);
                } else {
                    proof {
                        assert(region_start(region) + current <= usize::MAX);
                    }
                    return Some(PhysicalAddress::new((region.start_frame_number * 4096) as usize + current));
                }
            }
            i = i + 1;
        }
        None
    }
}

/// The bytes of the usable regions among the first `k` regions of `map`.
pub open spec fn usable_before(map: Seq<BootRegion>, k: int) -> int
    decreases map.len(),
{
    if k <= 0 || map.len() == 0 {
        0
    } else {
        (if map[0].kind == BootRegionKind::Usable {
            region_bytes(map[0])
        } else {
            0
        }) + usable_before(map.drop_first(), k - 1)
    }
}

/// An allocation of `size` bytes, `offset` bytes into the usable memory, lands in a usable
/// region `k`, at the offset less the bytes of the usable regions before `k`, and lies within
/// that region, when the offset and the bytes of every usable region are multiples of `size`.
pub proof fn lemma_place_in_region(map: Seq<BootRegion>, offset: int, size: int, a: int)
    requires
        forall|i: int| 0 <= i < map.len() ==> region_ok(#[trigger] map[i]),
        size > 0,
        offset >= 0,
        offset % size == 0,
        forall|i: int|
            0 <= i < map.len() && (#[trigger] map[i]).kind == BootRegionKind::Usable ==> region_bytes(map[i])
                % size == 0,
        place(map, offset, size) == Some(a),
    ensures
        exists|k: int|
            0 <= k < map.len() && (#[trigger] map[k]).kind == BootRegionKind::Usable && 0 <= offset
                - usable_before(map, k) && offset - usable_before(map, k) + size <= region_bytes(map[k]) && a
                == region_start(map[k]) + offset - usable_before(map, k),
    decreases map.len(),
{
    let rest = map.drop_first();
    assert forall|i: int| 0 <= i < rest.len() implies region_ok(#[trigger] rest[i]) by {
        assert(rest[i] == map[i + 1]);
    }
    assert forall|i: int|
        0 <= i < rest.len() && (#[trigger] rest[i]).kind == BootRegionKind::Usable implies region_bytes(rest[i])
            % size == 0 by {
        assert(rest[i] == map[i + 1]);
    }
    if map[0].kind != BootRegionKind::Usable {
        lemma_place_in_region(rest, offset, size, a);
        let k = choose|k: int|
            0 <= k < rest.len() && (#[trigger] rest[k]).kind == BootRegionKind::Usable && 0 <= offset
                - usable_before(rest, k) && offset - usable_before(rest, k) + size <= region_bytes(rest[k]) && a
                == region_start(rest[k]) + offset - usable_before(rest, k);
        assert(map[k + 1] == rest[k]);
        assert(usable_before(map, k + 1) == usable_before(rest, k));
    } else if offset + size > region_bytes(map[0]) {
        let b = region_bytes(map[0]);
        assert(region_ok(map[0]));
        assert(b % size == 0);
        vstd::arithmetic::div_mod::lemma_fundamental_div_mod(offset, size);
        vstd::arithmetic::div_mod::lemma_fundamental_div_mod(b, size);
        let p = offset / size;
        let q = b / size;
        assert(offset == size * p);
        assert(b == size * q);
        assert(p >= q) by (nonlinear_arith)
            requires
                size > 0,
                size * p + size > size * q,
        ;
        assert(offset - b == size * (p - q)) by (nonlinear_arith)
            requires
                offset == size * p,
                b == size * q,
        ;
        vstd::arithmetic::div_mod::lemma_mod_multiples_basic(p - q, size);
        assert((p - q) * size == size * (p - q)) by (nonlinear_arith);
        lemma_place_in_region(rest, offset - b, size, a);
        let k = choose|k: int|
            0 <= k < rest.len() && (#[trigger] rest[k]).kind == BootRegionKind::Usable && 0 <= offset - b
                - usable_before(rest, k) && offset - b - usable_before(rest, k) + size <= region_bytes(rest[k])
                && a == region_start(rest[k]) + (offset - b) - usable_before(rest, k);
        assert(map[k + 1] == rest[k]);
        assert(usable_before(map, k + 1) == b + usable_before(rest, k));
    } else {
        assert(usable_before(map, 0) == 0);
    }
}

/// Law: two allocations of `size` bytes at different offsets into the usable memory never
/// overlap, when the offsets and the bytes of every usable region are multiples of `size` and
/// the usable regions share no byte: successive requests of one size, such as the frames that
/// the allocator hands out one at a time, get distinct memory.
pub proof fn lemma_places_never_overlap(
    map: Seq<BootRegion>,
    size: int,
    offset1: int,
    a1: int,
    offset2: int,
    a2: int,
)
    requires
        forall|i: int| 0 <= i < map.len() ==> region_ok(#[trigger] map[i]),
        size > 0,
        forall|i: int|
            0 <= i < map.len() && (#[trigger] map[i]).kind == BootRegionKind::Usable ==> region_bytes(map[i])
                % size == 0,
        forall|i: int, j: int|
            0 <= i < map.len() && 0 <= j < map.len() && i != j && (#[trigger] map[i]).kind
                == BootRegionKind::Usable && (#[trigger] map[j]).kind == BootRegionKind::Usable ==> region_start(
                map[i],
            ) + region_bytes(map[i]) <= region_start(map[j]) || region_start(map[j]) + region_bytes(map[j])
                <= region_start(map[i]),
        0 <= offset1,
        0 <= offset2,
        offset1 != offset2,
        offset1 % size == 0,
        offset2 % size == 0,
        place(map, offset1, size) == Some(a1),
        place(map, offset2, size) == Some(a2),
    ensures
        a1 + size <= a2 || a2 + size <= a1,
{
    lemma_place_in_region(map, offset1, size, a1);
    lemma_place_in_region(map, offset2, size, a2);
    let k1 = choose|k: int|
        0 <= k < map.len() && (#[trigger] map[k]).kind == BootRegionKind::Usable && 0 <= offset1
            - usable_before(map, k) && offset1 - usable_before(map, k) + size <= region_bytes(map[k]) && a1
            == region_start(map[k]) + offset1 - usable_before(map, k);
    let k2 = choose|k: int|
        0 <= k < map.len() && (#[trigger] map[k]).kind == BootRegionKind::Usable && 0 <= offset2
            - usable_before(map, k) && offset2 - usable_before(map, k) + size <= region_bytes(map[k]) && a2
            == region_start(map[k]) + offset2 - usable_before(map, k);
    if k1 == k2 {
        vstd::arithmetic::div_mod::lemma_fundamental_div_mod(offset1, size);
        vstd::arithmetic::div_mod::lemma_fundamental_div_mod(offset2, size);
        let p1 = offset1 / size;
        let p2 = offset2 / size;
        assert(offset1 == size * p1);
        assert(offset2 == size * p2);
        assert(offset1 + size <= offset2 || offset2 + size <= offset1) by (nonlinear_arith)
            requires
                size > 0,
                offset1 == size * p1,
                offset2 == size * p2,
                offset1 != offset2,
        ;
    }
}

/// Law: frames handed out at different frame-aligned offsets into the usable memory never
/// overlap, when the usable regions share no byte.
pub proof fn lemma_frames_never_overlap(map: Seq<BootRegion>, offset1: int, a1: int, offset2: int, a2: int)
    requires
        forall|i: int| 0 <= i < map.len() ==> region_ok(#[trigger] map[i]),
        forall|i: int, j: int|
            0 <= i < map.len() && 0 <= j < map.len() && i != j && (#[trigger] map[i]).kind
                == BootRegionKind::Usable && (#[trigger] map[j]).kind == BootRegionKind::Usable ==> region_start(
                map[i],
            ) + region_bytes(map[i]) <= region_start(map[j]) || region_start(map[j]) + region_bytes(map[j])
                <= region_start(map[i]),
        0 <= offset1,
        0 <= offset2,
        offset1 != offset2,
        offset1 % 4096 == 0,
        offset2 % 4096 == 0,
        place(map, offset1, 4096) == Some(a1),
        place(map, offset2, 4096) == Some(a2),
    ensures
        a1 + 4096 <= a2 || a2 + 4096 <= a1,
{
    assert forall|i: int|
        0 <= i < map.len() && (#[trigger] map[i]).kind == BootRegionKind::Usable implies region_bytes(map[i])
            % 4096 == 0 by {
        let r = map[i];
        assert(region_bytes(r) == 4096 * (r.end_frame_number - r.start_frame_number)) by (nonlinear_arith)
            requires
                region_bytes(r) == r.end_frame_number * 4096 - r.start_frame_number * 4096,
        ;
        vstd::arithmetic::div_mod::lemma_mod_multiples_basic(r.end_frame_number - r.start_frame_number, 4096);
        assert((r.end_frame_number - r.start_frame_number) * 4096 == 4096 * (r.end_frame_number
            - r.start_frame_number)) by (nonlinear_arith);
    }
    lemma_places_never_overlap(map, 4096, offset1, a1, offset2, a2);
}

/// The bytes of a prefix of the map, for a selection of kinds, never add up to more than
/// those of the whole map for a selection that takes in at least the same kinds.
pub proof fn lemma_bytes_prefix(
    map: Seq<BootRegion>,
    all: Selection,
    pick: Selection,
)
    requires
        forall|i: int| 0 <= i < map.len() ==> region_ok(#[trigger] map[i]),
        forall|k: BootRegionKind| #[trigger] selects(pick, k) ==> selects(all, k),
    ensures
        forall|j: int| 0 <= j <= map.len() ==> #[trigger] bytes_of(map.take(j), pick) <= bytes_of(map, all),
    decreases map.len(),
{
    if map.len() > 0 {
        let rest = map.drop_last();
        assert forall|i: int| 0 <= i < rest.len() implies region_ok(#[trigger] rest[i]) by {
            assert(rest[i] == map[i]);
        }
        lemma_bytes_prefix(rest, all, pick);
        lemma_bytes_sub(rest, all, pick);
        assert(region_ok(map[map.len() - 1]));
        vstd::arithmetic::mul::lemma_mul_inequality(
            map.last().start_frame_number as int,
            map.last().end_frame_number as int,
            4096,
        );
        assert forall|j: int| 0 <= j <= map.len() implies #[trigger] bytes_of(map.take(j), pick) <= bytes_of(map, all) by {
            if j == map.len() {
                assert(map.take(j) =~= map);
                lemma_bytes_sub(map, all, pick);
            } else {
                assert(map.take(j) =~= rest.take(j));
            }
        }
    }
}

/// Selecting fewer kinds never adds bytes.
pub proof fn lemma_bytes_sub(
    map: Seq<BootRegion>,
    all: Selection,
    pick: Selection,
)
    requires
        forall|i: int| 0 <= i < map.len() ==> region_ok(#[trigger] map[i]),
        forall|k: BootRegionKind| #[trigger] selects(pick, k) ==> selects(all, k),
    ensures
        0 <= bytes_of(map, pick) <= bytes_of(map, all),
    decreases map.len(),
{
    if map.len() > 0 {
        let rest = map.drop_last();
        assert forall|i: int| 0 <= i < rest.len() implies region_ok(#[trigger] rest[i]) by {
            assert(rest[i] == map[i]);
        }
        lemma_bytes_sub(rest, all, pick);
        assert(region_ok(map[map.len() - 1]));
        vstd::arithmetic::mul::lemma_mul_inequality(
            map.last().start_frame_number as int,
            map.last().end_frame_number as int,
            4096,
        );
        assert(selects(pick, map.last().kind) ==> selects(all, map.last().kind));
    }
}

} // verus!
