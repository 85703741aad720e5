//! A physical frame allocator built on the buddy algorithm.
//!
//! Every usable region of the memory map becomes a [`Zone`]; each zone keeps one
//! [`level::Level`] per block size, from 4 KiB up to the region size rounded up to a power of
//! two.

pub mod level;
pub mod zone;

use vstd::prelude::*;

use crate::address::PhysicalAddress;
use crate::power::{is_next_power_of_two, is_power_of_two, next_pow2, next_power_of_two, pow2_usize};
use zone::{block_size_for, node_size, zone_fits, Zone, MIN_ORDER};

verus! {

/// The kind of a region of the boot memory map.
#[derive(Clone, Copy, PartialEq, Eq, Structural, Debug)]
pub enum MemoryRegionKind {
    /// Memory the kernel may use.
    Usable,
    /// Memory used by the bootloader.
    Bootloader,
    /// A region the UEFI firmware reported with this memory type.
    UnknownUefi(u32),
    /// A region the BIOS reported with this E820 type.
    UnknownBios(u32),
}

/// A region of the boot memory map: the physical memory from `start` (included) to `end`
/// (excluded).
#[derive(Clone, Copy, PartialEq, Eq, Structural, Debug)]
pub struct MemoryRegion {
    pub start: u64,
    pub end: u64,
    pub kind: MemoryRegionKind,
}

/// The region becomes a zone: it is usable and holds at least one 4 KiB block.
pub open spec fn becomes_zone(r: MemoryRegion) -> bool {
    r.kind == MemoryRegionKind::Usable && r.end - r.start >= node_size(0)
}

/// The bounds of the regions that become zones, in map order.
pub open spec fn zone_regions(map: Seq<MemoryRegion>) -> Seq<(u64, u64)>
    decreases map.len(),
{
    if map.len() == 0 {
        Seq::empty()
    } else {
        let rest = zone_regions(map.drop_last());
        if becomes_zone(map.last()) {
            rest.push((map.last().start, map.last().end))
        } else {
            rest
        }
    }
}

/// `b` are the bounds of a usable region of `map` that holds at least one 4 KiB block.
pub open spec fn usable_bounds(map: Seq<MemoryRegion>, b: (u64, u64)) -> bool {
    exists|i: int|
        0 <= i < map.len() && (#[trigger] map[i]).kind == MemoryRegionKind::Usable && map[i].end - map[i].start
            >= 4096 && map[i].start == b.0 && map[i].end == b.1
}

/// Law: the regions that become zones are the usable regions of the map that hold at least
/// one 4 KiB block: each has the bounds of such a region, and each such region is among them.
/// A region of any other kind, reserved by the firmware or used by the bootloader, never
/// becomes a zone.
pub proof fn lemma_zone_regions_usable(map: Seq<MemoryRegion>)
    ensures
        forall|j: int| 0 <= j < zone_regions(map).len() ==> #[trigger] usable_bounds(map, zone_regions(map)[j]),
        forall|i: int|
            0 <= i < map.len() && (#[trigger] map[i]).kind == MemoryRegionKind::Usable && map[i].end
                - map[i].start >= 4096 ==> zone_regions(map).contains((map[i].start, map[i].end)),
    decreases map.len(),
{
    crate::power::lemma_pow2_facts(MIN_ORDER as nat);
    assert(node_size(0) == 4096) by {
        vstd::arithmetic::power2::lemma2_to64();
    }
    if map.len() > 0 {
        let rest = map.drop_last();
        lemma_zone_regions_usable(rest);
        let zr = zone_regions(map);
        let zrest = zone_regions(rest);
        assert forall|j: int| 0 <= j < zr.len() implies #[trigger] usable_bounds(map, zr[j]) by {
            if j < zrest.len() {
                assert(zr[j] == zrest[j]);
                assert(usable_bounds(rest, zrest[j]));
                let i = choose|i: int|
                    0 <= i < rest.len() && (#[trigger] rest[i]).kind == MemoryRegionKind::Usable && rest[i].end
                        - rest[i].start >= 4096 && rest[i].start == zrest[j].0 && rest[i].end == zrest[j].1;
                assert(map[i] == rest[i]);
            } else {
                assert(becomes_zone(map.last()));
                assert(map[map.len() - 1] == map.last());
            }
        }
        assert forall|i: int|
            0 <= i < map.len() && (#[trigger] map[i]).kind == MemoryRegionKind::Usable && map[i].end
                - map[i].start >= 4096 implies zr.contains((map[i].start, map[i].end)) by {
            if i < rest.len() {
                assert(rest[i] == map[i]);
                let j = choose|j: int| 0 <= j < zrest.len() && zrest[j] == (rest[i].start, rest[i].end);
                assert(zr[j] == zrest[j]);
            } else {
                assert(map[i] == map.last());
                assert(zr[zr.len() - 1] == (map[i].start, map[i].end));
            }
        }
    }
}

/// The size of a region given by its bounds.
pub open spec fn bounds_size(b: (u64, u64)) -> int {
    b.1 - b.0
}

/// The number of bytes between the bounds of a region.
pub fn region_size(b: &(u64, u64)) -> (r: u64)
    requires
        b.0 <= b.1,
    ensures
        r == bounds_size(*b),
{
    b.1 - b.0
}

/// The regions of `s` that are `size` bytes long, in their order in `s`.
pub open spec fn of_size(s: Seq<(u64, u64)>, size: int) -> Seq<(u64, u64)> {
    s.filter(|b: (u64, u64)| bounds_size(b) == size)
}

/// Sort region bounds by size, largest first, keeping the order of equal sizes.
///
/// Calls `slice::sort_by_key` with the size as a reversed key. Its documentation promises a
/// stable sort: the result is a permutation of the input, ordered by the key, in which equal
/// keys keep their order. That is what the contract states.
#[verifier::external_body]
fn sort_by_size_descending(regions: &mut Vec<(u64, u64)>)
    requires
        forall|i: int| 0 <= i < old(regions)@.len() ==> #[trigger] old(regions)@[i].0 <= old(regions)@[i].1,
    ensures
        final(regions)@.to_multiset() == old(regions)@.to_multiset(),
        forall|size: int| #[trigger] of_size(final(regions)@, size) == of_size(old(regions)@, size),
        forall|i: int, j: int|
            0 <= i < j < final(regions)@.len() ==> bounds_size(#[trigger] final(regions)@[i]) >= bounds_size(
                #[trigger] final(regions)@[j],
            ),
{
    regions.sort_by_key(|r| core::cmp::Reverse(region_size(r)));
}

/// No two of the regions, given by their bounds, share a byte.
pub open spec fn bounds_disjoint(s: Seq<(u64, u64)>) -> bool {
    forall|i: int, j: int|
        0 <= i < s.len() && 0 <= j < s.len() && i != j ==> #[trigger] s[i].1 <= #[trigger] s[j].0 || s[j].1
            <= s[i].0
}

/// Reordering regions that share no byte and are not empty keeps them apart.
proof fn lemma_disjoint_permutation(u: Seq<(u64, u64)>, s: Seq<(u64, u64)>)
    requires
        s.to_multiset() == u.to_multiset(),
        bounds_disjoint(u),
        forall|i: int| 0 <= i < u.len() ==> #[trigger] u[i].0 < u[i].1,
    ensures
        bounds_disjoint(s),
{
    assert forall|i: int, j: int| 0 <= i < u.len() && 0 <= j < u.len() && i != j implies u[i] != u[j] by {
        assert(u[i].1 <= u[j].0 || u[j].1 <= u[i].0);
    }
    assert(u.no_duplicates());
    u.lemma_multiset_has_no_duplicates();
    s.to_multiset_ensures();
    u.to_multiset_ensures();
    s.lemma_multiset_has_no_duplicates_conv();
    assert forall|i: int, j: int| 0 <= i < s.len() && 0 <= j < s.len() && i != j implies #[trigger] s[i].1
        <= #[trigger] s[j].0 || s[j].1 <= s[i].0 by {
        assert(s.contains(s[i]));
        assert(s.contains(s[j]));
        assert(s.to_multiset().count(s[i]) > 0);
        assert(s.to_multiset().count(s[j]) > 0);
        assert(u.to_multiset().count(s[i]) > 0);
        assert(u.to_multiset().count(s[j]) > 0);
        assert(u.contains(s[i]));
        assert(u.contains(s[j]));
        let p = choose|p: int| 0 <= p < u.len() && u[p] == s[i];
        let q = choose|q: int| 0 <= q < u.len() && u[q] == s[j];
        assert(s[i] != s[j]);
        assert(p != q);
        assert(u[p].1 <= u[q].0 || u[q].1 <= u[p].0);
    }
}

/// The bounds of each zone of `zones`.
pub open spec fn zone_bounds(zones: Seq<Zone>) -> Seq<(u64, u64)> {
    zones.map_values(|z: Zone| (z.start_spec() as u64, z.end_spec() as u64))
}

/// The bounds of zone `z` hold `a`, both ends included.
pub open spec fn zone_holds(z: Zone, a: int) -> bool {
    z.start_spec() <= a <= z.end_spec()
}

/// The sum of the available-byte counters of `zones`.
pub open spec fn total_available(zones: Seq<Zone>) -> int
    decreases zones.len(),
{
    if zones.len() == 0 {
        0
    } else {
        total_available(zones.drop_last()) + zones.last().available_spec()
    }
}

/// This is where all the memory comes from: a buddy allocator over the usable regions.
pub struct FrameAllocator {
    zones: Option<Vec<Zone>>,
}

impl FrameAllocator {
    /// The zones, once the allocator is initialized.
    pub closed spec fn zones_spec(&self) -> Option<Seq<Zone>> {
        match self.zones {
            Some(z) => Some(z@),
            None => None,
        }
    }

    /// Initialized, with well-formed zones whose counters of available bytes are right.
    pub open spec fn ready(&self) -> bool {
        &&& self.zones_spec() is Some
        &&& forall|i: int|
            0 <= i < self.zones_spec().unwrap().len() ==> #[trigger] self.zones_spec().unwrap()[i].wf()
                && self.zones_spec().unwrap()[i].counts_ok() && self.zones_spec().unwrap()[i].buddies_merged()
    }

    /// An allocator that has not been initialized yet.
    pub fn new() -> (r: Self)
        ensures
            r.zones_spec() is None,
    {
        FrameAllocator { zones: None }
    }

    /// Initialize the allocator with a memory map: every usable region of at least 4 KiB
    /// becomes a zone, and the zones are ordered by size, largest first.
    pub fn init_with(&mut self, map: &[MemoryRegion], physical_memory_offset: usize)
        requires
            old(self).zones_spec() is None,
            forall|i: int|
                0 <= i < map@.len() && (#[trigger] map@[i]).kind == MemoryRegionKind::Usable ==> map@[i].start
                    <= map@[i].end,
            forall|i: int|
                0 <= i < map@.len() && becomes_zone(#[trigger] map@[i]) ==> zone_fits(
                    map@[i].start as int,
                    map@[i].end as int,
                ),
        ensures
            final(self).ready(),
            ({
                let zones = final(self).zones_spec().unwrap();
                &&& zone_bounds(zones).to_multiset() == zone_regions(map@).to_multiset()
                &&& forall|size: int| #[trigger] of_size(zone_bounds(zones), size) == of_size(zone_regions(map@), size)
                &&& bounds_disjoint(zone_regions(map@)) ==> zones_disjoint(zones)
                &&& forall|i: int| 0 <= i < zones.len() ==> #[trigger] usable_bounds(map@, zone_bounds(zones)[i])
                &&& forall|i: int, j: int|
                    0 <= i < j < zones.len() ==> (#[trigger] zones[i]).end_spec() - zones[i].start_spec()
                        >= (#[trigger] zones[j]).end_spec() - zones[j].start_spec()
                &&& forall|i: int|
                    0 <= i < zones.len() ==> (#[trigger] zones[i]).nothing_allocated() && zones[i].offset_spec()
                        == physical_memory_offset && zones[i].available_spec() == zones[i].end_spec()
                        - zones[i].start_spec()
            }),
    {
        let mut regions: Vec<(u64, u64)> = Vec::new();
        let mut i: usize = 0;
        while i < map.len()
            invariant
                0 <= i <= map@.len(),
                regions@ == zone_regions(map@.take(i as int)),
                forall|j: int|
                    0 <= j < map@.len() && (#[trigger] map@[j]).kind == MemoryRegionKind::Usable ==> map@[j].start
                        <= map@[j].end,
                forall|j: int|
                    0 <= j < map@.len() && becomes_zone(#[trigger] map@[j]) ==> zone_fits(
                        map@[j].start as int,
                        map@[j].end as int,
                    ),
                forall|j: int| 0 <= j < regions@.len() ==> #[trigger] regions@[j].0 <= regions@[j].1
                    && zone_fits(regions@[j].0 as int, regions@[j].1 as int)
                    && regions@[j].1 - regions@[j].0 >= node_size(0),
            decreases map@.len() - i,
        {
            let region = map[i];
            proof {
                assert(map@.take(i as int + 1).drop_last() =~= map@.take(i as int));
                assert(map@.take(i as int + 1).last() == region);
                crate::power::lemma_pow2_facts(MIN_ORDER as nat);
            }
            if region.kind == MemoryRegionKind::Usable && region.end - region.start >= pow2_usize(MIN_ORDER) as u64 {
                regions.push((region.start, region.end));
            }
            i = i + 1;
        }
        proof {
            assert(map@.take(map@.len() as int) =~= map@);
        }
        let ghost unsorted = regions@;
        sort_by_size_descending(&mut regions);
        proof {
            assert forall|i: int| 0 <= i < regions@.len() implies #[trigger] regions@[i].0 <= regions@[i].1
                && zone_fits(regions@[i].0 as int, regions@[i].1 as int)
                && regions@[i].1 - regions@[i].0 >= node_size(0) by {
                regions@.to_multiset_ensures();
                unsorted.to_multiset_ensures();
                assert(regions@.contains(regions@[i]));
                assert(regions@.to_multiset().count(regions@[i]) > 0);
                assert(unsorted.to_multiset().count(regions@[i]) > 0);
                assert(unsorted.contains(regions@[i]));
                let k = choose|k: int| 0 <= k < unsorted.len() && unsorted[k] == regions@[i];
                assert(unsorted[k].0 <= unsorted[k].1);
            }
        }
        let mut zones: Vec<Zone> = Vec::new();
        let mut j: usize = 0;
        while j < regions.len()
            invariant
                0 <= j <= regions@.len(),
                zones@.len() == j,
                forall|i: int| 0 <= i < regions@.len() ==> #[trigger] regions@[i].0 <= regions@[i].1
                    && zone_fits(regions@[i].0 as int, regions@[i].1 as int)
                    && regions@[i].1 - regions@[i].0 >= node_size(0),
                forall|i: int|
                    0 <= i < j ==> {
                        let z = #[trigger] zones@[i];
                        &&& z.wf()
                        &&& z.counts_ok()
                        &&& z.buddies_merged()
                        &&& z.nothing_allocated()
                        &&& z.start_spec() == regions@[i].0
                        &&& z.end_spec() == regions@[i].1
                        &&& z.offset_spec() == physical_memory_offset
                        &&& z.available_spec() == z.end_spec() - z.start_spec()
                    },
            decreases regions@.len() - j,
        {
            let bounds = regions[j];
            proof {
                assert(bounds == regions@[j as int]);
                crate::power::lemma_pow2_facts(MIN_ORDER as nat);
                assert(bounds.0 <= bounds.1 <= usize::MAX);
                assert(bounds.1 - bounds.0 >= node_size(0));
                assert(bounds.0 as usize == bounds.0);
                assert(bounds.1 as usize == bounds.1);
                assert(node_size(0) == vstd::arithmetic::power2::pow2(MIN_ORDER as nat));
            }
            let zone = Zone::new(
                PhysicalAddress::new(bounds.0 as usize),
                PhysicalAddress::new(bounds.1 as usize),
                physical_memory_offset,
            );
            zones.push(zone);
            j = j + 1;
        }
        proof {
            let zs = zones@;
            assert(zone_bounds(zs) =~= regions@);
            lemma_zone_regions_usable(map@);
            assert forall|i: int| 0 <= i < zs.len() implies #[trigger] usable_bounds(map@, zone_bounds(zs)[i]) by {
                regions@.to_multiset_ensures();
                unsorted.to_multiset_ensures();
                assert(regions@.contains(regions@[i]));
                assert(regions@.to_multiset().count(regions@[i]) > 0);
                assert(unsorted.to_multiset().count(regions@[i]) > 0);
                assert(unsorted.contains(regions@[i]));
                let k = choose|k: int| 0 <= k < unsorted.len() && unsorted[k] == regions@[i];
                assert(unsorted == zone_regions(map@));
                assert(usable_bounds(map@, zone_regions(map@)[k]));
            }
            if bounds_disjoint(unsorted) {
                crate::power::lemma_pow2_facts(MIN_ORDER as nat);
                lemma_disjoint_permutation(unsorted, regions@);
                assert forall|i: int, j: int|
                    0 <= i < zs.len() && 0 <= j < zs.len() && i != j implies #[trigger] zs[i].end_spec()
                    <= #[trigger] zs[j].start_spec() || zs[j].end_spec() <= zs[i].start_spec() by {
                    assert(regions@[i].1 <= regions@[j].0 || regions@[j].1 <= regions@[i].0);
                }
            }
        }
        self.zones = Some(zones);
    }
}

impl FrameAllocator {
    /// Zone `i` served the request: the zones before it had no free block large enough and
    /// stay as they were, zone `i` handed out `size` bytes at `a` (the block that
    /// [`Zone::served_block`] names, its free lists changed as [`Zone::split_from`] says), the
    /// zones after it are untouched.
    pub open spec fn served_by(old: Seq<Zone>, new: Seq<Zone>, i: int, size: int, a: int) -> bool {
        &&& new.len() == old.len()
        &&& 0 <= i < old.len()
        &&& Zone::allocated_sized(old[i], new[i], size, a)
        &&& old[i].hands_out(size, a)
        &&& Zone::served_from(old[i], new[i], size, a)
        &&& Zone::split_rest(old[i], new[i], size, a)
        &&& new[i].same_zone(old[i])
        &&& new[i].available_spec() == zone::wrapping_sub_spec(old[i].available_spec(), size)
        &&& forall|j: int| 0 <= j < old.len() && j != i ==> #[trigger] Zone::unchanged(old[j], new[j])
        &&& forall|j: int| 0 <= j < i ==> #[trigger] Self::no_block_for(old[j], size)
    }

    /// Some zone served the request, handing out `size` bytes at `a`.
    pub open spec fn served_somewhere(old: Seq<Zone>, new: Seq<Zone>, size: int, a: int) -> bool {
        exists|i: int| #[trigger] Self::served_by(old, new, i, size, a)
    }

    /// The zone has no free block of `size` bytes or more.
    pub open spec fn no_block_for(z: Zone, size: int) -> bool {
        forall|l: int|
            0 <= l <= z.top() && node_size(l) >= size ==> #[trigger] z.levels_spec()[l].free_list().len()
                == 0
    }

    /// The request could not be served: no zone has a free block large enough.
    pub open spec fn refused(old: Seq<Zone>, new: Seq<Zone>, size: int) -> bool {
        &&& new.len() == old.len()
        &&& forall|j: int| 0 <= j < old.len() ==> #[trigger] Zone::unchanged(old[j], new[j])
        &&& forall|j: int| 0 <= j < old.len() ==> #[trigger] Self::no_block_for(old[j], size)
    }

    /// Allocate a block of physical memory of at least `size` bytes.
    ///
    /// The request is rounded up to the next power of two (and to at least 4 KiB); the zones
    /// are tried in order and the first that has a large enough free block serves it.
    /// Returns the address of the block and its size.
    pub fn allocate(&mut self, size: usize) -> (r: Option<(PhysicalAddress, usize)>)
        requires
            old(self).ready(),
            size <= usize::MAX / 2 + 1,
        ensures
            final(self).ready(),
            ({
                let rounded = next_pow2(size as nat);
                &&& r is None ==> Self::refused(
                    old(self).zones_spec().unwrap(),
                    final(self).zones_spec().unwrap(),
                    rounded as int,
                )
                &&& r is Some ==> r.unwrap().1 == block_size_for(rounded as int) && r.unwrap().1 >= size
                &&& size > total_available(old(self).zones_spec().unwrap()) ==> r is None
                &&& r is Some ==> exists|i: int|
                    #[trigger] Self::served_by(
                        old(self).zones_spec().unwrap(),
                        final(self).zones_spec().unwrap(),
                        i,
                        r.unwrap().1 as int,
                        r.unwrap().0.value as int,
                    )
            }),
    {
        let rounded: usize = next_power_of_two(size);
        let mut zones = self.zones.take().unwrap();
        let ghost old_zones = zones@;
        proof {
            assert(old_zones == old(self).zones_spec().unwrap());
            assert forall|j: int| 0 <= j < old_zones.len() implies #[trigger] old_zones[j].wf() && old_zones[j].counts_ok()
                && old_zones[j].buddies_merged() by {
                assert(old(self).zones_spec().unwrap()[j].wf());
            }
        }
        let mut i: usize = 0;
        while i < zones.len()
            invariant
                0 <= i <= zones@.len(),
                zones@.len() == old_zones.len(),
                old_zones == old(self).zones_spec().unwrap(),
                rounded == next_pow2(size as nat),
                is_next_power_of_two(size as nat, rounded as nat),
                forall|j: int| 0 <= j < zones@.len() ==> #[trigger] zones@[j].wf() && zones@[j].counts_ok()
                    && zones@[j].buddies_merged(),
                forall|j: int| i <= j < zones@.len() ==> #[trigger] zones@[j] == old_zones[j],
                forall|j: int| 0 <= j < i ==> #[trigger] Zone::unchanged(old_zones[j], zones@[j]),
                forall|j: int| 0 <= j < i ==> #[trigger] Self::no_block_for(old_zones[j], rounded as int),
            decreases zones@.len() - i,
        {
            let ghost before = zones@;
            let result = zones[i].allocate(rounded);
            proof {
                assert(zones@ == before.update(i as int, zones@[i as int]));
            }
            match result {
                Some(block) => {
                    proof {
                        assert forall|j: int| 0 <= j < old_zones.len() && j != i implies #[trigger] Zone::unchanged(
                            old_zones[j],
                            zones@[j],
                        ) by {
                            if j > i {
                                assert(zones@[j] == old_zones[j]);
                            }
                        }
                        let ii = i as int;
                        assert(zones@.len() == old_zones.len());
                        assert(before[ii] == old_zones[ii]);
                        assert(Zone::allocated_sized(old_zones[ii], zones@[ii], block.1 as int, block.0.value as int));
                        assert(zones@[ii].same_zone(old_zones[ii]));
                        assert(old_zones[ii].hands_out(block.1 as int, block.0.value as int));
                        assert(Zone::served_from(old_zones[ii], zones@[ii], block.1 as int, block.0.value as int));
                        assert(Zone::split_rest(old_zones[ii], zones@[ii], block.1 as int, block.0.value as int));
                        assert(zones@[ii].available_spec() == zone::wrapping_sub_spec(old_zones[ii].available_spec(), block.1 as int));
                        assert forall|j: int| 0 <= j < ii implies #[trigger] Self::no_block_for(
                            old_zones[j],
                            block.1 as int,
                        ) by {
                            assert(Self::no_block_for(old_zones[j], rounded as int));
                        }
                        assert(Self::served_by(old_zones, zones@, i as int, block.1 as int, block.0.value as int));
                        lemma_zone_available_le_total(old_zones, ii);
                    }
                    self.zones = Some(zones);
                    proof {
                        assert(self.zones_spec().unwrap() == zones@);
                        assert(Self::served_by(
                            old(self).zones_spec().unwrap(),
                            self.zones_spec().unwrap(),
                            i as int,
                            block.1 as int,
                            block.0.value as int,
                        ));
                        assert forall|j: int| 0 <= j < self.zones_spec().unwrap().len() implies #[trigger] self.zones_spec().unwrap()[j].wf()
                            && self.zones_spec().unwrap()[j].counts_ok() && self.zones_spec().unwrap()[j].buddies_merged() by {
                            assert(zones@[j].wf());
                        }
                    }
                    return Some(block);
                },
                None => {
                    proof {
                        assert forall|j: int| 0 <= j < zones@.len() implies #[trigger] zones@[j].wf()
                            && zones@[j].counts_ok() && zones@[j].buddies_merged() by {
                            if j != i {
                                assert(zones@[j] == before[j]);
                                assert(before[j].wf());
                            }
                        }
                    }
                },
            }
            i = i + 1;
        }
        self.zones = Some(zones);
        proof {
            assert(self.zones_spec().unwrap() == zones@);
            assert forall|j: int| 0 <= j < self.zones_spec().unwrap().len() implies #[trigger] self.zones_spec().unwrap()[j].wf()
                && self.zones_spec().unwrap()[j].counts_ok() && self.zones_spec().unwrap()[j].buddies_merged() by {
                assert(zones@[j].wf());
            }
        }
        None
    }
}

impl FrameAllocator {
    /// Zone `i` is the first of `zones` whose bounds hold `a`.
    pub open spec fn first_containing(zones: Seq<Zone>, i: int, a: int) -> bool {
        &&& 0 <= i < zones.len()
        &&& zone_holds(zones[i], a)
        &&& forall|j: int| 0 <= j < i ==> !#[trigger] zone_holds(zones[j], a)
    }

    /// The block at `a` can be given back: the first zone that holds `a` handed out a block
    /// that starts at `a`.
    pub open spec fn can_free(zones: Seq<Zone>, a: int) -> bool {
        exists|i: int|
            #[trigger] Self::first_containing(zones, i, a) && exists|
                l: int,
                k: int,
            | #[trigger] zones[i].is_allocated(l, k) && zones[i].addr(l, k) == a
    }

    /// Zone `i`, the first that holds `a`, gave back its block at `a`; the other zones are
    /// untouched.
    pub open spec fn freed_in(old: Seq<Zone>, new: Seq<Zone>, i: int, a: int) -> bool {
        &&& new.len() == old.len()
        &&& Self::first_containing(old, i, a)
        &&& Zone::freed_block(old[i], new[i], a)
        &&& new[i].same_zone(old[i])
        &&& forall|j: int| 0 <= j < old.len() && j != i ==> #[trigger] Zone::unchanged(old[j], new[j])
    }

    /// Give back a block of physical memory that [`FrameAllocator::allocate`] handed out.
    ///
    /// The block goes back to the first zone whose bounds hold `addr`, which merges it with
    /// its free buddies.
    pub fn deallocate(&mut self, addr: PhysicalAddress)
        requires
            old(self).ready(),
            Self::can_free(old(self).zones_spec().unwrap(), addr.value as int),
        ensures
            final(self).ready(),
            exists|i: int|
                #[trigger] Self::freed_in(
                    old(self).zones_spec().unwrap(),
                    final(self).zones_spec().unwrap(),
                    i,
                    addr.value as int,
                ),
    {
        let mut zones = self.zones.take().unwrap();
        let ghost old_zones = zones@;
        let ghost target = choose|i: int|
            #[trigger] Self::first_containing(old_zones, i, addr.value as int)
                && exists|l: int, k: int|
                #[trigger] old_zones[i].is_allocated(l, k) && old_zones[i].addr(l, k) == addr.value;
        proof {
            assert(old_zones == old(self).zones_spec().unwrap());
            assert(old_zones[target].wf());
            assert(old_zones[target].counts_ok());
            assert(old_zones[target].buddies_merged());
        }
        let mut i: usize = 0;
        while i < zones.len() && !zones[i].contains(addr)
            invariant
                0 <= i <= zones@.len(),
                zones@ == old_zones,
                Self::first_containing(old_zones, target, addr.value as int),
                forall|j: int| 0 <= j < i ==> !#[trigger] zone_holds(old_zones[j], addr.value as int),
            decreases zones@.len() - i,
        {
            i = i + 1;
        }
        proof {
            if i as int != target {
                if (i as int) < target {
                    assert(zone_holds(old_zones[i as int], addr.value as int));
                } else {
                    assert(!zone_holds(old_zones[target], addr.value as int));
                }
            }
        }
        let ghost before = zones@;
        zones[i].deallocate(addr);
        proof {
            assert(zones@ == before.update(i as int, zones@[i as int]));
        }
        self.zones = Some(zones);
        proof {
            assert(self.zones_spec().unwrap() == zones@);
            assert(Self::freed_in(old(self).zones_spec().unwrap(), self.zones_spec().unwrap(), i as int, addr.value as int));
            assert forall|j: int| 0 <= j < self.zones_spec().unwrap().len() implies #[trigger] self.zones_spec().unwrap()[j].wf()
                && self.zones_spec().unwrap()[j].counts_ok() && self.zones_spec().unwrap()[j].buddies_merged() by {
                if j != i {
                    assert(old(self).zones_spec().unwrap()[j].wf());
                }
            }
        }
    }
}

impl FrameAllocator {
    /// The total number of bytes the zones have not handed out yet, by their counters.
    ///
    /// This memory need not be contiguous: a request of this size may still fail.
    pub fn available(&self) -> (r: usize)
        requires
            self.zones_spec() is Some,
            total_available(self.zones_spec().unwrap()) <= usize::MAX,
        ensures
            r == total_available(self.zones_spec().unwrap()),
    {
        let zones = match &self.zones {
            Some(z) => z,
            None => {
                return 0;
            },
        };
        proof {
            lemma_total_available_prefix(zones@);
        }
        let mut sum: usize = 0;
        let mut i: usize = 0;
        while i < zones.len()
            invariant
                0 <= i <= zones@.len(),
                sum == total_available(zones@.take(i as int)),
                total_available(zones@) <= usize::MAX,
                forall|j: int| 0 <= j <= zones@.len() ==> #[trigger] total_available(zones@.take(j)) <= total_available(zones@),
            decreases zones@.len() - i,
        {
            proof {
                assert(zones@.take(i as int + 1).drop_last() =~= zones@.take(i as int));
                assert(total_available(zones@.take(i as int + 1)) <= total_available(zones@));
            }
            sum = sum + zones[i].available();
            i = i + 1;
        }
        proof {
            assert(zones@.take(zones@.len() as int) =~= zones@);
        }
        sum
    }

    /// The smallest block the allocator hands out: 4 KiB.
    pub fn min_size(&self) -> (r: usize)
        ensures
            r == node_size(0),
    {
        pow2_usize(MIN_ORDER)
    }
}

/// The counters of a prefix of the zones never add up to more than those of all the zones.
/// The counter of one zone is at most the total of all counters.
pub proof fn lemma_zone_available_le_total(zones: Seq<Zone>, i: int)
    requires
        0 <= i < zones.len(),
    ensures
        zones[i].available_spec() <= total_available(zones),
    decreases zones.len(),
{
    let rest = zones.drop_last();
    lemma_total_available_prefix(rest);
    assert(total_available(rest.take(0)) == 0);
    assert(total_available(rest) >= 0);
    zones.last().lemma_available_range();
    if i < zones.len() - 1 {
        lemma_zone_available_le_total(rest, i);
        assert(rest[i] == zones[i]);
    }
}

pub proof fn lemma_total_available_prefix(zones: Seq<Zone>)
    ensures
        forall|j: int| 0 <= j <= zones.len() ==> #[trigger] total_available(zones.take(j)) <= total_available(zones),
    decreases zones.len(),
{
    if zones.len() > 0 {
        let rest = zones.drop_last();
        lemma_total_available_prefix(rest);
        zones.last().lemma_available_range();
        assert forall|j: int| 0 <= j <= zones.len() implies #[trigger] total_available(zones.take(j)) <= total_available(zones) by {
            if j == zones.len() {
                assert(zones.take(j) =~= zones);
            } else {
                assert(zones.take(j) =~= rest.take(j));
                assert(total_available(rest.take(j)) <= total_available(rest));
                assert(zones.drop_last() == rest);
            }
        }
    }
}

/// The range of `size` bytes at `a` touches zone `z`, its ends included.
pub open spec fn zone_clashes(z: Zone, a: int, size: int) -> bool {
    (z.start_spec() <= a <= z.end_spec()) || (z.start_spec() <= a + size <= z.end_spec()) || (a
        <= z.start_spec() <= a + size)
}

impl FrameAllocator {
    /// Whether the range of `size` bytes at `addr` touches memory that the allocator manages.
    pub fn clashes(&self, addr: PhysicalAddress, size: usize) -> (r: bool)
        requires
            self.zones_spec() is Some,
            addr.value + size <= usize::MAX,
        ensures
            r == exists|i: int|
                0 <= i < self.zones_spec().unwrap().len() && #[trigger] zone_clashes(
                    self.zones_spec().unwrap()[i],
                    addr.value as int,
                    size as int,
                ),
    {
        let zones = match &self.zones {
            Some(z) => z,
            None => {
                return false;
            },
        };
        let mut i: usize = 0;
        while i < zones.len()
            invariant
                0 <= i <= zones@.len(),
                self.zones_spec() == Some(zones@),
                addr.value + size <= usize::MAX,
                forall|j: int| 0 <= j < i ==> !#[trigger] zone_clashes(zones@[j], addr.value as int, size as int),
            decreases zones@.len() - i,
        {
            if zones[i].clashes(addr, size) {
                proof {
                    assert(zone_clashes(self.zones_spec().unwrap()[i as int], addr.value as int, size as int));
                }
                return true;
            }
            i = i + 1;
        }
        false
    }
}

/// A block of physical memory taken from a [`FrameAllocator`], to be given back to it.
pub struct PhysicalBox {
    address: PhysicalAddress,
}

impl PhysicalBox {
    pub closed spec fn addr_spec(&self) -> PhysicalAddress {
        self.address
    }

    /// A block of at least `size` bytes from `alloc`, with its size; `None` when no zone has
    /// a large enough free block.
    pub fn new(alloc: &mut FrameAllocator, size: usize) -> (r: Option<(Self, usize)>)
        requires
            old(alloc).ready(),
            size <= usize::MAX / 2 + 1,
        ensures
            final(alloc).ready(),
            ({
                let rounded = next_pow2(size as nat);
                &&& r is None ==> FrameAllocator::refused(
                    old(alloc).zones_spec().unwrap(),
                    final(alloc).zones_spec().unwrap(),
                    rounded as int,
                )
                &&& r is Some ==> r.unwrap().1 == block_size_for(rounded as int) && r.unwrap().1 >= size
                &&& r is Some ==> FrameAllocator::served_somewhere(
                    old(alloc).zones_spec().unwrap(),
                    final(alloc).zones_spec().unwrap(),
                    r.unwrap().1 as int,
                    r.unwrap().0.addr_spec().value as int,
                )
            }),
    {
        match alloc.allocate(size) {
            Some((address, got)) => {
                let b = PhysicalBox { address };
                proof {
                    let i = choose|i: int|
                        #[trigger] FrameAllocator::served_by(
                            old(alloc).zones_spec().unwrap(),
                            alloc.zones_spec().unwrap(),
                            i,
                            got as int,
                            address.value as int,
                        );
                    assert(FrameAllocator::served_by(
                        old(alloc).zones_spec().unwrap(),
                        alloc.zones_spec().unwrap(),
                        i,
                        got as int,
                        b.addr_spec().value as int,
                    ));
                    assert(FrameAllocator::served_somewhere(
                        old(alloc).zones_spec().unwrap(),
                        alloc.zones_spec().unwrap(),
                        got as int,
                        b.addr_spec().value as int,
                    ));
                }
                Some((b, got))
            },
            None => None,
        }
    }

    /// The address of the block.
    pub fn addr(&self) -> (r: PhysicalAddress)
        ensures
            r == self.addr_spec(),
    {
        self.address
    }

    /// Give the block back to `alloc`.
    pub fn release(self, alloc: &mut FrameAllocator)
        requires
            old(alloc).ready(),
            FrameAllocator::can_free(old(alloc).zones_spec().unwrap(), self.addr_spec().value as int),
        ensures
            final(alloc).ready(),
            exists|i: int|
                #[trigger] FrameAllocator::freed_in(
                    old(alloc).zones_spec().unwrap(),
                    final(alloc).zones_spec().unwrap(),
                    i,
                    self.addr_spec().value as int,
                ),
    {
        alloc.deallocate(self.address);
    }
}

/// Law: a block the allocator hands out lies within the zone that served it, so a request
/// for more bytes than the zone holds is never served by it.
pub proof fn lemma_served_block_fits_zone(z0: Seq<Zone>, z1: Seq<Zone>, i: int, size: int, a: int)
    requires
        FrameAllocator::served_by(z0, z1, i, size, a),
        z1[i].wf(),
    ensures
        z1[i].start_spec() <= a,
        a + size <= z1[i].end_spec(),
        size <= z0[i].end_spec() - z0[i].start_spec(),
{
    let l = choose|l: int| node_size(l) == size && #[trigger] Zone::allocated_at(z0[i], z1[i], l, a);
    let k = choose|k: int| #[trigger] Zone::allocated_one(z0[i], z1[i], l, k, a);
    z1[i].lemma_allocated_within_zone(l, k);
}

/// No two zones share a byte.
pub open spec fn zones_disjoint(zones: Seq<Zone>) -> bool {
    forall|i: int, j: int|
        0 <= i < zones.len() && 0 <= j < zones.len() && i != j ==> #[trigger] zones[i].end_spec()
            <= #[trigger] zones[j].start_spec() || zones[j].end_spec() <= zones[i].start_spec()
}

/// Law: serving a request or giving a block back keeps every zone's bounds, so zones that
/// shared no byte still share none.
pub proof fn lemma_zones_stay_disjoint(z0: Seq<Zone>, z1: Seq<Zone>)
    requires
        zones_disjoint(z0),
        (exists|i: int, size: int, a: int| #[trigger] FrameAllocator::served_by(z0, z1, i, size, a))
            || (exists|i: int, a: int| #[trigger] FrameAllocator::freed_in(z0, z1, i, a)),
    ensures
        zones_disjoint(z1),
{
    assert(z1.len() == z0.len());
    assert forall|j: int| 0 <= j < z0.len() implies #[trigger] z1[j].same_zone(z0[j]) by {
        if exists|i: int, size: int, a: int| #[trigger] FrameAllocator::served_by(z0, z1, i, size, a) {
            let (i, size, a) = choose|i: int, size: int, a: int| #[trigger] FrameAllocator::served_by(z0, z1, i, size, a);
            if j != i {
                assert(Zone::unchanged(z0[j], z1[j]));
            }
        } else {
            let (i, a) = choose|i: int, a: int| #[trigger] FrameAllocator::freed_in(z0, z1, i, a);
            if j != i {
                assert(Zone::unchanged(z0[j], z1[j]));
            }
        }
    }
    assert forall|i: int, j: int|
        0 <= i < z1.len() && 0 <= j < z1.len() && i != j implies #[trigger] z1[i].end_spec()
        <= #[trigger] z1[j].start_spec() || z1[j].end_spec() <= z1[i].start_spec() by {
        assert(z1[i].same_zone(z0[i]));
        assert(z1[j].same_zone(z0[j]));
        assert(z0[i].end_spec() <= z0[j].start_spec() || z0[j].end_spec() <= z0[i].start_spec());
    }
}

/// Law: when no two zones share a byte, a block that [`FrameAllocator::allocate`] hands out
/// shares no byte with any block that was handed out before and not given back, in whichever
/// zone it lies.
pub proof fn lemma_served_block_is_fresh(
    z0: Seq<Zone>,
    z1: Seq<Zone>,
    i: int,
    size: int,
    a: int,
    j: int,
    l: int,
    k: int,
)
    requires
        forall|x: int| 0 <= x < z0.len() ==> (#[trigger] z0[x]).wf(),
        forall|x: int| 0 <= x < z1.len() ==> (#[trigger] z1[x]).wf(),
        zones_disjoint(z0),
        FrameAllocator::served_by(z0, z1, i, size, a),
        0 <= j < z0.len(),
        z0[j].is_allocated(l, k),
    ensures
        a + size <= z0[j].addr(l, k) || z0[j].end_of(l, k) <= a,
{
    let l0 = choose|l0: int| node_size(l0) == size && #[trigger] Zone::allocated_at(z0[i], z1[i], l0, a);
    let k0 = choose|k0: int| #[trigger] Zone::allocated_one(z0[i], z1[i], l0, k0, a);
    z1[i].lemma_allocated_within_zone(l0, k0);
    z0[j].lemma_allocated_within_zone(l, k);
    if j == i {
        assert(z1[i].is_allocated(l, k));
        z1[i].lemma_allocated_blocks_disjoint(l0, k0, l, k);
    } else {
        assert(z0[i].end_spec() <= z0[j].start_spec() || z0[j].end_spec() <= z0[i].start_spec());
    }
}

/// Law: giving back the block that [`FrameAllocator::allocate`] just handed out leaves every
/// zone with exactly the blocks it had handed out before, and the allocator with as many
/// available bytes as before, provided no zone before the one that
/// served the request also holds the block's address within its bounds.
pub proof fn lemma_deallocate_undoes_allocate(
    z0: Seq<Zone>,
    z1: Seq<Zone>,
    z2: Seq<Zone>,
    i: int,
    i2: int,
    size: int,
    a: int,
)
    requires
        forall|j: int| 0 <= j < z0.len() ==> (#[trigger] z0[j]).wf(),
        forall|j: int| 0 <= j < z1.len() ==> (#[trigger] z1[j]).wf(),
        FrameAllocator::served_by(z0, z1, i, size, a),
        forall|j: int| 0 <= j < i ==> !#[trigger] zone_holds(z0[j], a),
        FrameAllocator::freed_in(z1, z2, i2, a),
    ensures
        z2.len() == z0.len(),
        forall|j: int, l: int, k: int|
            0 <= j < z0.len() ==> #[trigger] z2[j].is_allocated(l, k) == z0[j].is_allocated(l, k),
        forall|j: int| 0 <= j < z0.len() ==> #[trigger] z2[j].available_spec() == z0[j].available_spec(),
        total_available(z2) == total_available(z0),
{
    let l0 = choose|l: int| node_size(l) == size && #[trigger] Zone::allocated_at(z0[i], z1[i], l, a);
    let k0 = choose|k: int| #[trigger] Zone::allocated_one(z0[i], z1[i], l0, k, a);
    z1[i].lemma_allocated_within_zone(l0, k0);
    assert(zone_holds(z1[i], a));
    if i2 != i {
        if i2 < i {
            assert(Zone::unchanged(z0[i2], z1[i2]));
            assert(zone_holds(z1[i2], a));
            assert(!zone_holds(z0[i2], a));
        } else {
            assert(!zone_holds(z1[i], a));
        }
    }
    z0[i].lemma_available_range();
    Zone::lemma_deallocate_undoes_allocate(z0[i], z1[i], z2[i], size, a);
    assert forall|j: int, l: int, k: int| 0 <= j < z0.len() implies #[trigger] z2[j].is_allocated(l, k)
        == z0[j].is_allocated(l, k) by {
        if j != i {
            assert(Zone::unchanged(z0[j], z1[j]));
            assert(Zone::unchanged(z1[j], z2[j]));
            assert(z1[j].st(l, k) == z0[j].st(l, k));
            assert(z2[j].st(l, k) == z1[j].st(l, k));
        }
    }
    assert forall|j: int| 0 <= j < z0.len() implies #[trigger] z2[j].available_spec() == z0[j].available_spec() by {
        if j != i {
            assert(Zone::unchanged(z0[j], z1[j]));
            assert(Zone::unchanged(z1[j], z2[j]));
        }
    }
    lemma_total_available_same(z0, z2);
}

/// A zone that serves a request of `size` bytes has a free block of at least that size.
proof fn lemma_hands_out_has_block(z: Zone, size: int, r: int, a: int)
    requires
        z.hands_out(size, a),
        r <= size,
    ensures
        !FrameAllocator::no_block_for(z, r),
{
    let l = choose|l: int| 0 <= l && node_size(l) == size && #[trigger] z.served_block(l) == Some(a);
    let j = choose|j: int| z.is_first_free(l, j);
    assert(z.is_first_free(l, j));
    crate::power::lemma_pow2_monotone((MIN_ORDER + l) as nat, (MIN_ORDER + j) as nat);
    assert(node_size(j) >= r);
}

/// Law: giving back the block that [`FrameAllocator::allocate`] just handed out restores the
/// free lists of every zone, so that the same request is served with the same block by the
/// same zone again and is not refused, provided no zone before the one that served the
/// request also holds the block's address within its bounds.
pub proof fn lemma_freed_block_served_again(
    z0: Seq<Zone>,
    z1: Seq<Zone>,
    z2: Seq<Zone>,
    i: int,
    i2: int,
    size: int,
    a: int,
)
    requires
        forall|j: int| 0 <= j < z0.len() ==> (#[trigger] z0[j]).wf() && z0[j].buddies_merged(),
        forall|j: int| 0 <= j < z1.len() ==> (#[trigger] z1[j]).wf(),
        FrameAllocator::served_by(z0, z1, i, size, a),
        forall|j: int| 0 <= j < i ==> !#[trigger] zone_holds(z0[j], a),
        FrameAllocator::freed_in(z1, z2, i2, a),
    ensures
        z2.len() == z0.len(),
        forall|j: int, m: int|
            0 <= j < z0.len() && 0 <= m <= z0[j].top() ==> #[trigger] z2[j].levels_spec()[m].free_list()
                == z0[j].levels_spec()[m].free_list(),
        forall|z3: Seq<Zone>, i3: int, a3: int|
            #[trigger] FrameAllocator::served_by(z2, z3, i3, size, a3) ==> i3 == i && a3 == a,
        forall|z3: Seq<Zone>, r: int| r <= size ==> !#[trigger] FrameAllocator::refused(z2, z3, r),
{
    let l0 = choose|l: int| node_size(l) == size && #[trigger] Zone::allocated_at(z0[i], z1[i], l, a);
    let k0 = choose|k: int| #[trigger] Zone::allocated_one(z0[i], z1[i], l0, k, a);
    z1[i].lemma_allocated_within_zone(l0, k0);
    assert(zone_holds(z1[i], a));
    if i2 != i {
        if i2 < i {
            assert(Zone::unchanged(z0[i2], z1[i2]));
            assert(zone_holds(z1[i2], a));
            assert(!zone_holds(z0[i2], a));
        } else {
            assert(!zone_holds(z1[i], a));
        }
    }
    assert(z0[i].wf() && z0[i].buddies_merged());
    assert(z1[i].wf());
    Zone::lemma_freed_block_served_again(z0[i], z1[i], z2[i], size, a);
    assert forall|j: int, m: int|
        0 <= j < z0.len() && 0 <= m <= z0[j].top() implies #[trigger] z2[j].levels_spec()[m].free_list()
            == z0[j].levels_spec()[m].free_list() by {
        if j != i {
            assert(Zone::unchanged(z0[j], z1[j]));
            assert(Zone::unchanged(z1[j], z2[j]));
        }
    }
    assert forall|z3: Seq<Zone>, i3: int, a3: int|
        #[trigger] FrameAllocator::served_by(z2, z3, i3, size, a3) implies i3 == i && a3 == a by {
        if i3 < i {
            assert(FrameAllocator::no_block_for(z0[i3], size));
            assert(Zone::unchanged(z0[i3], z1[i3]));
            assert(Zone::unchanged(z1[i3], z2[i3]));
            assert(z2[i3].levels_spec() == z0[i3].levels_spec());
            lemma_hands_out_has_block(z2[i3], size, size, a3);
            assert(false);
        } else if i3 > i {
            assert(FrameAllocator::no_block_for(z2[i], size));
            lemma_hands_out_has_block(z2[i], size, size, a);
            assert(false);
        } else {
            let l1 = choose|l: int| 0 <= l && node_size(l) == size && #[trigger] z2[i].served_block(l) == Some(a);
            let l3 = choose|l: int| 0 <= l && node_size(l) == size && #[trigger] z2[i].served_block(l) == Some(a3);
            crate::power::lemma_pow2_injective((MIN_ORDER + l1) as nat, (MIN_ORDER + l3) as nat);
        }
    }
    assert forall|z3: Seq<Zone>, r: int| r <= size implies !#[trigger] FrameAllocator::refused(z2, z3, r) by {
        lemma_hands_out_has_block(z2[i], size, r, a);
    }
}

/// Zones with the same counters add up to the same number of available bytes.
proof fn lemma_total_available_same(a: Seq<Zone>, b: Seq<Zone>)
    requires
        a.len() == b.len(),
        forall|j: int| 0 <= j < a.len() ==> #[trigger] b[j].available_spec() == a[j].available_spec(),
    ensures
        total_available(a) == total_available(b),
    decreases a.len(),
{
    if a.len() > 0 {
        let (ra, rb) = (a.drop_last(), b.drop_last());
        assert forall|j: int| 0 <= j < ra.len() implies #[trigger] rb[j].available_spec() == ra[j].available_spec() by {
            assert(rb[j] == b[j] && ra[j] == a[j]);
        }
        lemma_total_available_same(ra, rb);
    }
}

} // verus!
