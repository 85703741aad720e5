use kernel::address::PhysicalAddress;
use kernel::frame_alloc::zone::Zone;
use kernel::frame_alloc::{FrameAllocator, MemoryRegion, MemoryRegionKind};

fn region(start: u64, end: u64, kind: MemoryRegionKind) -> MemoryRegion {
    MemoryRegion { start, end, kind }
}

/// A 1 MiB region at 1 MiB and a 256 KiB one at 4 MiB, both aligned to their top block, and
/// regions that do not become zones.
fn allocator() -> FrameAllocator {
    let map = [
        region(0, 0x1000, MemoryRegionKind::Bootloader),
        region(0x40_0000, 0x44_0000, MemoryRegionKind::Usable),
        region(0x30_0000, 0x30_0800, MemoryRegionKind::Usable),
        region(0x10_0000, 0x20_0000, MemoryRegionKind::Usable),
        region(0x50_0000, 0x60_0000, MemoryRegionKind::UnknownUefi(7)),
    ];
    let mut alloc = FrameAllocator::new();
    alloc.init_with(&map, 0xffff_8000_0000_0000);
    alloc
}

#[test]
fn test_alloc_and_dealloc_page() {
    let mut alloc = allocator();
    let (addr, size) = alloc.allocate(4096).unwrap();
    assert_eq!(size, 4096);
    alloc.deallocate(addr);
}

#[test]
fn test_alloc_more_then_available_number_should_fail() {
    let mut alloc = allocator();
    let available = alloc.available();
    assert_eq!(available, 0x10_0000 + 0x4_0000);
    let result = alloc.allocate(available + 1);
    assert_eq!(result, None);
}

#[test]
fn test_dealloc_should_allow_reuse_of_memory() {
    let mut alloc = allocator();
    let (addr1, size1) = alloc.allocate(alloc.min_size()).unwrap();
    assert_eq!(size1, alloc.min_size());
    alloc.deallocate(addr1);

    let (addr2, size2) = alloc.allocate(alloc.min_size()).unwrap();
    assert_eq!(size1, size2);
    assert_eq!(addr1, addr2);
}

#[test]
fn test_reuse_more_then_the_entire_memory_map() {
    let mut alloc = allocator();
    let available = alloc.available();
    let n_alloc = available / alloc.min_size() * 2;

    for _ in 0..n_alloc {
        let (addr, _) = alloc.allocate(alloc.min_size()).unwrap();
        alloc.deallocate(addr);
    }
}

#[test]
fn test_align_alloc_with_pages() {
    let mut alloc = allocator();
    let (addr, size) = alloc.allocate(alloc.min_size() + 1).unwrap();
    assert_eq!(size, alloc.min_size() * 2);
    alloc.deallocate(addr);
}

#[test]
fn test_alloc_twice_should_not_overlap() {
    let mut alloc = allocator();
    let (addr1, size1) = alloc.allocate(alloc.min_size()).unwrap();
    let (addr2, size2) = alloc.allocate(alloc.min_size()).unwrap();

    assert_eq!(size1, size2);
    assert!(addr1.value + size1 <= addr2.value || addr1.value >= addr2.value + size2);

    alloc.deallocate(addr1);
    alloc.deallocate(addr2);
}

#[test]
fn small_requests_get_a_page_and_blocks_stay_in_their_zone() {
    let mut alloc = allocator();
    assert_eq!(alloc.min_size(), 4096);
    let (addr, size) = alloc.allocate(1).unwrap();
    assert_eq!(size, 4096);
    assert_eq!(addr.value % 4096, 0);
    assert!(addr.value >= 0x10_0000 && addr.value + size <= 0x20_0000);
}

#[test]
fn the_largest_zone_serves_first_and_the_next_takes_over() {
    let mut alloc = allocator();
    let (a, s) = alloc.allocate(0x10_0000).unwrap();
    assert_eq!((a, s), (PhysicalAddress::new(0x10_0000), 0x10_0000));
    let (b, t) = alloc.allocate(0x4_0000).unwrap();
    assert_eq!((b, t), (PhysicalAddress::new(0x40_0000), 0x4_0000));
    assert_eq!(alloc.allocate(4096), None);
    alloc.deallocate(b);
    assert_eq!(alloc.allocate(0x2_0000).map(|(_, s)| s), Some(0x2_0000));
}

#[test]
fn a_freed_block_counts_as_available_again() {
    let mut alloc = allocator();
    let before = alloc.available();
    let (addr, size) = alloc.allocate(8192).unwrap();
    assert_eq!(alloc.available(), before - size);
    alloc.deallocate(addr);
    assert_eq!(alloc.available(), before);
}

#[test]
fn zone_of_an_odd_size_keeps_its_tail_out_of_reach() {
    let mut zone = Zone::new(PhysicalAddress::new(0x10_0000), PhysicalAddress::new(0x10_0000 + 0x5_6000), 0);
    assert_eq!(zone.size(), 0x5_6000);
    assert_eq!(zone.available(), 0x5_6000);
    assert!(zone.contains(PhysicalAddress::new(0x10_0000)));
    assert!(zone.contains(PhysicalAddress::new(0x15_6000)));
    assert!(!zone.contains(PhysicalAddress::new(0x15_6001)));
    assert!(zone.clashes(PhysicalAddress::new(0xf_f000), 0x1000));
    assert!(!zone.clashes(PhysicalAddress::new(0x20_0000), 0x1000));
    let mut total = 0;
    while let Some((addr, size)) = zone.allocate(4096) {
        assert!(addr.value >= 0x10_0000 && addr.value + size <= 0x15_6000);
        total += size;
    }
    assert_eq!(total, 0x5_6000);
}

#[test]
fn physical_box_takes_and_gives_back_a_block() {
    let mut alloc = allocator();
    let before = alloc.available();
    let (b, size) = kernel::frame_alloc::PhysicalBox::new(&mut alloc, 5000).unwrap();
    assert_eq!(size, 8192);
    let addr = b.addr();
    assert_eq!(alloc.available(), before - 8192);
    b.release(&mut alloc);
    assert_eq!(alloc.available(), before);
    let (again, _) = alloc.allocate(8192).unwrap();
    assert_eq!(again, addr);
}

#[test]
fn zones_of_equal_size_keep_their_map_order() {
    for (first, second) in [(0x20_0000u64, 0x10_0000u64), (0x10_0000, 0x20_0000)] {
        let map = [
            region(first, first + 0x1_0000, MemoryRegionKind::Usable),
            region(second, second + 0x1_0000, MemoryRegionKind::Usable),
        ];
        let mut alloc = FrameAllocator::new();
        alloc.init_with(&map, 0);
        let (addr, size) = alloc.allocate(4096).unwrap();
        assert_eq!(size, 4096);
        assert!(first as usize <= addr.value && addr.value < first as usize + 0x1_0000);
    }
}

#[test]
fn a_new_zone_hands_out_every_whole_page() {
    let mut zone = Zone::new(PhysicalAddress::new(0x10_0000), PhysicalAddress::new(0x10_5800), 0);
    let mut pages = Vec::new();
    while let Some((addr, size)) = zone.allocate(4096) {
        assert_eq!(size, 4096);
        pages.push(addr.value);
    }
    pages.sort();
    assert_eq!(pages, vec![0x10_0000, 0x10_1000, 0x10_2000, 0x10_3000, 0x10_4000]);
}

#[test]
fn a_split_hands_out_the_second_half() {
    let mut zone = Zone::new(PhysicalAddress::new(0x10_0000), PhysicalAddress::new(0x10_4000), 0);
    assert_eq!(zone.allocate(4096), Some((PhysicalAddress::new(0x10_3000), 4096)));
    assert_eq!(zone.allocate(4096), Some((PhysicalAddress::new(0x10_2000), 4096)));
    assert_eq!(zone.allocate(8192), Some((PhysicalAddress::new(0x10_0000), 8192)));
    assert_eq!(zone.allocate(4096), None);
}

#[test]
fn freed_blocks_merge_back_in_a_zone_off_its_alignment() {
    let mut zone = Zone::new(PhysicalAddress::new(0x10_1000), PhysicalAddress::new(0x10_5000), 0);
    let mut pages = Vec::new();
    while let Some((addr, _)) = zone.allocate(4096) {
        pages.push(addr);
    }
    assert_eq!(pages.len(), 4);
    assert_eq!(zone.allocate(4096), None);
    for p in pages {
        zone.deallocate(p);
    }
    assert_eq!(zone.available(), 0x4000);
    assert_eq!(zone.allocate(0x4000), Some((PhysicalAddress::new(0x10_1000), 0x4000)));
}

#[test]
fn a_region_from_one_mebibyte_gives_blocks_back() {
    let map = [region(0x10_0000, 0x800_0000, MemoryRegionKind::Usable)];
    let mut alloc = FrameAllocator::new();
    alloc.init_with(&map, 0);
    let before = alloc.available();
    let (a, _) = alloc.allocate(4096).unwrap();
    let (b, _) = alloc.allocate(8192).unwrap();
    alloc.deallocate(a);
    alloc.deallocate(b);
    assert_eq!(alloc.available(), before);
    assert_eq!(alloc.allocate(4096).map(|(p, _)| p), Some(a));
}

#[test]
fn a_new_zone_holds_the_largest_blocks_that_fit() {
    let mut zone = Zone::new(PhysicalAddress::new(0x10_0000), PhysicalAddress::new(0x15_6000), 0);
    assert_eq!(zone.allocate(0x4_0000), Some((PhysicalAddress::new(0x10_0000), 0x4_0000)));
    assert_eq!(zone.allocate(0x1_0000), Some((PhysicalAddress::new(0x14_0000), 0x1_0000)));
    assert_eq!(zone.allocate(0x4000), Some((PhysicalAddress::new(0x15_0000), 0x4000)));
    assert_eq!(zone.allocate(0x2000), Some((PhysicalAddress::new(0x15_4000), 0x2000)));
    assert_eq!(zone.allocate(0x1000), None);
}

#[test]
fn a_block_given_back_is_served_again_for_the_same_request() {
    let mut zone = Zone::new(PhysicalAddress::new(0x10_0000), PhysicalAddress::new(0x15_6000), 0);
    assert_eq!(zone.allocate(0x1000), Some((PhysicalAddress::new(0x15_5000), 0x1000)));
    let (a, size) = zone.allocate(0x2000).unwrap();
    assert_eq!((a, size), (PhysicalAddress::new(0x15_2000), 0x2000));
    zone.deallocate(a);
    assert_eq!(zone.allocate(0x2000), Some((a, size)));
}

#[test]
fn a_zone_refuses_more_than_it_counts_as_available() {
    let mut zone = Zone::new(PhysicalAddress::new(0x10_0000), PhysicalAddress::new(0x15_6000), 0);
    assert_eq!(zone.available(), 0x5_6000);
    assert_eq!(zone.allocate(0x4_0000), Some((PhysicalAddress::new(0x10_0000), 0x4_0000)));
    assert_eq!(zone.available(), 0x1_6000);
    assert_eq!(zone.allocate(0x2_0000), None);
    assert_eq!(zone.available(), 0x1_6000);
}
