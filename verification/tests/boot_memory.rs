use kernel::address::PhysicalAddress;
use kernel::boot_frame_alloc::{BootRegion, BootRegionKind, FrameAllocator, FreeList};
use kernel::boot_info::{BootInfo, MemoryArea, MemoryInfo};

fn region(start: u64, end: u64, kind: BootRegionKind) -> BootRegion {
    BootRegion { start_frame_number: start, end_frame_number: end, kind }
}

#[test]
fn test_allocate_eternally_all_memory() {
    let mut alloc = FrameAllocator::new();
    alloc.init_with(vec![region(0, 1, BootRegionKind::Usable)]);

    assert_eq!(alloc.allocate_eternally(4095), Some(PhysicalAddress::new(0)));
    assert_eq!(alloc.allocate_eternally(1), Some(PhysicalAddress::new(4095)));
    assert_eq!(alloc.allocate_eternally(1), None);
}

#[test]
fn test_allocate_eternally_in_next_chunk() {
    let mut alloc = FrameAllocator::new();
    alloc.init_with(vec![region(0, 1, BootRegionKind::Usable), region(10, 15, BootRegionKind::Usable)]);
    assert_eq!(alloc.allocate_eternally(4097), Some(PhysicalAddress::new(4096 * 10)));
}

#[test]
fn info_sums_by_kind() {
    let mut alloc = FrameAllocator::new();
    alloc.init_with(vec![
        region(0, 2, BootRegionKind::Usable),
        region(2, 3, BootRegionKind::Kernel),
        region(3, 5, BootRegionKind::KernelStack),
        region(5, 9, BootRegionKind::Reserved),
        region(9, 10, BootRegionKind::Other),
    ]);
    alloc.allocate_eternally(100);
    let info = alloc.info();
    assert_eq!(info.usable, 2 * 4096);
    assert_eq!(info.kernel, 3 * 4096);
    assert_eq!(info.total_size, 6 * 4096);
    assert_eq!(info.allocated, 100);
}

#[test]
fn find_slot_is_the_logarithm() {
    assert_eq!(FrameAllocator::find_slot(1), 0);
    assert_eq!(FrameAllocator::find_slot(4096), 12);
    assert_eq!(FrameAllocator::find_slot(1 << 40), 40);
    let _ = FreeList::new();
}

#[test]
fn memory_info_adds_up_the_usable_areas() {
    let area = |start: u64, size: u64| MemoryArea { start, size };
    let boot_info = BootInfo {
        usable_memory: vec![area(0x1000, 0x2000), area(0x10_0000, 0x30_0000)],
        bump_memory: area(0x8000, 0x1000),
        kernel_code: area(0x20_0000, 0x5000),
        usable_heap: area(0x40_0000, 0x10_0000),
        kernel_stack: area(0x60_0000, 0x4000),
        physical_memory_offset: 0,
        rsdp_addr: None,
    };
    let info = MemoryInfo::from_boot_info(&boot_info);
    assert_eq!(info.usable, 0x30_2000);
    assert_eq!(info.bump, 0x1000);
    assert_eq!(info.kernel_code, 0x5000);
    assert_eq!(info.kernel_heap, 0x10_0000);
    assert_eq!(info.kernel_stack, 0x4000);
}
