use kernel::kernel_alloc::{init_heap, FreeNode, HeapBacking, KernelAlloc, HEAP_SIZE};

#[test]
fn test_reuse_ptr() {
    let mut alloc = KernelAlloc::new();
    alloc.add_backing(0x10_0000, 64);
    let ptr = alloc.allocate(8, 8);
    assert_ne!(ptr, 0);
    alloc.deallocate(ptr, 8, 8);
    assert_eq!(ptr, alloc.allocate(8, 8));
}

#[test]
fn test_two_blocks_not_colliding() {
    let mut alloc = KernelAlloc::new();
    alloc.add_backing(0x10_0000, 64);
    let a = alloc.allocate(8, 8);
    let b = alloc.allocate(8, 8);
    assert_ne!(a, 0);
    assert_ne!(b, 0);
    assert!(a + 16 <= b || b + 16 <= a);
}

#[test]
fn size_align_raises_to_a_node() {
    assert_eq!(KernelAlloc::size_align(1, 1), (16, 8));
    assert_eq!(KernelAlloc::size_align(17, 8), (24, 8));
    assert_eq!(KernelAlloc::size_align(20, 32), (32, 32));
    assert_eq!(KernelAlloc::size_align(100, 64), (128, 64));
}

#[test]
fn allocation_takes_from_the_front_of_the_region() {
    let mut alloc = KernelAlloc::new();
    alloc.add_backing(0x1000, 64);
    assert_eq!(alloc.allocate(16, 8), 0x1000);
    assert_eq!(alloc.allocate(16, 8), 0x1010);
    assert_eq!(alloc.allocate(16, 64), 0x1040);
}

#[test]
fn heap_refuses_what_does_not_fit() {
    let mut alloc = KernelAlloc::new();
    assert_eq!(alloc.allocate(8, 8), 0);
    alloc.add_backing(0x1000, 16);
    assert_eq!(alloc.allocate(256, 8), 0);
    assert_eq!(alloc.allocate(128, 8), 0x1000);
    assert_eq!(alloc.allocate(8, 8), 0);
}

#[test]
fn freed_neighbours_merge() {
    let mut alloc = KernelAlloc::new();
    alloc.add_free_region(0x2000, 0x100);
    let a = alloc.allocate(0x100, 8);
    assert_eq!(a, 0x2000);
    alloc.add_free_region(0x2080, 0x80);
    alloc.add_free_region(0x2000, 0x80);
    assert_eq!(alloc.allocate(0x100, 8), 0x2000);
}

#[test]
fn fit_layout_leaves_room_for_a_node() {
    let node = FreeNode { start: 0x1000, size: 40 };
    assert_eq!(node.fit_layout(32, 8), None);
    assert_eq!(node.fit_layout(40, 8), Some(0x1000));
    assert_eq!(node.fit_layout(24, 8), Some(0x1000));
    assert_eq!(FreeNode { start: 0x1008, size: 64 }.fit_layout(16, 16), Some(0x1010));
    assert_eq!(node.end_addr(), 0x1028);
    assert_eq!(node.node_start_addr(), 0x1000);
}

#[test]
fn heap_backing_is_handed_over_once() {
    let mut heap = KernelAlloc::new();
    let mut backing = HeapBacking::new(0x40_0000, HEAP_SIZE / 8);
    assert_eq!(init_heap(&mut heap, &mut backing), HEAP_SIZE);
    assert_eq!(init_heap(&mut heap, &mut backing), 0);
    assert_eq!(init_heap(&mut heap, &mut backing), 0);
    assert_eq!(heap.allocate(64, 8), 0x40_0000);
    assert_eq!(heap.allocate(HEAP_SIZE - 64, 8), 0x40_0040);
    assert_eq!(init_heap(&mut heap, &mut backing), 0);
    assert_eq!(heap.allocate(8, 8), 0);
}

#[test]
fn blocks_given_back_are_not_handed_out_twice() {
    let mut alloc = KernelAlloc::new();
    alloc.add_backing(0x3000, 16);
    let a = alloc.allocate(32, 8);
    let b = alloc.allocate(32, 8);
    let c = alloc.allocate(32, 8);
    assert_eq!((a, b, c), (0x3000, 0x3020, 0x3040));
    alloc.deallocate(b, 32, 8);
    alloc.deallocate(a, 32, 8);
    let d = alloc.allocate(32, 8);
    let e = alloc.allocate(32, 8);
    assert_eq!(d, 0x3000);
    assert!(e >= d + 32 || e + 32 <= d);
    assert!(e + 32 <= c || e >= c + 32);
    assert_ne!(e, 0);
}
