use kernel::address::{PhysicalAddress, VirtualAddress};
use kernel::bitmap::Bitmap;
use kernel::frame_alloc::level::Level;
use kernel::power::{next_power_of_two, order_of_two, pow2_usize};

#[test]
fn test_order_of_two() {
    assert_eq!(order_of_two(2), 1);
    assert_eq!(order_of_two(4), 2);
    assert_eq!(order_of_two(16), 4);
    assert_eq!(order_of_two(1), 0);
    assert_eq!(pow2_usize(12), 4096);
}

#[test]
fn next_power_of_two_rounds_up() {
    assert_eq!(next_power_of_two(0), 1);
    assert_eq!(next_power_of_two(1), 1);
    assert_eq!(next_power_of_two(5000), 8192);
    assert_eq!(next_power_of_two(4096), 4096);
    assert_eq!(next_power_of_two(4097), 8192);
}

#[test]
fn bitmap_sets_and_clears_bits() {
    let mut bitmap = Bitmap::zeroed(2);
    assert!(!bitmap.contains(9));
    bitmap.set(9);
    assert!(bitmap.contains(9));
    assert!(!bitmap.contains(8) && !bitmap.contains(10));
    bitmap.clear(9);
    assert!(!bitmap.contains(9));
    let b = Bitmap::new(vec![0b1000_0001]);
    assert!(b.contains(0) && b.contains(7) && !b.contains(3));
}

#[test]
fn addresses_align_and_offset() {
    let a = PhysicalAddress::new(0x1234);
    assert_eq!(a.align_down(0x1000), PhysicalAddress::new(0x1000));
    assert_eq!(a.offset(0x10).as_usize(), 0x1244);
    assert!(PhysicalAddress::null().is_null());
    assert_eq!(VirtualAddress::align_ptr_up(0x1001, 0x1000), Some(0x2000));
    assert_eq!(VirtualAddress::align_ptr_up(0x1000, 0x1000), Some(0x1000));
    assert_eq!(VirtualAddress::align_ptr_up(usize::MAX, 16), None);
    assert_eq!(VirtualAddress::new(7).as_u64(), 7);
}

#[test]
fn level_blocks_and_buddies() {
    let level = Level::new(12, 15, PhysicalAddress::new(0x10_0000), 0x1000);
    assert_eq!(level.block_size(), 4096);
    assert_eq!(level.buddy_address(PhysicalAddress::new(0x10_1000)), PhysicalAddress::new(0x10_0000));
    assert_eq!(level.buddy_address(PhysicalAddress::new(0x10_2000)), PhysicalAddress::new(0x10_3000));
    assert_eq!(level.phys_to_virt(PhysicalAddress::new(0x10_0000)), VirtualAddress::new(0x10_1000));
}
