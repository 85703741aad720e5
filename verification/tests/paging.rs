use kernel::address::PhysicalAddress;
use kernel::paging::{PageSize, PageTable, PageTableEntry, PageTableEntryFlags, ADDR_MASK, FLAGS_MASK};

#[test]
fn test_custom_bit_index() {
    assert_eq!(9, PageTableEntryFlags::map_custom_bit::<0>());
    assert_eq!(10, PageTableEntryFlags::map_custom_bit::<1>());
    assert_eq!(11, PageTableEntryFlags::map_custom_bit::<2>());
    assert_eq!(52, PageTableEntryFlags::map_custom_bit::<3>());
    assert_eq!(53, PageTableEntryFlags::map_custom_bit::<4>());
}

#[test]
fn test_bitwise_and_eq() {
    let some_flags = PageTableEntryFlags::null()
        .set_present(true)
        .set_no_exec(true)
        .set_huge(true);

    assert_eq!(some_flags & PageTableEntryFlags::null(), PageTableEntryFlags::null());
    assert_eq!(some_flags & some_flags, some_flags);
}

#[test]
fn test_entry_new_and_getters() {
    let flags = PageTableEntryFlags::null()
        .set_writable(true)
        .set_no_exec(true)
        .set_custom::<10>(true);

    let addr = PhysicalAddress::new(4096);
    let entry = PageTableEntry::new(flags, addr);

    assert_eq!(flags, entry.flags());
    assert_eq!(addr, entry.addr());
}

#[test]
fn test_as_usize() {
    assert_eq!(4096, PageSize::Size4Kib.as_usize());
    assert_eq!(2097152, PageSize::Size2Mib.as_usize());
    assert_eq!(1073741824, PageSize::Size1Gib.as_usize());
}

#[test]
fn test_descend_level() {
    assert_eq!(PageSize::Size4Kib, PageSize::Size4Kib.descend_level());
    assert_eq!(PageSize::Size4Kib, PageSize::Size2Mib.descend_level());
    assert_eq!(PageSize::Size2Mib, PageSize::Size1Gib.descend_level());
    assert_eq!(PageSize::Size1Gib, PageSize::highest());
}

#[test]
fn set_and_clear_single_flags() {
    let f = PageTableEntryFlags::null().set_present(true).set_writable(true);
    assert_eq!(f.as_u64(), 0b11);
    assert!(f.present() && f.writable() && !f.huge() && f.used());
    let g = f.set_present(false);
    assert_eq!(g.as_u64(), 0b10);
    assert!(!g.present());
    assert!(!PageTableEntryFlags::null().used());
    let all = PageTableEntryFlags::null()
        .set_huge(true)
        .set_user_accessible(true)
        .set_no_cache(true)
        .set_global(true)
        .set_no_exec(true);
    assert_eq!(all.as_u64(), (1 << 7) | (1 << 2) | (1 << 4) | (1 << 8) | (1u64 << 63));
    assert!(all.huge() && all.user_accessible() && all.no_cache() && all.global() && all.noexec());
    assert!(!all.dirty());
}

#[test]
fn custom_reads_the_bit_of_its_index() {
    let f = PageTableEntryFlags::null().set_custom::<0>(true);
    assert_eq!(f.as_u64(), 1 << 9);
    assert!(f.custom::<0>());
    assert!(!f.custom::<5>());
    let g = PageTableEntryFlags::null().set_custom::<5>(true);
    assert_eq!(g.as_u64(), 1 << 54);
    assert!(g.custom::<5>());
    assert!(!g.custom::<0>());
    let h = PageTableEntryFlags::null().set_custom::<1>(true);
    assert!(h.custom::<1>());
    assert!(!h.set_custom::<1>(false).custom::<1>());
    assert_eq!(PageTableEntryFlags::map_custom_bit::<13>(), 62);
}

#[test]
fn flags_contains_and_or() {
    let a = PageTableEntryFlags::null().set_present(true);
    let b = PageTableEntryFlags::null().set_writable(true);
    let ab = a | b;
    assert!(ab.contains(a) && ab.contains(b));
    assert!(!a.contains(b));
    assert_eq!(ab.as_u64(), 0b11);
    assert_eq!(PageTableEntryFlags::from_page_table_entry_value(0x8000_0000_0000_0003).as_u64(), 0x8000_0000_0000_0003);
}

#[test]
fn entry_drops_bits_outside_their_part() {
    let flags = PageTableEntryFlags::from_page_table_entry_value(0xffff_ffff_ffff_ffff);
    let entry = PageTableEntry::new(flags, PhysicalAddress::new(0x1234_5678_9abc));
    assert_eq!(entry.flags().as_u64(), FLAGS_MASK);
    assert_eq!(entry.addr(), PhysicalAddress::new(0x1234_5678_9000));
    assert_eq!(entry.value, FLAGS_MASK | 0x1234_5678_9000);
}

#[test]
fn set_flags_keeps_addr_and_set_addr_keeps_flags() {
    let flags = PageTableEntryFlags::null().set_present(true).set_no_exec(true);
    let mut entry = PageTableEntry::new(flags, PhysicalAddress::new(0x20_0000));
    entry.set_flags(PageTableEntryFlags::null().set_writable(true));
    assert_eq!(entry.addr(), PhysicalAddress::new(0x20_0000));
    assert_eq!(entry.flags().as_u64(), 0b10);
    entry.set_addr(PhysicalAddress::new(0x3000));
    assert_eq!(entry.addr(), PhysicalAddress::new(0x3000));
    assert_eq!(entry.flags().as_u64(), 0b10);
    assert_eq!(entry.value & ADDR_MASK, 0x3000);
}

#[test]
fn page_table_zero_clears_every_entry() {
    let mut table: PageTable<512> = PageTable::new();
    table.as_mut_slice()[3] = PageTableEntry { value: 7 };
    table.as_mut_slice()[511] = PageTableEntry { value: 9 };
    assert_eq!(table.as_slice()[3].value, 7);
    table.zero();
    assert!(table.as_slice().iter().all(|e| e.value == 0));
    assert_eq!(table.as_slice().len(), 512);
}

#[test]
fn default_flags_are_null() {
    let flags = PageTableEntryFlags::default();
    assert_eq!(flags, PageTableEntryFlags::null());
    assert!(!flags.present() && !flags.used());
}
