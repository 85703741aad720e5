use kernel::interrupt::{calibration_ratio, choose_interrupt_control, periodic_count, InterruptControlKind};
use kernel::acpi::{parse_madt, processor_count, processor_id, start_slave_processors, AcpiError, AcpiInfo, AcpiProcessor, MadtEntry};
use kernel::address::{PhysicalAddress, VirtualAddress};
use kernel::interrupt::{DivergingErrorIsr, ErrorIsr, GateDescriptor, Isr, PageFaultErrorCode, PageFaultIsr};
use kernel::log::{level_colour, LogLevel, LoggerMux, TextColour};
use kernel::memory_map::{
    flags_to_props, page_fault, props_to_flags, MemoryAccess, MemoryErrorKind,
    MemoryProperties, MemoryViolation, ModifyMapError, NewMapError,
};
use kernel::segmentation::{DescriptorTablePointer, FullGdt, PrivilegeLevel, SegmentSelector};

#[test]
fn page_fault_error_code_bits() {
    let code = PageFaultErrorCode::new(0b1001_0011 | (1 << 31));
    assert!(code.protection_violation());
    assert!(code.caused_by_write());
    assert!(!code.user_mode());
    assert!(!code.malformed_table());
    assert!(code.instruction_fetch());
    assert!(!code.protection_key());
    assert!(!code.shadow_stack());
    assert!(code.sgx_access_control());
    assert!(code.rmp_violation());
    assert_eq!(code.as_u64(), 0b1001_0011 | (1 << 31));
}

#[test]
fn page_faults_are_classified() {
    let addr = VirtualAddress::new(0xdead_0000);
    let ip = VirtualAddress::new(0x1000);
    let f = page_fault(PageFaultErrorCode::new(0b10010), addr, ip);
    assert_eq!(f.access, MemoryAccess::InstructionFetch);
    assert_eq!(f.violation, MemoryViolation::NotMapped);
    assert_eq!((f.addr, f.instruction_pointer), (addr, ip));
    let f = page_fault(PageFaultErrorCode::new(0b00011), addr, ip);
    assert_eq!(f.access, MemoryAccess::Write);
    assert_eq!(f.violation, MemoryViolation::InsufficientPrivilge);
    let f = page_fault(PageFaultErrorCode::new(0b101000), addr, ip);
    assert_eq!(f.access, MemoryAccess::Read);
    assert_eq!(f.violation, MemoryViolation::MalformedTable);
    let f = page_fault(PageFaultErrorCode::new(0b100000), addr, ip);
    assert_eq!(f.violation, MemoryViolation::InsufficientPrivilge);
}

#[test]
fn null_page_faults_are_null_pointer_errors() {
    let fault = page_fault(PageFaultErrorCode::new(0), VirtualAddress::null(), VirtualAddress::new(0x1234));
    let manager = kernel::mapper::MemoryManager::new(kernel::mapper::MemoryMapper::new_root_mapper(PhysicalAddress::new(0x1000), 0));
    let err = manager.handle_page_fault(fault).unwrap_err();
    let process = kernel::scheduler::Process::new(1, manager);
    assert_eq!(process.id(), 1);
    assert_eq!(err.kind, MemoryErrorKind::NullPointer);
    assert_eq!(err.fault, fault);
}

#[test]
fn properties_and_flags_round_trip() {
    let props = MemoryProperties::new(true, true, false, true, false);
    let flags = props_to_flags(props, true);
    assert!(flags.present() && flags.writable() && flags.user_accessible());
    assert!(!flags.noexec() && !flags.global() && !flags.no_cache());
    assert_eq!(flags_to_props(flags), props);
    let mmio = MemoryProperties::mmio_page();
    let flags = props_to_flags(mmio, true);
    assert!(flags.no_cache() && flags.global() && flags.noexec() && !flags.user_accessible());
    assert_eq!(flags_to_props(flags), mmio);
    let ro = MemoryProperties::kernel_read_only();
    assert!(!ro.writable() && ro.readable() && ro.kernel() && !ro.user() && !ro.executable() && !ro.mmio());
    assert!(!props_to_flags(ro, false).present());
}

#[test]
fn only_not_owned_becomes_a_new_map_error() {
    assert_eq!(ModifyMapError::NotOwned.into_new_map_error(), NewMapError::NotOwned);
}

#[test]
fn selectors_and_the_gdt_layout() {
    let code = SegmentSelector::new(1, PrivilegeLevel::Ring0);
    let data = SegmentSelector::new(2, PrivilegeLevel::Ring0);
    assert_eq!(code.as_u16(), 8);
    assert_eq!(SegmentSelector::new(4, PrivilegeLevel::Ring3).as_u16(), 35);
    assert_eq!(SegmentSelector::new(4, PrivilegeLevel::Ring3).index(), 4);
    assert_eq!(SegmentSelector::empty().as_u16(), 0);
    let gdt = FullGdt::new(
        code,
        data,
        SegmentSelector::new(4, PrivilegeLevel::Ring3),
        SegmentSelector::new(3, PrivilegeLevel::Ring3),
        SegmentSelector::new(5, PrivilegeLevel::Ring0),
    );
    assert_eq!(gdt.syscall.as_u16(), 8);
    assert_eq!(gdt.sysret.as_u16(), 19);
    let ptr = DescriptorTablePointer::new(4095, VirtualAddress::new(0x8000));
    assert_eq!((ptr.limit, ptr.base), (4095, VirtualAddress::new(0x8000)));
}

#[test]
fn gates_take_their_handler() {
    let selector = SegmentSelector::new(1, PrivilegeLevel::Ring0);
    let mut gate: GateDescriptor<Isr> = GateDescriptor::new();
    gate.set_handler(selector, VirtualAddress::new(0xffff_8000_1234_5678));
    gate.set_stack_index(0);
    gate.disable();
    let mut trap: GateDescriptor<ErrorIsr> = GateDescriptor::new();
    trap.set_handler(selector, VirtualAddress::new(0x1000));
    let mut pf: GateDescriptor<PageFaultIsr> = GateDescriptor::new();
    pf.set_handler(selector, VirtualAddress::new(0x2000));
    let mut df: GateDescriptor<DivergingErrorIsr> = GateDescriptor::new();
    df.set_handler(selector, VirtualAddress::new(0x3000));
    df.set_stack_index(258);
}

#[test]
fn madt_lists_the_processors_that_can_run() {
    let entries = [
        MadtEntry::ProcessorLocal { processor_id: 0, can_be_enabled: true },
        MadtEntry::Other,
        MadtEntry::ProcessorLocal { processor_id: 1, can_be_enabled: false },
        MadtEntry::ProcessorLocal { processor_id: 2, can_be_enabled: true },
    ];
    let mut processors = Vec::new();
    let mut local_apic = None;
    assert_eq!(parse_madt(&entries, PhysicalAddress::new(0xfee0_0000), &mut processors, &mut local_apic), Ok(()));
    assert_eq!(processors, vec![AcpiProcessor { id: 0 }, AcpiProcessor { id: 2 }]);
    assert_eq!(local_apic, Some(PhysicalAddress::new(0xfee0_0000)));
    let info = AcpiInfo { oem_id: None, local_apic_ptr: local_apic, processors };
    assert_eq!(info.processor_count(), 2);
    assert_eq!(processor_count(Some(&info)), 2);
    assert_eq!(processor_count(None), 1);
    assert_eq!(processor_id(None), 0);
    assert_eq!(processor_id(Some(3)), 3);
    start_slave_processors(|_| {});
    assert_ne!(AcpiError::RsdpChecksum, AcpiError::MapRsdtError(NewMapError::OutOfFrames));
}

#[test]
fn log_levels_have_colours() {
    assert_eq!(level_colour(LogLevel::Debug), TextColour::Gray);
    assert_eq!(level_colour(LogLevel::Warn), TextColour::Yellow);
    assert_eq!(level_colour(LogLevel::Error), TextColour::Red);
    assert_eq!(level_colour(LogLevel::Info), TextColour::Cyan);
    let mux = LoggerMux::new(1u8, "b");
    assert_eq!((mux.a, mux.b), (1, "b"));
}

#[test]
fn interrupt_controller_choice_and_timer_count() {
    assert_eq!(choose_interrupt_control(true, true), InterruptControlKind::Apic);
    assert_eq!(choose_interrupt_control(true, false), InterruptControlKind::Pic);
    assert_eq!(choose_interrupt_control(false, true), InterruptControlKind::Pic);
    assert_eq!(calibration_ratio(), 8);
    assert_eq!(periodic_count(u32::MAX, u32::MAX - 1000), 8000);
}
