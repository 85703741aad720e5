use kernel::acpi::AcpiError;
use kernel::acpi_tables::{
    checksum_ok, read_le32, read_madt_entries, read_rsdt_entries, AcpiAction, AcpiEvent, AcpiParser,
};
use kernel::acpi::{AcpiProcessor, MadtEntry};
use kernel::address::PhysicalAddress;
use kernel::memory_map::NewMapError;

/// Physical memory as a list of byte blocks.
struct Memory {
    blocks: Vec<(usize, Vec<u8>)>,
    refuse_map_at: Option<usize>,
}

impl Memory {
    fn read(&self, addr: usize, len: usize) -> Vec<u8> {
        for (start, bytes) in &self.blocks {
            if addr >= *start && addr + len <= start + bytes.len() {
                return bytes[addr - start..addr - start + len].to_vec();
            }
        }
        panic!("read outside memory at {addr:#x}");
    }
}

fn fix_checksum(bytes: &mut [u8], at: usize) {
    bytes[at] = 0;
    let sum: u32 = bytes.iter().map(|b| *b as u32).sum();
    bytes[at] = ((256 - sum % 256) % 256) as u8;
}

fn sdt(signature: &[u8; 4], body: &[u8]) -> Vec<u8> {
    let len = 36 + body.len();
    let mut t = vec![0u8; 36];
    t[0..4].copy_from_slice(signature);
    t[4..8].copy_from_slice(&(len as u32).to_le_bytes());
    t.extend_from_slice(body);
    fix_checksum(&mut t, 9);
    t
}

fn machine() -> Memory {
    let mut rsdp = vec![0u8; 20];
    rsdp[0..8].copy_from_slice(b"RSD PTR ");
    rsdp[9..15].copy_from_slice(b"ZENIX ");
    rsdp[16..20].copy_from_slice(&0x2000u32.to_le_bytes());
    fix_checksum(&mut rsdp, 8);

    let mut madt_body = Vec::new();
    madt_body.extend_from_slice(&0xfee0_0000u32.to_le_bytes());
    madt_body.extend_from_slice(&1u32.to_le_bytes());
    madt_body.extend_from_slice(&[0, 8, 0, 0, 1, 0, 0, 0]);
    madt_body.extend_from_slice(&[1, 12, 0, 0, 0, 0, 0, 0, 0, 0, 0, 0]);
    madt_body.extend_from_slice(&[0, 8, 1, 1, 0, 0, 0, 0]);
    madt_body.extend_from_slice(&[0, 8, 2, 2, 2, 0, 0, 0]);
    let madt = sdt(b"APIC", &madt_body);
    let other = sdt(b"FACP", &[1, 2, 3, 4]);

    let mut rsdt_body = Vec::new();
    rsdt_body.extend_from_slice(&0x3000u32.to_le_bytes());
    rsdt_body.extend_from_slice(&0x4000u32.to_le_bytes());
    let rsdt = sdt(b"RSDT", &rsdt_body);

    Memory { blocks: vec![(0x1000, rsdp), (0x2000, rsdt), (0x3000, other), (0x4000, madt)], refuse_map_at: None }
}

fn run(memory: &Memory) -> Result<kernel::acpi::AcpiInfo, AcpiError> {
    let (mut parser, mut action) = AcpiParser::new(0x1000);
    loop {
        action = match action {
            AcpiAction::MapMemory { addr, .. } => {
                let result = if memory.refuse_map_at == Some(addr) { Err(NewMapError::OutOfFrames) } else { Ok(()) };
                parser.step(AcpiEvent::Mapped(result))
            }
            AcpiAction::ReadMemory { addr, len } => parser.step(AcpiEvent::Bytes(memory.read(addr, len))),
            AcpiAction::Done => return parser.finish(),
        };
    }
}

#[test]
fn tables_give_processors_and_local_apic() {
    let info = run(&machine()).unwrap();
    assert_eq!(info.processors, vec![AcpiProcessor { id: 0 }, AcpiProcessor { id: 2 }]);
    assert_eq!(info.local_apic_ptr, Some(PhysicalAddress::new(0xfee0_0000)));
    assert_eq!(info.oem_id, Some(*b"ZENIX "));
    assert_eq!(info.processor_count(), 2);
}

#[test]
fn bad_root_pointer_checksum_is_refused() {
    let mut m = machine();
    m.blocks[0].1[8] ^= 1;
    assert_eq!(run(&m).err(), Some(AcpiError::RsdpChecksum));
}

#[test]
fn bad_root_table_checksum_is_refused() {
    let mut m = machine();
    m.blocks[1].1[9] ^= 1;
    assert_eq!(run(&m).err(), Some(AcpiError::RsdtChecksum));
}

#[test]
fn bad_entry_checksum_names_the_table() {
    let mut m = machine();
    m.blocks[3].1[40] ^= 1;
    assert_eq!(run(&m).err(), Some(AcpiError::EntryChecksum(Some(*b"APIC"))));
}

#[test]
fn mapping_failures_are_reported_by_stage() {
    let mut m = machine();
    m.refuse_map_at = Some(0x1000);
    assert_eq!(run(&m).err(), Some(AcpiError::MapRspdError(NewMapError::OutOfFrames)));
    m.refuse_map_at = Some(0x2000);
    assert_eq!(run(&m).err(), Some(AcpiError::MapRsdtError(NewMapError::OutOfFrames)));
    m.refuse_map_at = Some(0x3000);
    assert_eq!(run(&m).err(), Some(AcpiError::MapEntryError(NewMapError::OutOfFrames)));
}

#[test]
fn byte_helpers() {
    assert!(checksum_ok(&[0x80, 0x80]));
    assert!(!checksum_ok(&[1]));
    assert!(checksum_ok(&[]));
    assert_eq!(read_le32(&[0x78, 0x56, 0x34, 0x12, 0xff], 0), 0x1234_5678);
    let rsdt = sdt(b"RSDT", &[1, 0, 0, 0, 2, 0, 0, 0, 9]);
    assert_eq!(read_rsdt_entries(&rsdt), vec![1, 2]);
    assert_eq!(read_rsdt_entries(&[0; 10]), Vec::<u32>::new());
    let madt = sdt(b"APIC", &[0, 0, 0, 0, 0, 0, 0, 0, 0, 8, 5, 0, 2, 0, 0, 0, 7, 1]);
    assert_eq!(
        read_madt_entries(&madt),
        vec![MadtEntry::ProcessorLocal { processor_id: 5, can_be_enabled: true }]
    );
}
