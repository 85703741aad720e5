//! Reading the ACPI tables: the root pointer, the root table and its entries, and the
//! processors of the MADT.
//!
//! The tables lie in physical memory that has to be mapped before it is read. The reading
//! is a sequence of steps: [`AcpiParser::step`] takes what the last request gave (whether the
//! mapping succeeded, or the bytes read) and says what to map or read next, until it is done.

use vstd::prelude::*;

use crate::acpi::{parse_madt, usable_processors, AcpiError, AcpiInfo, AcpiProcessor, MadtEntry};
use crate::address::PhysicalAddress;
use crate::memory_map::NewMapError;

verus! {

/// The number of bytes of the root system description pointer (revision 0).
pub const RSDP_SIZE: usize = 20;

/// The number of bytes of the header of a system description table.
pub const SDT_HEADER_SIZE: usize = 36;

/// The sum of the bytes of `s`.
pub open spec fn byte_sum(s: Seq<u8>) -> int
    decreases s.len(),
{
    if s.len() == 0 {
        0
    } else {
        byte_sum(s.drop_last()) + s.last()
    }
}

/// The bytes of `s` add up to a multiple of 256, as the checksum of an ACPI table demands.
pub open spec fn checksum_holds(s: Seq<u8>) -> bool {
    byte_sum(s) % 256 == 0
}

/// The little-endian `u32` at `off` in `s`.
pub open spec fn le32(s: Seq<u8>, off: int) -> int {
    s[off] + s[off + 1] * 256 + s[off + 2] * 65536 + s[off + 3] * 16777216
}

/// Whether the bytes of `bytes` add up to a multiple of 256.
pub fn checksum_ok(bytes: &[u8]) -> (r: bool)
    ensures
        r == checksum_holds(bytes@),
{
    let mut sum: u32 = 0;
    let mut i: usize = 0;
    while i < bytes.len()
        invariant
            0 <= i <= bytes@.len(),
            sum == byte_sum(bytes@.take(i as int)) % 256,
        decreases bytes@.len() - i,
    {
        proof {
            assert(bytes@.take(i as int + 1).drop_last() =~= bytes@.take(i as int));
            vstd::arithmetic::div_mod::lemma_add_mod_noop(
                byte_sum(bytes@.take(i as int)),
                bytes@[i as int] as int,
                256,
            );
            vstd::arithmetic::div_mod::lemma_mod_twice(byte_sum(bytes@.take(i as int)), 256);
        }
        sum = (sum + bytes[i] as u32) % 256;
        i = i + 1;
    }
    proof {
        assert(bytes@.take(bytes@.len() as int) =~= bytes@);
    }
    sum == 0
}

/// The little-endian `u32` at `off` in `bytes`.
pub fn read_le32(bytes: &[u8], off: usize) -> (r: u32)
    requires
        off + 4 <= bytes@.len(),
    ensures
        r == le32(bytes@, off as int),
{
    let b0 = bytes[off] as u32;
    let b1 = bytes[off + 1] as u32;
    let b2 = bytes[off + 2] as u32;
    let b3 = bytes[off + 3] as u32;
    b0 + b1 * 256 + b2 * 65536 + b3 * 16777216
}

/// The addresses of the tables that a root table of `bytes` lists.
pub open spec fn rsdt_entries(bytes: Seq<u8>) -> Seq<u32> {
    if bytes.len() < SDT_HEADER_SIZE {
        Seq::empty()
    } else {
        Seq::new(((bytes.len() - SDT_HEADER_SIZE) / 4) as nat, |i: int| le32(bytes, SDT_HEADER_SIZE + 4 * i) as u32)
    }
}

/// The addresses of the tables that the root table `bytes` lists: the `u32`s after its
/// header.
pub fn read_rsdt_entries(bytes: &[u8]) -> (r: Vec<u32>)
    ensures
        r@ == rsdt_entries(bytes@),
{
    let mut r: Vec<u32> = Vec::new();
    if bytes.len() < SDT_HEADER_SIZE {
        return r;
    }
    let n: usize = (bytes.len() - SDT_HEADER_SIZE) / 4;
    let mut i: usize = 0;
    let mut off: usize = SDT_HEADER_SIZE;
    let total: usize = bytes.len();
    while i < n
        invariant
            total == bytes@.len(),
            bytes@.len() >= SDT_HEADER_SIZE,
            n == (bytes@.len() - SDT_HEADER_SIZE) / 4,
            0 <= i <= n,
            off == SDT_HEADER_SIZE + 4 * i,
            r@.len() == i,
            forall|j: int| 0 <= j < i ==> r@[j] == le32(bytes@, SDT_HEADER_SIZE + 4 * j) as u32,
        decreases n - i,
    {
        proof {
            assert(4 * i + 4 <= bytes@.len() - 36) by (nonlinear_arith)
                requires
                    i < n,
                    n == (bytes@.len() - 36) / 4,
                    bytes@.len() >= 36,
            ;
        }
        let v = read_le32(bytes, off);
        r.push(v);
        i = i + 1;
        off = off + 4;
    }
    proof {
        assert(r@ =~= rsdt_entries(bytes@));
    }
    r
}

/// The entries of a MADT of `bytes` from offset `off` on: each starts with its type and its
/// length; a processor entry (type 0) gives the processor's id and flags, and counts when it
/// is enabled or can be enabled (flag bit 0 or 1). The list ends at the end of the table or at
/// an entry shorter than two bytes.
pub open spec fn madt_entries_from(bytes: Seq<u8>, off: int) -> Seq<MadtEntry>
    decreases bytes.len() + 256 - off,
{
    if off < 0 || off + 2 > bytes.len() || bytes[off + 1] < 2 {
        Seq::empty()
    } else {
        let entry = if bytes[off] == 0 && bytes[off + 1] >= 8 && off + 8 <= bytes.len() {
            MadtEntry::ProcessorLocal {
                processor_id: bytes[off + 2],
                can_be_enabled: le32(bytes, off + 4) % 4 != 0,
            }
        } else {
            MadtEntry::Other
        };
        seq![entry] + madt_entries_from(bytes, off + bytes[off + 1])
    }
}

/// The offset of the first entry of a MADT.
pub const MADT_ENTRIES_OFFSET: usize = 44;

/// The entries of the MADT `bytes`.
pub fn read_madt_entries(bytes: &[u8]) -> (r: Vec<MadtEntry>)
    ensures
        r@ == madt_entries_from(bytes@, MADT_ENTRIES_OFFSET as int),
{
    let mut r: Vec<MadtEntry> = Vec::new();
    let mut off: usize = MADT_ENTRIES_OFFSET;
    while off <= bytes.len() && bytes.len() - off >= 2 && bytes[off + 1] >= 2
        invariant
            off >= MADT_ENTRIES_OFFSET,
            r@ + madt_entries_from(bytes@, off as int) == madt_entries_from(bytes@, MADT_ENTRIES_OFFSET as int),
        decreases bytes@.len() + 256 - off,
    {
        let kind = bytes[off];
        let len = bytes[off + 1];
        let entry = if kind == 0 && len >= 8 && bytes.len() - off >= 8 {
            let flags = read_le32(bytes, off + 4);
            MadtEntry::ProcessorLocal { processor_id: bytes[off + 2], can_be_enabled: flags % 4 != 0 }
        } else {
            MadtEntry::Other
        };
        proof {
            let rest = madt_entries_from(bytes@, off + len);
            assert(madt_entries_from(bytes@, off as int) == seq![entry] + rest);
            assert(r@.push(entry) + rest =~= r@ + (seq![entry] + rest));
        }
        r.push(entry);
        if len as usize > bytes.len() - off {
            proof {
                assert(madt_entries_from(bytes@, off + len) =~= Seq::<MadtEntry>::empty());
                assert(madt_entries_from(bytes@, bytes@.len() as int) =~= Seq::<MadtEntry>::empty());
            }
            off = bytes.len();
        } else {
            off = off + len as usize;
        }
    }
    proof {
        assert(madt_entries_from(bytes@, off as int) =~= Seq::<MadtEntry>::empty());
        assert(r@ + Seq::<MadtEntry>::empty() =~= r@);
    }
    r
}

/// What to do next while reading the tables.
#[derive(Clone, Copy, PartialEq, Eq, Structural, Debug)]
pub enum AcpiAction {
    /// Map `len` bytes of physical memory at `addr`, then report whether it worked.
    MapMemory { addr: usize, len: usize },
    /// Read `len` bytes at `addr`, then report them.
    ReadMemory { addr: usize, len: usize },
    /// The tables are read; the outcome is ready.
    Done,
}

/// What the last action gave.
pub enum AcpiEvent {
    Mapped(Result<(), NewMapError>),
    Bytes(Vec<u8>),
}

/// Where the reading stands.
#[derive(Clone, Copy, PartialEq, Eq, Debug)]
pub enum AcpiPhase {
    MapRsdp,
    ReadRsdp,
    MapRsdt,
    ReadRsdtHeader,
    ReadRsdt { len: usize },
    MapEntryHeader,
    ReadEntryHeader,
    MapEntry { len: usize, signature: [u8; 4] },
    ReadEntry { len: usize, signature: [u8; 4] },
    Finished,
}

/// The signature of the MADT.
pub open spec fn is_madt_signature(s: [u8; 4]) -> bool {
    s@ == seq![0x41u8, 0x50u8, 0x49u8, 0x43u8]
}

/// Reads the ACPI tables, one request at a time.
pub struct AcpiParser {
    phase: AcpiPhase,
    rsdp_addr: usize,
    rsdt_addr: usize,
    oem_id: Option<[u8; 6]>,
    entries: Vec<u32>,
    next: usize,
    processors: Vec<AcpiProcessor>,
    local_apic_ptr: Option<PhysicalAddress>,
    error: Option<AcpiError>,
}

impl AcpiParser {
    pub closed spec fn phase_spec(&self) -> AcpiPhase {
        self.phase
    }

    /// The addresses of the tables the root table lists.
    pub closed spec fn entries_spec(&self) -> Seq<u32> {
        self.entries@
    }

    /// The index of the table being read.
    pub closed spec fn next_spec(&self) -> int {
        self.next as int
    }

    /// The processors found so far.
    pub closed spec fn processors_spec(&self) -> Seq<AcpiProcessor> {
        self.processors@
    }

    /// The error the reading stopped on, if any.
    pub closed spec fn error_spec(&self) -> Option<AcpiError> {
        self.error
    }

    pub closed spec fn local_apic_spec(&self) -> Option<PhysicalAddress> {
        self.local_apic_ptr
    }

    pub closed spec fn oem_spec(&self) -> Option<[u8; 6]> {
        self.oem_id
    }

    pub closed spec fn rsdp_spec(&self) -> usize {
        self.rsdp_addr
    }

    pub closed spec fn rsdt_spec(&self) -> usize {
        self.rsdt_addr
    }

    /// The address of the table being read.
    pub open spec fn current_entry(&self) -> int {
        self.entries_spec()[self.next_spec()] as int
    }

    /// The parser is consistent: the table being read is one of those listed.
    pub open spec fn wf(&self) -> bool {
        &&& 0 <= self.next_spec() <= self.entries_spec().len()
        &&& (self.phase_spec() is MapEntryHeader || self.phase_spec() is ReadEntryHeader
            || self.phase_spec() is MapEntry || self.phase_spec() is ReadEntry) ==> self.next_spec()
            < self.entries_spec().len()
        &&& self.phase_spec() is Finished <==> self.error_spec() is Some || self.next_spec()
            == self.entries_spec().len() && !(self.phase_spec() is MapRsdp || self.phase_spec() is ReadRsdp
            || self.phase_spec() is MapRsdt || self.phase_spec() is ReadRsdtHeader
            || self.phase_spec() is ReadRsdt)
    }

    /// The event fits the request that the phase made: a mapping result after a mapping
    /// request, and the requested number of bytes after a read.
    pub open spec fn expects(&self, event: &AcpiEvent) -> bool {
        match self.phase_spec() {
            AcpiPhase::MapRsdp | AcpiPhase::MapRsdt | AcpiPhase::MapEntryHeader | AcpiPhase::MapEntry {
                ..
            } => event is Mapped,
            AcpiPhase::ReadRsdp => event matches AcpiEvent::Bytes(b) && b@.len() == RSDP_SIZE,
            AcpiPhase::ReadRsdtHeader | AcpiPhase::ReadEntryHeader => event matches AcpiEvent::Bytes(b)
                && b@.len() == SDT_HEADER_SIZE,
            AcpiPhase::ReadRsdt { len } | AcpiPhase::ReadEntry { len, .. } => event matches AcpiEvent::Bytes(b)
                && b@.len() == len,
            AcpiPhase::Finished => false,
        }
    }

    /// Start reading the tables at the root pointer `rsdp_addr`: the first request maps it.
    pub fn new(rsdp_addr: usize) -> (r: (Self, AcpiAction))
        ensures
            r.0.wf(),
            r.0.phase_spec() == AcpiPhase::MapRsdp,
            r.0.rsdp_spec() == rsdp_addr,
            r.0.error_spec() is None,
            r.0.processors_spec() == Seq::<AcpiProcessor>::empty(),
            r.0.local_apic_spec() is None,
            r.1 == (AcpiAction::MapMemory { addr: rsdp_addr, len: RSDP_SIZE }),
    {
        (
            AcpiParser {
                phase: AcpiPhase::MapRsdp,
                rsdp_addr,
                rsdt_addr: 0,
                oem_id: None,
                entries: Vec::new(),
                next: 0,
                processors: Vec::new(),
                local_apic_ptr: None,
                error: None,
            },
            AcpiAction::MapMemory { addr: rsdp_addr, len: RSDP_SIZE },
        )
    }

    /// Stop with `error`.
    fn fail(&mut self, error: AcpiError) -> (r: AcpiAction)
        ensures
            final(self).phase_spec() == AcpiPhase::Finished,
            final(self).error_spec() == Some(error),
            final(self).entries_spec() == old(self).entries_spec(),
            final(self).next_spec() == old(self).next_spec(),
            final(self).processors_spec() == old(self).processors_spec(),
            final(self).local_apic_spec() == old(self).local_apic_spec(),
            final(self).oem_spec() == old(self).oem_spec(),
            final(self).rsdp_spec() == old(self).rsdp_spec(),
            final(self).rsdt_spec() == old(self).rsdt_spec(),
            r == AcpiAction::Done,
    {
        self.phase = AcpiPhase::Finished;
        self.error = Some(error);
        AcpiAction::Done
    }

    /// Go on with table `self.next`, or finish when there is none left.
    fn next_entry(&mut self) -> (r: AcpiAction)
        requires
            old(self).next_spec() <= old(self).entries_spec().len(),
            old(self).error_spec() is None,
        ensures
            final(self).wf(),
            final(self).entries_spec() == old(self).entries_spec(),
            final(self).next_spec() == old(self).next_spec(),
            final(self).processors_spec() == old(self).processors_spec(),
            final(self).local_apic_spec() == old(self).local_apic_spec(),
            final(self).oem_spec() == old(self).oem_spec(),
            final(self).error_spec() is None,
            final(self).rsdp_spec() == old(self).rsdp_spec(),
            final(self).rsdt_spec() == old(self).rsdt_spec(),
            old(self).next_spec() < old(self).entries_spec().len() ==> final(self).phase_spec()
                == AcpiPhase::MapEntryHeader && r == (AcpiAction::MapMemory {
                addr: old(self).entries_spec()[old(self).next_spec()] as usize,
                len: SDT_HEADER_SIZE,
            }),
            old(self).next_spec() == old(self).entries_spec().len() ==> final(self).phase_spec()
                == AcpiPhase::Finished && r == AcpiAction::Done,
    {
        if self.next < self.entries.len() {
            self.phase = AcpiPhase::MapEntryHeader;
            AcpiAction::MapMemory { addr: self.entries[self.next] as usize, len: SDT_HEADER_SIZE }
        } else {
            self.phase = AcpiPhase::Finished;
            AcpiAction::Done
        }
    }
}

impl AcpiParser {
    /// Take what the last request gave and make the next request.
    ///
    /// - The root pointer is mapped, then read; its checksum must hold. It gives the OEM id
    ///   and the address of the root table.
    /// - The root table is mapped and its header read, then the whole table; its checksum must
    ///   hold. It lists the addresses of the other tables.
    /// - Each listed table is mapped and its header read, then mapped and read whole; its
    ///   checksum must hold. A MADT adds its processors and sets the local APIC address.
    /// - A mapping that fails, or a checksum that does not hold, ends the reading with the
    ///   matching error.
    pub fn step(&mut self, event: AcpiEvent) -> (r: AcpiAction)
        requires
            old(self).wf(),
            old(self).expects(&event),
        ensures
            final(self).wf(),
            final(self).rsdp_spec() == old(self).rsdp_spec(),
            old(self).error_spec() is None ==> (final(self).error_spec() is None || r == AcpiAction::Done),
            (r == AcpiAction::Done) == (final(self).phase_spec() == AcpiPhase::Finished),
            match (old(self).phase_spec(), event) {
                (AcpiPhase::MapRsdp, AcpiEvent::Mapped(Ok(()))) => final(self).phase_spec() == AcpiPhase::ReadRsdp
                    && r == (AcpiAction::ReadMemory { addr: old(self).rsdp_spec(), len: RSDP_SIZE }),
                (AcpiPhase::MapRsdp, AcpiEvent::Mapped(Err(e))) => final(self).error_spec() == Some(
                    AcpiError::MapRspdError(e),
                ),
                (AcpiPhase::ReadRsdp, AcpiEvent::Bytes(b)) => if !checksum_holds(b@) {
                    final(self).error_spec() == Some(AcpiError::RsdpChecksum)
                } else {
                    &&& final(self).phase_spec() == AcpiPhase::MapRsdt
                    &&& final(self).rsdt_spec() == le32(b@, 16)
                    &&& final(self).oem_spec() == Some([b@[9], b@[10], b@[11], b@[12], b@[13], b@[14]])
                    &&& r == (AcpiAction::MapMemory { addr: le32(b@, 16) as usize, len: SDT_HEADER_SIZE })
                },
                (AcpiPhase::MapRsdt, AcpiEvent::Mapped(Ok(()))) => final(self).phase_spec()
                    == AcpiPhase::ReadRsdtHeader && r == (AcpiAction::ReadMemory {
                    addr: old(self).rsdt_spec(),
                    len: SDT_HEADER_SIZE,
                }),
                (AcpiPhase::MapRsdt, AcpiEvent::Mapped(Err(e))) => final(self).error_spec() == Some(
                    AcpiError::MapRsdtError(e),
                ),
                (AcpiPhase::ReadRsdtHeader, AcpiEvent::Bytes(h)) => final(self).phase_spec() == (AcpiPhase::ReadRsdt {
                    len: le32(h@, 4) as usize,
                }) && r == (AcpiAction::ReadMemory { addr: old(self).rsdt_spec(), len: le32(h@, 4) as usize }),
                (AcpiPhase::ReadRsdt { .. }, AcpiEvent::Bytes(b)) => if !checksum_holds(b@) {
                    final(self).error_spec() == Some(AcpiError::RsdtChecksum)
                } else {
                    &&& final(self).entries_spec() == rsdt_entries(b@)
                    &&& final(self).next_spec() == 0
                    &&& final(self).error_spec() is None
                    &&& rsdt_entries(b@).len() > 0 ==> r == (AcpiAction::MapMemory {
                        addr: rsdt_entries(b@)[0] as usize,
                        len: SDT_HEADER_SIZE,
                    })
                    &&& rsdt_entries(b@).len() == 0 ==> r == AcpiAction::Done
                },
                (AcpiPhase::MapEntryHeader, AcpiEvent::Mapped(Ok(()))) => final(self).phase_spec()
                    == AcpiPhase::ReadEntryHeader && r == (AcpiAction::ReadMemory {
                    addr: old(self).current_entry() as usize,
                    len: SDT_HEADER_SIZE,
                }),
                (AcpiPhase::MapEntryHeader, AcpiEvent::Mapped(Err(e))) => final(self).error_spec() == Some(
                    AcpiError::MapEntryError(e),
                ),
                (AcpiPhase::ReadEntryHeader, AcpiEvent::Bytes(h)) => final(self).phase_spec() == (AcpiPhase::MapEntry {
                    len: le32(h@, 4) as usize,
                    signature: [h@[0], h@[1], h@[2], h@[3]],
                }) && r == (AcpiAction::MapMemory {
                    addr: old(self).current_entry() as usize,
                    len: le32(h@, 4) as usize,
                }),
                (AcpiPhase::MapEntry { len, signature }, AcpiEvent::Mapped(Ok(()))) => final(self).phase_spec()
                    == (AcpiPhase::ReadEntry { len, signature }) && r == (AcpiAction::ReadMemory {
                    addr: old(self).current_entry() as usize,
                    len,
                }),
                (AcpiPhase::MapEntry { .. }, AcpiEvent::Mapped(Err(e))) => final(self).error_spec() == Some(
                    AcpiError::MapEntryError(e),
                ),
                (AcpiPhase::ReadEntry { signature, .. }, AcpiEvent::Bytes(b)) => if !checksum_holds(b@) {
                    final(self).error_spec() == Some(AcpiError::EntryChecksum(Some(signature)))
                } else {
                    &&& final(self).next_spec() == old(self).next_spec() + 1
                    &&& final(self).entries_spec() == old(self).entries_spec()
                    &&& final(self).error_spec() is None
                    &&& if is_madt_signature(signature) && b@.len() >= 40 {
                        &&& final(self).processors_spec() == old(self).processors_spec() + usable_processors(
                            madt_entries_from(b@, MADT_ENTRIES_OFFSET as int),
                        )
                        &&& final(self).local_apic_spec() == Some(
                            PhysicalAddress { value: le32(b@, 36) as usize },
                        )
                    } else {
                        &&& final(self).processors_spec() == old(self).processors_spec()
                        &&& final(self).local_apic_spec() == old(self).local_apic_spec()
                    }
                    &&& old(self).next_spec() + 1 < old(self).entries_spec().len() ==> r == (AcpiAction::MapMemory {
                        addr: old(self).entries_spec()[old(self).next_spec() + 1] as usize,
                        len: SDT_HEADER_SIZE,
                    })
                    &&& old(self).next_spec() + 1 == old(self).entries_spec().len() ==> r == AcpiAction::Done
                },
                _ => true,
            },
    {
        match self.phase {
            AcpiPhase::MapRsdp => match event {
                AcpiEvent::Mapped(Ok(())) => {
                    self.phase = AcpiPhase::ReadRsdp;
                    AcpiAction::ReadMemory { addr: self.rsdp_addr, len: RSDP_SIZE }
                },
                AcpiEvent::Mapped(Err(e)) => self.fail(AcpiError::MapRspdError(e)),
                AcpiEvent::Bytes(_) => AcpiAction::Done,
            },
            AcpiPhase::ReadRsdp => match event {
                AcpiEvent::Bytes(b) => {
                    if !checksum_ok(b.as_slice()) {
                        return self.fail(AcpiError::RsdpChecksum);
                    }
                    self.oem_id = Some([b[9], b[10], b[11], b[12], b[13], b[14]]);
                    let rsdt = read_le32(b.as_slice(), 16);
                    self.rsdt_addr = rsdt as usize;
                    self.phase = AcpiPhase::MapRsdt;
                    AcpiAction::MapMemory { addr: rsdt as usize, len: SDT_HEADER_SIZE }
                },
                AcpiEvent::Mapped(_) => AcpiAction::Done,
            },
            AcpiPhase::MapRsdt => match event {
                AcpiEvent::Mapped(Ok(())) => {
                    self.phase = AcpiPhase::ReadRsdtHeader;
                    AcpiAction::ReadMemory { addr: self.rsdt_addr, len: SDT_HEADER_SIZE }
                },
                AcpiEvent::Mapped(Err(e)) => self.fail(AcpiError::MapRsdtError(e)),
                AcpiEvent::Bytes(_) => AcpiAction::Done,
            },
            AcpiPhase::ReadRsdtHeader => match event {
                AcpiEvent::Bytes(h) => {
                    let len = read_le32(h.as_slice(), 4) as usize;
                    self.phase = AcpiPhase::ReadRsdt { len };
                    AcpiAction::ReadMemory { addr: self.rsdt_addr, len }
                },
                AcpiEvent::Mapped(_) => AcpiAction::Done,
            },
            AcpiPhase::ReadRsdt { .. } => match event {
                AcpiEvent::Bytes(b) => {
                    if !checksum_ok(b.as_slice()) {
                        return self.fail(AcpiError::RsdtChecksum);
                    }
                    self.entries = read_rsdt_entries(b.as_slice());
                    self.next = 0;
                    self.next_entry()
                },
                AcpiEvent::Mapped(_) => AcpiAction::Done,
            },
            AcpiPhase::MapEntryHeader => match event {
                AcpiEvent::Mapped(Ok(())) => {
                    self.phase = AcpiPhase::ReadEntryHeader;
                    AcpiAction::ReadMemory { addr: self.entries[self.next] as usize, len: SDT_HEADER_SIZE }
                },
                AcpiEvent::Mapped(Err(e)) => self.fail(AcpiError::MapEntryError(e)),
                AcpiEvent::Bytes(_) => AcpiAction::Done,
            },
            AcpiPhase::ReadEntryHeader => match event {
                AcpiEvent::Bytes(h) => {
                    let len = read_le32(h.as_slice(), 4) as usize;
                    let signature = [h[0], h[1], h[2], h[3]];
                    self.phase = AcpiPhase::MapEntry { len, signature };
                    AcpiAction::MapMemory { addr: self.entries[self.next] as usize, len }
                },
                AcpiEvent::Mapped(_) => AcpiAction::Done,
            },
            AcpiPhase::MapEntry { len, signature } => match event {
                AcpiEvent::Mapped(Ok(())) => {
                    self.phase = AcpiPhase::ReadEntry { len, signature };
                    AcpiAction::ReadMemory { addr: self.entries[self.next] as usize, len }
                },
                AcpiEvent::Mapped(Err(e)) => self.fail(AcpiError::MapEntryError(e)),
                AcpiEvent::Bytes(_) => AcpiAction::Done,
            },
            AcpiPhase::ReadEntry { signature, .. } => match event {
                AcpiEvent::Bytes(b) => {
                    if !checksum_ok(b.as_slice()) {
                        return self.fail(AcpiError::EntryChecksum(Some(signature)));
                    }
                    let is_madt = signature[0] == 0x41u8 && signature[1] == 0x50u8 && signature[2] == 0x49u8
                        && signature[3] == 0x43u8;
                    proof {
                        assert(is_madt == is_madt_signature(signature)) by {
                            if is_madt {
                                assert(signature@ =~= seq![0x41u8, 0x50u8, 0x49u8, 0x43u8]);
                            }
                        }
                    }
                    if is_madt && b.len() >= 40 {
                        let entries = read_madt_entries(b.as_slice());
                        let local_apic = PhysicalAddress::new(read_le32(b.as_slice(), 36) as usize);
                        let _ = parse_madt(entries.as_slice(), local_apic, &mut self.processors, &mut self.local_apic_ptr);
                    }
                    let listed = self.entries.len();
                    proof {
                        assert(self.next < listed);
                    }
                    self.next = self.next + 1;
                    self.next_entry()
                },
                AcpiEvent::Mapped(_) => AcpiAction::Done,
            },
            AcpiPhase::Finished => AcpiAction::Done,
        }
    }

    /// The outcome, once the reading is done: the first error met, or what the tables tell.
    pub fn finish(self) -> (r: Result<AcpiInfo, AcpiError>)
        requires
            self.wf(),
            self.phase_spec() == AcpiPhase::Finished,
        ensures
            match self.error_spec() {
                Some(e) => r == Err::<AcpiInfo, AcpiError>(e),
                None => r matches Ok(info) && info.oem_id == self.oem_spec() && info.local_apic_ptr
                    == self.local_apic_spec() && info.processors@ == self.processors_spec(),
            },
    {
        match self.error {
            Some(e) => Err(e),
            None => Ok(AcpiInfo { oem_id: self.oem_id, local_apic_ptr: self.local_apic_ptr, processors: self.processors }),
        }
    }
}

} // verus!
