//! What the memory manager knows of a mapping: its properties, the errors of the mapper, and
//! how a page fault is described.

use vstd::prelude::*;

use crate::address::VirtualAddress;
use crate::interrupt::PageFaultErrorCode;
use crate::paging::{bit_set, lemma_u64_bits, PageTableEntryFlags};

verus! {

/// Why an access faulted.
#[derive(Clone, Copy, PartialEq, Eq, Structural, Debug)]
pub enum MemoryViolation {
    NotMapped,
    InsufficientPrivilge,
    MalformedTable,
}

/// The kind of access that faulted.
#[derive(Clone, Copy, PartialEq, Eq, Structural, Debug)]
pub enum MemoryAccess {
    Write,
    Read,
    InstructionFetch,
}

/// A page fault, as the memory manager sees it.
#[derive(Clone, Copy, PartialEq, Eq, Structural, Debug)]
pub struct PageFault {
    pub addr: VirtualAddress,
    pub instruction_pointer: VirtualAddress,
    pub access: MemoryAccess,
    pub violation: MemoryViolation,
}

/// The kind of access an error code reports.
pub open spec fn access_of(code: u64) -> MemoryAccess {
    if bit_set(code, 4) {
        MemoryAccess::InstructionFetch
    } else if bit_set(code, 1) {
        MemoryAccess::Write
    } else {
        MemoryAccess::Read
    }
}

/// The violation an error code reports.
pub open spec fn violation_of(code: u64) -> MemoryViolation {
    if bit_set(code, 3) {
        MemoryViolation::MalformedTable
    } else if bit_set(code, 0) || bit_set(code, 5) {
        MemoryViolation::InsufficientPrivilge
    } else {
        MemoryViolation::NotMapped
    }
}

/// Law: the kind of access depends on bits 4 (instruction fetch) and 1 (write) of the error
/// code alone: an instruction fetch when bit 4 is set, else a write when bit 1 is set, whether
/// or not the page was present, else a read.
pub proof fn lemma_access_kind(code: u64)
    ensures
        (access_of(code) == MemoryAccess::InstructionFetch) == bit_set(code, 4),
        (access_of(code) == MemoryAccess::Write) == (!bit_set(code, 4) && bit_set(code, 1)),
        (access_of(code) == MemoryAccess::Read) == (!bit_set(code, 4) && !bit_set(code, 1)),
        forall|other: u64|
            bit_set(other, 4) == bit_set(code, 4) && bit_set(other, 1) == bit_set(code, 1)
                ==> #[trigger] access_of(other) == access_of(code),
{
}

/// Law: the violation depends on bits 3 (malformed table), 0 (protection) and 5 (protection
/// key) of the error code alone: a malformed table when bit 3 is set, else insufficient
/// privilege when bit 0 or bit 5 is set, else a page that is not mapped.
pub proof fn lemma_violation_kind(code: u64)
    ensures
        (violation_of(code) == MemoryViolation::MalformedTable) == bit_set(code, 3),
        (violation_of(code) == MemoryViolation::InsufficientPrivilge) == (!bit_set(code, 3) && (bit_set(
            code,
            0,
        ) || bit_set(code, 5))),
        (violation_of(code) == MemoryViolation::NotMapped) == (!bit_set(code, 3) && !bit_set(code, 0)
            && !bit_set(code, 5)),
{
}

/// Describe the page fault the processor reported with `error` for an access to `addr` by
/// the instruction at `instruction_pointer`.
pub fn page_fault(
    error: PageFaultErrorCode,
    addr: VirtualAddress,
    instruction_pointer: VirtualAddress,
) -> (r: PageFault)
    ensures
        r.addr == addr,
        r.instruction_pointer == instruction_pointer,
        r.access == access_of(error@),
        r.violation == violation_of(error@),
        (r.access == MemoryAccess::Write) == (!bit_set(error@, 4) && bit_set(error@, 1)),
        (r.access == MemoryAccess::InstructionFetch) == bit_set(error@, 4),
{
    proof {
        lemma_access_kind(error@);
    }
    let access = if error.instruction_fetch() {
        MemoryAccess::InstructionFetch
    } else if error.caused_by_write() {
        MemoryAccess::Write
    } else {
        MemoryAccess::Read
    };
    let violation = if error.malformed_table() {
        MemoryViolation::MalformedTable
    } else if error.protection_violation() || error.protection_key() {
        MemoryViolation::InsufficientPrivilge
    } else {
        MemoryViolation::NotMapped
    };
    PageFault { instruction_pointer, addr, access, violation }
}

/// The kind of a memory error.
#[derive(Clone, Copy, PartialEq, Eq, Structural, Debug)]
pub enum MemoryErrorKind {
    NullPointer,
}

/// A page fault the memory manager could not resolve.
#[derive(Clone, Copy, PartialEq, Eq, Structural, Debug)]
pub struct MemoryError {
    pub kind: MemoryErrorKind,
    pub fault: PageFault,
}

/// Why a new mapping could not be made.
#[derive(Clone, Copy, PartialEq, Eq, Structural, Debug)]
pub enum NewMapError {
    NotOwned,
    OutOfFrames,
    AlreadyMapped,
}

/// Why an identity mapping could not be made.
#[derive(Clone, Copy, PartialEq, Eq, Structural, Debug)]
pub enum IdentityMapError {
    NotOwned,
    OutOfFrames,
}

/// Why a mapping could not be changed.
#[derive(Clone, Copy, PartialEq, Eq, Structural, Debug)]
pub enum ModifyMapError {
    NotOwned,
    NotMapped,
    OutOfBounds,
}

impl ModifyMapError {
    /// The error of a new mapping that met a page it does not own.
    ///
    /// Only [`ModifyMapError::NotOwned`] can occur while a new mapping is made.
    pub fn into_new_map_error(self) -> (r: NewMapError)
        requires
            self == ModifyMapError::NotOwned,
        ensures
            r == NewMapError::NotOwned,
    {
        NewMapError::NotOwned
    }
}

/// Why a mapping could not be read.
#[derive(Clone, Copy, PartialEq, Eq, Structural, Debug)]
pub enum ReadMapError {
    NotMapped,
}

/// The properties of a mapping.
#[derive(Clone, Copy, PartialEq, Eq, Structural, Debug)]
pub struct MemoryProperties {
    writable: bool,
    readable: bool,
    kernel: bool,
    executable: bool,
    mmio: bool,
}

impl MemoryProperties {
    pub closed spec fn writable_spec(&self) -> bool {
        self.writable
    }

    pub closed spec fn readable_spec(&self) -> bool {
        self.readable
    }

    pub closed spec fn kernel_spec(&self) -> bool {
        self.kernel
    }

    pub closed spec fn executable_spec(&self) -> bool {
        self.executable
    }

    pub closed spec fn mmio_spec(&self) -> bool {
        self.mmio
    }

    pub fn new(writable: bool, readable: bool, kernel: bool, executable: bool, mmio: bool) -> (r: Self)
        ensures
            r.writable_spec() == writable,
            r.readable_spec() == readable,
            r.kernel_spec() == kernel,
            r.executable_spec() == executable,
            r.mmio_spec() == mmio,
    {
        Self { writable, readable, kernel, executable, mmio }
    }

    /// Memory-mapped device registers: kernel only, read and write, not executable, uncached.
    pub fn mmio_page() -> (r: Self)
        ensures
            r.writable_spec() && r.readable_spec() && r.kernel_spec() && !r.executable_spec() && r.mmio_spec(),
    {
        Self::new(true, true, true, false, true)
    }

    /// Kernel data that is only read.
    pub fn kernel_read_only() -> (r: Self)
        ensures
            !r.writable_spec() && r.readable_spec() && r.kernel_spec() && !r.executable_spec() && !r.mmio_spec(),
    {
        Self::new(false, true, true, false, false)
    }

    pub fn writable(&self) -> (r: bool)
        ensures
            r == self.writable_spec(),
    {
        self.writable
    }

    pub fn readable(&self) -> (r: bool)
        ensures
            r == self.readable_spec(),
    {
        self.readable
    }

    pub fn kernel(&self) -> (r: bool)
        ensures
            r == self.kernel_spec(),
    {
        self.kernel
    }

    /// The memory is reachable from user mode: it is not kernel memory.
    pub fn user(&self) -> (r: bool)
        ensures
            r == !self.kernel_spec(),
    {
        !self.kernel()
    }

    pub fn executable(&self) -> (r: bool)
        ensures
            r == self.executable_spec(),
    {
        self.executable
    }

    pub fn mmio(&self) -> (r: bool)
        ensures
            r == self.mmio_spec(),
    {
        self.mmio
    }
}

/// The entry flags that give a mapping the properties `props`: present when `present` and
/// readable, writable, user-accessible unless kernel memory, no-execute unless executable,
/// global for kernel memory and uncached for device memory; no other bit.
pub open spec fn flags_for(props: MemoryProperties, present: bool, i: u64) -> bool {
    if i == 0 {
        present && props.readable_spec()
    } else if i == 1 {
        props.writable_spec()
    } else if i == 2 {
        !props.kernel_spec()
    } else if i == 4 {
        props.mmio_spec()
    } else if i == 8 {
        props.kernel_spec()
    } else if i == 63 {
        !props.executable_spec()
    } else {
        false
    }
}

/// The entry flags for a mapping with properties `props`.
pub fn props_to_flags(props: MemoryProperties, present: bool) -> (r: PageTableEntryFlags)
    ensures
        forall|i: u64| i < 64 ==> #[trigger] bit_set(r@, i) == flags_for(props, present, i),
{
    PageTableEntryFlags::null().set_present(present && props.readable()).set_writable(props.writable()).set_user_accessible(
        props.user(),
    ).set_no_exec(!props.executable()).set_global(props.kernel()).set_no_cache(props.mmio())
}

/// The properties that entry flags give a mapping.
pub fn flags_to_props(flags: PageTableEntryFlags) -> (r: MemoryProperties)
    ensures
        r.writable_spec() == bit_set(flags@, 1),
        r.readable_spec() == bit_set(flags@, 0),
        r.kernel_spec() == !bit_set(flags@, 2),
        r.executable_spec() == !bit_set(flags@, 63),
        r.mmio_spec() == bit_set(flags@, 4),
{
    MemoryProperties::new(
        flags.writable(),
        flags.present(),
        !flags.user_accessible(),
        !flags.noexec(),
        flags.no_cache(),
    )
}

/// Law: the properties read back from the flags of a present mapping are the properties it
/// was made with.
pub proof fn lemma_props_round_trip(props: MemoryProperties, flags: u64)
    requires
        forall|i: u64| i < 64 ==> #[trigger] bit_set(flags, i) == flags_for(props, true, i),
    ensures
        bit_set(flags, 1) == props.writable_spec(),
        bit_set(flags, 0) == props.readable_spec(),
        !bit_set(flags, 2) == props.kernel_spec(),
        !bit_set(flags, 63) == props.executable_spec(),
        bit_set(flags, 4) == props.mmio_spec(),
{
    assert(bit_set(flags, 0) == flags_for(props, true, 0));
    assert(bit_set(flags, 1) == flags_for(props, true, 1));
    assert(bit_set(flags, 2) == flags_for(props, true, 2));
    assert(bit_set(flags, 4) == flags_for(props, true, 4));
    assert(bit_set(flags, 63) == flags_for(props, true, 63));
}

} // verus!
