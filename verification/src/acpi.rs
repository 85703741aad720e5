//! What the kernel learns from the ACPI tables: the processors and the local APIC.

use vstd::prelude::*;

use crate::address::PhysicalAddress;
use crate::memory_map::NewMapError;

verus! {

/// Why the ACPI tables could not be read.
#[derive(Clone, Copy, PartialEq, Eq, Debug)]
pub enum AcpiError {
    RsdpChecksum,
    RsdtChecksum,
    EntryChecksum(Option<[u8; 4]>),
    MapRspdError(NewMapError),
    MapRsdtError(NewMapError),
    MapEntryError(NewMapError),
}

/// A processor that the MADT lists.
#[derive(Clone, Copy, PartialEq, Eq, Structural, Debug)]
pub struct AcpiProcessor {
    pub id: u8,
}

/// An entry of the MADT, as far as the kernel reads it.
#[derive(Clone, Copy, PartialEq, Eq, Structural, Debug)]
pub enum MadtEntry {
    /// A processor with its local APIC; it counts when it is enabled or can be enabled.
    ProcessorLocal { processor_id: u8, can_be_enabled: bool },
    /// Any other entry.
    Other,
}

/// The ids of the processors that the entries list and that can be enabled, in order.
pub open spec fn usable_processors(entries: Seq<MadtEntry>) -> Seq<AcpiProcessor>
    decreases entries.len(),
{
    if entries.len() == 0 {
        Seq::empty()
    } else {
        let rest = usable_processors(entries.drop_last());
        match entries.last() {
            MadtEntry::ProcessorLocal { processor_id, can_be_enabled } => if can_be_enabled {
                rest.push(AcpiProcessor { id: processor_id })
            } else {
                rest
            },
            MadtEntry::Other => rest,
        }
    }
}

/// Read the MADT: add the processors that can be enabled to `processors`, and note the
/// address of the local APIC.
pub fn parse_madt(
    entries: &[MadtEntry],
    local_apic: PhysicalAddress,
    processors: &mut Vec<AcpiProcessor>,
    local_apic_ptr: &mut Option<PhysicalAddress>,
) -> (r: Result<(), AcpiError>)
    ensures
        r is Ok,
        final(processors)@ == old(processors)@ + usable_processors(entries@),
        *final(local_apic_ptr) == Some(local_apic),
{
    let mut i: usize = 0;
    while i < entries.len()
        invariant
            0 <= i <= entries@.len(),
            processors@ == old(processors)@ + usable_processors(entries@.take(i as int)),
        decreases entries@.len() - i,
    {
        proof {
            assert(entries@.take(i as int + 1).drop_last() =~= entries@.take(i as int));
            assert(entries@.take(i as int + 1).last() == entries@[i as int]);
        }
        match entries[i] {
            MadtEntry::ProcessorLocal { processor_id, can_be_enabled } => {
                if can_be_enabled {
                    processors.push(AcpiProcessor { id: processor_id });
                }
            },
            MadtEntry::Other => {},
        }
        proof {
            assert(processors@ =~= old(processors)@ + usable_processors(entries@.take(i as int + 1)));
        }
        i = i + 1;
    }
    proof {
        assert(entries@.take(entries@.len() as int) =~= entries@);
    }
    *local_apic_ptr = Some(local_apic);
    Ok(())
}

/// What the ACPI tables tell: the OEM, the local APIC and the processors.
pub struct AcpiInfo {
    pub oem_id: Option<[u8; 6]>,
    pub local_apic_ptr: Option<PhysicalAddress>,
    pub processors: Vec<AcpiProcessor>,
}

impl AcpiInfo {
    /// The number of processors.
    pub fn processor_count(&self) -> (r: usize)
        ensures
            r == self.processors@.len(),
    {
        self.processors.len()
    }
}

/// The number of processors: those the ACPI tables list, or one without them.
pub fn processor_count(info: Option<&AcpiInfo>) -> (r: usize)
    ensures
        r == match info {
            Some(i) => i.processors@.len() as int,
            None => 1,
        },
{
    match info {
        Some(info) => info.processor_count(),
        None => 1,
    }
}

/// The id of the processor: 0 with the legacy interrupt controller, the id of its local APIC
/// otherwise.
pub fn processor_id(apic_id: Option<u32>) -> (r: usize)
    ensures
        r == match apic_id {
            Some(id) => id as int,
            None => 0,
        },
{
    match apic_id {
        Some(id) => id as usize,
        None => 0,
    }
}

/// Start the other processors, each running `startup` with its id; no processor is started
/// yet.
pub fn start_slave_processors<F: Fn(usize)>(startup: F) {
}

} // verus!
