//! Interrupt descriptors of the interrupt descriptor table, and the error code of a page fault.

use vstd::prelude::*;

use crate::address::VirtualAddress;
use crate::paging::{bit_set, lemma_u64_bits};
use crate::segmentation::SegmentSelector;

verus! {

/// The error code the processor pushes on a page fault.
#[derive(Clone, Copy, PartialEq, Eq, Structural, Debug)]
pub struct PageFaultErrorCode {
    value: u64,
}

impl View for PageFaultErrorCode {
    type V = u64;

    closed spec fn view(&self) -> u64 {
        self.value
    }
}

impl PageFaultErrorCode {
    /// The error code with raw value `value`.
    pub fn new(value: u64) -> (r: Self)
        ensures
            r@ == value,
    {
        Self { value }
    }

    /// The fault was a protection violation rather than a page that is not present.
    pub fn protection_violation(&self) -> (r: bool)
        ensures
            r == bit_set(self@, 0),
    {
        proof {
            lemma_u64_bits();
        }
        self.value & (1u64 << 0u64) != 0
    }

    pub fn caused_by_write(&self) -> (r: bool)
        ensures
            r == bit_set(self@, 1),
    {
        proof {
            lemma_u64_bits();
        }
        self.value & (1u64 << 1u64) != 0
    }

    pub fn user_mode(&self) -> (r: bool)
        ensures
            r == bit_set(self@, 2),
    {
        proof {
            lemma_u64_bits();
        }
        self.value & (1u64 << 2u64) != 0
    }

    /// A reserved bit of a paging structure was set.
    pub fn malformed_table(&self) -> (r: bool)
        ensures
            r == bit_set(self@, 3),
    {
        proof {
            lemma_u64_bits();
        }
        self.value & (1u64 << 3u64) != 0
    }

    pub fn instruction_fetch(&self) -> (r: bool)
        ensures
            r == bit_set(self@, 4),
    {
        proof {
            lemma_u64_bits();
        }
        self.value & (1u64 << 4u64) != 0
    }

    pub fn protection_key(&self) -> (r: bool)
        ensures
            r == bit_set(self@, 5),
    {
        proof {
            lemma_u64_bits();
        }
        self.value & (1u64 << 5u64) != 0
    }

    pub fn shadow_stack(&self) -> (r: bool)
        ensures
            r == bit_set(self@, 6),
    {
        proof {
            lemma_u64_bits();
        }
        self.value & (1u64 << 6u64) != 0
    }

    pub fn sgx_access_control(&self) -> (r: bool)
        ensures
            r == bit_set(self@, 7),
    {
        proof {
            lemma_u64_bits();
        }
        self.value & (1u64 << 7u64) != 0
    }

    pub fn rmp_violation(&self) -> (r: bool)
        ensures
            r == bit_set(self@, 31),
    {
        proof {
            lemma_u64_bits();
        }
        self.value & (1u64 << 31u64) != 0
    }

    pub fn as_u64(&self) -> (r: u64)
        ensures
            r == self@,
    {
        self.value
    }
}

/// The descriptor type of an interrupt-type descriptor: interrupts are disabled while the handler runs.
pub const INTERRUPT_GATE_TYPE: u8 = 0b1110u8;

/// The descriptor type of a trap-type descriptor: interrupts stay enabled while the handler runs.
pub const TRAP_GATE_TYPE: u8 = 0b1111u8;

/// The low four bits of `original` replaced by those of `value`.
pub open spec fn with_type_bits(original: u8, value: u8) -> u8 {
    (original & 0xF0u8) | (value & 0x0Fu8)
}

/// The facts about the attribute byte that the descriptor operations rest on.
proof fn lemma_u8_bits()
    ensures
        forall|o: u8, v: u8| #[trigger] (o ^ ((o ^ v) & 0x0Fu8)) == with_type_bits(o, v),
        forall|o: u8| #[trigger] (o | (1u8 << 7u8)) == (o & 0x7Fu8) | 0x80u8,
        forall|o: u8| #[trigger] (o & !(1u8 << 7u8)) == o & 0x7Fu8,
        forall|o: u8, v: u8| #[trigger] (with_type_bits(o, v) & 0x80u8) == o & 0x80u8,
        forall|o: u8, v: u8| #[trigger] (with_type_bits(o, v) & 0x0Fu8) == v & 0x0Fu8,
        forall|o: u8| #[trigger] (((o & 0x7Fu8) | 0x80u8) & 0x80u8) == 0x80u8,
        forall|o: u8| #[trigger] ((o & 0x7Fu8) & 0x80u8) == 0u8,
        INTERRUPT_GATE_TYPE & 0x0Fu8 == INTERRUPT_GATE_TYPE,
        TRAP_GATE_TYPE & 0x0Fu8 == TRAP_GATE_TYPE,
{
    assert(forall|o: u8, v: u8| #[trigger] (o ^ ((o ^ v) & 0x0Fu8)) == with_type_bits(o, v)) by (bit_vector);
    assert(forall|o: u8| #[trigger] (o | (1u8 << 7u8)) == (o & 0x7Fu8) | 0x80u8) by (bit_vector);
    assert(forall|o: u8| #[trigger] (o & !(1u8 << 7u8)) == o & 0x7Fu8) by (bit_vector);
    assert(forall|o: u8, v: u8| #[trigger] (with_type_bits(o, v) & 0x80u8) == o & 0x80u8) by (bit_vector);
    assert(forall|o: u8, v: u8| #[trigger] (with_type_bits(o, v) & 0x0Fu8) == v & 0x0Fu8) by (bit_vector);
    assert(forall|o: u8| #[trigger] (((o & 0x7Fu8) | 0x80u8) & 0x80u8) == 0x80u8) by (bit_vector);
    assert((forall|o: u8| #[trigger] ((o & 0x7Fu8) & 0x80u8) == 0u8) && (0b1110u8 & 0x0Fu8) == 0b1110u8
        && (0b1111u8 & 0x0Fu8) == 0b1111u8) by (bit_vector);
}

/// The type and attribute byte of a descriptor: the descriptor type in the low four bits, the present
/// bit in bit 7.
#[derive(Clone, Copy, PartialEq, Eq, Structural, Debug)]
pub struct GateAttributes {
    type_attributes: u8,
}

impl View for GateAttributes {
    type V = u8;

    closed spec fn view(&self) -> u8 {
        self.type_attributes
    }
}

/// The descriptor is present.
pub open spec fn gate_present(attributes: u8) -> bool {
    attributes & 0x80u8 == 0x80u8
}

/// The descriptor type of the attribute byte.
pub open spec fn gate_type(attributes: u8) -> u8 {
    attributes & 0x0Fu8
}

impl GateAttributes {
    /// A descriptor that is not present, of interrupt-type descriptor type.
    pub fn new() -> (r: Self)
        ensures
            r@ == INTERRUPT_GATE_TYPE,
    {
        proof {
            lemma_u8_bits();
            assert(with_type_bits(0u8, INTERRUPT_GATE_TYPE) == INTERRUPT_GATE_TYPE) by (bit_vector);
        }
        Self { type_attributes: Self::transform_type_bits(0, INTERRUPT_GATE_TYPE) }
    }

    /// `original` with its low four bits replaced by those of `value`.
    fn transform_type_bits(original: u8, value: u8) -> (r: u8)
        ensures
            r == with_type_bits(original, value),
    {
        proof {
            lemma_u8_bits();
        }
        original ^ ((original ^ value) & 0x0F)
    }

    fn set_type_bits(&mut self, value: u8)
        ensures
            final(self)@ == with_type_bits(old(self)@, value),
    {
        self.type_attributes = Self::transform_type_bits(self.type_attributes, value)
    }

    fn make_interrupt_gate(&mut self)
        ensures
            final(self)@ == with_type_bits(old(self)@, INTERRUPT_GATE_TYPE),
    {
        self.set_type_bits(INTERRUPT_GATE_TYPE);
    }

    fn make_trap_gate(&mut self)
        ensures
            final(self)@ == with_type_bits(old(self)@, TRAP_GATE_TYPE),
    {
        self.set_type_bits(TRAP_GATE_TYPE);
    }

    fn enable(&mut self)
        ensures
            final(self)@ == (old(self)@ & 0x7Fu8) | 0x80u8,
    {
        proof {
            lemma_u8_bits();
        }
        self.type_attributes = self.type_attributes | (1u8 << 7u8);
    }

    fn disable(&mut self)
        ensures
            final(self)@ == old(self)@ & 0x7Fu8,
    {
        proof {
            lemma_u8_bits();
        }
        self.type_attributes = self.type_attributes & !(1u8 << 7u8);
    }
}

/// A handler that takes the interrupt frame.
pub struct Isr;

/// A handler that takes the interrupt frame and an error code.
pub struct ErrorIsr;

/// A handler of page faults: the interrupt frame and a [`PageFaultErrorCode`].
pub struct PageFaultIsr;

/// A handler that takes the interrupt frame and an error code and never returns.
pub struct DivergingErrorIsr;

/// The address split over the three offset fields of a descriptor.
pub open spec fn joined_offset(offset_1: u16, offset_2: u16, offset_3: u32) -> int {
    offset_1 + offset_2 * 0x1_0000 + offset_3 * 0x1_0000_0000
}

/// An entry of the interrupt descriptor table for a handler of kind `F`.
pub struct GateDescriptor<F> {
    offset_1: u16,
    selector: SegmentSelector,
    stack_table_offset: u8,
    attributes: GateAttributes,
    offset_2: u16,
    offset_3: u32,
    reserved: u32,
    kind: core::marker::PhantomData<F>,
}

impl<F> GateDescriptor<F> {
    /// The address of the handler.
    pub closed spec fn handler_spec(&self) -> int {
        joined_offset(self.offset_1, self.offset_2, self.offset_3)
    }

    /// The code segment the handler runs in.
    pub closed spec fn selector_spec(&self) -> SegmentSelector {
        self.selector
    }

    /// The entry of the interrupt stack table the handler runs on, plus one; 0 for none.
    pub closed spec fn stack_spec(&self) -> u8 {
        self.stack_table_offset
    }

    /// The type and attribute byte.
    pub closed spec fn attributes_spec(&self) -> u8 {
        self.attributes@
    }

    /// The reserved word at the end of the descriptor.
    pub closed spec fn reserved_spec(&self) -> u32 {
        self.reserved
    }

    /// An empty descriptor: no handler, not present.
    pub fn new() -> (r: Self)
        ensures
            r.handler_spec() == 0,
            r.selector_spec()@ == 0,
            r.stack_spec() == 0,
            r.attributes_spec() == INTERRUPT_GATE_TYPE,
            r.reserved_spec() == 0,
    {
        Self {
            offset_1: 0,
            selector: SegmentSelector::empty(),
            stack_table_offset: 0,
            attributes: GateAttributes::new(),
            offset_2: 0,
            offset_3: 0,
            reserved: 0,
            kind: core::marker::PhantomData,
        }
    }

    /// Split the address of the handler over the three offset fields.
    fn set_handler_address(&mut self, addr: VirtualAddress)
        requires
            addr.value <= u64::MAX,
        ensures
            final(self).handler_spec() == addr.value,
            final(self).selector_spec() == old(self).selector_spec(),
            final(self).stack_spec() == old(self).stack_spec(),
            final(self).reserved_spec() == old(self).reserved_spec(),
            final(self).attributes_spec() == old(self).attributes_spec(),
    {
        let addr: u64 = addr.as_u64();
        let low: u16 = (addr & 0xFFFF) as u16;
        let mid: u16 = ((addr >> 16u64) & 0xFFFF) as u16;
        let high: u32 = (addr >> 32u64) as u32;
        proof {
            assert(addr == (addr & 0xFFFF) + ((addr >> 16u64) & 0xFFFF) * 0x1_0000 + (addr >> 32u64)
                * 0x1_0000_0000 && (addr & 0xFFFF) <= 0xFFFF && ((addr >> 16u64) & 0xFFFF) <= 0xFFFF
                && (addr >> 32u64) <= 0xFFFF_FFFF) by (bit_vector);
        }
        self.offset_1 = low;
        self.offset_2 = mid;
        self.offset_3 = high;
    }

    /// Make the descriptor present, its handler running in `selector`.
    fn enable(&mut self, selector: SegmentSelector)
        ensures
            final(self).handler_spec() == old(self).handler_spec(),
            final(self).selector_spec() == selector,
            final(self).stack_spec() == old(self).stack_spec(),
            final(self).reserved_spec() == old(self).reserved_spec(),
            final(self).attributes_spec() == (old(self).attributes_spec() & 0x7Fu8) | 0x80u8,
    {
        self.selector = selector;
        self.attributes.enable();
    }

    /// Make the descriptor a present interrupt-type descriptor.
    fn enable_as_normal(&mut self, selector: SegmentSelector)
        ensures
            final(self).handler_spec() == old(self).handler_spec(),
            final(self).selector_spec() == selector,
            final(self).stack_spec() == old(self).stack_spec(),
            final(self).reserved_spec() == old(self).reserved_spec(),
            final(self).attributes_spec() == with_type_bits(
                (old(self).attributes_spec() & 0x7Fu8) | 0x80u8,
                INTERRUPT_GATE_TYPE,
            ),
    {
        self.enable(selector);
        self.attributes.make_interrupt_gate();
    }

    /// Make the descriptor a present trap-type descriptor.
    fn enable_as_trap(&mut self, selector: SegmentSelector)
        ensures
            final(self).handler_spec() == old(self).handler_spec(),
            final(self).selector_spec() == selector,
            final(self).stack_spec() == old(self).stack_spec(),
            final(self).reserved_spec() == old(self).reserved_spec(),
            final(self).attributes_spec() == with_type_bits(
                (old(self).attributes_spec() & 0x7Fu8) | 0x80u8,
                TRAP_GATE_TYPE,
            ),
    {
        self.enable(selector);
        self.attributes.make_trap_gate();
    }

    /// Mark the descriptor not present.
    pub fn disable(&mut self)
        ensures
            final(self).handler_spec() == old(self).handler_spec(),
            final(self).selector_spec() == old(self).selector_spec(),
            final(self).stack_spec() == old(self).stack_spec(),
            final(self).reserved_spec() == old(self).reserved_spec(),
            final(self).attributes_spec() == old(self).attributes_spec() & 0x7Fu8,
            !gate_present(final(self).attributes_spec()),
    {
        proof {
            lemma_u8_bits();
        }
        self.attributes.disable();
    }

    /// Run the handler on entry `index` of the interrupt stack table.
    pub fn set_stack_index(&mut self, index: usize)
        requires
            index % 256 < 255,
        ensures
            final(self).stack_spec() == index % 256 + 1,
            final(self).reserved_spec() == old(self).reserved_spec(),
            final(self).handler_spec() == old(self).handler_spec(),
            final(self).selector_spec() == old(self).selector_spec(),
            final(self).attributes_spec() == old(self).attributes_spec(),
    {
        let low: u8 = (index % 256) as u8;
        self.stack_table_offset = low + 1;
    }
}

impl GateDescriptor<Isr> {
    /// Install the handler at `handler`, running in `selector`, as a present interrupt-type descriptor.
    pub fn set_handler(&mut self, selector: SegmentSelector, handler: VirtualAddress)
        requires
            handler.value <= u64::MAX,
        ensures
            final(self).handler_spec() == handler.value,
            final(self).selector_spec() == selector,
            final(self).stack_spec() == old(self).stack_spec(),
            final(self).reserved_spec() == old(self).reserved_spec(),
            final(self).attributes_spec() == with_type_bits(
                (old(self).attributes_spec() & 0x7Fu8) | 0x80u8,
                INTERRUPT_GATE_TYPE,
            ),
            gate_present(final(self).attributes_spec()),
            gate_type(final(self).attributes_spec()) == INTERRUPT_GATE_TYPE,
    {
        proof {
            lemma_u8_bits();
        }
        self.set_handler_address(handler);
        self.enable_as_normal(selector);
    }
}

impl GateDescriptor<ErrorIsr> {
    /// Install the handler at `handler`, running in `selector`, as a present trap-type descriptor.
    pub fn set_handler(&mut self, selector: SegmentSelector, handler: VirtualAddress)
        requires
            handler.value <= u64::MAX,
        ensures
            final(self).handler_spec() == handler.value,
            final(self).selector_spec() == selector,
            final(self).stack_spec() == old(self).stack_spec(),
            final(self).reserved_spec() == old(self).reserved_spec(),
            final(self).attributes_spec() == with_type_bits(
                (old(self).attributes_spec() & 0x7Fu8) | 0x80u8,
                TRAP_GATE_TYPE,
            ),
            gate_present(final(self).attributes_spec()),
            gate_type(final(self).attributes_spec()) == TRAP_GATE_TYPE,
    {
        proof {
            lemma_u8_bits();
        }
        self.set_handler_address(handler);
        self.enable_as_trap(selector);
    }
}

impl GateDescriptor<PageFaultIsr> {
    /// Install the handler at `handler`, running in `selector`, as a present trap-type descriptor.
    pub fn set_handler(&mut self, selector: SegmentSelector, handler: VirtualAddress)
        requires
            handler.value <= u64::MAX,
        ensures
            final(self).handler_spec() == handler.value,
            final(self).selector_spec() == selector,
            final(self).stack_spec() == old(self).stack_spec(),
            final(self).reserved_spec() == old(self).reserved_spec(),
            final(self).attributes_spec() == with_type_bits(
                (old(self).attributes_spec() & 0x7Fu8) | 0x80u8,
                TRAP_GATE_TYPE,
            ),
            gate_present(final(self).attributes_spec()),
            gate_type(final(self).attributes_spec()) == TRAP_GATE_TYPE,
    {
        proof {
            lemma_u8_bits();
        }
        self.set_handler_address(handler);
        self.enable_as_trap(selector);
    }
}

impl GateDescriptor<DivergingErrorIsr> {
    /// Install the handler at `handler`, running in `selector`, as a present trap-type descriptor.
    pub fn set_handler(&mut self, selector: SegmentSelector, handler: VirtualAddress)
        requires
            handler.value <= u64::MAX,
        ensures
            final(self).handler_spec() == handler.value,
            final(self).selector_spec() == selector,
            final(self).stack_spec() == old(self).stack_spec(),
            final(self).reserved_spec() == old(self).reserved_spec(),
            final(self).attributes_spec() == with_type_bits(
                (old(self).attributes_spec() & 0x7Fu8) | 0x80u8,
                TRAP_GATE_TYPE,
            ),
            gate_present(final(self).attributes_spec()),
            gate_type(final(self).attributes_spec()) == TRAP_GATE_TYPE,
    {
        proof {
            lemma_u8_bits();
        }
        self.set_handler_address(handler);
        self.enable_as_trap(selector);
    }
}

/// The controller that delivers interrupts: the legacy PIC or the local APIC.
#[derive(Clone, Copy, PartialEq, Eq, Structural, Debug)]
pub enum InterruptControlKind {
    Pic,
    Apic,
}

/// The controller to use: the local APIC when the ACPI tables were read and the processor has
/// one, the PIC otherwise.
pub fn choose_interrupt_control(acpi_info_present: bool, apic_supported: bool) -> (r: InterruptControlKind)
    ensures
        r == (if acpi_info_present && apic_supported {
            InterruptControlKind::Apic
        } else {
            InterruptControlKind::Pic
        }),
{
    if acpi_info_present && apic_supported {
        InterruptControlKind::Apic
    } else {
        InterruptControlKind::Pic
    }
}

/// The length of a time slice, in nanoseconds.
pub const TIME_SLICE_NANOS: u64 = 4000000;

/// The length of the interval the APIC timer is measured over, in nanoseconds.
pub const CALIBRATION_NANOS: u64 = 500000;

/// The number of calibration intervals in a time slice.
pub fn calibration_ratio() -> (r: u32)
    ensures
        r == TIME_SLICE_NANOS / CALIBRATION_NANOS,
        r == 8,
{
    (TIME_SLICE_NANOS / CALIBRATION_NANOS) as u32
}

/// The initial count of the periodic APIC timer: the ticks the counter made over the
/// calibration interval, going down from `start_count` to `end_count`, times the ratio of a
/// time slice to that interval.
pub fn periodic_count(start_count: u32, end_count: u32) -> (r: u32)
    requires
        end_count <= start_count,
        (start_count - end_count) * 8 <= u32::MAX,
    ensures
        r == (start_count - end_count) * (TIME_SLICE_NANOS / CALIBRATION_NANOS),
{
    (start_count - end_count) * calibration_ratio()
}

} // verus!
