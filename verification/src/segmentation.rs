//! Segment selectors, the kernel's global descriptor table layout and descriptor-table
//! pointers.

use vstd::prelude::*;

use crate::address::VirtualAddress;

verus! {

/// The privilege ring a selector asks for.
#[derive(Clone, Copy, PartialEq, Eq, Structural, Debug)]
pub enum PrivilegeLevel {
    Ring0,
    Ring1,
    Ring2,
    Ring3,
}

/// The number of a privilege ring.
pub open spec fn ring_number(p: PrivilegeLevel) -> int {
    match p {
        PrivilegeLevel::Ring0 => 0,
        PrivilegeLevel::Ring1 => 1,
        PrivilegeLevel::Ring2 => 2,
        PrivilegeLevel::Ring3 => 3,
    }
}

/// A segment selector: the index of a descriptor in the table, shifted left by three, and
/// the requested privilege level in the two lowest bits.
#[derive(Clone, Copy, PartialEq, Eq, Structural, Debug)]
pub struct SegmentSelector {
    value: u16,
}

impl View for SegmentSelector {
    type V = u16;

    closed spec fn view(&self) -> u16 {
        self.value
    }
}

impl SegmentSelector {
    /// The selector of descriptor `index` with privilege `level`.
    pub fn new(index: u16, level: PrivilegeLevel) -> (r: Self)
        requires
            index < 8192,
        ensures
            r@ == index * 8 + ring_number(level),
    {
        let rpl: u16 = match level {
            PrivilegeLevel::Ring0 => 0,
            PrivilegeLevel::Ring1 => 1,
            PrivilegeLevel::Ring2 => 2,
            PrivilegeLevel::Ring3 => 3,
        };
        Self { value: index * 8 + rpl }
    }

    /// The null selector.
    pub fn empty() -> (r: Self)
        ensures
            r@ == 0,
    {
        Self { value: 0 }
    }

    /// The index of the descriptor the selector points at.
    pub fn index(&self) -> (r: u16)
        ensures
            r == self@ / 8,
            r < 8192,
    {
        self.value / 8
    }

    /// The raw value of the selector.
    pub fn as_u16(&self) -> (r: u16)
        ensures
            r == self@,
    {
        self.value
    }
}

/// Law: the index of a selector built from an index is that index.
pub proof fn lemma_selector_index(index: int, ring: int)
    requires
        0 <= index < 8192,
        0 <= ring < 4,
    ensures
        (index * 8 + ring) / 8 == index,
{
}

/// The selectors of the kernel's global descriptor table.
#[derive(Clone, Copy, PartialEq, Eq, Structural, Debug)]
pub struct FullGdt {
    pub kernel_code: SegmentSelector,
    pub kernel_data: SegmentSelector,
    pub user_code: SegmentSelector,
    pub user_data: SegmentSelector,
    pub tss: SegmentSelector,
    pub syscall: SegmentSelector,
    pub sysret: SegmentSelector,
}

impl FullGdt {
    /// The layout for the given descriptors: `syscall` uses the kernel code descriptor in
    /// ring 0 and `sysret` the kernel data descriptor in ring 3.
    pub fn new(
        kernel_code: SegmentSelector,
        kernel_data: SegmentSelector,
        user_code: SegmentSelector,
        user_data: SegmentSelector,
        tss: SegmentSelector,
    ) -> (r: Self)
        ensures
            r.kernel_code == kernel_code,
            r.kernel_data == kernel_data,
            r.user_code == user_code,
            r.user_data == user_data,
            r.tss == tss,
            r.syscall@ == (kernel_code@ / 8) * 8,
            r.sysret@ == (kernel_data@ / 8) * 8 + 3,
    {
        FullGdt {
            kernel_code,
            kernel_data,
            user_code,
            user_data,
            tss,
            syscall: SegmentSelector::new(kernel_code.index(), PrivilegeLevel::Ring0),
            sysret: SegmentSelector::new(kernel_data.index(), PrivilegeLevel::Ring3),
        }
    }
}

/// A pointer to a descriptor table, as the processor loads it: the table's limit and its base
/// address.
#[derive(Clone, Copy, PartialEq, Eq, Structural, Debug)]
pub struct DescriptorTablePointer {
    pub limit: u16,
    pub base: VirtualAddress,
}

impl DescriptorTablePointer {
    pub fn new(limit: u16, base: VirtualAddress) -> (r: Self)
        ensures
            r.limit == limit,
            r.base == base,
    {
        Self { limit, base }
    }
}

} // verus!
