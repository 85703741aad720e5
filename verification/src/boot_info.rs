//! What the bootloader tells the kernel, and the memory summary drawn from it.

use vstd::prelude::*;

verus! {

/// A stretch of memory: `size` bytes from `start`.
#[derive(Clone, Copy, PartialEq, Eq, Structural, Debug)]
pub struct MemoryArea {
    pub start: u64,
    pub size: u64,
}

/// The parts of the boot information the kernel reads.
pub struct BootInfo {
    pub usable_memory: Vec<MemoryArea>,
    pub bump_memory: MemoryArea,
    pub kernel_code: MemoryArea,
    pub usable_heap: MemoryArea,
    pub kernel_stack: MemoryArea,
    pub physical_memory_offset: usize,
    pub rsdp_addr: Option<usize>,
}

/// The sum of the sizes of `areas`.
pub open spec fn total_size(areas: Seq<MemoryArea>) -> int
    decreases areas.len(),
{
    if areas.len() == 0 {
        0
    } else {
        total_size(areas.drop_last()) + areas.last().size
    }
}

/// The sizes of a prefix of the areas never add up to more than those of all of them.
pub proof fn lemma_total_size_prefix(areas: Seq<MemoryArea>)
    ensures
        forall|j: int| 0 <= j <= areas.len() ==> #[trigger] total_size(areas.take(j)) <= total_size(areas),
    decreases areas.len(),
{
    if areas.len() > 0 {
        let rest = areas.drop_last();
        lemma_total_size_prefix(rest);
        assert forall|j: int| 0 <= j <= areas.len() implies #[trigger] total_size(areas.take(j)) <= total_size(areas) by {
            if j == areas.len() {
                assert(areas.take(j) =~= areas);
            } else {
                assert(areas.take(j) =~= rest.take(j));
            }
        }
    }
}

/// How the memory of the machine is used at boot.
#[derive(Clone, Copy, PartialEq, Eq, Structural, Debug)]
pub struct MemoryInfo {
    pub usable: usize,
    pub bump: usize,
    pub kernel_code: usize,
    pub kernel_heap: usize,
    pub kernel_stack: usize,
}

impl MemoryInfo {
    /// The summary of `boot_info`: the usable memory added up, and the size of each other
    /// area.
    pub fn from_boot_info(boot_info: &BootInfo) -> (r: Self)
        requires
            total_size(boot_info.usable_memory@) <= usize::MAX,
            boot_info.bump_memory.size <= usize::MAX,
            boot_info.kernel_code.size <= usize::MAX,
            boot_info.usable_heap.size <= usize::MAX,
            boot_info.kernel_stack.size <= usize::MAX,
        ensures
            r.usable == total_size(boot_info.usable_memory@),
            r.bump == boot_info.bump_memory.size,
            r.kernel_code == boot_info.kernel_code.size,
            r.kernel_heap == boot_info.usable_heap.size,
            r.kernel_stack == boot_info.kernel_stack.size,
    {
        let areas = &boot_info.usable_memory;
        proof {
            lemma_total_size_prefix(areas@);
        }
        let mut total: usize = 0;
        let mut i: usize = 0;
        while i < areas.len()
            invariant
                0 <= i <= areas@.len(),
                total == total_size(areas@.take(i as int)),
                total_size(areas@) <= usize::MAX,
                forall|j: int| 0 <= j <= areas@.len() ==> #[trigger] total_size(areas@.take(j)) <= total_size(areas@),
            decreases areas@.len() - i,
        {
            proof {
                assert(areas@.take(i as int + 1).drop_last() =~= areas@.take(i as int));
                assert(total_size(areas@.take(i as int + 1)) <= total_size(areas@));
            }
            total = total + areas[i].size as usize;
            i = i + 1;
        }
        proof {
            assert(areas@.take(areas@.len() as int) =~= areas@);
        }
        MemoryInfo {
            usable: total,
            bump: boot_info.bump_memory.size as usize,
            kernel_code: boot_info.kernel_code.size as usize,
            kernel_heap: boot_info.usable_heap.size as usize,
            kernel_stack: boot_info.kernel_stack.size as usize,
        }
    }
}

} // verus!
