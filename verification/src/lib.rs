//! Verified core of the Zenix kernel: page-table entries, interrupt gates,
//! the buddy frame allocator, the kernel heap free list and the scheduler.

pub mod address;
pub mod power;
pub mod bitmap;
pub mod frame_alloc;
pub mod paging;
pub mod segmentation;
pub mod interrupt;
pub mod memory_map;
pub mod kernel_alloc;
pub mod ids;
pub mod scheduler;
pub mod boot_frame_alloc;
pub mod acpi;
pub mod log;
pub mod fs;
pub mod boot_info;
pub mod acpi_tables;
pub mod mapper;
pub mod tree_display;
