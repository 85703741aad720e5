# kernel

The verified core of the Zenix x86_64 kernel, written in Verus.

`src/` is the library; every function in it is verified:

- `frame_alloc` — the buddy allocator of physical frames (`Zone`, `Level`, `FrameAllocator`,
  `PhysicalBox`), with the laws that handed-out blocks stay in their zone and never overlap
  within a zone, nor across zones when the zones share no byte (as the zones of a memory map
  whose usable regions share none do); that a new zone holds the largest blocks that fit; that
  each zone's count of available bytes is at least the size of its free blocks, so that a
  request larger than the allocator's available count is refused; that free buddies are always
  merged; and that giving a block back undoes its allocation, available count and free lists
  included, so that the same request is then served with the same block, when the block's zone
  is the first whose bounds hold its address (two zones whose ends touch both hold the address
  where they meet).
- `boot_frame_alloc` — the first, hand-out-only frame allocator and its memory snapshot.
- `kernel_alloc` — the first-fit kernel heap over a list of free regions, kept in a `Vec`;
  app/ serves that `Vec`'s own memory from a separate arena while a heap operation runs.
- `paging` — page-table entries, their flags, page tables and page sizes.
- `mapper` — the page-table walk of the memory mapper as a sequence of steps, and the
  decisions of mapping, unmapping, sharing and reading a mapping, entry by entry.
- `tree_display` — the lines of a picture of a page-table tree.
- `memory_map` — mapping properties, mapper errors and page-fault descriptions.
- `interrupt`, `segmentation` — descriptor-table entries, selectors, the page-fault error code
  and the choice of the interrupt controller.
- `acpi`, `acpi_tables` — reading the ACPI tables as a sequence of map-and-read requests.
- `scheduler`, `ids` — threads, the round-robin scheduler and packed process/thread ids.
- `log` — log levels and colours, and the text screen that messages scroll through.
- `address`, `power`, `bitmap`, `boot_info`, `fs` — addresses, powers of two, bitmaps, the boot
  information and the file-system interface.

`app/` holds what touches the hardware: the entry point, the raw access to page tables and
physical memory, ports, control registers and the Rust allocator interface. It carries out the
requests of the library's step machines (the page-table walk, the ACPI reader).

`tests/` runs the library on concrete values.
