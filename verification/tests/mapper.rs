use std::collections::HashMap;

use kernel::address::{PhysicalAddress, VirtualAddress};
use kernel::frame_alloc::{FrameAllocator, MemoryRegion, MemoryRegionKind};
use kernel::mapper::{
    alloc_missing, dealloc_entry, from_indices, indices, last_present_index, needs_flush, share_entry, Advance, MapOutcome,
    MemoryMapper, NavigateCtx, Navigator, Visit,
};
use kernel::memory_map::{MemoryProperties, ModifyMapError, NewMapError, ReadMapError};
use kernel::paging::{PageSize, PageTableEntry};
use kernel::tree_display::{MemoryMapTreeDisplay, TreeLine};

type Table = Vec<PageTableEntry>;

struct Machine {
    tables: HashMap<usize, Table>,
    frames: FrameAllocator,
}

fn zero_table() -> Table {
    vec![PageTableEntry { value: 0 }; 512]
}

impl Machine {
    fn new() -> Machine {
        let mut frames = FrameAllocator::new();
        frames.init_with(&[MemoryRegion { start: 0x10_0000, end: 0x20_0000, kind: MemoryRegionKind::Usable }], 0);
        let mut tables = HashMap::new();
        tables.insert(0x1000, zero_table());
        Machine { tables, frames }
    }

    fn table(&mut self, addr: usize) -> &mut Table {
        self.tables.entry(addr).or_insert_with(zero_table)
    }

    /// Carry out a walk, asking `decide` what to do with each entry.
    fn walk<E>(
        &mut self,
        mut nav: Navigator,
        conv: fn(ModifyMapError) -> E,
        mut decide: impl FnMut(&mut Machine, NavigateCtx, Option<PageSize>) -> Result<Option<PageTableEntry>, E>,
    ) -> Result<VirtualAddress, E> {
        let mut stack = vec![0x1000usize];
        loop {
            let top = stack.last().copied();
            let table = match top {
                Some(t) => self.table(t).clone(),
                None => zero_table(),
            };
            let mut visit = nav.visit(&table);
            if let Visit::ScanChild(child) = visit {
                let child = self.table(child.value).clone();
                visit = nav.child_scanned(&child);
            }
            let advance = match visit {
                Visit::Pop => {
                    stack.pop();
                    continue;
                }
                Visit::Finished(start) => return Ok(start),
                Visit::Failed(e) => return Err(conv(e)),
                Visit::ScanChild(_) => unreachable!(),
                Visit::Skip { entry, .. } => nav.advance(entry),
                Visit::Apply { ctx, huge_size } => {
                    if let Some(new_entry) = decide(self, ctx, huge_size)? {
                        self.table(top.unwrap())[ctx.entry_index as usize] = new_entry;
                    }
                    let entry = self.table(top.unwrap())[ctx.entry_index as usize];
                    nav.advance(entry)
                }
            };
            match advance {
                Advance::Descend(addr) => stack.push(addr.value),
                Advance::Continue => {}
                Advance::Finished(start) => return Ok(start),
            }
        }
    }

    fn map(&mut self, mapper: &MemoryMapper, addr: usize, size: usize, props: MemoryProperties) -> Result<(VirtualAddress, usize), NewMapError> {
        let mut job = mapper.map(VirtualAddress::new(addr), size, props);
        let flags = job.flags;
        let mut phys = job.phys;
        let mut total = job.total_size;
        let nav = std::mem::replace(&mut job.navigator, Navigator::new(VirtualAddress::null(), 0, None, false, false, false));
        let walk = self.walk(nav, ModifyMapError::into_new_map_error, |m, ctx, huge| {
            let (entry, zero) = alloc_missing(ctx, huge, flags, props, &mut phys, &mut total, &mut m.frames)?;
            if let Some((frame, _)) = zero {
                m.tables.insert(frame.value, zero_table());
            }
            Ok(Some(entry))
        });
        job.total_size = total;
        match MemoryMapper::finish_map(&job, walk) {
            MapOutcome::Mapped(start, size) => Ok((start, size)),
            MapOutcome::Failed(e) => Err(e),
            MapOutcome::Undo { .. } => Err(NewMapError::OutOfFrames),
        }
    }

    fn unmap(&mut self, mapper: &MemoryMapper, addr: usize, size: usize) -> Result<(), ModifyMapError> {
        let nav = mapper.unmap(VirtualAddress::new(addr), size);
        self.walk(nav, |e| e, |m, ctx, huge| match dealloc_entry(ctx, huge, size, true)? {
            Some(u) => {
                if let Some(frame) = u.freed {
                    m.frames.deallocate(frame);
                }
                Ok(Some(u.entry))
            }
            None => Ok(None),
        })
        .map(|_| ())
    }

    fn info(&mut self, mapper: &MemoryMapper, addr: usize) -> Result<(MemoryProperties, PhysicalAddress, usize), ReadMapError> {
        let (nav, mut info) = mapper.mapping_info(VirtualAddress::new(addr));
        let _ = self.walk(nav, |e: ModifyMapError| e, |_, ctx, _| {
            info.apply(ctx);
            Ok(None)
        });
        info.finish()
    }
}

#[test]
fn indices_round_trip() {
    let ix = indices(VirtualAddress::new(0x0000_7f12_3456_7000));
    assert_eq!(from_indices(ix), VirtualAddress::new(0x0000_7f12_3456_7000));
    assert_eq!(indices(VirtualAddress::new(0x40_1000)), [0, 0, 2, 1]);
    assert_eq!(from_indices([0, 0, 0, 512]), from_indices([0, 0, 1, 0]));
}

#[test]
fn last_present_entry_of_a_table() {
    let mut t = zero_table();
    assert_eq!(last_present_index(&t), 0);
    t[3].value = 1;
    t[100].value = 0x2001;
    t[200].value = 0x2000;
    assert_eq!(last_present_index(&t), 100);
}

#[test]
fn map_read_and_unmap_pages() {
    let mut m = Machine::new();
    let mapper = MemoryMapper::new_root_mapper(PhysicalAddress::new(0x1000), 0);
    let props = MemoryProperties::new(true, true, false, true, false);
    let before = m.frames.available();
    assert_eq!(m.map(&mapper, 0x40_0000, 0x2000, props), Ok((VirtualAddress::new(0x40_0000), 0x2000)));
    assert_eq!(m.frames.available(), before - 5 * 4096);

    let (got, frame, size) = m.info(&mapper, 0x40_1000).unwrap();
    assert_eq!(got, props);
    assert_eq!(size, 4096);
    assert!(frame.value >= 0x10_0000 && frame.value < 0x20_0000);

    assert_eq!(m.map(&mapper, 0x40_0000, 0x1000, props), Err(NewMapError::AlreadyMapped));
    assert_eq!(m.unmap(&mapper, 0x40_0000, 0x2000), Ok(()));
    assert_eq!(m.info(&mapper, 0x40_0000), Err(ReadMapError::NotMapped));
    // The tables of the range are empty now: each further unmapping gives one back, the
    // lowest first, until the top table has no entry left for the range.
    let frames_before = m.frames.available();
    assert_eq!(m.unmap(&mapper, 0x40_0000, 0x1000), Ok(()));
    assert!(m.tables[&0x1f_d000].iter().all(|e| e.value == 0));
    assert_eq!(m.unmap(&mapper, 0x40_0000, 0x1000), Ok(()));
    assert_eq!(m.unmap(&mapper, 0x40_0000, 0x1000), Ok(()));
    assert!(m.tables[&0x1000].iter().all(|e| e.value == 0));
    assert_eq!(m.frames.available(), frames_before + 3 * 4096);
    assert_eq!(m.frames.available(), before);
    assert_eq!(m.unmap(&mapper, 0x40_0000, 0x1000), Err(ModifyMapError::NotMapped));
}

#[test]
fn identity_mapping_uses_the_given_frames() {
    let mut m = Machine::new();
    let mapper = MemoryMapper::new_root_mapper(PhysicalAddress::new(0x1000), 0);
    let props = MemoryProperties::new(true, true, true, false, false);
    let mut job = mapper.identity_map(&m.frames, PhysicalAddress::new(0x4000_0010), 0x2000, props).unwrap();
    assert_eq!(job.address, VirtualAddress::new(0x4000_0000));
    let flags = job.flags;
    let mut phys = job.phys;
    let mut total = job.total_size;
    let nav = std::mem::replace(&mut job.navigator, Navigator::new(VirtualAddress::null(), 0, None, false, false, false));
    let walk = m.walk(nav, ModifyMapError::into_new_map_error, |m, ctx, huge| {
        let (entry, zero) = alloc_missing(ctx, huge, flags, props, &mut phys, &mut total, &mut m.frames)?;
        if let Some((frame, _)) = zero {
            m.tables.insert(frame.value, zero_table());
        }
        Ok(Some(entry))
    });
    assert_eq!(walk, Ok(VirtualAddress::new(0x4000_0000)));
    assert_eq!(total, 0x3000);
    let (got, frame, size) = m.info(&mapper, 0x4000_2000).unwrap();
    assert_eq!((frame, size), (PhysicalAddress::new(0x4000_2000), 4096));
    assert!(got.writable() && got.readable() && got.kernel() && !got.mmio());
    // The levels' flags are combined with "and", so the no-execute bit of the page alone does
    // not show.
    assert!(got.executable());
}

#[test]
fn pages_from_the_allocator_come_out_executable() {
    let mut m = Machine::new();
    let mapper = MemoryMapper::new_root_mapper(PhysicalAddress::new(0x1000), 0);
    let props = MemoryProperties::new(true, true, false, false, false);
    m.map(&mapper, 0x40_0000, 0x1000, props).unwrap();
    let (got, _, _) = m.info(&mapper, 0x40_0000).unwrap();
    assert!(got.executable());
}

#[test]
fn identity_mapping_over_allocator_memory_is_refused() {
    let m = Machine::new();
    let mapper = MemoryMapper::new_root_mapper(PhysicalAddress::new(0x1000), 0);
    let props = MemoryProperties::kernel_read_only();
    assert!(matches!(
        mapper.identity_map(&m.frames, PhysicalAddress::new(0x10_0800), 16, props),
        Err(NewMapError::NotOwned)
    ));
}

#[test]
fn shared_pages_are_borrowed_and_left_by_unmapping() {
    let mut m = Machine::new();
    let mut mapper = MemoryMapper::new_root_mapper(PhysicalAddress::new(0x1000), 0);
    let props = MemoryProperties::new(true, true, false, false, false);
    m.map(&mapper, 0x40_0000, 0x1000, props).unwrap();
    let nav = mapper.share_all();
    m.walk(nav, |e: ModifyMapError| e, |_, ctx, _| share_entry(ctx)).unwrap();
    assert_eq!(m.unmap(&mapper, 0x40_0000, 0x1000), Err(ModifyMapError::NotOwned));
    assert!(m.info(&mapper, 0x40_0000).is_ok());
}

#[test]
fn entry_decisions() {
    let ctx = NavigateCtx {
        entry: PageTableEntry { value: 0x5000 | 1 | (1 << 10) },
        depth: 3,
        is_last_present_entry: true,
        entry_index: 7,
        points_to_backing: true,
        addr: VirtualAddress::new(0x7000),
        size: 4096,
        is_empty: false,
    };
    let shared = share_entry(ctx).unwrap().unwrap();
    assert_eq!(shared.value, ctx.entry.value | (1 << 9));
    assert_eq!(share_entry(NavigateCtx { entry: shared, ..ctx }), Ok(None));
    let u = dealloc_entry(ctx, None, 4096, true).unwrap().unwrap();
    assert_eq!((u.entry.value, u.freed, u.size), (0, Some(PhysicalAddress::new(0x5000)), 4096));
    assert_eq!(dealloc_entry(ctx, Some(PageSize::Size2Mib), 4096, true), Err(ModifyMapError::OutOfBounds));
    assert_eq!(dealloc_entry(NavigateCtx { entry: shared, ..ctx }, None, 4096, true), Ok(None));
}

#[test]
fn tree_lines_for_a_table() {
    let mut display = MemoryMapTreeDisplay::new(3);
    assert_eq!(display.max_depth(), 3);
    let entry = |index: u16, value: u64, last: bool| NavigateCtx {
        entry: PageTableEntry { value },
        depth: 0,
        is_last_present_entry: last,
        entry_index: index,
        points_to_backing: false,
        addr: VirtualAddress::null(),
        size: 0,
        is_empty: false,
    };
    let first = display.print_entry(entry(0, 1, false));
    assert!(matches!(first[..], [TreeLine::Entry { index: 0, last: false, .. }]));
    assert!(display.print_entry(entry(1, 0, false)).is_empty());
    let second = display.print_entry(entry(2, 1, false));
    assert!(matches!(second[..], [TreeLine::Gap { .. }, TreeLine::Entry { index: 2, .. }]));
    assert!(display.print_entry(entry(3, 0, false)).is_empty());
    assert!(display.print_entry(entry(4, 0, false)).is_empty());
    let third = display.print_entry(entry(5, 1, true));
    assert!(matches!(third[..], [TreeLine::Skipped { start: 3, end: 4, .. }, TreeLine::Entry { last: true, .. }]));
    if let TreeLine::Entry { skip, .. } = third[1] {
        assert_eq!(skip, [true, false, false, false]);
    }
}

#[test]
fn a_walk_covers_the_addresses_in_order() {
    let mut m = Machine::new();
    let mapper = MemoryMapper::new_root_mapper(PhysicalAddress::new(0x1000), 0);
    let props = MemoryProperties::new(true, true, false, false, false);
    assert_eq!(m.map(&mapper, 0x40_0000, 0x3000, props).unwrap().1, 0x3000);
    let mut leaves: Vec<(usize, usize)> = Vec::new();
    let mut levels: Vec<(u8, usize, usize)> = Vec::new();
    let nav = Navigator::new_read_only(VirtualAddress::new(0x40_0000), 0x3000, None);
    let start = m.walk(nav, |e: ModifyMapError| e, |_, ctx, _| {
        levels.push((ctx.depth, ctx.addr.value, ctx.size));
        if ctx.depth == 3 {
            leaves.push((ctx.addr.value, ctx.size));
        }
        Ok(None)
    });
    assert_eq!(start, Ok(VirtualAddress::new(0x40_0000)));
    assert_eq!(leaves, vec![(0x40_0000, 4096), (0x40_1000, 4096), (0x40_2000, 4096)]);
    assert_eq!(levels[..3], [(0, 0x40_0000, 1 << 39), (1, 0x40_0000, 1 << 30), (2, 0x40_0000, 1 << 21)]);
}

#[test]
fn only_a_change_the_processor_sees_needs_a_flush() {
    let entry = PageTableEntry { value: 0x5000 | 0b11 };
    let borrowed = PageTableEntry { value: entry.value | (1 << 9) };
    assert!(!needs_flush(entry, borrowed));
    assert!(!needs_flush(entry, PageTableEntry { value: entry.value | (1 << 60) }));
    assert!(needs_flush(entry, PageTableEntry { value: 0x6000 | 0b11 }));
    assert!(needs_flush(entry, PageTableEntry { value: entry.value & !0b10 }));
    assert!(needs_flush(entry, PageTableEntry { value: entry.value | (1 << 63) }));
}
