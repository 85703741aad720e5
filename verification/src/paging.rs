//! x86_64 page tables: entry flags, entries, tables and page sizes.

use vstd::prelude::*;

use crate::address::PhysicalAddress;

verus! {

/// Bit `i` of `v` is set.
pub open spec fn bit_set(v: u64, i: u64) -> bool {
    (v >> i) & 1u64 == 1u64
}

/// The facts about single bits of a `u64` that the flag operations rest on.
pub proof fn lemma_u64_bits()
    ensures
        forall|v: u64, i: u64| i < 64 ==> (#[trigger] (v & (1u64 << i)) != 0) == bit_set(v, i),
        forall|v: u64, b: u64, i: u64|
            b < 64 && i < 64 ==> #[trigger] bit_set(v | (1u64 << b), i) == (i == b || bit_set(v, i)),
        forall|v: u64, b: u64, i: u64|
            b < 64 && i < 64 ==> #[trigger] bit_set(v & !(1u64 << b), i) == (i != b && bit_set(v, i)),
        forall|a: u64, b: u64, i: u64|
            i < 64 ==> #[trigger] bit_set(a & b, i) == (bit_set(a, i) && bit_set(b, i)),
        forall|a: u64, b: u64, i: u64|
            i < 64 ==> #[trigger] bit_set(a | b, i) == (bit_set(a, i) || bit_set(b, i)),
        forall|i: u64| i < 64 ==> !#[trigger] bit_set(0u64, i),
{
    assert(forall|v: u64, i: u64| i < 64 ==> (#[trigger] (v & (1u64 << i)) != 0) == bit_set(v, i))
        by (bit_vector);
    assert(forall|v: u64, b: u64, i: u64|
        b < 64 && i < 64 ==> #[trigger] bit_set(v | (1u64 << b), i) == (i == b || bit_set(v, i)))
        by (bit_vector);
    assert(forall|v: u64, b: u64, i: u64|
        b < 64 && i < 64 ==> #[trigger] bit_set(v & !(1u64 << b), i) == (i != b && bit_set(v, i)))
        by (bit_vector);
    assert(forall|a: u64, b: u64, i: u64|
        i < 64 ==> #[trigger] bit_set(a & b, i) == (bit_set(a, i) && bit_set(b, i))) by (bit_vector);
    assert(forall|a: u64, b: u64, i: u64|
        i < 64 ==> #[trigger] bit_set(a | b, i) == (bit_set(a, i) || bit_set(b, i))) by (bit_vector);
    assert(forall|i: u64| i < 64 ==> !#[trigger] bit_set(0u64, i)) by (bit_vector);
}

/// The bit that custom flag `index` of an entry occupies: the three bits from 9 that the
/// processor ignores, then the eleven from 52.
pub open spec fn custom_bit(index: u64) -> u64 {
    if index <= 2 {
        (index + 9) as u64
    } else {
        (index + 52 - 3) as u64
    }
}

/// The flags of a page-table entry.
#[derive(Clone, Copy, PartialEq, Eq, Structural, Debug)]
pub struct PageTableEntryFlags {
    value: u64,
}

impl View for PageTableEntryFlags {
    type V = u64;

    closed spec fn view(&self) -> u64 {
        self.value
    }
}

impl Default for PageTableEntryFlags {
    /// No flag set, as [`PageTableEntryFlags::null`].
    fn default() -> (r: Self)
        ensures
            r@ == 0,
    {
        Self::null()
    }
}

impl PageTableEntryFlags {
    /// The flags held in the raw value of an entry.
    pub fn from_page_table_entry_value(value: u64) -> (r: Self)
        ensures
            r@ == value,
    {
        Self { value }
    }

    /// No flag set.
    pub fn null() -> (r: Self)
        ensures
            r@ == 0,
            forall|i: u64| i < 64 ==> !#[trigger] bit_set(r@, i),
    {
        proof {
            lemma_u64_bits();
        }
        Self { value: 0 }
    }

    /// Every flag of `other` is set in `self`.
    pub fn contains(&self, other: Self) -> (r: bool)
        ensures
            r == (self@ & other@ == other@),
    {
        (self.value & other.value) == other.value
    }

    /// The flags with `bit` set to `enabled` and every other bit unchanged.
    fn set_flag(&self, bit: u64, enabled: bool) -> (r: Self)
        requires
            bit < 64,
        ensures
            r@ == if enabled {
                self@ | (1u64 << bit)
            } else {
                self@ & !(1u64 << bit)
            },
            forall|i: u64|
                i < 64 ==> #[trigger] bit_set(r@, i) == if i == bit {
                    enabled
                } else {
                    bit_set(self@, i)
                },
    {
        proof {
            lemma_u64_bits();
        }
        let value = if enabled {
            self.value | 1u64 << bit
        } else {
            self.value & !(1u64 << bit)
        };
        Self { value }
    }

    /// The flags with the present bit (0) set to `enabled`.
    pub fn set_present(&self, enabled: bool) -> (r: Self)
        ensures
            r@ == if enabled { self@ | (1u64 << 0u64) } else { self@ & !(1u64 << 0u64) },
            forall|i: u64| i < 64 ==> #[trigger] bit_set(r@, i) == if i == 0 { enabled } else { bit_set(self@, i) },
    {
        self.set_flag(0, enabled)
    }

    /// The flags with the huge-page bit (7) set to `enabled`.
    pub fn set_huge(&self, enabled: bool) -> (r: Self)
        ensures
            r@ == if enabled { self@ | (1u64 << 7u64) } else { self@ & !(1u64 << 7u64) },
            forall|i: u64| i < 64 ==> #[trigger] bit_set(r@, i) == if i == 7 { enabled } else { bit_set(self@, i) },
    {
        self.set_flag(7, enabled)
    }

    /// The flags with the writable bit (1) set to `enabled`.
    pub fn set_writable(&self, enabled: bool) -> (r: Self)
        ensures
            r@ == if enabled { self@ | (1u64 << 1u64) } else { self@ & !(1u64 << 1u64) },
            forall|i: u64| i < 64 ==> #[trigger] bit_set(r@, i) == if i == 1 { enabled } else { bit_set(self@, i) },
    {
        self.set_flag(1, enabled)
    }

    /// The flags with the user-accessible bit (2) set to `enabled`.
    pub fn set_user_accessible(&self, enabled: bool) -> (r: Self)
        ensures
            r@ == if enabled { self@ | (1u64 << 2u64) } else { self@ & !(1u64 << 2u64) },
            forall|i: u64| i < 64 ==> #[trigger] bit_set(r@, i) == if i == 2 { enabled } else { bit_set(self@, i) },
    {
        self.set_flag(2, enabled)
    }

    /// The flags with the cache-disable bit (4) set to `enabled`.
    pub fn set_no_cache(&self, enabled: bool) -> (r: Self)
        ensures
            r@ == if enabled { self@ | (1u64 << 4u64) } else { self@ & !(1u64 << 4u64) },
            forall|i: u64| i < 64 ==> #[trigger] bit_set(r@, i) == if i == 4 { enabled } else { bit_set(self@, i) },
    {
        self.set_flag(4, enabled)
    }

    /// The flags with the global bit (8) set to `enabled`.
    pub fn set_global(&self, enabled: bool) -> (r: Self)
        ensures
            r@ == if enabled { self@ | (1u64 << 8u64) } else { self@ & !(1u64 << 8u64) },
            forall|i: u64| i < 64 ==> #[trigger] bit_set(r@, i) == if i == 8 { enabled } else { bit_set(self@, i) },
    {
        self.set_flag(8, enabled)
    }

    /// The flags with the no-execute bit (63) set to `enabled`.
    pub fn set_no_exec(&self, enabled: bool) -> (r: Self)
        ensures
            r@ == if enabled { self@ | (1u64 << 63u64) } else { self@ & !(1u64 << 63u64) },
            forall|i: u64| i < 64 ==> #[trigger] bit_set(r@, i) == if i == 63 { enabled } else { bit_set(self@, i) },
    {
        self.set_flag(63, enabled)
    }

    /// The flags with custom flag `INDEX` set to `enabled`.
    pub fn set_custom<const INDEX: u64>(&self, enabled: bool) -> (r: Self)
        requires
            INDEX <= 13,
        ensures
            r@ == if enabled {
                self@ | (1u64 << custom_bit(INDEX))
            } else {
                self@ & !(1u64 << custom_bit(INDEX))
            },
            forall|i: u64|
                i < 64 ==> #[trigger] bit_set(r@, i) == if i == custom_bit(INDEX) {
                    enabled
                } else {
                    bit_set(self@, i)
                },
    {
        self.set_flag(Self::map_custom_bit::<INDEX>(), enabled)
    }

    /// Some flag is set.
    pub fn used(&self) -> (r: bool)
        ensures
            r == (self@ != 0),
    {
        self.value != 0
    }

    /// The entry maps a page or a table.
    pub fn present(&self) -> (r: bool)
        ensures
            r == bit_set(self@, 0),
    {
        proof {
            lemma_u64_bits();
        }
        self.value & (1u64 << 0u64) != 0
    }

    pub fn writable(&self) -> (r: bool)
        ensures
            r == bit_set(self@, 1),
    {
        proof {
            lemma_u64_bits();
        }
        self.value & (1u64 << 1u64) != 0
    }

    /// The cache is disabled for the page.
    pub fn no_cache(&self) -> (r: bool)
        ensures
            r == bit_set(self@, 4),
    {
        proof {
            lemma_u64_bits();
        }
        self.value & (1u64 << 4u64) != 0
    }

    pub fn dirty(&self) -> (r: bool)
        ensures
            r == bit_set(self@, 6),
    {
        proof {
            lemma_u64_bits();
        }
        self.value & (1u64 << 6u64) != 0
    }

    pub fn global(&self) -> (r: bool)
        ensures
            r == bit_set(self@, 8),
    {
        proof {
            lemma_u64_bits();
        }
        self.value & (1u64 << 8u64) != 0
    }

    pub fn noexec(&self) -> (r: bool)
        ensures
            r == bit_set(self@, 63),
    {
        proof {
            lemma_u64_bits();
        }
        self.value & (1u64 << 63u64) != 0
    }

    pub fn huge(&self) -> (r: bool)
        ensures
            r == bit_set(self@, 7),
    {
        proof {
            lemma_u64_bits();
        }
        self.value & (1u64 << 7u64) != 0
    }

    pub fn user_accessible(&self) -> (r: bool)
        ensures
            r == bit_set(self@, 2),
    {
        proof {
            lemma_u64_bits();
        }
        self.value & (1u64 << 2u64) != 0
    }

    /// Whether custom flag `INDEX` is set: the bit [`PageTableEntryFlags::map_custom_bit`]
    /// gives, which [`PageTableEntryFlags::set_custom`] writes.
    pub fn custom<const INDEX: u64>(&self) -> (r: bool)
        requires
            INDEX <= 13,
        ensures
            r == bit_set(self@, custom_bit(INDEX)),
    {
        proof {
            lemma_u64_bits();
        }
        let bit: u64 = Self::map_custom_bit::<INDEX>();
        self.value & (1u64 << bit) != 0
    }

    /// The bit that custom flag `INDEX` occupies.
    pub fn map_custom_bit<const INDEX: u64>() -> (r: u64)
        requires
            INDEX <= 13,
        ensures
            r == custom_bit(INDEX),
            r < 64,
    {
        if INDEX <= 2 {
            INDEX + 9
        } else {
            INDEX + 52 - 3
        }
    }

    pub fn as_u64(&self) -> (r: u64)
        ensures
            r == self@,
    {
        self.value
    }
}

impl core::ops::BitOr for PageTableEntryFlags {
    type Output = Self;

    fn bitor(self, rhs: Self) -> (r: Self)
        ensures
            r@ == self@ | rhs@,
    {
        Self { value: self.value | rhs.value }
    }
}

impl vstd::std_specs::ops::BitOrSpecImpl for PageTableEntryFlags {
    open spec fn obeys_bitor_spec() -> bool {
        true
    }

    open spec fn bitor_req(self, rhs: Self) -> bool {
        true
    }

    closed spec fn bitor_spec(self, rhs: Self) -> Self {
        Self { value: self.value | rhs.value }
    }
}

impl core::ops::BitAnd for PageTableEntryFlags {
    type Output = Self;

    fn bitand(self, rhs: Self) -> (r: Self)
        ensures
            r@ == self@ & rhs@,
    {
        Self { value: self.value & rhs.value }
    }
}

impl vstd::std_specs::ops::BitAndSpecImpl for PageTableEntryFlags {
    open spec fn obeys_bitand_spec() -> bool {
        true
    }

    open spec fn bitand_req(self, rhs: Self) -> bool {
        true
    }

    closed spec fn bitand_spec(self, rhs: Self) -> Self {
        Self { value: self.value & rhs.value }
    }
}

/// The bits of an entry that hold the address of a frame.
pub const ADDR_MASK: u64 = 0x000f_ffff_ffff_f000u64;

/// The bits of an entry that hold its flags.
pub const FLAGS_MASK: u64 = 0xfff0_0000_0000_0fffu64;

/// An entry of a page table: a frame address and flags packed in one `u64`.
#[derive(Clone, Copy, PartialEq, Eq, Structural, Debug)]
pub struct PageTableEntry {
    pub value: u64,
}

/// The flag bits and the address bits of an entry can be set apart.
pub proof fn lemma_entry_bits()
    ensures
        forall|f: u64, a: u64|
            #![trigger (f & FLAGS_MASK) | (a & ADDR_MASK)]
            ((f & FLAGS_MASK) | (a & ADDR_MASK)) & FLAGS_MASK == f & FLAGS_MASK && ((f & FLAGS_MASK) | (a
                & ADDR_MASK)) & ADDR_MASK == a & ADDR_MASK,
        forall|v: u64, x: u64|
            #![trigger v ^ ((v ^ x) & FLAGS_MASK)]
            (v ^ ((v ^ x) & FLAGS_MASK)) & FLAGS_MASK == x & FLAGS_MASK && (v ^ ((v ^ x) & FLAGS_MASK))
                & ADDR_MASK == v & ADDR_MASK,
        forall|v: u64, x: u64|
            #![trigger v ^ ((v ^ x) & ADDR_MASK)]
            (v ^ ((v ^ x) & ADDR_MASK)) & ADDR_MASK == x & ADDR_MASK && (v ^ ((v ^ x) & ADDR_MASK))
                & FLAGS_MASK == v & FLAGS_MASK,
        forall|v: u64| #![trigger v & FLAGS_MASK, v & ADDR_MASK] (v & FLAGS_MASK) | (v & ADDR_MASK) == v,
{
    assert(forall|f: u64, a: u64|
        #![trigger (f & 0xfff0_0000_0000_0fffu64) | (a & 0x000f_ffff_ffff_f000u64)]
        ((f & 0xfff0_0000_0000_0fffu64) | (a & 0x000f_ffff_ffff_f000u64)) & 0xfff0_0000_0000_0fffu64
            == f & 0xfff0_0000_0000_0fffu64 && ((f & 0xfff0_0000_0000_0fffu64) | (a
            & 0x000f_ffff_ffff_f000u64)) & 0x000f_ffff_ffff_f000u64 == a & 0x000f_ffff_ffff_f000u64)
        by (bit_vector);
    assert(forall|v: u64, x: u64|
        #![trigger v ^ ((v ^ x) & 0xfff0_0000_0000_0fffu64)]
        (v ^ ((v ^ x) & 0xfff0_0000_0000_0fffu64)) & 0xfff0_0000_0000_0fffu64 == x
            & 0xfff0_0000_0000_0fffu64 && (v ^ ((v ^ x) & 0xfff0_0000_0000_0fffu64))
            & 0x000f_ffff_ffff_f000u64 == v & 0x000f_ffff_ffff_f000u64) by (bit_vector);
    assert(forall|v: u64, x: u64|
        #![trigger v ^ ((v ^ x) & 0x000f_ffff_ffff_f000u64)]
        (v ^ ((v ^ x) & 0x000f_ffff_ffff_f000u64)) & 0x000f_ffff_ffff_f000u64 == x
            & 0x000f_ffff_ffff_f000u64 && (v ^ ((v ^ x) & 0x000f_ffff_ffff_f000u64))
            & 0xfff0_0000_0000_0fffu64 == v & 0xfff0_0000_0000_0fffu64) by (bit_vector);
    assert(forall|v: u64|
        #![trigger v & 0xfff0_0000_0000_0fffu64, v & 0x000f_ffff_ffff_f000u64]
        (v & 0xfff0_0000_0000_0fffu64) | (v & 0x000f_ffff_ffff_f000u64) == v) by (bit_vector);
}

impl PageTableEntry {
    /// An entry that points at `addr` with `flags`; bits of either that fall outside their
    /// part of the entry are dropped.
    pub fn new(flags: PageTableEntryFlags, addr: PhysicalAddress) -> (r: Self)
        ensures
            r.value & FLAGS_MASK == flags@ & FLAGS_MASK,
            r.value & ADDR_MASK == (addr.value as u64) & ADDR_MASK,
    {
        let flags_masked = flags.as_u64() & FLAGS_MASK;
        let addr_masked = addr.as_u64() & ADDR_MASK;
        proof {
            lemma_entry_bits();
        }
        Self { value: flags_masked | addr_masked }
    }

    /// Replace the flags, keeping the address.
    pub fn set_flags(&mut self, flags: PageTableEntryFlags)
        ensures
            final(self).value & FLAGS_MASK == flags@ & FLAGS_MASK,
            final(self).value & ADDR_MASK == old(self).value & ADDR_MASK,
    {
        proof {
            lemma_entry_bits();
        }
        self.value = self.value ^ ((self.value ^ flags.as_u64()) & FLAGS_MASK);
    }

    /// Replace the address, keeping the flags.
    pub fn set_addr(&mut self, addr: PhysicalAddress)
        ensures
            final(self).value & ADDR_MASK == (addr.value as u64) & ADDR_MASK,
            final(self).value & FLAGS_MASK == old(self).value & FLAGS_MASK,
    {
        proof {
            lemma_entry_bits();
        }
        self.value = self.value ^ ((self.value ^ addr.as_u64()) & ADDR_MASK);
    }

    /// The flags of the entry.
    pub fn flags(&self) -> (r: PageTableEntryFlags)
        ensures
            r@ == self.value & FLAGS_MASK,
    {
        PageTableEntryFlags::from_page_table_entry_value(self.value & FLAGS_MASK)
    }

    /// The address of the frame the entry points at.
    pub fn addr(&self) -> (r: PhysicalAddress)
        ensures
            r.value == (self.value & ADDR_MASK) as usize,
    {
        PhysicalAddress::new((self.value & ADDR_MASK) as usize)
    }
}

/// Law: the flags and the address of an entry built by [`PageTableEntry::new`] read back as
/// the parts of the given flags and address that the entry can hold.
pub proof fn lemma_entry_round_trip(flags: u64, addr: u64)
    ensures
        ((flags & FLAGS_MASK) | (addr & ADDR_MASK)) & FLAGS_MASK == flags & FLAGS_MASK,
        ((flags & FLAGS_MASK) | (addr & ADDR_MASK)) & ADDR_MASK == addr & ADDR_MASK,
{
    lemma_entry_bits();
    assert(((flags & FLAGS_MASK) | (addr & ADDR_MASK)) & FLAGS_MASK == flags & FLAGS_MASK);
}

/// The number of entries of a page table.
pub const TABLE_ENTRIES: usize = 512;

/// A page table of `SIZE` entries.
pub struct PageTable<const SIZE: usize> {
    entries: [PageTableEntry; SIZE],
}

impl<const SIZE: usize> View for PageTable<SIZE> {
    type V = Seq<PageTableEntry>;

    closed spec fn view(&self) -> Seq<PageTableEntry> {
        self.entries@
    }
}

impl<const SIZE: usize> PageTable<SIZE> {
    /// A table whose entries are all zero.
    pub fn new() -> (r: Self)
        ensures
            r@.len() == SIZE,
            forall|i: int| 0 <= i < SIZE ==> (#[trigger] r@[i]).value == 0,
    {
        let entries = [PageTableEntry { value: 0 }; SIZE];
        Self { entries }
    }

    pub fn as_slice(&self) -> (r: &[PageTableEntry])
        ensures
            r@ == self@,
    {
        self.entries.as_slice()
    }

    pub fn as_mut_slice(&mut self) -> (r: &mut [PageTableEntry])
        ensures
            r@ == old(self)@,
            final(r)@ == final(self)@,
    {
        &mut self.entries
    }

    /// Clear every entry.
    pub fn zero(&mut self)
        ensures
            final(self)@.len() == SIZE,
            forall|i: int| 0 <= i < SIZE ==> (#[trigger] final(self)@[i]).value == 0,
    {
        let mut i: usize = 0;
        while i < SIZE
            invariant
                0 <= i <= SIZE,
                self@.len() == SIZE,
                forall|j: int| 0 <= j < i ==> (#[trigger] self@[j]).value == 0,
            decreases SIZE - i,
        {
            self.entries[i] = PageTableEntry { value: 0 };
            i = i + 1;
        }
    }
}

/// The three sizes of a page.
#[derive(Clone, Copy, PartialEq, Eq, Structural, Debug)]
pub enum PageSize {
    Size4Kib,
    Size2Mib,
    Size1Gib,
}

/// The number of bytes of a page of size `s`.
pub open spec fn page_bytes(s: PageSize) -> int {
    match s {
        PageSize::Size4Kib => 4096int,
        PageSize::Size2Mib => 2097152int,
        PageSize::Size1Gib => 1073741824int,
    }
}

impl PageSize {
    /// The largest page size.
    pub fn highest() -> (r: Self)
        ensures
            r == PageSize::Size1Gib,
    {
        PageSize::Size1Gib
    }

    /// The page size one level down in the table hierarchy; 4 KiB stays 4 KiB.
    pub fn descend_level(&self) -> (r: Self)
        ensures
            r == match *self {
                PageSize::Size4Kib => PageSize::Size4Kib,
                PageSize::Size2Mib => PageSize::Size4Kib,
                PageSize::Size1Gib => PageSize::Size2Mib,
            },
    {
        match self {
            PageSize::Size4Kib => PageSize::Size4Kib,
            PageSize::Size2Mib => PageSize::Size4Kib,
            PageSize::Size1Gib => PageSize::Size2Mib,
        }
    }

    /// The number of bytes of a page of this size.
    pub fn as_usize(&self) -> (r: usize)
        ensures
            r == page_bytes(*self),
    {
        match self {
            PageSize::Size4Kib => 4096,
            PageSize::Size2Mib => 4096 * TABLE_ENTRIES,
            PageSize::Size1Gib => 4096 * TABLE_ENTRIES * TABLE_ENTRIES,
        }
    }
}

/// Law: a page of one size holds exactly 512 pages of the size one level down.
pub proof fn lemma_descend_level_divides(s: PageSize)
    requires
        s != PageSize::Size4Kib,
    ensures
        page_bytes(s) == 512 * page_bytes(
            match s {
                PageSize::Size4Kib => PageSize::Size4Kib,
                PageSize::Size2Mib => PageSize::Size4Kib,
                PageSize::Size1Gib => PageSize::Size2Mib,
            },
        ),
{
}

} // verus!
