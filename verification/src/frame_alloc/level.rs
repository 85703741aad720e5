//! One level of a buddy zone: the free list and the used-bitmap of the blocks of one size.

use vstd::arithmetic::power2::pow2;
use vstd::prelude::*;

use crate::address::{PhysicalAddress, VirtualAddress};
use crate::bitmap::Bitmap;
use crate::power::{lemma_pow2_facts, pow2_usize};

verus! {

/// `(k * d + r) / d == k` and `(k * d + r) % d == r` for `0 <= r < d`.
pub proof fn lemma_block_div(k: int, d: int, r: int)
    requires
        d > 0,
        k >= 0,
        0 <= r < d,
    ensures
        (k * d + r) / d == k,
        (k * d + r) % d == r,
{
    vstd::arithmetic::div_mod::lemma_fundamental_div_mod_converse(k * d + r, d, k, r);
}

/// The blocks of one size within a zone.
///
/// The free list is kept with its head first; the bitmap marks a block as used when it is
/// allocated or split into smaller blocks.
pub struct Level {
    free: Vec<usize>,
    order: u8,
    bitmap: Bitmap,
    base: PhysicalAddress,
    global_offset: usize,
    total_blocks: usize,
}

impl Level {
    /// The free blocks, head first.
    pub closed spec fn free_list(&self) -> Seq<usize> {
        self.free@
    }

    /// The used-bitmap.
    pub closed spec fn bits(&self) -> Seq<bool> {
        self.bitmap@
    }

    pub closed spec fn order_spec(&self) -> nat {
        self.order as nat
    }

    pub closed spec fn base_spec(&self) -> int {
        self.base.value as int
    }

    pub closed spec fn total_spec(&self) -> int {
        self.total_blocks as int
    }

    pub closed spec fn offset_spec(&self) -> int {
        self.global_offset as int
    }

    pub open spec fn block_size_spec(&self) -> int {
        pow2(self.order_spec()) as int
    }

    /// The address of block `k`.
    pub open spec fn addr_of(&self, k: int) -> int {
        self.base_spec() + k * self.block_size_spec()
    }

    /// The bitmap index of the block that starts at `addr`.
    pub open spec fn bit_of(&self, addr: int) -> int {
        (addr - self.base_spec()) / self.block_size_spec()
    }

    /// The index of the buddy of block `bit`.
    pub open spec fn buddy_of(bit: int) -> int {
        if bit % 2 == 0 {
            bit + 1
        } else {
            bit - 1
        }
    }

    /// `addr` is the start of one of the blocks of this level.
    pub open spec fn is_block(&self, addr: int) -> bool {
        &&& self.base_spec() <= addr
        &&& (addr - self.base_spec()) % self.block_size_spec() == 0
        &&& self.bit_of(addr) < self.total_spec()
    }

    pub open spec fn wf(&self) -> bool {
        &&& self.order_spec() < usize::BITS
        &&& 1 <= self.total_spec() <= self.bits().len()
        &&& 0 <= self.base_spec()
        &&& self.base_spec() + self.total_spec() * self.block_size_spec() <= usize::MAX
        &&& self.free_list().no_duplicates()
        &&& forall|i: int|
            0 <= i < self.free_list().len() ==> #[trigger] self.is_block(self.free_list()[i] as int)
    }

    /// An empty level of blocks of `2^order` bytes in a zone whose largest blocks are `2^largest_order` bytes.
    pub fn new(order: u8, largest_order: u8, base: PhysicalAddress, global_offset: usize) -> (r: Self)
        requires
            order <= largest_order < usize::BITS,
            base.value + pow2(largest_order as nat) <= usize::MAX,
        ensures
            r.wf(),
            r.free_list() == Seq::<usize>::empty(),
            r.order_spec() == order,
            r.base_spec() == base.value,
            r.offset_spec() == global_offset,
            r.total_spec() == pow2((largest_order - order) as nat),
            forall|i: int| 0 <= i < r.bits().len() ==> !r.bits()[i],
    {
        proof {
            lemma_pow2_facts((largest_order - order) as nat);
            lemma_pow2_facts(largest_order as nat);
            vstd::arithmetic::power2::lemma_pow2_adds((largest_order - order) as nat, order as nat);
            vstd::arithmetic::power2::lemma_pow2_pos(order as nat);
            vstd::arithmetic::mul::lemma_mul_increases(
                pow2(order as nat) as int,
                pow2((largest_order - order) as nat) as int,
            );
        }
        let bits: usize = pow2_usize(largest_order - order);
        let bytes: usize = bits / 8 + if bits % 8 == 0 {
            0
        } else {
            1
        };
        let bitmap = Bitmap::zeroed(bytes);
        Level {
            free: Vec::new(),
            order,
            bitmap,
            base,
            global_offset,
            total_blocks: bits,
        }
    }

    /// The size in bytes of the blocks of this level.
    pub fn block_size(&self) -> (r: usize)
        requires
            self.wf(),
        ensures
            r == self.block_size_spec(),
    {
        pow2_usize(self.order)
    }

    /// Whether the block of this level that holds `addr`, counted from the level's base, is
    /// marked as used.
    pub fn is_within_allocated_block(&self, addr: PhysicalAddress) -> (r: bool)
        requires
            self.wf(),
            addr.value >= self.base_spec(),
            self.bit_of(addr.value as int) < self.bits().len(),
        ensures
            r == self.bits()[self.bit_of(addr.value as int)],
    {
        let bit: usize = self.bit_in_bitmap(addr);
        self.bitmap.contains(bit)
    }

    /// Put `new_node` at the head of the free list.
    pub fn push_free_block(&mut self, new_node: PhysicalAddress)
        requires
            old(self).wf(),
            old(self).is_block(new_node.value as int),
            !old(self).free_list().contains(new_node.value),
        ensures
            final(self).wf(),
            final(self).free_list() == seq![new_node.value].add(old(self).free_list()),
            final(self).bits() == old(self).bits(),
            final(self).same_shape(*old(self)),
    {
        if self.free.len() == 0 {
            self.free.push(new_node.value);
            proof {
                assert(self.free@ =~= seq![new_node.value].add(old(self).free@));
                assert(self.free@[0] == new_node.value);
            }
            return ;
        }
        let head: usize = self.free[0];
        self.insert_before(PhysicalAddress::new(head), new_node);
    }

    /// Changing only the bits keeps a level well formed.
    pub proof fn lemma_wf_frame(a: Level, b: Level)
        requires
            a.wf(),
            b.same_shape(a),
            b.free_list() == a.free_list(),
        ensures
            b.wf(),
    {
        assert forall|i: int| 0 <= i < b.free_list().len() implies #[trigger] b.is_block(
            b.free_list()[i] as int,
        ) by {
            assert(a.is_block(a.free_list()[i] as int));
        }
    }

    /// The fields other than the free list and the bitmap are unchanged.
    pub open spec fn same_shape(&self, other: Level) -> bool {
        &&& self.order_spec() == other.order_spec()
        &&& self.base_spec() == other.base_spec()
        &&& self.total_spec() == other.total_spec()
        &&& self.offset_spec() == other.offset_spec()
        &&& self.bits().len() == other.bits().len()
    }

    /// Insert `new_node` in the free list just before `node`.
    fn insert_before(&mut self, node: PhysicalAddress, new_node: PhysicalAddress)
        requires
            old(self).wf(),
            old(self).is_block(new_node.value as int),
            !old(self).free_list().contains(new_node.value),
            old(self).free_list().len() > 0,
            old(self).free_list()[0] == node.value,
        ensures
            final(self).wf(),
            final(self).free_list() == seq![new_node.value].add(old(self).free_list()),
            final(self).bits() == old(self).bits(),
            final(self).same_shape(*old(self)),
    {
        let index: usize = self.find_free(node.value);
        self.free.insert(index, new_node.value);
        proof {
            assert(index == 0);
            assert(self.free@ =~= seq![new_node.value].add(old(self).free@));
            assert forall|i: int|
                0 <= i < self.free_list().len() implies #[trigger] self.is_block(
                self.free_list()[i] as int,
            ) by {
                if i > 0 {
                    assert(self.free_list()[i] == old(self).free_list()[i - 1]);
                    assert(old(self).is_block(old(self).free_list()[i - 1] as int));
                }
            }
        }
    }

    /// The position of `value` in the free list.
    fn find_free(&self, value: usize) -> (r: usize)
        requires
            self.free_list().contains(value),
            self.free_list().no_duplicates(),
        ensures
            r < self.free_list().len(),
            self.free_list()[r as int] == value,
    {
        let mut i: usize = 0;
        while i < self.free.len()
            invariant
                i <= self.free@.len(),
                forall|j: int| 0 <= j < i ==> self.free@[j] != value,
                self.free@.contains(value),
            decreases self.free@.len() - i,
        {
            if self.free[i] == value {
                return i;
            }
            i = i + 1;
        }
        proof {
            let j: int = choose|j: int| 0 <= j < self.free@.len() && self.free@[j] == value;
            assert(self.free@[j] != value);
        }
        0
    }

    /// Take the head of the free list and mark it as used.
    pub fn pop_from_list_and_mark_as_used(&mut self) -> (r: Option<PhysicalAddress>)
        requires
            old(self).wf(),
            old(self).free_list().len() > 0 ==> !old(self).bits()[old(self).bit_of(
                old(self).free_list()[0] as int,
            )],
        ensures
            final(self).wf(),
            final(self).same_shape(*old(self)),
            old(self).free_list().len() == 0 ==> r is None && *final(self) == *old(self),
            old(self).free_list().len() > 0 ==> {
                &&& r == Some(PhysicalAddress { value: old(self).free_list()[0] })
                &&& final(self).free_list() == old(self).free_list().drop_first()
                &&& final(self).bits() == old(self).bits().update(
                    old(self).bit_of(old(self).free_list()[0] as int),
                    true,
                )
            },
    {
        let block = match self.pop_free_block() {
            Some(b) => b,
            None => {
                return None;
            },
        };
        let ghost mid: Level = *self;
        let block_bit: usize = self.bit_in_bitmap(block);
        proof {
            assert(!self.bitmap@[block_bit as int]);
        }
        self.bitmap.set(block_bit);
        proof {
            Self::lemma_wf_frame(mid, *self);
        }
        Some(block)
    }

    /// Take the head of the free list.
    fn pop_free_block(&mut self) -> (r: Option<PhysicalAddress>)
        requires
            old(self).wf(),
        ensures
            final(self).wf(),
            final(self).same_shape(*old(self)),
            final(self).bits() == old(self).bits(),
            old(self).free_list().len() == 0 ==> r is None && *final(self) == *old(self),
            old(self).free_list().len() > 0 ==> {
                &&& r == Some(PhysicalAddress { value: old(self).free_list()[0] })
                &&& final(self).free_list() == old(self).free_list().drop_first()
                &&& old(self).is_block(old(self).free_list()[0] as int)
            },
    {
        if self.free.len() == 0 {
            return None;
        }
        let node: usize = self.free[0];
        proof {
            assert(self.is_block(self.free@[0] as int));
        }
        self.remove_block(PhysicalAddress::new(node));
        proof {
            assert(self.free@ =~= old(self).free@.drop_first());
        }
        Some(PhysicalAddress::new(node))
    }

    /// Unlink `node` from the free list.
    fn remove_block(&mut self, node: PhysicalAddress)
        requires
            old(self).wf(),
            old(self).free_list().contains(node.value),
        ensures
            final(self).wf(),
            final(self).same_shape(*old(self)),
            final(self).bits() == old(self).bits(),
            exists|i: int|
                0 <= i < old(self).free_list().len() && old(self).free_list()[i] == node.value
                    && final(self).free_list() == old(self).free_list().remove(i),
    {
        let index: usize = self.find_free(node.value);
        self.free.remove(index);
        proof {
            assert(self.free@ == old(self).free@.remove(index as int));
            assert forall|i: int|
                0 <= i < self.free_list().len() implies #[trigger] self.is_block(
                self.free_list()[i] as int,
            ) by {
                if i < index {
                    assert(self.free_list()[i] == old(self).free_list()[i]);
                    assert(old(self).is_block(old(self).free_list()[i] as int));
                } else {
                    assert(self.free_list()[i] == old(self).free_list()[i + 1]);
                    assert(old(self).is_block(old(self).free_list()[i + 1] as int));
                }
            }
            assert(self.free@.no_duplicates()) by {
                assert forall|a: int, b: int|
                    0 <= a < b < self.free@.len() implies self.free@[a] != self.free@[b] by {
                    let oa: int = if a < index {
                        a
                    } else {
                        a + 1
                    };
                    let ob: int = if b < index {
                        b
                    } else {
                        b + 1
                    };
                    assert(old(self).free@[oa] != old(self).free@[ob]);
                }
            }
        }
    }

    /// Mark the block that starts at `addr` as used.
    pub fn mark_as_used(&mut self, addr: PhysicalAddress)
        requires
            old(self).wf(),
            addr.value >= old(self).base_spec(),
            old(self).bit_of(addr.value as int) < old(self).bits().len(),
        ensures
            final(self).wf(),
            final(self).same_shape(*old(self)),
            final(self).free_list() == old(self).free_list(),
            final(self).bits() == old(self).bits().update(old(self).bit_of(addr.value as int), true),
    {
        let bit: usize = self.bit_in_bitmap(addr);
        self.bitmap.set(bit);
        proof {
            Self::lemma_wf_frame(*old(self), *self);
        }
    }

    /// Mark the block that starts at `addr` as unused.
    pub fn mark_as_unused(&mut self, addr: PhysicalAddress)
        requires
            old(self).wf(),
            addr.value >= old(self).base_spec(),
            old(self).bit_of(addr.value as int) < old(self).bits().len(),
        ensures
            final(self).wf(),
            final(self).same_shape(*old(self)),
            final(self).free_list() == old(self).free_list(),
            final(self).bits() == old(self).bits().update(
                old(self).bit_of(addr.value as int),
                false,
            ),
    {
        let bit: usize = self.bit_in_bitmap(addr);
        self.bitmap.clear(bit);
        proof {
            Self::lemma_wf_frame(*old(self), *self);
        }
    }

    /// Unlink the buddy of the block at `addr` from the free list.
    pub fn remove_buddy_from_list(&mut self, addr: PhysicalAddress)
        requires
            old(self).wf(),
            addr.value >= old(self).base_spec(),
            0 <= Self::buddy_of(old(self).bit_of(addr.value as int)) < old(self).total_spec(),
            old(self).free_list().contains(
                old(self).addr_of(Self::buddy_of(old(self).bit_of(addr.value as int))) as usize,
            ),
        ensures
            final(self).wf(),
            final(self).same_shape(*old(self)),
            final(self).bits() == old(self).bits(),
            exists|i: int|
                0 <= i < old(self).free_list().len() && old(self).free_list()[i] == old(
                    self,
                ).addr_of(Self::buddy_of(old(self).bit_of(addr.value as int)))
                    && final(self).free_list() == old(self).free_list().remove(i),
    {
        proof {
            lemma_pow2_facts(self.order as nat);
            vstd::arithmetic::mul::lemma_mul_inequality(
                Self::buddy_of(self.bit_of(addr.value as int)),
                self.total_spec(),
                self.block_size_spec(),
            );
        }
        let buddy = self.buddy_address(addr);
        self.remove_block(buddy);
    }

    /// The start of the block of this level that holds `addr`, counted from the level's base.
    pub fn block_start(&self, addr: PhysicalAddress) -> (r: PhysicalAddress)
        requires
            self.wf(),
            addr.value >= self.base_spec(),
            self.bit_of(addr.value as int) < self.total_spec(),
        ensures
            r.value == self.addr_of(self.bit_of(addr.value as int)),
    {
        let bit: usize = self.bit_in_bitmap(addr);
        proof {
            lemma_pow2_facts(self.order as nat);
            vstd::arithmetic::mul::lemma_mul_inequality(bit as int, self.total_spec(), self.block_size_spec());
        }
        self.bit_to_addr(bit)
    }

    /// The address of the buddy of the block at `addr`; the buddy of that address is the
    /// block at `addr` again. The buddy may lie past the last block of the level, as for the
    /// single block of the top level.
    pub fn buddy_address(&self, addr: PhysicalAddress) -> (r: PhysicalAddress)
        requires
            self.wf(),
            addr.value >= self.base_spec(),
            self.addr_of(Self::buddy_of(self.bit_of(addr.value as int))) <= usize::MAX,
        ensures
            r.value == self.addr_of(Self::buddy_of(self.bit_of(addr.value as int))),
            Self::buddy_of(self.bit_of(r.value as int)) == self.bit_of(addr.value as int),
    {
        let bit: usize = self.bit_in_bitmap(addr);
        let buddy: usize = self.buddy_bit(bit);
        proof {
            lemma_pow2_facts(self.order as nat);
            vstd::arithmetic::div_mod::lemma_div_pos_is_pos(addr.value - self.base_spec(), self.block_size_spec());
            lemma_block_div(buddy as int, self.block_size_spec(), 0);
        }
        self.bit_to_addr(buddy)
    }

    /// Whether the buddy of the block at `addr` is marked as used.
    pub fn is_buddy_used(&self, addr: PhysicalAddress) -> (r: bool)
        requires
            self.wf(),
            addr.value >= self.base_spec(),
            Self::buddy_of(self.bit_of(addr.value as int)) < self.bits().len(),
        ensures
            r == self.bits()[Self::buddy_of(self.bit_of(addr.value as int))],
    {
        let bit: usize = self.bit_in_bitmap(addr);
        let buddy: usize = self.buddy_bit(bit);
        self.bitmap.contains(buddy)
    }

    /// Mark the buddy of the block at `addr` as used.
    pub fn mark_buddy_as_used(&mut self, addr: PhysicalAddress)
        requires
            old(self).wf(),
            addr.value >= old(self).base_spec(),
            Self::buddy_of(old(self).bit_of(addr.value as int)) < old(self).bits().len(),
        ensures
            final(self).wf(),
            final(self).same_shape(*old(self)),
            final(self).free_list() == old(self).free_list(),
            final(self).bits() == old(self).bits().update(
                Self::buddy_of(old(self).bit_of(addr.value as int)),
                true,
            ),
    {
        let bit: usize = self.bit_in_bitmap(addr);
        let buddy: usize = self.buddy_bit(bit);
        self.bitmap.set(buddy);
        proof {
            Self::lemma_wf_frame(*old(self), *self);
        }
    }

    /// Whether the block at `addr` has a buddy within this level.
    pub fn has_buddy(&self, addr: PhysicalAddress) -> (r: bool)
        requires
            self.wf(),
            addr.value >= self.base_spec(),
        ensures
            r == (Self::buddy_of(self.bit_of(addr.value as int)) < self.total_spec()),
    {
        let bit: usize = self.bit_in_bitmap(addr);
        let buddy: usize = self.buddy_bit(bit);
        buddy < self.total_blocks
    }

    fn bit_to_addr(&self, bit: usize) -> (r: PhysicalAddress)
        requires
            self.wf(),
            self.addr_of(bit as int) <= usize::MAX,
        ensures
            r.value == self.addr_of(bit as int),
    {
        proof {
            lemma_pow2_facts(self.order as nat);
            assert(bit * self.block_size_spec() >= 0) by (nonlinear_arith)
                requires
                    bit >= 0,
                    self.block_size_spec() > 0,
            ;
        }
        let size: usize = self.block_size();
        self.base.offset(bit * size)
    }

    fn bit_in_bitmap(&self, addr: PhysicalAddress) -> (r: usize)
        requires
            self.wf(),
            addr.value >= self.base_spec(),
        ensures
            r == self.bit_of(addr.value as int),
    {
        proof {
            lemma_pow2_facts(self.order as nat);
        }
        let size: usize = self.block_size();
        let diff: usize = addr.value - self.base.value;
        diff / size
    }

    fn buddy_bit(&self, bit: usize) -> (r: usize)
        ensures
            r == Self::buddy_of(bit as int),
    {
        proof {
            lemma_pow2_facts(usize::BITS as nat);
            lemma_pow2_facts((usize::BITS - 1) as nat);
        }
        if bit % 2 == 0 {
            bit + 1
        } else {
            bit - 1
        }
    }

    /// The virtual address through which the frame `phys` is reached.
    pub fn phys_to_virt(&self, phys: PhysicalAddress) -> (r: VirtualAddress)
        requires
            phys.value + self.offset_spec() <= usize::MAX,
        ensures
            r.value == phys.value + self.offset_spec(),
    {
        VirtualAddress::new(phys.value + self.global_offset)
    }
}

} // verus!
