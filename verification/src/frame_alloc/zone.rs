//! A zone: one contiguous region of usable memory managed as a binary tree of blocks.

use vstd::arithmetic::power2::pow2;
use vstd::prelude::*;

use crate::address::PhysicalAddress;
use crate::frame_alloc::level::{lemma_block_div, Level};
use crate::power::{
    is_next_power_of_two, is_power_of_two, lemma_pow2_facts, lemma_pow2_injective,
    lemma_pow2_monotone, next_power_of_two, order_of_two, pow2_usize,
};

verus! {

/// The smallest block order: 4 KiB.
pub const MIN_ORDER: u8 = 12;

/// The role a block plays in the tree of a zone.
pub enum NodeStatus {
    /// On its level's free list.
    Free,
    /// Handed out by `allocate`.
    Allocated,
    /// Divided into its two halves, which are managed one level down.
    Split,
    /// Marked as used at initialization because it does not lie in usable memory.
    Phantom,
    /// A half of a split block that lies past the end of the usable memory.
    Void,
    /// Part of a larger block that is free, allocated, phantom or void.
    Inside,
}

/// The size in bytes of the blocks on level `l`.
pub open spec fn node_size(l: int) -> int {
    pow2((MIN_ORDER + l) as nat) as int
}

/// The address of block `k` on level `l` of a zone that starts at `base`.
pub open spec fn node_addr(base: int, l: int, k: int) -> int {
    base + k * node_size(l)
}

/// The index of the buddy of block `k`.
pub open spec fn buddy_index(k: int) -> int {
    if k % 2 == 0 {
        k + 1
    } else {
        k - 1
    }
}

/// The index on level `m` of the ancestor of block `k` of level `l`.
pub open spec fn ancestor(k: int, l: int, m: int) -> int {
    k / pow2((m - l) as nat) as int
}

/// A block is its own ancestor on its level.
pub proof fn lemma_ancestor_self(k: int, l: int)
    ensures
        ancestor(k, l, l) == k,
{
    vstd::arithmetic::power2::lemma2_to64();
    assert((l - l) as nat == 0);
}

/// The ancestor of a block above its level is the ancestor of its parent.
pub proof fn lemma_ancestor_step(k: int, l: int, m: int)
    requires
        k >= 0,
        l + 1 <= m,
    ensures
        ancestor(k, l, m) == ancestor(k / 2, l + 1, m),
{
    lemma_pow2_facts((m - l - 1) as nat);
    assert((m - l) as nat == (m - l - 1) as nat + 1);
    assert(pow2((m - l) as nat) == 2 * pow2((m - l - 1) as nat));
    vstd::arithmetic::div_mod::lemma_div_denominator(k, 2, pow2((m - l - 1) as nat) as int);
}

/// `new` is `old` with one entry, which is `x`, taken out.
pub open spec fn removed_one(old: Seq<usize>, new: Seq<usize>, x: int) -> bool {
    exists|i: int| 0 <= i < old.len() && old[i] as int == x && new == #[trigger] old.remove(i)
}

/// A block counts as used in its level's bitmap.
pub open spec fn is_used_status(s: NodeStatus) -> bool {
    s is Allocated || s is Split || s is Phantom
}

/// Geometry of the halves of a block.
pub proof fn lemma_children(base: int, l: int, k: int)
    requires
        l >= 1,
        k >= 0,
    ensures
        node_size(l) == 2 * node_size(l - 1),
        node_addr(base, l - 1, 2 * k) == node_addr(base, l, k),
        node_addr(base, l - 1, 2 * k + 1) == node_addr(base, l, k) + node_size(l - 1),
        (2 * k) / 2 == k,
        (2 * k + 1) / 2 == k,
        buddy_index(2 * k) == 2 * k + 1,
        buddy_index(2 * k + 1) == 2 * k,
{
    lemma_pow2_facts((MIN_ORDER + l) as nat);
    assert(node_size(l) == 2 * node_size(l - 1));
    assert(2 * k * node_size(l - 1) == k * node_size(l)) by (nonlinear_arith)
        requires
            node_size(l) == 2 * node_size(l - 1),
    ;
    assert((2 * k + 1) * node_size(l - 1) == 2 * k * node_size(l - 1) + node_size(l - 1))
        by (nonlinear_arith);
}

/// Every block of level `l` is one of the two halves of its parent.
pub proof fn lemma_parent(base: int, l: int, k: int)
    requires
        l >= 0,
        k >= 0,
    ensures
        k == 2 * (k / 2) || k == 2 * (k / 2) + 1,
        k % 2 == 0 ==> k == 2 * (k / 2) && buddy_index(k) == k + 1,
        k % 2 == 1 ==> k == 2 * (k / 2) + 1 && buddy_index(k) == k - 1,
        buddy_index(k) / 2 == k / 2,
        buddy_index(k) >= 0,
        node_addr(base, l + 1, k / 2) <= node_addr(base, l, k),
        node_addr(base, l, k) + node_size(l) <= node_addr(base, l + 1, k / 2) + node_size(l + 1),
{
    lemma_children(base, l + 1, k / 2);
}

/// Number of blocks on level `l` of a tree whose top level is `t`.
pub open spec fn level_blocks(t: int, l: int) -> int {
    pow2((t - l) as nat) as int
}

/// The parent of a block of a level below the top is a block too.
pub proof fn lemma_parent_valid(t: int, l: int, k: int)
    requires
        0 <= l < t,
        0 <= k < level_blocks(t, l),
    ensures
        0 <= k / 2 < level_blocks(t, l + 1),
        level_blocks(t, l) == 2 * level_blocks(t, l + 1),
        buddy_index(k) < level_blocks(t, l),
{
    lemma_pow2_facts((t - l) as nat);
    assert(((t - l) - 1) as nat == (t - (l + 1)) as nat);
}

/// The halves of a block are blocks.
pub proof fn lemma_children_valid(t: int, l: int, k: int)
    requires
        1 <= l <= t,
        0 <= k < level_blocks(t, l),
    ensures
        0 <= 2 * k + 1 < level_blocks(t, l - 1),
{
    lemma_pow2_facts((t - l + 1) as nat);
    assert((t - (l - 1)) as nat == (t - l + 1) as nat);
}

/// Membership in a sequence without duplicates after removing position `i`.
pub proof fn lemma_remove_contains<A>(s: Seq<A>, i: int, x: A)
    requires
        s.no_duplicates(),
        0 <= i < s.len(),
    ensures
        s.remove(i).contains(x) == (s.contains(x) && x != s[i]),
        s.remove(i).no_duplicates(),
        i == 0 ==> s.remove(i) == s.drop_first(),
{
    let r = s.remove(i);
    if s.contains(x) && x != s[i] {
        let j: int = choose|j: int| 0 <= j < s.len() && s[j] == x;
        if j < i {
            assert(r[j] == x);
        } else {
            assert(r[j - 1] == x);
        }
    }
    if r.contains(x) {
        let j: int = choose|j: int| 0 <= j < r.len() && r[j] == x;
        if j < i {
            assert(s[j] == x);
        } else {
            assert(s[j + 1] == x);
        }
    }
    assert forall|a: int, b: int| 0 <= a < b < r.len() implies r[a] != r[b] by {
        let oa: int = if a < i {
            a
        } else {
            a + 1
        };
        let ob: int = if b < i {
            b
        } else {
            b + 1
        };
        assert(s[oa] != s[ob]);
    }
    if i == 0 {
        assert(s.remove(i) =~= s.drop_first());
    }
}

/// Membership after pushing at the front.
pub proof fn lemma_push_front_contains<A>(a: A, s: Seq<A>, x: A)
    ensures
        (seq![a] + s).contains(x) == (x == a || s.contains(x)),
{
    let t = seq![a] + s;
    if s.contains(x) {
        let j: int = choose|j: int| 0 <= j < s.len() && s[j] == x;
        assert(t[j + 1] == x);
    }
    if x == a {
        assert(t[0] == x);
    }
    if t.contains(x) {
        let j: int = choose|j: int| 0 <= j < t.len() && t[j] == x;
        if j > 0 {
            assert(s[j - 1] == x);
        }
    }
}

/// `a - b` wrapped around the range of `usize`.
pub open spec fn wrapping_sub_spec(a: int, b: int) -> int {
    if a >= b {
        a - b
    } else {
        a - b + usize::MAX + 1
    }
}

/// `a + b` wrapped around the range of `usize`.
pub open spec fn wrapping_add_spec(a: int, b: int) -> int {
    if a + b > usize::MAX {
        a + b - usize::MAX - 1
    } else {
        a + b
    }
}

/// The block size that serves a request of `size` bytes.
pub open spec fn block_size_for(size: int) -> int {
    if size < node_size(0) {
        node_size(0)
    } else {
        size
    }
}

/// `f` with the role of block `(l, k)` replaced by `s`.
pub open spec fn with_status(
    f: spec_fn(int, int) -> NodeStatus,
    l: int,
    k: int,
    s: NodeStatus,
) -> spec_fn(int, int) -> NodeStatus {
    |a: int, b: int|
        if a == l && b == k {
            s
        } else {
            f(a, b)
        }
}

/// One contiguous region of memory managed by the buddy algorithm.
///
/// Level `i` manages blocks of `2^(MIN_ORDER + i)` bytes; the top level holds a single block
/// that covers the whole region rounded up to a power of two.
pub struct Zone {
    addr_start: PhysicalAddress,
    addr_end: PhysicalAddress,
    physical_memory_offset: usize,
    available: usize,
    levels: Vec<Level>,
    status: Ghost<spec_fn(int, int) -> NodeStatus>,
}

impl Zone {
    pub closed spec fn levels_spec(&self) -> Seq<Level> {
        self.levels@
    }

    pub closed spec fn start_spec(&self) -> int {
        self.addr_start.value as int
    }

    pub closed spec fn end_spec(&self) -> int {
        self.addr_end.value as int
    }

    pub closed spec fn offset_spec(&self) -> int {
        self.physical_memory_offset as int
    }

    pub closed spec fn available_spec(&self) -> int {
        self.available as int
    }

    /// The counter of available bytes is a `usize`.
    pub proof fn lemma_available_range(&self)
        ensures
            0 <= self.available_spec() <= usize::MAX,
    {
    }

    /// The role of block `k` of level `l`.
    pub closed spec fn st(&self, l: int, k: int) -> NodeStatus {
        (self.status@)(l, k)
    }

    /// The index of the top level.
    pub open spec fn top(&self) -> int {
        self.levels_spec().len() - 1
    }

    pub open spec fn valid_node(&self, l: int, k: int) -> bool {
        0 <= l <= self.top() && 0 <= k < level_blocks(self.top(), l)
    }

    pub open spec fn addr(&self, l: int, k: int) -> int {
        node_addr(self.start_spec(), l, k)
    }

    pub open spec fn end_of(&self, l: int, k: int) -> int {
        self.addr(l, k) + node_size(l)
    }

    /// The level `l` of the zone has the expected shape.
    pub open spec fn level_ok(&self, l: int) -> bool {
        let lv = self.levels_spec()[l];
        &&& lv.wf()
        &&& lv.order_spec() == MIN_ORDER + l
        &&& lv.base_spec() == self.start_spec()
        &&& lv.total_spec() == level_blocks(self.top(), l)
        &&& lv.offset_spec() == self.offset_spec()
    }

    /// The conditions that tie block `k` of level `l` to the bitmaps, the free lists and its
    /// neighbours in the tree.
    pub open spec fn node_ok(&self, l: int, k: int) -> bool {
        let s = self.st(l, k);
        let lv = self.levels_spec()[l];
        &&& lv.bits()[k] == is_used_status(s)
        &&& lv.free_list().contains(self.addr(l, k) as usize) == (s is Free)
        &&& (s is Split ==> l >= 1)
        &&& (l < self.top() ==> (!(s is Inside) <==> self.st(l + 1, k / 2) is Split))
        &&& (l == self.top() ==> !(s is Inside))
        &&& (s is Void && l < self.top() ==> self.end_of(l, buddy_index(k)) > self.end_spec())
        &&& (s is Free || s is Allocated ==> self.end_of(l, k) <= self.end_spec())
    }

    /// Block `k` of level `l` is handed out.
    pub open spec fn is_allocated(&self, l: int, k: int) -> bool {
        self.valid_node(l, k) && self.st(l, k) is Allocated
    }

    /// `new` differs from `old` by one more allocated block: block `k` of level `l`, at `a`.
    pub open spec fn allocated_one(old: Zone, new: Zone, l: int, k: int, a: int) -> bool {
        &&& new.valid_node(l, k)
        &&& new.addr(l, k) == a
        &&& !old.is_allocated(l, k)
        &&& new.is_allocated(l, k)
        &&& forall|l2: int, k2: int|
            !(l2 == l && k2 == k) ==> #[trigger] new.is_allocated(l2, k2) == old.is_allocated(l2, k2)
    }

    /// Nothing observable changed.
    pub open spec fn unchanged(old: Zone, new: Zone) -> bool {
        &&& new.same_zone(old)
        &&& new.available_spec() == old.available_spec()
        &&& new.levels_spec() == old.levels_spec()
        &&& forall|l: int, k: int| #[trigger] new.st(l, k) == old.st(l, k)
    }

    /// `new` differs from `old` by one more allocated block of level `l`, at `a`.
    pub open spec fn allocated_at(old: Zone, new: Zone, l: int, a: int) -> bool {
        exists|k: int| #[trigger] Self::allocated_one(old, new, l, k, a)
    }

    /// `new` differs from `old` by one more allocated block of `size` bytes at `a`.
    pub open spec fn allocated_sized(old: Zone, new: Zone, size: int, a: int) -> bool {
        exists|l: int| node_size(l) == size && #[trigger] Self::allocated_at(old, new, l, a)
    }

    /// Same region, same levels, same counters.
    pub open spec fn same_zone(&self, other: Zone) -> bool {
        &&& self.levels_spec().len() == other.levels_spec().len()
        &&& self.start_spec() == other.start_spec()
        &&& self.end_spec() == other.end_spec()
        &&& self.offset_spec() == other.offset_spec()
    }

    pub open spec fn wf(&self) -> bool {
        &&& self.levels_spec().len() >= 1
        &&& MIN_ORDER + self.top() < usize::BITS
        &&& self.start_spec() < self.end_spec() <= self.end_of(self.top(), 0)
        &&& self.end_of(self.top(), 0) <= usize::MAX
        &&& forall|l: int| 0 <= l <= self.top() ==> #[trigger] self.level_ok(l)
        &&& forall|l: int, k: int| #[trigger] self.valid_node(l, k) ==> self.node_ok(l, k)
    }
}

impl Zone {
    /// A block of the tree lies inside the top block and is a block of its level.
    pub proof fn lemma_node_in_level(&self, l: int, k: int)
        requires
            self.wf(),
            self.valid_node(l, k),
        ensures
            self.levels_spec()[l].block_size_spec() == node_size(l),
            self.levels_spec()[l].addr_of(k) == self.addr(l, k),
            self.levels_spec()[l].bit_of(self.addr(l, k)) == k,
            self.levels_spec()[l].is_block(self.addr(l, k)),
            self.start_spec() <= self.addr(l, k),
            self.end_of(l, k) <= self.end_of(self.top(), 0),
            k < self.levels_spec()[l].bits().len(),
            node_size(l) > 0,
    {
        assert(self.level_ok(l));
        assert(self.level_ok(self.top()));
        let t = self.top();
        lemma_pow2_facts((MIN_ORDER + l) as nat);
        lemma_block_div(k, node_size(l), 0);
        vstd::arithmetic::power2::lemma_pow2_adds((t - l) as nat, (MIN_ORDER + l) as nat);
        assert((t - l) as nat + (MIN_ORDER + l) as nat == (MIN_ORDER + t) as nat);
        assert((k + 1) * node_size(l) <= level_blocks(t, l) * node_size(l)) by (nonlinear_arith)
            requires
                k + 1 <= level_blocks(t, l),
                node_size(l) > 0,
        ;
        assert((k + 1) * node_size(l) == k * node_size(l) + node_size(l)) by (nonlinear_arith);
        assert(k * node_size(l) >= 0) by (nonlinear_arith)
            requires
                k >= 0,
                node_size(l) > 0,
        ;
        lemma_pow2_facts(t as nat);
        assert(pow2(0) == 1);
        assert(level_blocks(t, t) == 1);
        assert(t * 0 == 0);
    }

    /// Distinct blocks of one level start at distinct addresses.
    pub proof fn lemma_addr_injective(&self, l: int, k1: int, k2: int)
        requires
            self.wf(),
            self.valid_node(l, k1),
            self.valid_node(l, k2),
            self.addr(l, k1) == self.addr(l, k2),
        ensures
            k1 == k2,
    {
        self.lemma_node_in_level(l, k1);
        self.lemma_node_in_level(l, k2);
    }

    /// Each entry of a free list is the address of a free block of that level.
    pub proof fn lemma_free_entry(&self, l: int, i: int)
        requires
            self.wf(),
            0 <= l <= self.top(),
            0 <= i < self.levels_spec()[l].free_list().len(),
        ensures
            self.valid_node(l, self.levels_spec()[l].bit_of(
                self.levels_spec()[l].free_list()[i] as int,
            )),
            self.addr(
                l,
                self.levels_spec()[l].bit_of(self.levels_spec()[l].free_list()[i] as int),
            ) == self.levels_spec()[l].free_list()[i],
            self.st(
                l,
                self.levels_spec()[l].bit_of(self.levels_spec()[l].free_list()[i] as int),
            ) is Free,
    {
        assert(self.level_ok(l));
        let lv = self.levels_spec()[l];
        let x = lv.free_list()[i] as int;
        assert(lv.is_block(x));
        let k = lv.bit_of(x);
        lemma_pow2_facts((MIN_ORDER + l) as nat);
        vstd::arithmetic::div_mod::lemma_fundamental_div_mod(x - self.start_spec(), node_size(l));
        assert(k * node_size(l) == node_size(l) * k) by (nonlinear_arith);
        vstd::arithmetic::div_mod::lemma_div_pos_is_pos(x - self.start_spec(), node_size(l));
        assert(self.valid_node(l, k));
        assert(self.node_ok(l, k));
        assert(lv.free_list().contains(x as usize)) by {
            assert(lv.free_list()[i] == x as usize);
        }
    }

    /// A block whose inputs to `node_ok` are unchanged stays well placed.
    pub proof fn lemma_node_ok_frame(old: Zone, new: Zone, l: int, k: int)
        requires
            old.node_ok(l, k),
            new.same_zone(old),
            new.st(l, k) == old.st(l, k),
            l < old.top() ==> new.st(l + 1, k / 2) == old.st(l + 1, k / 2),
            new.levels_spec()[l].bits()[k] == old.levels_spec()[l].bits()[k],
            new.levels_spec()[l].free_list().contains(new.addr(l, k) as usize)
                == old.levels_spec()[l].free_list().contains(old.addr(l, k) as usize),
        ensures
            new.node_ok(l, k),
    {
    }
}

impl Zone {
    /// The levels other than `l` are unchanged and `l` keeps its shape.
    pub open spec fn only_level_changed(old: Zone, new: Zone, l: int) -> bool {
        &&& new.same_zone(old)
        &&& new.available_spec() == old.available_spec()
        &&& new.levels_spec() == old.levels_spec().update(l, new.levels_spec()[l])
        &&& new.levels_spec()[l].wf()
        &&& new.levels_spec()[l].same_shape(old.levels_spec()[l])
    }

    proof fn lemma_levels_ok(old: Zone, new: Zone, l: int)
        requires
            old.wf(),
            0 <= l <= old.top(),
            Self::only_level_changed(old, new, l),
        ensures
            forall|j: int| 0 <= j <= new.top() ==> #[trigger] new.level_ok(j),
            forall|j: int|
                0 <= j < old.levels_spec().len() && j != l ==> #[trigger] new.levels_spec()[j]
                    == old.levels_spec()[j],
    {
        assert forall|j: int| 0 <= j <= new.top() implies #[trigger] new.level_ok(j) by {
            assert(old.level_ok(j));
        }
    }

    /// After popping the head of level `l` (block `k`) and marking it allocated.
    proof fn lemma_after_take(&self, old: Zone, l: int, k: int)
        requires
            old.wf(),
            0 <= l <= old.top(),
            old.levels_spec()[l].free_list().len() > 0,
            k == old.levels_spec()[l].bit_of(old.levels_spec()[l].free_list()[0] as int),
            Self::only_level_changed(old, *self, l),
            self.levels_spec()[l].free_list() == old.levels_spec()[l].free_list().drop_first(),
            self.levels_spec()[l].bits() == old.levels_spec()[l].bits().update(k, true),
            self.status@ == with_status(old.status@, l, k, NodeStatus::Allocated),
        ensures
            self.wf(),
            Self::allocated_one(
                old,
                *self,
                l,
                k,
                old.levels_spec()[l].free_list()[0] as int,
            ),
    {
        old.lemma_free_entry(l, 0);
        Self::lemma_levels_ok(old, *self, l);
        let ofl = old.levels_spec()[l].free_list();
        assert(old.level_ok(l));
        lemma_remove_contains(ofl, 0, ofl[0]);
        assert forall|a: int, b: int| #[trigger] self.valid_node(a, b) implies self.node_ok(a, b) by {
            assert(old.valid_node(a, b));
            assert(old.node_ok(a, b));
            if a == l && b != k {
                lemma_remove_contains(ofl, 0, self.addr(a, b) as usize);
                old.lemma_node_in_level(a, b);
                old.lemma_node_in_level(a, k);
                if self.addr(a, b) as usize == ofl[0] {
                    old.lemma_addr_injective(a, b, k);
                }
            }
        }
        assert forall|l2: int, k2: int| !(l2 == l && k2 == k) implies #[trigger] self.is_allocated(
            l2,
            k2,
        ) == old.is_allocated(l2, k2) by {}
    }

    /// Facts about the halves of a freshly allocated block `k` of level `l + 1`.
    proof fn lemma_split_facts(&self, l: int, k: int)
        requires
            self.wf(),
            0 <= l < self.top(),
            self.is_allocated(l + 1, k),
        ensures
            self.valid_node(l, 2 * k),
            self.valid_node(l, 2 * k + 1),
            self.st(l, 2 * k) is Inside,
            self.st(l, 2 * k + 1) is Inside,
            !self.levels_spec()[l].bits()[2 * k],
            !self.levels_spec()[l].bits()[2 * k + 1],
            self.addr(l, 2 * k) == self.addr(l + 1, k),
            self.addr(l, 2 * k + 1) == self.addr(l + 1, k) + node_size(l),
            node_size(l) == pow2((MIN_ORDER + l) as nat),
            self.end_of(l, 2 * k + 1) == self.end_of(l + 1, k),
            self.end_of(l + 1, k) <= self.end_spec(),
            self.levels_spec()[l].is_block(self.addr(l, 2 * k)),
            self.levels_spec()[l].is_block(self.addr(l, 2 * k + 1)),
            self.levels_spec()[l].bit_of(self.addr(l, 2 * k)) == 2 * k,
            self.levels_spec()[l].bit_of(self.addr(l, 2 * k + 1)) == 2 * k + 1,
            self.addr(l, 2 * k) != self.addr(l, 2 * k + 1),
            self.addr(l + 1, k) + node_size(l) <= usize::MAX,
    {
        lemma_children_valid(self.top(), l + 1, k);
        lemma_children(self.start_spec(), l + 1, k);
        assert(self.valid_node(l, 2 * k));
        assert(self.valid_node(l, 2 * k + 1));
        assert(self.node_ok(l, 2 * k));
        assert(self.node_ok(l, 2 * k + 1));
        assert(self.node_ok(l + 1, k));
        self.lemma_node_in_level(l, 2 * k);
        self.lemma_node_in_level(l, 2 * k + 1);
    }

    /// After splitting the freshly allocated block `k` of level `l + 1` into an allocated first
    /// half and a free second half.
    proof fn lemma_after_split(&self, old: Zone, mid: Zone, l: int, k: int)
        requires
            old.wf(),
            mid.wf(),
            mid.same_zone(old),
            0 <= l < old.top(),
            Self::allocated_one(old, mid, l + 1, k, mid.addr(l + 1, k)),
            mid.levels_spec()[l] == old.levels_spec()[l],
            old.levels_spec()[l].free_list().len() == 0,
            Self::only_level_changed(mid, *self, l),
            self.levels_spec()[l].free_list() == seq![mid.addr(l, 2 * k) as usize],
            self.levels_spec()[l].bits() == mid.levels_spec()[l].bits().update(2 * k + 1, true),
            self.status@ == with_status(
                with_status(
                    with_status(mid.status@, l + 1, k, NodeStatus::Split),
                    l,
                    2 * k + 1,
                    NodeStatus::Allocated,
                ),
                l,
                2 * k,
                NodeStatus::Free,
            ),
        ensures
            self.wf(),
            Self::allocated_one(old, *self, l, 2 * k + 1, mid.addr(l, 2 * k + 1)),
    {
        mid.lemma_split_facts(l, k);
        Self::lemma_levels_ok(mid, *self, l);
        lemma_parent(mid.start_spec(), l, 2 * k);
        lemma_parent(mid.start_spec(), l, 2 * k + 1);
        assert(mid.st(l + 1, k) is Allocated);
        assert forall|a: int, b: int| #[trigger] self.valid_node(a, b) implies self.node_ok(a, b) by {
            assert(mid.valid_node(a, b));
            assert(mid.node_ok(a, b));
            if a == l {
                mid.lemma_node_in_level(a, b);
                lemma_push_front_contains(
                    mid.addr(l, 2 * k) as usize,
                    Seq::<usize>::empty(),
                    self.addr(a, b) as usize,
                );
                assert(seq![mid.addr(l, 2 * k) as usize] =~= seq![
                    mid.addr(l, 2 * k) as usize,
                ] + Seq::<usize>::empty());
                if b != 2 * k && self.addr(a, b) == self.addr(l, 2 * k) {
                    mid.lemma_addr_injective(l, b, 2 * k);
                }
                assert(!old.levels_spec()[l].free_list().contains(mid.addr(a, b) as usize));
                if b == 2 * k + 1 {
                    assert(self.st(a, b) is Allocated);
                    assert(self.levels_spec()[l].bits()[b]);
                    assert(self.st(l + 1, b / 2) is Split);
                } else if b == 2 * k {
                    assert(self.st(a, b) is Free);
                    assert(!self.levels_spec()[l].bits()[b]);
                    assert(self.st(l + 1, b / 2) is Split);
                } else {
                    assert(self.st(a, b) == mid.st(a, b));
                    assert(self.levels_spec()[l].bits()[b] == mid.levels_spec()[l].bits()[b]);
                    lemma_parent(mid.start_spec(), l, b);
                    assert(self.st(l + 1, b / 2) == mid.st(l + 1, b / 2));
                }
            } else if a == l + 1 && b == k {
                assert(self.st(a, b) is Split);
                assert(self.levels_spec()[a] == mid.levels_spec()[a]);
            } else if a + 1 == l && (b / 2 == 2 * k || b / 2 == 2 * k + 1) {
                lemma_parent_valid(mid.top(), a, b);
                assert(mid.node_ok(l, b / 2));
                assert(self.st(a, b) == mid.st(a, b));
                assert(self.levels_spec()[a] == mid.levels_spec()[a]);
            } else {
                assert(self.st(a, b) == mid.st(a, b));
                assert(self.levels_spec()[a] == mid.levels_spec()[a]);
                if a < self.top() {
                    assert(self.st(a + 1, b / 2) == mid.st(a + 1, b / 2));
                }
                Self::lemma_node_ok_frame(mid, *self, a, b);
            }
        }
        assert forall|l2: int, k2: int| !(l2 == l && k2 == 2 * k + 1) implies #[trigger] self.is_allocated(
            l2,
            k2,
        ) == old.is_allocated(l2, k2) by {
            assert(mid.is_allocated(l2, k2) == old.is_allocated(l2, k2) || (l2 == l + 1 && k2 == k));
        }
        assert(!old.is_allocated(l, 2 * k + 1)) by {
            assert(mid.is_allocated(l, 2 * k + 1) == old.is_allocated(l, 2 * k + 1));
        }
    }

    proof fn lemma_unchanged_wf(old: Zone, new: Zone)
        requires
            old.wf(),
            new.same_zone(old),
            new.levels_spec() == old.levels_spec(),
            forall|l: int, k: int| #[trigger] new.st(l, k) == old.st(l, k),
        ensures
            new.wf(),
    {
        assert forall|l: int| 0 <= l <= new.top() implies #[trigger] new.level_ok(l) by {
            assert(old.level_ok(l));
        }
        assert forall|l: int, k: int| #[trigger] new.valid_node(l, k) implies new.node_ok(l, k) by {
            assert(old.valid_node(l, k));
            assert(old.node_ok(l, k));
            assert(new.st(l, k) == old.st(l, k));
            assert(new.st(l + 1, k / 2) == old.st(l + 1, k / 2));
        }
    }

    fn level_index_to_order(index: usize) -> (r: u8)
        requires
            index + MIN_ORDER < usize::BITS,
        ensures
            r == index + MIN_ORDER,
    {
        index as u8 + MIN_ORDER
    }

    fn order_to_level_index(order: u8) -> (r: usize)
        requires
            order >= MIN_ORDER,
        ensures
            r == order - MIN_ORDER,
    {
        (order - MIN_ORDER) as usize
    }

    /// Level `j` is the first level from `index` up whose free list holds a block.
    pub open spec fn is_first_free(&self, index: int, j: int) -> bool {
        &&& index <= j <= self.top()
        &&& self.levels_spec()[j].free_list().len() > 0
        &&& forall|m: int| index <= m < j ==> #[trigger] self.levels_spec()[m].free_list().len() == 0
    }

    /// The address of the block that a request for a block of level `index` is served with:
    /// the head of the first free list from `index` up, split down to level `index` by taking
    /// the second half each time. None when every free list from `index` up is empty.
    pub open spec fn served_block(&self, index: int) -> Option<int> {
        if exists|j: int| self.is_first_free(index, j) {
            let j = choose|j: int| self.is_first_free(index, j);
            Some(self.levels_spec()[j].free_list()[0] + node_size(j) - node_size(index))
        } else {
            None
        }
    }

    /// When the level of blocks of `size` bytes had no free block, the block at `a` was split
    /// off a larger one, and the first half of its parent is now the only free block of that
    /// level.
    pub open spec fn split_rest(old: Zone, new: Zone, size: int, a: int) -> bool {
        forall|l: int|
            0 <= l <= old.top() && node_size(l) == size && #[trigger] old.levels_spec()[l].free_list().len() == 0
                ==> new.levels_spec()[l].free_list() == seq![(a - size) as usize]
    }

    /// The zone serves a request for a block of `size` bytes with the block at `a`.
    pub open spec fn hands_out(&self, size: int, a: int) -> bool {
        exists|l: int| 0 <= l && node_size(l) == size && #[trigger] self.served_block(l) == Some(a)
    }

    /// How serving a request for a block of level `l` with block `k` changed the free lists:
    /// `k` descends from the head of level `j`, the first free level from `l` up, which left
    /// its list; on each level from `l` to below `j` the buddy of the ancestor of `k`, the first
    /// half split off there, is now the only free block; the other lists are as they were.
    pub open spec fn split_from(old: Zone, new: Zone, l: int, k: int, j: int) -> bool {
        &&& old.is_first_free(l, j)
        &&& old.is_free_block(j, ancestor(k, l, j))
        &&& old.levels_spec()[j].free_list()[0] as int == old.addr(j, ancestor(k, l, j))
        &&& new.levels_spec()[j].free_list() == old.levels_spec()[j].free_list().drop_first()
        &&& forall|m: int|
            l <= m < j ==> #[trigger] new.levels_spec()[m].free_list() == seq![
                new.addr(m, buddy_index(ancestor(k, l, m))) as usize,
            ] && new.is_free_block(m, buddy_index(ancestor(k, l, m)))
        &&& forall|m: int|
            0 <= m <= old.top() && (m < l || m > j) ==> #[trigger] new.levels_spec()[m].free_list()
                == old.levels_spec()[m].free_list()
    }

    /// `new` served a request for `size` bytes with the block at `a`, which descends from the
    /// head of the first free level that was large enough, as [`Zone::split_from`] says.
    pub open spec fn served_from(old: Zone, new: Zone, size: int, a: int) -> bool {
        exists|l: int, k: int, j: int|
            node_size(l) == size && Self::allocated_one(old, new, l, k, a) && #[trigger] Self::split_from(
                old,
                new,
                l,
                k,
                j,
            )
    }

    /// The block served from the first free level `j`.
    proof fn lemma_served_block_at(&self, index: int, j: int)
        requires
            self.is_first_free(index, j),
        ensures
            self.served_block(index) == Some(
                self.levels_spec()[j].free_list()[0] + node_size(j) - node_size(index),
            ),
    {
        let c = choose|c: int| self.is_first_free(index, c);
        if c < j {
            assert(self.levels_spec()[c].free_list().len() == 0);
        } else if c > j {
            assert(self.levels_spec()[j].free_list().len() == 0);
        }
    }

    /// Take a block of level `index`, splitting a larger block when the level has none free.
    ///
    /// Returns the block's address and its level.
    fn level_allocate(&mut self, index: usize) -> (r: Option<(PhysicalAddress, usize)>)
        requires
            old(self).wf(),
            old(self).buddies_merged(),
        ensures
            final(self).wf(),
            final(self).buddies_merged(),
            final(self).same_zone(*old(self)),
            final(self).available_spec() == old(self).available_spec(),
            forall|j: int|
                0 <= j < index && j < old(self).levels_spec().len()
                    ==> #[trigger] final(self).levels_spec()[j] == old(self).levels_spec()[j],
            r is None ==> Self::unchanged(*old(self), *final(self)),
            r is None ==> forall|j: int|
                index <= j <= old(self).top() ==> #[trigger] old(self).levels_spec()[j].free_list().len()
                    == 0,
            r is Some ==> r.unwrap().1 == index,
            r is Some ==> Self::allocated_at(*old(self), *final(self), index as int, r.unwrap().0.value as int),
            r is Some ==> old(self).served_block(index as int) == Some(r.unwrap().0.value as int),
            r is Some ==> final(self).free_bytes() == old(self).free_bytes() - node_size(index as int),
            r is Some ==> exists|k: int, j: int|
                Self::allocated_one(*old(self), *final(self), index as int, k, r.unwrap().0.value as int)
                    && #[trigger] Self::split_from(*old(self), *final(self), index as int, k, j),
            r is Some && old(self).levels_spec()[index as int].free_list().len() == 0
                ==> final(self).levels_spec()[index as int].free_list()
                == seq![(r.unwrap().0.value - node_size(index as int)) as usize],
            index <= old(self).top() && old(self).levels_spec()[index as int].free_list().len() > 0
                ==> r == Some(
                (
                    PhysicalAddress { value: old(self).levels_spec()[index as int].free_list()[0] },
                    index,
                ),
            ),
        decreases old(self).levels_spec().len() - index,
    {
        if index >= self.levels.len() {
            return None;
        }
        let ghost old_zone: Zone = *self;
        proof {
            assert(self.level_ok(index as int));
            if self.levels@[index as int].free_list().len() > 0 {
                self.lemma_free_entry(index as int, 0);
                let k = self.levels@[index as int].bit_of(
                    self.levels@[index as int].free_list()[0] as int,
                );
                assert(self.node_ok(index as int, k));
            }
        }
        let popped = self.levels[index].pop_from_list_and_mark_as_used();
        match popped {
            Some(addr) => {
                let ghost lk: int = old_zone.levels_spec()[index as int].bit_of(addr.value as int);
                proof {
                    old_zone.lemma_free_entry(index as int, 0);
                }
                self.status = Ghost(with_status(self.status@, index as int, lk, NodeStatus::Allocated));
                proof {
                    self.lemma_after_take(old_zone, index as int, lk);
                    assert(Self::allocated_one(old_zone, *self, index as int, lk, addr.value as int));
                    assert(old_zone == *old(self));
                    assert(exists|k: int| #[trigger] Self::allocated_one(old_zone, *self, index as int, k, addr.value as int));
                }
                assert(Self::allocated_one(*old(self), *self, index as int, lk, addr.value as int));
                proof {
                    old_zone.lemma_served_block_at(index as int, index as int);
                    assert(self.levels@ =~= old_zone.levels@.update(index as int, self.levels@[index as int]));
                    Self::lemma_free_bytes_diff(old_zone, *self, index as int);
                    let d: int = self.levels_spec()[index as int].free_list().len()
                        - old_zone.levels_spec()[index as int].free_list().len();
                    assert(d == -1);
                    assert(d * node_size(index as int) == -node_size(index as int)) by (nonlinear_arith)
                        requires d == -1;
                    Self::lemma_merged_kept(old_zone, *self, -1, 0);
                    lemma_ancestor_self(lk, index as int);
                    assert(Self::split_from(old_zone, *self, index as int, lk, index as int));
                }
                Some((addr, index))
            },
            None => {
                proof {
                    assert(self.levels@ =~= old_zone.levels@);
                    assert(Self::unchanged(old_zone, *self));
                    Self::lemma_unchanged_wf(old_zone, *self);
                    Self::lemma_merged_kept(old_zone, *self, -1, 0);
                }
                let ghost pre: Zone = *self;
                match self.level_allocate(index + 1) {
                    None => {
                        proof {
                            assert forall|j: int| index <= j <= old_zone.top() implies #[trigger] old_zone.levels_spec()[j].free_list().len() == 0 by {
                                if j > index {
                                    assert(pre.levels_spec()[j].free_list().len() == 0);
                                }
                            }
                            assert(Self::unchanged(old_zone, *self));
                        }
                        None
                    },
                    Some(pair) => {
                        let ghost mid: Zone = *self;
                        let allocated_addr = pair.0;
                        let parent_index: usize = pair.1;
                        let target_index: usize = parent_index - 1;
                        proof {
                            assert(target_index == index);
                        }
                        let ghost pk: int = choose|k: int|
                            #[trigger] Self::allocated_one(
                                pre,
                                mid,
                                index + 1,
                                k,
                                allocated_addr.value as int,
                            );
                        proof {
                            assert(mid.level_ok(index as int));
                            mid.lemma_split_facts(index as int, pk);
                            assert(mid.levels_spec()[index as int] == pre.levels_spec()[index as int]);
                            assert(pre.levels_spec()[index as int].free_list().len() == 0);
                        }
                        let first_half = allocated_addr;
                        let order: u8 = Self::level_index_to_order(target_index);
                        let half: usize = pow2_usize(order);
                        let second_half = allocated_addr.offset(half);
                        self.levels[index].push_free_block(first_half);
                        self.levels[index].mark_as_used(second_half);
                        let ghost f1 = with_status(self.status@, index as int + 1, pk, NodeStatus::Split);
                        let ghost f2 = with_status(f1, index as int, 2 * pk + 1, NodeStatus::Allocated);
                        let ghost f3 = with_status(f2, index as int, 2 * pk, NodeStatus::Free);
                        self.status = Ghost(f3);
                        proof {
                            assert(self.levels@[index as int].free_list() =~= seq![mid.addr(index as int, 2 * pk) as usize]);
                            assert(self.levels@ =~= mid.levels@.update(index as int, self.levels@[index as int]));
                            self.lemma_after_split(pre, mid, index as int, pk);
                            assert(Self::allocated_one(old_zone, *self, index as int, 2 * pk + 1, second_half.value as int)) by {
                                assert forall|l2: int, k2: int| #[trigger] pre.is_allocated(l2, k2) == old_zone.is_allocated(l2, k2) by {}
                            }
                            let i1: int = index + 1;
                            let j = choose|j: int| pre.is_first_free(i1, j);
                            assert(pre.is_first_free(i1, j));
                            pre.lemma_served_block_at(i1, j);
                            assert(pre.levels_spec() == old_zone.levels_spec());
                            assert forall|m: int| index <= m < j implies #[trigger] old_zone.levels_spec()[m].free_list().len() == 0 by {
                                if m > index {
                                    assert(pre.levels_spec()[m].free_list().len() == 0);
                                }
                            }
                            assert(old_zone.is_first_free(index as int, j));
                            assert(self.levels_spec()[index as int].free_list() == seq![(second_half.value - node_size(index as int)) as usize]);
                            old_zone.lemma_served_block_at(index as int, j);
                            lemma_pow2_facts((MIN_ORDER + index) as nat);
                            assert((MIN_ORDER + index + 1) as nat == (MIN_ORDER + index) as nat + 1);
                            assert(node_size(index + 1) == 2 * node_size(index as int));
                            Self::lemma_free_bytes_diff(pre, old_zone, index as int);
                            Self::lemma_free_bytes_diff(mid, *self, index as int);
                            assert(buddy_index(2 * pk) == 2 * pk + 1);
                            assert(self.st(index as int, 2 * pk + 1) is Allocated);
                            Self::lemma_merged_kept(mid, *self, index as int, 2 * pk);
                            let (kq, jq) = choose|kq: int, jq: int|
                                Self::allocated_one(pre, mid, i1, kq, allocated_addr.value as int)
                                    && #[trigger] Self::split_from(pre, mid, i1, kq, jq);
                            assert(mid.valid_node(i1, kq));
                            assert(mid.valid_node(i1, pk));
                            mid.lemma_addr_injective(i1, kq, pk);
                            let ka: int = 2 * pk + 1;
                            assert(ka / 2 == pk);
                            lemma_ancestor_self(ka, index as int);
                            assert(pre.is_first_free(i1, jq));
                            assert(jq == j) by {
                                if jq < j {
                                    assert(pre.levels_spec()[jq].free_list().len() == 0);
                                } else if jq > j {
                                    assert(pre.levels_spec()[j].free_list().len() == 0);
                                }
                            }
                            lemma_ancestor_step(ka, index as int, j);
                            lemma_ancestor_self(pk, i1);
                            assert forall|m: int| index <= m < j implies #[trigger] self.levels_spec()[m].free_list() == seq![
                                self.addr(m, buddy_index(ancestor(ka, index as int, m))) as usize,
                            ] && self.is_free_block(m, buddy_index(ancestor(ka, index as int, m))) by {
                                if m > index {
                                    lemma_ancestor_step(ka, index as int, m);
                                    assert(self.levels_spec()[m] == mid.levels_spec()[m]);
                                    assert(mid.levels_spec()[m].free_list() == self.levels_spec()[m].free_list());
                                    assert(mid.is_free_block(m, buddy_index(ancestor(pk, i1, m))));
                                } else {
                                    assert(buddy_index(ka) == 2 * pk);
                                }
                            }
                            assert forall|m: int| 0 <= m <= old_zone.top() && (m < index || m > j) implies #[trigger] self.levels_spec()[m].free_list()
                                == old_zone.levels_spec()[m].free_list() by {
                                assert(self.levels_spec()[m] == mid.levels_spec()[m]);
                            }
                            assert(self.levels_spec()[j] == mid.levels_spec()[j]);
                            assert(pre.is_free_block(j, ancestor(pk, i1, j)));
                            assert(old_zone.is_free_block(j, ancestor(ka, index as int, j)));
                            assert(Self::split_from(old_zone, *self, index as int, ka, j));
                        }
                        Some((second_half, target_index))
                    },
                }
            },
        }
    }
}

impl Zone {
    /// The first byte of the zone.
    pub fn start(&self) -> (r: PhysicalAddress)
        ensures
            r.value == self.start_spec(),
    {
        self.addr_start
    }

    /// The number of bytes from the start to the end of the zone.
    pub fn size(&self) -> (r: usize)
        requires
            self.wf(),
        ensures
            r == self.end_spec() - self.start_spec(),
    {
        self.addr_end.value - self.addr_start.value
    }

    /// The counter of bytes not yet handed out.
    pub fn available(&self) -> (r: usize)
        ensures
            r == self.available_spec(),
    {
        self.available
    }

    /// Whether `addr` lies between the start and the end of the zone, both included.
    pub fn contains(&self, addr: PhysicalAddress) -> (r: bool)
        ensures
            r == (self.start_spec() <= addr.value <= self.end_spec()),
    {
        addr.value >= self.addr_start.value && addr.value <= self.addr_end.value
    }

    /// Whether the range of `size` bytes at `addr` touches the zone.
    pub fn clashes(&self, addr: PhysicalAddress, size: usize) -> (r: bool)
        requires
            addr.value + size <= usize::MAX,
        ensures
            r == ((self.start_spec() <= addr.value <= self.end_spec()) || (self.start_spec()
                <= addr.value + size <= self.end_spec()) || (addr.value <= self.start_spec()
                <= addr.value + size)),
    {
        self.contains(addr) || self.contains(addr.offset(size)) || self.addr_start.value
            >= addr.value && self.addr_start.value <= addr.value + size
    }

    /// Allocate a block of at least `size` bytes, `size` being a power of two.
    ///
    /// Returns the block's address and its size, `max(size, 4096)`.
    #[verifier::rlimit(30)]
    pub fn allocate(&mut self, size: usize) -> (r: Option<(PhysicalAddress, usize)>)
        requires
            old(self).wf(),
            old(self).counts_ok(),
            old(self).buddies_merged(),
            is_power_of_two(size as nat),
        ensures
            final(self).wf(),
            final(self).counts_ok(),
            final(self).buddies_merged(),
            r is Some ==> r.unwrap().1 <= old(self).available_spec(),
            final(self).same_zone(*old(self)),
            r is None ==> Self::unchanged(*old(self), *final(self)),
            r is None ==> forall|j: int|
                0 <= j <= old(self).top() && node_size(j) >= size ==> #[trigger] old(
                    self,
                ).levels_spec()[j].free_list().len() == 0,
            r is Some ==> r.unwrap().1 == block_size_for(size as int),
            r is Some ==> Self::allocated_sized(
                *old(self),
                *final(self),
                r.unwrap().1 as int,
                r.unwrap().0.value as int,
            ),
            r is Some ==> final(self).available_spec() == wrapping_sub_spec(
                old(self).available_spec(),
                r.unwrap().1 as int,
            ),
            r is Some ==> old(self).hands_out(r.unwrap().1 as int, r.unwrap().0.value as int),
            r is Some ==> Self::served_from(*old(self), *final(self), r.unwrap().1 as int, r.unwrap().0.value as int),
            r is Some ==> Self::split_rest(*old(self), *final(self), r.unwrap().1 as int, r.unwrap().0.value as int),
    {
        let size_order: u8 = order_of_two(size);
        let order: u8 = if size_order < MIN_ORDER {
            MIN_ORDER
        } else {
            size_order
        };
        let level_index: usize = Self::order_to_level_index(order);
        proof {
            lemma_pow2_facts(MIN_ORDER as nat);
            lemma_pow2_monotone(size_order as nat, MIN_ORDER as nat);
            assert(node_size(level_index as int) == pow2(order as nat));
            assert forall|j: int| 0 <= j && node_size(j) >= size implies j >= level_index by {
                if j < level_index {
                    lemma_pow2_monotone((MIN_ORDER + j) as nat, order as nat);
                    lemma_pow2_monotone(size_order as nat, (MIN_ORDER + j) as nat);
                }
            }
        }
        let ghost old_zone: Zone = *self;
        match self.level_allocate(level_index) {
            None => {
                proof {
                    assert forall|j: int|
                        0 <= j <= old_zone.top() && node_size(j) >= size implies #[trigger] old_zone.levels_spec()[j].free_list().len() == 0 by {
                        assert(j >= level_index);
                    }
                    Self::lemma_free_bytes_diff(old_zone, *self, 0);
                    Self::lemma_alloc_bytes_diff(old_zone, *self, 0, 0);
                }
                None
            },
            Some(pair) => {
                let addr = pair.0;
                let index: usize = pair.1;
                let ghost mid: Zone = *self;
                let ghost k: int = choose|k: int| #[trigger] Self::allocated_one(old_zone, mid, index as int, k, addr.value as int);
                proof {
                    assert(self.valid_node(index as int, k));
                }
                let block_order: u8 = Self::level_index_to_order(index);
                let block_size: usize = pow2_usize(block_order);
                proof {
                    Self::lemma_alloc_bytes_diff(old_zone, mid, index as int, k);
                    mid.lemma_bytes_nonneg(mid.top() + 1);
                    assert(block_size <= self.available);
                }
                self.available = self.available.wrapping_sub(block_size);
                proof {
                    assert forall|l2: int, k2: int| #[trigger] self.is_allocated(l2, k2) == mid.is_allocated(l2, k2) by {}
                    assert(Self::allocated_one(old_zone, *self, index as int, k, addr.value as int));
                    assert(Self::allocated_at(old_zone, *self, index as int, addr.value as int));
                    Self::lemma_unchanged_wf(mid, *self);
                    assert(node_size(index as int) == block_size);
                    assert(old_zone.served_block(index as int) == Some(addr.value as int));
                    assert forall|l: int|
                        0 <= l <= old_zone.top() && node_size(l) == block_size && #[trigger] old_zone.levels_spec()[l].free_list().len() == 0
                        implies self.levels_spec()[l].free_list() == seq![(addr.value - block_size) as usize] by {
                        lemma_pow2_injective((MIN_ORDER + l) as nat, (MIN_ORDER + index) as nat);
                    }
                    Self::lemma_free_bytes_diff(mid, *self, 0);
                    Self::lemma_alloc_bytes_diff(mid, *self, index as int, k);
                    Self::lemma_merged_kept(mid, *self, -1, 0);
                    let (k2, j2) = choose|k2: int, j2: int|
                        Self::allocated_one(old_zone, mid, index as int, k2, addr.value as int)
                            && #[trigger] Self::split_from(old_zone, mid, index as int, k2, j2);
                    assert(Self::allocated_one(old_zone, *self, index as int, k2, addr.value as int));
                    assert(self.levels_spec() == mid.levels_spec());
                    assert forall|m: int| index <= m < j2 implies #[trigger] self.levels_spec()[m].free_list() == seq![
                        self.addr(m, buddy_index(ancestor(k2, index as int, m))) as usize,
                    ] && self.is_free_block(m, buddy_index(ancestor(k2, index as int, m))) by {
                        assert(mid.levels_spec()[m].free_list() == self.levels_spec()[m].free_list());
                    }
                    assert(Self::split_from(old_zone, *self, index as int, k2, j2));
                    assert(Self::served_from(old_zone, *self, block_size as int, addr.value as int));
                }
                Some((addr, block_size))
            },
        }
    }
}

impl Zone {
    /// The block of level `l - d` whose index is `k'` lies inside block `k'/2^d` of level `l`.
    pub proof fn lemma_ancestor_geometry(&self, l: int, d: int, k: int)
        requires
            self.wf(),
            0 <= d <= l <= self.top(),
            self.valid_node(l - d, k),
        ensures
            self.valid_node(l, k / pow2(d as nat) as int),
            self.addr(l, k / pow2(d as nat) as int) <= self.addr(l - d, k),
            self.end_of(l - d, k) <= self.end_of(l, k / pow2(d as nat) as int),
        decreases d,
    {
        lemma_pow2_facts(d as nat);
        if d == 0 {
            assert(k / 1 == k);
        } else {
            lemma_parent_valid(self.top(), l - d, k);
            lemma_parent(self.start_spec(), l - d, k);
            assert(l - d + 1 == l - (d - 1));
            self.lemma_ancestor_geometry(l, d - 1, k / 2);
            vstd::arithmetic::div_mod::lemma_div_denominator(k, 2, pow2((d - 1) as nat) as int);
            lemma_pow2_facts((d - 1) as nat);
        }
    }

    /// Every block below a block that is not split is inside it.
    pub proof fn lemma_descendant_inside(&self, l: int, d: int, k: int)
        requires
            self.wf(),
            1 <= d <= l <= self.top(),
            self.valid_node(l - d, k),
            !(self.st(l, k / pow2(d as nat) as int) is Split),
        ensures
            self.st(l - d, k) is Inside,
        decreases d,
    {
        lemma_pow2_facts(d as nat);
        lemma_parent_valid(self.top(), l - d, k);
        assert(self.node_ok(l - d, k));
        if d == 1 {
            assert(pow2(1) == 2);
        } else {
            vstd::arithmetic::div_mod::lemma_div_denominator(k, 2, pow2((d - 1) as nat) as int);
            lemma_pow2_facts((d - 1) as nat);
            assert(l - d + 1 == l - (d - 1));
            self.lemma_descendant_inside(l, d - 1, k / 2);
        }
    }

    /// The address of block `k` of level `l`, seen from level `j <= l`.
    pub proof fn lemma_addr_at_lower_level(&self, l: int, k: int, j: int)
        requires
            self.wf(),
            0 <= j <= l,
            self.valid_node(l, k),
        ensures
            self.levels_spec()[j].bit_of(self.addr(l, k)) == k * pow2((l - j) as nat),
            self.valid_node(j, k * pow2((l - j) as nat) as int),
            self.addr(j, k * pow2((l - j) as nat) as int) == self.addr(l, k),
            (k * pow2((l - j) as nat) as int) / pow2((l - j) as nat) as int == k,
    {
        let d = (l - j) as nat;
        let t = self.top();
        lemma_pow2_facts(d);
        lemma_pow2_facts((MIN_ORDER + j) as nat);
        vstd::arithmetic::power2::lemma_pow2_adds(d, (MIN_ORDER + j) as nat);
        assert(d + (MIN_ORDER + j) as nat == (MIN_ORDER + l) as nat);
        assert(node_size(l) == pow2(d) * node_size(j));
        let kk = k * pow2(d) as int;
        assert(k * node_size(l) == kk * node_size(j)) by (nonlinear_arith)
            requires
                node_size(l) == pow2(d) * node_size(j),
                kk == k * pow2(d) as int,
        ;
        assert(kk >= 0) by (nonlinear_arith)
            requires
                k >= 0,
                pow2(d) > 0,
                kk == k * pow2(d) as int,
        ;
        lemma_block_div(kk, node_size(j), 0);
        lemma_block_div(k, pow2(d) as int, 0);
        self.lemma_node_in_level(l, k);
        assert(self.level_ok(j));
        // kk is a block of level j
        lemma_pow2_facts((t - l) as nat);
        vstd::arithmetic::power2::lemma_pow2_adds((t - l) as nat, d);
        assert((t - l) as nat + d == (t - j) as nat);
        assert(kk < level_blocks(t, j)) by (nonlinear_arith)
            requires
                k < level_blocks(t, l),
                kk == k * pow2(d) as int,
                level_blocks(t, j) == level_blocks(t, l) * pow2(d),
                pow2(d) > 0,
        ;
    }

    /// The level of the allocated block that starts at `addr`.
    fn find_allocation_level_index(&self, addr: PhysicalAddress) -> (r: usize)
        requires
            self.wf(),
            exists|l: int, k: int| #[trigger] self.is_allocated(l, k) && self.addr(l, k) == addr.value,
        ensures
            exists|k: int| #[trigger] self.is_allocated(r as int, k) && self.addr(r as int, k) == addr.value,
    {
        let ghost (al, ak): (int, int) = choose|l: int, k: int| #[trigger] self.is_allocated(l, k) && self.addr(l, k) == addr.value;
        let mut index: usize = 0;
        while index < self.levels.len()
            invariant
                self.wf(),
                self.is_allocated(al, ak),
                self.addr(al, ak) == addr.value,
                index <= al,
            decreases self.levels@.len() - index,
        {
            proof {
                assert(self.level_ok(index as int));
                self.lemma_addr_at_lower_level(al, ak, index as int);
                let kk = ak * pow2((al - index) as nat) as int;
                self.lemma_node_in_level(index as int, kk);
                if index < al {
                    self.lemma_descendant_inside(al, al - index, kk);
                    assert(al - (al - index) == index);
                    assert(self.node_ok(index as int, kk));
                } else {
                    assert(self.node_ok(al, ak));
                    assert(pow2(0) == 1) by {
                        lemma_pow2_facts(0);
                    }
                    assert(ak * 1 == ak);
                    assert(self.levels@[index as int].bit_of(addr.value as int) == ak);
                    assert(self.levels@[index as int].bits()[ak]);
                }
            }
            if self.levels[index].is_within_allocated_block(addr) {
                proof {
                    if index < al {
                        assert(false);
                    }
                }
                return index;
            }
            proof {
                assert(index != al);
            }
            index = index + 1;
        }
        proof {
            assert(false);
        }
        0
    }
}

impl Zone {
    /// `new` has exactly the allocated blocks of `old` but block `k` of level `l`.
    pub open spec fn freed_one(old: Zone, new: Zone, l: int, k: int) -> bool {
        &&& old.is_allocated(l, k)
        &&& forall|l2: int, k2: int|
            #[trigger] new.is_allocated(l2, k2) == (old.is_allocated(l2, k2) && !(l2 == l && k2
                == k))
    }

    /// `new` has exactly the allocated blocks of `old` but the one of level `l` that holds `a`.
    pub open spec fn freed_at(old: Zone, new: Zone, l: int, a: int) -> bool {
        exists|k: int| #[trigger] Self::freed_one(old, new, l, k) && old.holds_in(l, k, a)
    }

    /// Block `k` of level `l` holds the address `a`.
    pub open spec fn holds_in(&self, l: int, k: int, a: int) -> bool {
        self.addr(l, k) <= a < self.end_of(l, k)
    }

    /// `new` has exactly the allocated blocks of `old` but the one that starts at `a`, its
    /// counter of available bytes grew by the size of that block, and that block was merged
    /// with its free buddies as far as they go, the merged block going in front of its level's
    /// free list, as [`Zone::merged_into`] says.
    pub open spec fn freed_block(old: Zone, new: Zone, a: int) -> bool {
        exists|l: int, k: int|
            #[trigger] Self::freed_one(old, new, l, k) && old.addr(l, k) == a && new.available_spec()
                == wrapping_add_spec(old.available_spec(), node_size(l)) && new.merged_from(l, k)
                && exists|l2: int| Self::merged_into(old, new, l, k, l2)
    }

    /// An address that a block holds lies in the block's parent too, and gives the block's
    /// index on the block's level.
    proof fn lemma_holds_in_parent(&self, l: int, k: int, a: int)
        requires
            self.wf(),
            0 <= l < self.top(),
            self.valid_node(l, k),
            self.holds_in(l, k, a),
        ensures
            self.holds_in(l + 1, k / 2, a),
            self.holds_in(l + 1, k / 2, self.addr(l, k)),
    {
        lemma_parent(self.start_spec(), l, k);
        lemma_pow2_facts((MIN_ORDER + l) as nat);
    }

    /// The index of the block of level `l` that holds `a` is what the level computes from `a`.
    proof fn lemma_holds_in_bit(&self, l: int, k: int, a: int)
        requires
            self.wf(),
            self.valid_node(l, k),
            self.holds_in(l, k, a),
        ensures
            self.levels_spec()[l].bit_of(a) == k,
            self.levels_spec()[l].addr_of(k) == self.addr(l, k),
            a >= self.levels_spec()[l].base_spec(),
    {
        self.lemma_node_in_level(l, k);
        assert(self.level_ok(l));
        lemma_block_div(k, node_size(l), a - self.addr(l, k));
        assert(k * node_size(l) + (a - self.addr(l, k)) == a - self.start_spec());
    }

    /// Give back the block of level `index` that holds `addr`, merging it with free buddies.
    fn level_deallocate(&mut self, index: usize, addr: PhysicalAddress)
        requires
            old(self).wf(),
            old(self).buddies_merged(),
            exists|k: int|
                #[trigger] old(self).is_allocated(index as int, k) && old(self).holds_in(index as int, k, addr.value as int),
        ensures
            final(self).wf(),
            final(self).same_zone(*old(self)),
            final(self).available_spec() == old(self).available_spec(),
            Self::freed_at(*old(self), *final(self), index as int, addr.value as int),
            final(self).free_bytes() == old(self).free_bytes() + node_size(index as int),
            final(self).buddies_merged(),
            forall|k: int|
                old(self).is_allocated(index as int, k) && old(self).holds_in(index as int, k, addr.value as int) ==> #[trigger] final(self).merged_from(index as int, k),
            forall|k: int|
                #[trigger] old(self).is_allocated(index as int, k) && old(self).holds_in(index as int, k, addr.value as int)
                    ==> exists|l2: int| Self::merged_into(*old(self), *final(self), index as int, k, l2),
        decreases old(self).levels_spec().len() - index,
    {
        let ghost old_zone: Zone = *self;
        let ghost k: int = choose|k: int|
            #[trigger] old_zone.is_allocated(index as int, k) && old_zone.holds_in(index as int, k, addr.value as int);
        if index >= self.levels.len() {
            return ;
        }
        proof {
            assert(self.level_ok(index as int));
            self.lemma_node_in_level(index as int, k);
            assert(self.node_ok(index as int, k));
            lemma_pow2_facts((MIN_ORDER + index) as nat);
        }
        proof {
            self.lemma_holds_in_bit(index as int, k, addr.value as int);
        }
        let aligned_addr = self.levels[index].block_start(addr);
        self.levels[index].mark_as_unused(aligned_addr);
        let ghost after_mark: Zone = *self;
        proof {
            assert(self.levels@ =~= old_zone.levels@.update(index as int, self.levels@[index as int]));
            lemma_parent(self.start_spec(), index as int, k);
        }
        if self.levels[index].has_buddy(aligned_addr) && !self.levels[index].is_buddy_used(aligned_addr) {
            let ghost y: int = buddy_index(k);
            proof {
                old_zone.lemma_merge_facts(index as int, k);
                assert(self.levels@[index as int].bits()[y] == old_zone.levels_spec()[index as int].bits()[y]);
            }
            self.levels[index].remove_buddy_from_list(aligned_addr);
            let ghost f1 = with_status(self.status@, index as int, k, NodeStatus::Inside);
            let ghost f2 = with_status(f1, index as int, y, NodeStatus::Inside);
            let ghost f3 = with_status(f2, index as int + 1, k / 2, NodeStatus::Allocated);
            self.status = Ghost(f3);
            proof {
                assert(self.levels@ =~= old_zone.levels@.update(index as int, self.levels@[index as int]));
                self.lemma_after_merge(old_zone, index as int, k);
                old_zone.lemma_holds_in_parent(index as int, k, addr.value as int);
            }
            let ghost mid: Zone = *self;
            proof {
                Self::lemma_free_bytes_diff(old_zone, mid, index as int);
                let d: int = mid.levels_spec()[index as int].free_list().len()
                    - old_zone.levels_spec()[index as int].free_list().len();
                assert(d == -1);
                assert(d * node_size(index as int) == -node_size(index as int)) by (nonlinear_arith)
                    requires d == -1;
                lemma_pow2_facts((MIN_ORDER + index) as nat);
                assert((MIN_ORDER + index + 1) as nat == (MIN_ORDER + index) as nat + 1);
                Self::lemma_merged_kept(old_zone, mid, -1, 0);
            }
            self.level_deallocate(index + 1, aligned_addr);
            proof {
                assert(node_size(index + 1) == 2 * node_size(index as int));
                assert(self.free_bytes() == old_zone.free_bytes() + node_size(index as int));
                let k2 = choose|k2: int|
                    #[trigger] Self::freed_one(mid, *self, index as int + 1, k2) && mid.holds_in(index as int + 1, k2, aligned_addr.value as int);
                assert(mid.valid_node(index as int + 1, k / 2));
                assert(mid.holds_in(index as int + 1, k / 2, aligned_addr.value as int));
                mid.lemma_holds_in_bit(index as int + 1, k2, aligned_addr.value as int);
                mid.lemma_holds_in_bit(index as int + 1, k / 2, aligned_addr.value as int);
                assert(Self::freed_one(old_zone, *self, index as int, k));
                let i1: int = index + 1;
                let kp: int = k / 2;
                assert(mid.is_allocated(i1, kp));
                assert(self.merged_from(i1, kp));
                let l2 = choose|l2: int| #[trigger] self.merged_at(i1, kp, l2);
                lemma_pow2_facts((l2 - i1) as nat);
                assert((l2 - index) as nat == (l2 - i1) as nat + 1);
                assert(pow2((l2 - index) as nat) == 2 * pow2((l2 - i1) as nat));
                vstd::arithmetic::div_mod::lemma_div_denominator(k, 2, pow2((l2 - i1) as nat) as int);
                assert(kp / pow2((l2 - i1) as nat) as int == k / pow2((l2 - index) as nat) as int);
                assert(self.merged_at(index as int, k, l2));
                assert forall|k3: int|
                    old_zone.is_allocated(index as int, k3) && old_zone.holds_in(index as int, k3, addr.value as int) implies #[trigger] self.merged_from(index as int, k3) by {
                    old_zone.lemma_holds_in_bit(index as int, k3, addr.value as int);
                    old_zone.lemma_holds_in_bit(index as int, k, addr.value as int);
                    assert(self.merged_at(index as int, k3, l2));
                }
                assert(mid.is_allocated(i1, kp) && mid.holds_in(i1, kp, aligned_addr.value as int));
                let l3 = choose|l3: int| Self::merged_into(mid, *self, i1, kp, l3);
                assert(Self::merged_into(mid, *self, i1, kp, l3));
                assert(k / 2 == kp);
                lemma_ancestor_self(k, index as int);
                lemma_ancestor_self(kp, i1);
                assert forall|m: int| index <= m < l3 implies #[trigger] old_zone.is_free_block(
                    m,
                    buddy_index(ancestor(k, index as int, m)),
                ) by {
                    if m > index {
                        lemma_ancestor_step(k, index as int, m);
                        assert(mid.is_free_block(m, buddy_index(ancestor(kp, i1, m))));
                    }
                }
                assert forall|m: int| index <= m < l3 implies removed_one(
                    old_zone.levels_spec()[m].free_list(),
                    #[trigger] self.levels_spec()[m].free_list(),
                    old_zone.addr(m, buddy_index(ancestor(k, index as int, m))),
                ) by {
                    if m > index {
                        lemma_ancestor_step(k, index as int, m);
                        assert(mid.levels_spec()[m] == old_zone.levels_spec()[m]);
                        assert(removed_one(
                            mid.levels_spec()[m].free_list(),
                            self.levels_spec()[m].free_list(),
                            mid.addr(m, buddy_index(ancestor(kp, i1, m))),
                        ));
                    } else {
                        assert(self.levels_spec()[m].free_list() == mid.levels_spec()[m].free_list());
                        let i = choose|i: int|
                            0 <= i < old_zone.levels_spec()[m].free_list().len()
                                && old_zone.levels_spec()[m].free_list()[i] == old_zone.levels_spec()[m].addr_of(
                                Level::buddy_of(old_zone.levels_spec()[m].bit_of(aligned_addr.value as int)),
                            ) && mid.levels_spec()[m].free_list() == old_zone.levels_spec()[m].free_list().remove(i);
                        assert(old_zone.levels_spec()[m].free_list().remove(i) == mid.levels_spec()[m].free_list());
                        assert(Level::buddy_of(k) == buddy_index(k));
                        assert(old_zone.levels_spec()[m].free_list()[i] as int == old_zone.addr(m, buddy_index(k)));
                    }
                }
                lemma_ancestor_step(k, index as int, l3);
                assert(!mid.is_free_block(l3, buddy_index(ancestor(kp, i1, l3))));
                assert(!old_zone.is_free_block(l3, buddy_index(ancestor(k, index as int, l3))));
                assert(mid.levels_spec()[l3] == old_zone.levels_spec()[l3]);
                assert forall|m: int| 0 <= m <= old_zone.top() && (m < index || m > l3) implies #[trigger] self.levels_spec()[m].free_list()
                    == old_zone.levels_spec()[m].free_list() by {
                    assert(mid.levels_spec()[m] == old_zone.levels_spec()[m]);
                }
                assert(index <= l3 <= old_zone.top());
                assert(ancestor(k, index as int, l3) == ancestor(kp, i1, l3));
                assert(mid.addr(l3, ancestor(kp, i1, l3)) == old_zone.addr(l3, ancestor(k, index as int, l3)));
                assert(self.levels_spec()[l3].free_list() == seq![old_zone.addr(l3, ancestor(k, index as int, l3)) as usize].add(
                    old_zone.levels_spec()[l3].free_list(),
                ));
                assert(Self::merged_into(old_zone, *self, index as int, k, l3));
                assert forall|k3: int|
                    #[trigger] old_zone.is_allocated(index as int, k3) && old_zone.holds_in(index as int, k3, addr.value as int)
                    implies exists|l4: int| Self::merged_into(old_zone, *self, index as int, k3, l4) by {
                    old_zone.lemma_holds_in_bit(index as int, k3, addr.value as int);
                    old_zone.lemma_holds_in_bit(index as int, k, addr.value as int);
                    assert(Self::merged_into(old_zone, *self, index as int, k3, l3));
                }
            }
        } else {
            proof {
                old_zone.lemma_push_back_facts(index as int, k);
            }
            self.levels[index].push_free_block(aligned_addr);
            self.status = Ghost(with_status(self.status@, index as int, k, NodeStatus::Free));
            proof {
                assert(self.levels@ =~= old_zone.levels@.update(index as int, self.levels@[index as int]));
                self.lemma_after_push_back(old_zone, index as int, k);
                Self::lemma_free_bytes_diff(old_zone, *self, index as int);
                let d: int = self.levels_spec()[index as int].free_list().len()
                    - old_zone.levels_spec()[index as int].free_list().len();
                assert(d == 1);
                assert(d * node_size(index as int) == node_size(index as int)) by (nonlinear_arith)
                    requires d == 1;
                assert(Self::freed_one(old_zone, *self, index as int, k));
                let y = buddy_index(k);
                vstd::arithmetic::power2::lemma2_to64();
                assert(k / pow2(0) as int == k);
                assert(self.level_ok(index as int));
                if self.valid_node(index as int, y) {
                    assert(self.node_ok(index as int, y));
                    assert(after_mark.levels_spec()[index as int].bits()[y]);
                    assert(self.levels_spec()[index as int].bits()[y]);
                }
                assert(self.merged_at(index as int, k, index as int));
                Self::lemma_merged_kept(old_zone, *self, index as int, k);
                assert forall|k3: int|
                    old_zone.is_allocated(index as int, k3) && old_zone.holds_in(index as int, k3, addr.value as int) implies #[trigger] self.merged_from(index as int, k3) by {
                    old_zone.lemma_holds_in_bit(index as int, k3, addr.value as int);
                    old_zone.lemma_holds_in_bit(index as int, k, addr.value as int);
                    assert(self.merged_at(index as int, k3, index as int));
                }
                lemma_ancestor_self(k, index as int);
                if old_zone.valid_node(index as int, y) {
                    assert(old_zone.node_ok(index as int, y));
                    assert(old_zone.levels_spec()[index as int].bits()[y] == after_mark.levels_spec()[index as int].bits()[y]);
                }
                assert(!old_zone.is_free_block(index as int, buddy_index(ancestor(k, index as int, index as int))));
                assert(after_mark.levels_spec()[index as int].free_list() == old_zone.levels_spec()[index as int].free_list());
                assert forall|m: int| 0 <= m <= old_zone.top() && (m < index || m > index) implies #[trigger] self.levels_spec()[m].free_list()
                    == old_zone.levels_spec()[m].free_list() by {
                    assert(self.levels_spec()[m] == old_zone.levels_spec()[m]);
                }
                assert(Self::merged_into(old_zone, *self, index as int, k, index as int));
                assert forall|k3: int|
                    #[trigger] old_zone.is_allocated(index as int, k3) && old_zone.holds_in(index as int, k3, addr.value as int)
                    implies exists|l4: int| Self::merged_into(old_zone, *self, index as int, k3, l4) by {
                    old_zone.lemma_holds_in_bit(index as int, k3, addr.value as int);
                    old_zone.lemma_holds_in_bit(index as int, k, addr.value as int);
                    assert(Self::merged_into(old_zone, *self, index as int, k3, index as int));
                }
            }
        }
    }
}

impl Zone {
    /// How giving back block `k` of level `l` changed the free lists: on each level from `l`
    /// to below `l2` the buddy of the ancestor of `k` was free and left its list; the ancestor
    /// on level `l2`, whose buddy was not free, went in front of its list; the other lists are
    /// as they were.
    pub open spec fn merged_into(old: Zone, new: Zone, l: int, k: int, l2: int) -> bool {
        &&& l <= l2 <= old.top()
        &&& forall|m: int|
            l <= m < l2 ==> #[trigger] old.is_free_block(m, buddy_index(ancestor(k, l, m)))
        &&& forall|m: int|
            l <= m < l2 ==> removed_one(
                old.levels_spec()[m].free_list(),
                #[trigger] new.levels_spec()[m].free_list(),
                old.addr(m, buddy_index(ancestor(k, l, m))),
            )
        &&& !old.is_free_block(l2, buddy_index(ancestor(k, l, l2)))
        &&& new.levels_spec()[l2].free_list() == seq![old.addr(l2, ancestor(k, l, l2)) as usize].add(
            old.levels_spec()[l2].free_list(),
        )
        &&& forall|m: int|
            0 <= m <= old.top() && (m < l || m > l2) ==> #[trigger] new.levels_spec()[m].free_list()
                == old.levels_spec()[m].free_list()
    }

    /// When an allocated block's buddy is a block marked unused, the buddy is free.
    proof fn lemma_merge_facts(&self, l: int, k: int)
        requires
            self.wf(),
            self.is_allocated(l, k),
            buddy_index(k) < level_blocks(self.top(), l),
            !self.levels_spec()[l].bits()[buddy_index(k)],
        ensures
            l < self.top(),
            self.valid_node(l, buddy_index(k)),
            self.valid_node(l + 1, k / 2),
            self.st(l, buddy_index(k)) is Free,
            self.st(l + 1, k / 2) is Split,
            self.levels_spec()[l].free_list().contains(self.addr(l, buddy_index(k)) as usize),
            self.levels_spec()[l].addr_of(buddy_index(k)) == self.addr(l, buddy_index(k)),
            self.levels_spec()[l].bit_of(self.addr(l, k)) == k,
            self.addr(l, k) != self.addr(l, buddy_index(k)),
    {
        let t = self.top();
        lemma_parent(self.start_spec(), l, k);
        if l == t {
            lemma_pow2_facts(0);
            assert(level_blocks(t, t) == 1);
        }
        lemma_parent_valid(t, l, k);
        let y = buddy_index(k);
        assert(self.valid_node(l, y));
        assert(self.node_ok(l, k));
        assert(self.node_ok(l, y));
        assert(buddy_index(y) == k);
        self.lemma_node_in_level(l, k);
        self.lemma_node_in_level(l, y);
        if self.addr(l, k) == self.addr(l, y) {
            self.lemma_addr_injective(l, k, y);
        }
    }

    /// After marking allocated block `k` of level `l` unused, taking its free buddy off the
    /// free list and recording their parent as allocated.
    proof fn lemma_after_merge(&self, old: Zone, l: int, k: int)
        requires
            old.wf(),
            old.is_allocated(l, k),
            l < old.top(),
            old.valid_node(l, buddy_index(k)),
            old.valid_node(l + 1, k / 2),
            old.st(l, buddy_index(k)) is Free,
            old.st(l + 1, k / 2) is Split,
            Self::only_level_changed(old, *self, l),
            self.levels_spec()[l].bits() == old.levels_spec()[l].bits().update(k, false),
            exists|i: int|
                0 <= i < old.levels_spec()[l].free_list().len() && old.levels_spec()[l].free_list()[i]
                    == old.addr(l, buddy_index(k)) && self.levels_spec()[l].free_list()
                    == old.levels_spec()[l].free_list().remove(i),
            self.status@ == with_status(
                with_status(
                    with_status(old.status@, l, k, NodeStatus::Inside),
                    l,
                    buddy_index(k),
                    NodeStatus::Inside,
                ),
                l + 1,
                k / 2,
                NodeStatus::Allocated,
            ),
        ensures
            self.wf(),
            self.is_allocated(l + 1, k / 2),
            forall|l2: int, k2: int|
                #[trigger] self.is_allocated(l2, k2) == ((old.is_allocated(l2, k2) && !(l2 == l && k2
                    == k)) || (l2 == l + 1 && k2 == k / 2)),
    {
        let y = buddy_index(k);
        let p = k / 2;
        let ofl = old.levels_spec()[l].free_list();
        let i = choose|i: int|
            0 <= i < ofl.len() && ofl[i] == old.addr(l, y) && self.levels_spec()[l].free_list()
                == ofl.remove(i);
        assert(old.level_ok(l));
        Self::lemma_levels_ok(old, *self, l);
        lemma_parent(old.start_spec(), l, k);
        lemma_children(old.start_spec(), l + 1, p);
        assert(old.node_ok(l, k));
        assert(old.node_ok(l, y));
        assert(old.node_ok(l + 1, p));
        assert(y == 2 * p || y == 2 * p + 1);
        assert forall|a: int, b: int| #[trigger] self.valid_node(a, b) implies self.node_ok(a, b) by {
            assert(old.valid_node(a, b));
            assert(old.node_ok(a, b));
            if a == l {
                old.lemma_node_in_level(a, b);
                lemma_remove_contains(ofl, i, self.addr(a, b) as usize);
                if b != y && self.addr(a, b) == self.addr(l, y) {
                    old.lemma_addr_injective(l, b, y);
                }
                lemma_parent(old.start_spec(), a, b);
                if b == k || b == y {
                    assert(b / 2 == p);
                    assert(self.st(a, b) is Inside);
                    assert(self.st(l + 1, p) is Allocated);
                } else {
                    assert(self.st(a, b) == old.st(a, b));
                    if b / 2 == p {
                        assert(b == 2 * p || b == 2 * p + 1);
                        assert(false);
                    }
                    assert(self.st(l + 1, b / 2) == old.st(l + 1, b / 2));
                }
            } else if a == l + 1 && b == p {
                assert(self.levels_spec()[a] == old.levels_spec()[a]);
                lemma_children_valid(old.top(), l + 1, p);
                old.lemma_node_in_level(l, 2 * p);
                old.lemma_node_in_level(l, 2 * p + 1);
                assert(old.node_ok(l, 2 * p + 1));
                assert(old.node_ok(l, 2 * p));
                assert(self.end_of(a, b) == old.end_of(l, 2 * p + 1));
            } else if a + 1 == l && (b / 2 == k || b / 2 == y) {
                lemma_parent_valid(old.top(), a, b);
                assert(self.levels_spec()[a] == old.levels_spec()[a]);
                assert(self.st(a, b) == old.st(a, b));
                assert(old.node_ok(l, b / 2));
            } else {
                assert(self.levels_spec()[a] == old.levels_spec()[a]);
                assert(self.st(a, b) == old.st(a, b));
                if a < self.top() {
                    assert(self.st(a + 1, b / 2) == old.st(a + 1, b / 2));
                }
                Self::lemma_node_ok_frame(old, *self, a, b);
            }
        }
        assert forall|l2: int, k2: int| #[trigger] self.is_allocated(l2, k2) == ((old.is_allocated(
            l2,
            k2,
        ) && !(l2 == l && k2 == k)) || (l2 == l + 1 && k2 == p)) by {}
    }

    /// An allocated block is a block of its level that is not on the free list.
    proof fn lemma_push_back_facts(&self, l: int, k: int)
        requires
            self.wf(),
            self.is_allocated(l, k),
        ensures
            self.levels_spec()[l].is_block(self.addr(l, k)),
            !self.levels_spec()[l].free_list().contains(self.addr(l, k) as usize),
            self.levels_spec()[l].bit_of(self.addr(l, k)) == k,
    {
        self.lemma_node_in_level(l, k);
        assert(self.node_ok(l, k));
    }

    /// After marking allocated block `k` of level `l` unused and putting it on the free list.
    proof fn lemma_after_push_back(&self, old: Zone, l: int, k: int)
        requires
            old.wf(),
            old.is_allocated(l, k),
            Self::only_level_changed(old, *self, l),
            self.levels_spec()[l].bits() == old.levels_spec()[l].bits().update(k, false),
            self.levels_spec()[l].free_list() == seq![old.addr(l, k) as usize].add(
                old.levels_spec()[l].free_list(),
            ),
            self.status@ == with_status(old.status@, l, k, NodeStatus::Free),
        ensures
            self.wf(),
            Self::freed_one(old, *self, l, k),
    {
        Self::lemma_levels_ok(old, *self, l);
        let ofl = old.levels_spec()[l].free_list();
        assert(old.node_ok(l, k));
        old.lemma_node_in_level(l, k);
        assert forall|a: int, b: int| #[trigger] self.valid_node(a, b) implies self.node_ok(a, b) by {
            assert(old.valid_node(a, b));
            assert(old.node_ok(a, b));
            if a == l {
                old.lemma_node_in_level(a, b);
                lemma_push_front_contains(old.addr(l, k) as usize, ofl, self.addr(a, b) as usize);
                if b != k && self.addr(a, b) == self.addr(l, k) {
                    old.lemma_addr_injective(l, b, k);
                }
                lemma_parent(old.start_spec(), a, b);
                if a < self.top() {
                    assert(self.st(a + 1, b / 2) == old.st(a + 1, b / 2));
                }
                if b == k {
                    assert(self.st(a, b) is Free);
                    assert(!self.levels_spec()[a].bits()[b]);
                    assert(self.levels_spec()[a].free_list().contains(self.addr(a, b) as usize));
                } else {
                    assert(self.st(a, b) == old.st(a, b));
                    assert(0 <= b < old.levels_spec()[a].bits().len());
                    assert(self.levels_spec()[l].bits() == old.levels_spec()[l].bits().update(k, false));
                    assert(old.levels_spec()[l].bits().update(k, false)[b] == old.levels_spec()[l].bits()[b]);
                    assert(self.levels_spec()[a].bits()[b] == old.levels_spec()[a].bits()[b]);
                    old.lemma_node_in_level(l, k);
                    assert(self.addr(a, b) != self.addr(l, k));
                    assert(self.addr(a, b) as usize != old.addr(l, k) as usize);
                    assert(self.levels_spec()[a].free_list().contains(self.addr(a, b) as usize)
                        == ofl.contains(self.addr(a, b) as usize));
                }
            } else if a + 1 == l && b / 2 == k {
                lemma_parent_valid(old.top(), a, b);
                assert(self.levels_spec()[a] == old.levels_spec()[a]);
                assert(self.st(a, b) == old.st(a, b));
            } else {
                assert(self.levels_spec()[a] == old.levels_spec()[a]);
                assert(self.st(a, b) == old.st(a, b));
                if a < self.top() {
                    assert(self.st(a + 1, b / 2) == old.st(a + 1, b / 2));
                }
                Self::lemma_node_ok_frame(old, *self, a, b);
            }
        }
        assert forall|l2: int, k2: int| #[trigger] self.is_allocated(l2, k2) == (old.is_allocated(
            l2,
            k2,
        ) && !(l2 == l && k2 == k)) by {}
    }
}

/// A zone can cover the memory from `start` to `end`: its size rounded up to a power of two,
/// the size of its top block, fits in a `usize`, and so does the end of that block.
pub open spec fn zone_fits(start: int, end: int) -> bool {
    &&& end <= usize::MAX
    &&& end - start <= usize::MAX / 2 + 1
    &&& start + crate::power::next_pow2((end - start) as nat) <= usize::MAX
}

/// The address `a` lies in one of the whole smallest blocks, counted from `start`, that fit
/// in `len` bytes.
pub open spec fn in_whole_blocks(start: int, len: int, a: int) -> bool {
    start <= a && (a - start) / node_size(0) < len / node_size(0)
}

/// Less than a smallest block holds no whole one.
proof fn lemma_no_whole_block(start: int, len: int)
    requires
        0 <= len < node_size(0),
    ensures
        forall|a: int| !#[trigger] in_whole_blocks(start, len, a),
{
    lemma_pow2_facts(MIN_ORDER as nat);
    assert forall|a: int| !#[trigger] in_whole_blocks(start, len, a) by {
        if start <= a {
            vstd::arithmetic::div_mod::lemma_div_pos_is_pos(a - start, node_size(0));
            vstd::arithmetic::div_mod::lemma_basic_div(len, node_size(0));
        }
    }
}

/// Past a first block of `size` bytes, a whole multiple of the smallest block, the whole
/// smallest blocks of the rest are those of the whole range.
proof fn lemma_whole_blocks_rest(start: int, len: int, size: int, c: int, a: int)
    requires
        size == c * node_size(0),
        c >= 0,
        size <= len,
        start + size <= a,
        in_whole_blocks(start, len, a),
    ensures
        in_whole_blocks(start + size, len - size, a),
{
    let m = node_size(0);
    lemma_pow2_facts(MIN_ORDER as nat);
    vstd::arithmetic::div_mod::lemma_hoist_over_denominator(a - start - size, c, m as nat);
    vstd::arithmetic::div_mod::lemma_hoist_over_denominator(len - size, c, m as nat);
    assert(a - start - size + c * m == a - start);
    assert(len - size + c * m == len);
}

impl Zone {
    /// The bytes of the allocated blocks among the first `n` blocks of level `l`.
    pub open spec fn level_alloc_bytes(&self, l: int, n: int) -> int
        decreases n,
    {
        if n <= 0 {
            0
        } else {
            self.level_alloc_bytes(l, n - 1) + if self.is_allocated(l, n - 1) {
                node_size(l)
            } else {
                0
            }
        }
    }

    /// The bytes of the allocated blocks of the levels below `m`.
    pub open spec fn alloc_bytes_upto(&self, m: int) -> int
        decreases m,
    {
        if m <= 0 {
            0
        } else {
            self.alloc_bytes_upto(m - 1) + self.level_alloc_bytes(m - 1, level_blocks(self.top(), m - 1))
        }
    }

    /// The bytes of all allocated blocks.
    pub open spec fn alloc_bytes(&self) -> int {
        self.alloc_bytes_upto(self.top() + 1)
    }

    /// The bytes of the free blocks of the levels below `m`.
    pub open spec fn free_bytes_upto(&self, m: int) -> int
        decreases m,
    {
        if m <= 0 {
            0
        } else {
            self.free_bytes_upto(m - 1) + self.levels_spec()[m - 1].free_list().len() * node_size(m - 1)
        }
    }

    /// The bytes of all free blocks.
    pub open spec fn free_bytes(&self) -> int {
        self.free_bytes_upto(self.top() + 1)
    }

    /// The counter of available bytes is the size of the zone less the bytes handed out, and
    /// the free and the handed-out blocks together fit in the zone.
    pub open spec fn counts_ok(&self) -> bool {
        &&& self.free_bytes() + self.alloc_bytes() <= self.end_spec() - self.start_spec()
        &&& self.available_spec() == self.end_spec() - self.start_spec() - self.alloc_bytes()
    }

    /// The change of one block's allocation changes the sum of one level by its size.
    proof fn lemma_level_alloc_diff(a: Zone, b: Zone, l: int, n: int, l0: int, k0: int)
        requires
            forall|l2: int, k2: int| !(l2 == l0 && k2 == k0) ==> #[trigger] b.is_allocated(l2, k2) == a.is_allocated(l2, k2),
        ensures
            b.level_alloc_bytes(l, n) - a.level_alloc_bytes(l, n) == if l == l0 && 0 <= k0 < n {
                (if b.is_allocated(l0, k0) { node_size(l0) } else { 0 }) - (if a.is_allocated(l0, k0) {
                    node_size(l0)
                } else {
                    0
                })
            } else {
                0
            },
        decreases n,
    {
        if n > 0 {
            Self::lemma_level_alloc_diff(a, b, l, n - 1, l0, k0);
            assert(b.is_allocated(l, n - 1) == a.is_allocated(l, n - 1) || (l == l0 && n - 1 == k0));
        }
    }

    /// The change of one block's allocation changes the sum of the levels below `m` by its size.
    proof fn lemma_alloc_upto_diff(a: Zone, b: Zone, m: int, l0: int, k0: int)
        requires
            a.top() == b.top(),
            forall|l2: int, k2: int| !(l2 == l0 && k2 == k0) ==> #[trigger] b.is_allocated(l2, k2) == a.is_allocated(l2, k2),
        ensures
            b.alloc_bytes_upto(m) - a.alloc_bytes_upto(m) == if 0 <= l0 < m {
                (if b.is_allocated(l0, k0) { node_size(l0) } else { 0 }) - (if a.is_allocated(l0, k0) {
                    node_size(l0)
                } else {
                    0
                })
            } else {
                0
            },
        decreases m,
    {
        if m > 0 {
            Self::lemma_alloc_upto_diff(a, b, m - 1, l0, k0);
            Self::lemma_level_alloc_diff(a, b, m - 1, level_blocks(a.top(), m - 1), l0, k0);
            if m - 1 == l0 && !(0 <= k0 < level_blocks(a.top(), l0)) {
                assert(!a.valid_node(l0, k0));
                assert(!b.valid_node(l0, k0));
            }
        }
    }

    /// The change of one block's allocation changes the bytes handed out by its size.
    pub proof fn lemma_alloc_bytes_diff(a: Zone, b: Zone, l0: int, k0: int)
        requires
            a.top() == b.top(),
            forall|l2: int, k2: int| !(l2 == l0 && k2 == k0) ==> #[trigger] b.is_allocated(l2, k2) == a.is_allocated(l2, k2),
        ensures
            b.alloc_bytes() - a.alloc_bytes() == (if b.is_allocated(l0, k0) { node_size(l0) } else { 0 }) - (
            if a.is_allocated(l0, k0) {
                node_size(l0)
            } else {
                0
            }),
    {
        Self::lemma_alloc_upto_diff(a, b, a.top() + 1, l0, k0);
        if !(0 <= l0 < a.top() + 1) {
            assert(!a.valid_node(l0, k0));
            assert(!b.valid_node(l0, k0));
        }
    }

    /// The sums of bytes are never negative.
    proof fn lemma_bytes_nonneg(&self, m: int)
        ensures
            self.alloc_bytes_upto(m) >= 0,
            self.free_bytes_upto(m) >= 0,
        decreases m,
    {
        if m > 0 {
            self.lemma_bytes_nonneg(m - 1);
            self.lemma_level_alloc_nonneg(m - 1, level_blocks(self.top(), m - 1));
            lemma_pow2_facts((MIN_ORDER + m - 1) as nat);
            assert(self.levels_spec()[m - 1].free_list().len() * node_size(m - 1) >= 0) by (nonlinear_arith)
                requires
                    node_size(m - 1) > 0,
            ;
        }
    }

    proof fn lemma_level_alloc_nonneg(&self, l: int, n: int)
        ensures
            self.level_alloc_bytes(l, n) >= 0,
        decreases n,
    {
        if n > 0 {
            self.lemma_level_alloc_nonneg(l, n - 1);
            lemma_pow2_facts((MIN_ORDER + l) as nat);
        }
    }

    /// A change of one level's free list changes the sum of the levels below `m` by its
    /// change of length times the level's block size.
    proof fn lemma_free_upto_diff(a: Zone, b: Zone, m: int, l0: int)
        requires
            forall|l: int| 0 <= l < m && l != l0 ==> #[trigger] b.levels_spec()[l].free_list().len() == a.levels_spec()[l].free_list().len(),
        ensures
            b.free_bytes_upto(m) - a.free_bytes_upto(m) == if 0 <= l0 < m {
                (b.levels_spec()[l0].free_list().len() - a.levels_spec()[l0].free_list().len()) * node_size(l0)
            } else {
                0
            },
        decreases m,
    {
        if m > 0 {
            Self::lemma_free_upto_diff(a, b, m - 1, l0);
            let x = b.levels_spec()[m - 1].free_list().len() as int;
            let y = a.levels_spec()[m - 1].free_list().len() as int;
            assert(x * node_size(m - 1) - y * node_size(m - 1) == (x - y) * node_size(m - 1)) by (nonlinear_arith);
        }
    }

    /// A change of one level's free list changes the bytes of the free blocks by its change
    /// of length times the level's block size.
    proof fn lemma_free_bytes_diff(a: Zone, b: Zone, l0: int)
        requires
            a.top() == b.top(),
            0 <= l0 <= a.top(),
            forall|l: int|
                0 <= l <= a.top() && l != l0 ==> #[trigger] b.levels_spec()[l].free_list().len()
                    == a.levels_spec()[l].free_list().len(),
        ensures
            b.free_bytes() - a.free_bytes() == (b.levels_spec()[l0].free_list().len()
                - a.levels_spec()[l0].free_list().len()) * node_size(l0),
    {
        Self::lemma_free_upto_diff(a, b, a.top() + 1, l0);
    }

    /// With nothing handed out, no byte is handed out.
    proof fn lemma_alloc_bytes_none(&self, m: int)
        requires
            self.nothing_allocated(),
        ensures
            self.alloc_bytes_upto(m) == 0,
        decreases m,
    {
        if m > 0 {
            self.lemma_alloc_bytes_none(m - 1);
            self.lemma_level_alloc_none(m - 1, level_blocks(self.top(), m - 1));
        }
    }

    proof fn lemma_level_alloc_none(&self, l: int, n: int)
        requires
            self.nothing_allocated(),
        ensures
            self.level_alloc_bytes(l, n) == 0,
        decreases n,
    {
        if n > 0 {
            self.lemma_level_alloc_none(l, n - 1);
            assert(!self.is_allocated(l, n - 1));
        }
    }

    /// With every free list empty, no byte is free.
    proof fn lemma_free_bytes_none(&self, m: int)
        requires
            forall|l: int| 0 <= l < m ==> #[trigger] self.levels_spec()[l].free_list().len() == 0,
        ensures
            self.free_bytes_upto(m) == 0,
        decreases m,
    {
        if m > 0 {
            self.lemma_free_bytes_none(m - 1);
            let n: int = self.levels_spec()[m - 1].free_list().len() as int;
            assert(n == 0);
            assert(n * node_size(m - 1) == 0) by (nonlinear_arith)
                requires
                    n == 0,
            ;
        }
    }

    /// No free block has a free buddy: free buddies are always merged.
    pub open spec fn buddies_merged(&self) -> bool {
        forall|l: int, k: int|
            #![trigger self.is_free_block(l, k), self.is_free_block(l, buddy_index(k))]
            self.is_free_block(l, k) ==> !self.is_free_block(l, buddy_index(k))
    }

    /// The buddy of a block's buddy is the block itself.
    pub proof fn lemma_buddy_involution(k: int)
        requires
            k >= 0,
        ensures
            buddy_index(k) >= 0,
            buddy_index(buddy_index(k)) == k,
    {
        if k % 2 == 0 {
            assert((k + 1) % 2 == 1);
        } else {
            assert((k - 1) % 2 == 0);
        }
    }

    /// When the only block that became free is `(l0, k0)`, and its buddy is not free, free
    /// buddies stay merged.
    proof fn lemma_merged_kept(old: Zone, new: Zone, l0: int, k0: int)
        requires
            old.buddies_merged(),
            forall|l: int, k: int|
                #[trigger] new.is_free_block(l, k) && !(l == l0 && k == k0) ==> old.is_free_block(l, k),
            new.is_free_block(l0, k0) ==> !new.is_free_block(l0, buddy_index(k0)),
        ensures
            new.buddies_merged(),
    {
        assert forall|l: int, k: int|
            #![trigger new.is_free_block(l, k), new.is_free_block(l, buddy_index(k))]
            new.is_free_block(l, k) implies !new.is_free_block(l, buddy_index(k)) by {
            Self::lemma_buddy_involution(k);
            if l == l0 && k == k0 {
            } else if l == l0 && buddy_index(k) == k0 {
                assert(k == buddy_index(k0));
            } else if new.is_free_block(l, buddy_index(k)) {
                assert(old.is_free_block(l, k));
                assert(old.is_free_block(l, buddy_index(k)));
            }
        }
    }

    /// No block of the zone is handed out.
    pub open spec fn nothing_allocated(&self) -> bool {
        forall|l: int, k: int| !#[trigger] self.is_allocated(l, k)
    }

    /// The state of the distribution of unused memory: the memory from `start` on is still
    /// to be placed, starting with the block of order `order` at `start`.
    pub open spec fn pending_ok(&self, start: int, memory_left: int, order: int) -> bool {
        memory_left > 0 && order >= MIN_ORDER ==> {
            let l = order - MIN_ORDER;
            let k = (start - self.start_spec()) / node_size(l);
            &&& l <= self.top()
            &&& self.start_spec() <= start
            &&& (start - self.start_spec()) % node_size(l) == 0
            &&& self.valid_node(l, k)
            &&& k % 2 == 0
            &&& (l == self.top() ==> self.st(l, k) is Void)
            &&& (l < self.top() ==> self.st(l, k) is Inside && self.st(l + 1, k / 2) is Phantom)
        }
    }

    /// Block `k` of level `l` is on its level's free list.
    pub open spec fn is_free_block(&self, l: int, k: int) -> bool {
        self.valid_node(l, k) && self.st(l, k) is Free
    }

    /// The ancestor of block `k` of level `l` at level `l2`, that is `l2 - l` levels up, is
    /// free and its buddy is not: the block was merged with its free buddies up to level `l2`.
    pub open spec fn merged_at(&self, l: int, k: int, l2: int) -> bool {
        let a = k / pow2((l2 - l) as nat) as int;
        &&& l <= l2 <= self.top()
        &&& self.is_free_block(l2, a)
        &&& !self.is_free_block(l2, buddy_index(a))
    }

    /// Block `k` of level `l` lies in a free block, its own or an ancestor's, whose buddy is
    /// not free: it was merged with its free buddies as far as they go.
    pub open spec fn merged_from(&self, l: int, k: int) -> bool {
        exists|l2: int| #[trigger] self.merged_at(l, k, l2)
    }

    /// A free block holds the address `a`.
    pub open spec fn free_covers(&self, a: int) -> bool {
        exists|l: int, k: int| #[trigger] self.is_free_block(l, k) && self.addr(l, k) <= a < self.end_of(l, k)
    }

    /// The layout that distributing `left` bytes from `start`, beginning with blocks of order
    /// `order`, leaves: going down the orders, a block of the current order that fits in what
    /// is left is placed at `start`, free and with a buddy that is not free, and the rest
    /// follows it; a block that does not fit is tried one order lower at the same place.
    pub open spec fn greedy_free(&self, start: int, left: int, order: int) -> bool
        decreases order,
    {
        if order < MIN_ORDER || left <= 0 {
            true
        } else {
            let l = order - MIN_ORDER;
            let k = (start - self.start_spec()) / node_size(l);
            if pow2(order as nat) > left {
                self.greedy_free(start, left, order - 1)
            } else {
                &&& self.is_free_block(l, k)
                &&& !self.is_free_block(l, buddy_index(k))
                &&& self.greedy_free(start + pow2(order as nat), left - pow2(order as nat), order - 1)
            }
        }
    }

    /// Less than a smallest block places nothing.
    proof fn lemma_greedy_small(&self, start: int, left: int, order: int)
        requires
            0 <= left < pow2(MIN_ORDER as nat),
        ensures
            self.greedy_free(start, left, order),
        decreases order,
    {
        if order >= MIN_ORDER && left > 0 {
            lemma_pow2_monotone(MIN_ORDER as nat, order as nat);
            self.lemma_greedy_small(start, left, order - 1);
        }
    }

    /// Hand out the memory from `start` to the end of the zone to the free lists: the largest
    /// blocks that fit go first; the buddies of the pushed blocks and the blocks that only
    /// partly fit are marked as used so that they are never merged.
    ///
    /// The blocks that were free stay free. When the memory left is less than twice the
    /// block of `order`, as at every call of the zone, each address of the whole smallest
    /// blocks that fit in it, counted from `start`, ends up in a free block; the rest, less
    /// than a smallest block, is not handed out.
    fn distribute_unused_memory(&mut self, start: PhysicalAddress, memory_left: usize, order: u8)
        requires
            old(self).wf(),
            old(self).nothing_allocated(),
            start.value + memory_left == old(self).end_spec(),
            order <= MIN_ORDER + old(self).top(),
            old(self).pending_ok(start.value as int, memory_left as int, order as int),
            old(self).buddies_merged(),
        ensures
            final(self).wf(),
            final(self).buddies_merged(),
            final(self).nothing_allocated(),
            final(self).same_zone(*old(self)),
            final(self).available_spec() == old(self).available_spec(),
            forall|l: int, k: int| old(self).is_free_block(l, k) ==> #[trigger] final(self).is_free_block(l, k),
            memory_left < 2 * pow2(order as nat) ==> forall|a: int|
                in_whole_blocks(start.value as int, memory_left as int, a) ==> #[trigger] final(self).free_covers(a),
            forall|l: int, k: int|
                #[trigger] final(self).is_free_block(l, k) && !old(self).is_free_block(l, k) ==> l <= order - MIN_ORDER,
            final(self).greedy_free(start.value as int, memory_left as int, order as int),
            final(self).free_bytes() <= old(self).free_bytes() + memory_left,
        decreases order,
    {
        if order < MIN_ORDER || memory_left == 0 {
            proof {
                lemma_pow2_facts(MIN_ORDER as nat);
                assert(node_size(0) == pow2(MIN_ORDER as nat));
                if order < MIN_ORDER && memory_left < 2 * pow2(order as nat) {
                    lemma_pow2_facts(order as nat);
                    lemma_pow2_monotone(order as nat + 1, MIN_ORDER as nat);
                }
                if memory_left < 2 * pow2(order as nat) {
                    lemma_no_whole_block(start.value as int, memory_left as int);
                }
            }
            return ;
        }
        let ghost old_zone: Zone = *self;
        let ghost l: int = order - MIN_ORDER;
        let ghost k: int = (start.value - self.start_spec()) / node_size(l);
        proof {
            assert(self.level_ok(l));
            self.lemma_node_in_level(l, k);
            assert(self.node_ok(l, k));
            lemma_block_div(k, node_size(l), 0);
            vstd::arithmetic::div_mod::lemma_fundamental_div_mod(start.value - self.start_spec(), node_size(l));
            assert(k * node_size(l) == node_size(l) * k) by (nonlinear_arith);
            assert(self.addr(l, k) == start.value);
            lemma_pow2_facts(MIN_ORDER as nat);
            lemma_pow2_facts(order as nat);
        }
        let order_size: usize = pow2_usize(order);
        let next_order: u8 = order - 1;
        let index: usize = Self::order_to_level_index(order);
        let min_size: usize = pow2_usize(MIN_ORDER);
        if order_size > memory_left {
            if memory_left >= min_size {
                self.levels[index].mark_as_used(start);
                let ghost f1 = with_status(self.status@, l, k, NodeStatus::Phantom);
                let ghost f2 = if l < old_zone.top() {
                    with_status(
                        with_status(f1, l + 1, k / 2, NodeStatus::Split),
                        l,
                        k + 1,
                        NodeStatus::Void,
                    )
                } else {
                    f1
                };
                self.status = Ghost(f2);
                proof {
                    assert(self.levels@ =~= old_zone.levels@.update(l, self.levels@[l]));
                    self.lemma_after_mark_partial(old_zone, start.value as int, memory_left as int, l, k);
                }
                let ghost mid: Zone = *self;
                proof {
                    Self::lemma_free_bytes_diff(old_zone, mid, l);
                    Self::lemma_merged_kept(old_zone, mid, -1, 0);
                }
                self.distribute_unused_memory(start, memory_left, next_order);
                proof {
                    assert forall|a: int, b: int| old_zone.is_free_block(a, b) implies #[trigger] self.is_free_block(
                        a,
                        b,
                    ) by {
                        assert(mid.is_free_block(a, b));
                    }
                    assert(pow2(order as nat) == 2 * pow2(next_order as nat));
                    assert forall|a: int, b: int|
                        #[trigger] self.is_free_block(a, b) && !old_zone.is_free_block(a, b) implies a <= order - MIN_ORDER by {
                        if mid.is_free_block(a, b) {
                            assert(old_zone.is_free_block(a, b));
                        }
                    }
                    assert(pow2(order as nat) > memory_left);
                    assert(self.greedy_free(start.value as int, memory_left as int, order as int) == self.greedy_free(
                        start.value as int,
                        memory_left as int,
                        next_order as int,
                    ));
                }
            } else {
                proof {
                    lemma_no_whole_block(start.value as int, memory_left as int);
                    self.lemma_greedy_small(start.value as int, memory_left as int, order as int);
                }
            }
            return ;
        }
        self.levels[index].push_free_block(start);
        let has_buddy: bool = self.levels[index].has_buddy(start);
        proof {
            lemma_parent(self.start_spec(), l, k);
            if l < old_zone.top() {
                lemma_parent_valid(old_zone.top(), l, k);
            } else {
                lemma_pow2_facts(0);
            }
            assert(has_buddy == (l < old_zone.top()));
        }
        if has_buddy {
            self.levels[index].mark_buddy_as_used(start);
        }
        let ghost f1 = with_status(self.status@, l, k, NodeStatus::Free);
        let ghost f2 = if l < old_zone.top() {
            with_status(
                with_status(f1, l + 1, k / 2, NodeStatus::Split),
                l,
                k + 1,
                NodeStatus::Phantom,
            )
        } else {
            f1
        };
        self.status = Ghost(f2);
        proof {
            assert(self.levels@ =~= old_zone.levels@.update(l, self.levels@[l]));
            self.lemma_after_place(old_zone, start.value as int, memory_left as int, l, k);
        }
        let ghost mid: Zone = *self;
        proof {
            Self::lemma_free_bytes_diff(old_zone, mid, l);
            let d: int = mid.levels_spec()[l].free_list().len() - old_zone.levels_spec()[l].free_list().len();
            assert(d == 1);
            assert(d * node_size(l) == node_size(l)) by (nonlinear_arith)
                requires d == 1;
            assert(node_size(l) == order_size);
            Self::lemma_merged_kept(old_zone, mid, l, k);
        }
        self.distribute_unused_memory(start.offset(order_size), memory_left - order_size, next_order);
        proof {
            assert forall|a: int, b: int| old_zone.is_free_block(a, b) implies #[trigger] self.is_free_block(a, b) by {
                assert(mid.is_free_block(a, b));
            }
            assert(mid.is_free_block(l, k));
            assert(self.is_free_block(l, k));
            if memory_left < 2 * pow2(order as nat) {
                assert(pow2(order as nat) == 2 * pow2(next_order as nat));
                vstd::arithmetic::power2::lemma_pow2_adds((order - MIN_ORDER) as nat, MIN_ORDER as nat);
                assert((order - MIN_ORDER) as nat + MIN_ORDER as nat == order as nat);
                assert forall|a: int| in_whole_blocks(start.value as int, memory_left as int, a) implies #[trigger] self.free_covers(
                    a,
                ) by {
                    if a < start.value + order_size {
                        assert(self.addr(l, k) == start.value);
                        assert(self.end_of(l, k) == start.value + order_size);
                        assert(self.is_free_block(l, k) && self.addr(l, k) <= a < self.end_of(l, k));
                    } else {
                        lemma_whole_blocks_rest(
                            start.value as int,
                            memory_left as int,
                            order_size as int,
                            pow2((order - MIN_ORDER) as nat) as int,
                            a,
                        );
                    }
                }
            }
        }
    }
}

impl Zone {
    /// The next block of a level starts where the block before it ends.
    proof fn lemma_next_block(&self, l: int, k: int)
        requires
            l >= 0,
            k >= 0,
        ensures
            self.addr(l, k + 1) == self.end_of(l, k),
    {
        assert((k + 1) * node_size(l) == k * node_size(l) + node_size(l)) by (nonlinear_arith);
    }

    /// The pending block at `start` has index `2k` one level down.
    proof fn lemma_pending_child(&self, l: int, k: int, start: int)
        requires
            self.wf(),
            1 <= l <= self.top(),
            self.valid_node(l, k),
            self.addr(l, k) == start,
        ensures
            (start - self.start_spec()) / node_size(l - 1) == 2 * k,
            (start - self.start_spec()) % node_size(l - 1) == 0,
            self.valid_node(l - 1, 2 * k),
            self.valid_node(l - 1, 2 * k + 1),
            self.addr(l - 1, 2 * k) == start,
    {
        lemma_children(self.start_spec(), l, k);
        lemma_children_valid(self.top(), l, k);
        lemma_pow2_facts((MIN_ORDER + l - 1) as nat);
        lemma_block_div(2 * k, node_size(l - 1), 0);
    }

    /// After marking the pending block `k` of level `l`, which only partly fits, as used.
    proof fn lemma_after_mark_partial(&self, old: Zone, start: int, memory_left: int, l: int, k: int)
        requires
            old.wf(),
            old.nothing_allocated(),
            start + memory_left == old.end_spec(),
            old.pending_ok(start, memory_left, MIN_ORDER + l),
            0 <= l <= old.top(),
            memory_left > 0,
            k == (start - old.start_spec()) / node_size(l),
            old.addr(l, k) == start,
            node_size(l) > memory_left >= node_size(0),
            Self::only_level_changed(old, *self, l),
            self.levels_spec()[l].free_list() == old.levels_spec()[l].free_list(),
            self.levels_spec()[l].bits() == old.levels_spec()[l].bits().update(k, true),
            self.status@ == (if l < old.top() {
                with_status(
                    with_status(
                        with_status(old.status@, l, k, NodeStatus::Phantom),
                        l + 1,
                        k / 2,
                        NodeStatus::Split,
                    ),
                    l,
                    k + 1,
                    NodeStatus::Void,
                )
            } else {
                with_status(old.status@, l, k, NodeStatus::Phantom)
            }),
        ensures
            self.wf(),
            self.nothing_allocated(),
            self.pending_ok(start, memory_left, MIN_ORDER + l - 1),
            l >= 1,
            forall|a: int, b: int| old.is_free_block(a, b) ==> #[trigger] self.is_free_block(a, b),
            forall|a: int, b: int| #[trigger] self.is_free_block(a, b) ==> old.is_free_block(a, b),
    {
        let t = old.top();
        Self::lemma_levels_ok(old, *self, l);
        lemma_pow2_facts(MIN_ORDER as nat);
        if l == 0 {
            assert(false);
        }
        lemma_pow2_monotone(MIN_ORDER as nat, (MIN_ORDER + l) as nat);
        old.lemma_node_in_level(l, k);
        assert(old.node_ok(l, k));
        lemma_parent(old.start_spec(), l, k);
        if l < t {
            lemma_parent_valid(t, l, k);
            assert(k % 2 == 0);
            assert(buddy_index(k) == k + 1);
            assert(old.valid_node(l, k + 1));
            assert(old.valid_node(l + 1, k / 2));
            assert(old.node_ok(l, k + 1));
            assert(old.node_ok(l + 1, k / 2));
            old.lemma_node_in_level(l, k + 1);
            assert(buddy_index(k + 1) == k);
            assert((k + 1) / 2 == k / 2);
        }
        old.lemma_pending_child(l, k, start);
        assert forall|a: int, b: int| #[trigger] self.valid_node(a, b) implies self.node_ok(a, b) by {
            assert(old.valid_node(a, b));
            assert(old.node_ok(a, b));
            if a == l {
                old.lemma_node_in_level(a, b);
                lemma_parent(old.start_spec(), a, b);
                if b == k || (b == k + 1 && l < t) {
                } else {
                    assert(self.st(a, b) == old.st(a, b));
                    assert(self.levels_spec()[a].bits()[b] == old.levels_spec()[a].bits()[b]);
                    if a < t {
                        assert(b / 2 != k / 2);
                        assert(self.st(a + 1, b / 2) == old.st(a + 1, b / 2));
                    }
                }
            } else if a == l + 1 && b == k / 2 && l < t {
                assert(self.levels_spec()[a] == old.levels_spec()[a]);
            } else if a + 1 == l && (b / 2 == k || b / 2 == k + 1) {
                lemma_parent_valid(t, a, b);
                assert(self.levels_spec()[a] == old.levels_spec()[a]);
                assert(self.st(a, b) == old.st(a, b));
                assert(old.node_ok(l, b / 2));
            } else {
                assert(self.levels_spec()[a] == old.levels_spec()[a]);
                assert(self.st(a, b) == old.st(a, b));
                if a < t {
                    assert(self.st(a + 1, b / 2) == old.st(a + 1, b / 2));
                }
                Self::lemma_node_ok_frame(old, *self, a, b);
            }
        }
        assert forall|a: int, b: int| !#[trigger] self.is_allocated(a, b) by {
            assert(!old.is_allocated(a, b));
        }
        assert(self.st(l - 1, 2 * k) == old.st(l - 1, 2 * k));
        assert(old.node_ok(l - 1, 2 * k));
        assert((2 * k) / 2 == k);
        assert forall|a: int, b: int| old.is_free_block(a, b) implies #[trigger] self.is_free_block(a, b) by {
            if l < t && a == l && b == k + 1 {
                assert(old.st(l, k + 1) is Inside);
            }
        }
        assert forall|a: int, b: int| #[trigger] self.is_free_block(a, b) implies old.is_free_block(a, b) by {
            if !((a == l && b == k) || (l < t && a == l + 1 && b == k / 2) || (l < t && a == l && b == k + 1)) {
                assert(self.st(a, b) == old.st(a, b));
            }
        }
    }

    /// After putting the pending block `k` of level `l` on the free list and marking its buddy
    /// as used.
    proof fn lemma_after_place(&self, old: Zone, start: int, memory_left: int, l: int, k: int)
        requires
            old.wf(),
            old.nothing_allocated(),
            start + memory_left == old.end_spec(),
            old.pending_ok(start, memory_left, MIN_ORDER + l),
            0 <= l <= old.top(),
            memory_left > 0,
            k == (start - old.start_spec()) / node_size(l),
            old.addr(l, k) == start,
            node_size(l) <= memory_left,
            Self::only_level_changed(old, *self, l),
            self.levels_spec()[l].free_list() == seq![start as usize].add(
                old.levels_spec()[l].free_list(),
            ),
            self.levels_spec()[l].bits() == (if l < old.top() {
                old.levels_spec()[l].bits().update(k + 1, true)
            } else {
                old.levels_spec()[l].bits()
            }),
            self.status@ == (if l < old.top() {
                with_status(
                    with_status(
                        with_status(old.status@, l, k, NodeStatus::Free),
                        l + 1,
                        k / 2,
                        NodeStatus::Split,
                    ),
                    l,
                    k + 1,
                    NodeStatus::Phantom,
                )
            } else {
                with_status(old.status@, l, k, NodeStatus::Free)
            }),
        ensures
            self.wf(),
            self.nothing_allocated(),
            start + node_size(l) <= usize::MAX,
            self.pending_ok(start + node_size(l), memory_left - node_size(l), MIN_ORDER + l - 1),
            forall|a: int, b: int| old.is_free_block(a, b) ==> #[trigger] self.is_free_block(a, b),
            forall|a: int, b: int| #[trigger] self.is_free_block(a, b) && !old.is_free_block(a, b) ==> a == l && b == k,
            self.is_free_block(l, k),
            !self.is_free_block(l, buddy_index(k)),
    {
        let t = old.top();
        let ofl = old.levels_spec()[l].free_list();
        Self::lemma_levels_ok(old, *self, l);
        old.lemma_node_in_level(l, k);
        assert(old.node_ok(l, k));
        lemma_parent(old.start_spec(), l, k);
        old.lemma_next_block(l, k);
        assert(old.level_ok(t));
        old.lemma_node_in_level(t, 0);
        lemma_pow2_facts(0);
        assert(old.addr(t, 0) == old.start_spec());
        if l < t {
            lemma_parent_valid(t, l, k);
            assert(k % 2 == 0);
            assert(buddy_index(k) == k + 1);
            assert(old.valid_node(l, k + 1));
            assert(old.valid_node(l + 1, k / 2));
            assert(old.node_ok(l, k + 1));
            assert(old.node_ok(l + 1, k / 2));
            old.lemma_node_in_level(l, k + 1);
            assert((k + 1) / 2 == k / 2);
        }
        assert forall|a: int, b: int| #[trigger] self.valid_node(a, b) implies self.node_ok(a, b) by {
            assert(old.valid_node(a, b));
            assert(old.node_ok(a, b));
            if a == l {
                old.lemma_node_in_level(a, b);
                lemma_parent(old.start_spec(), a, b);
                lemma_push_front_contains(start as usize, ofl, self.addr(a, b) as usize);
                if b != k && self.addr(a, b) == self.addr(l, k) {
                    old.lemma_addr_injective(l, b, k);
                }
                if b == k || (b == k + 1 && l < t) {
                } else {
                    assert(self.st(a, b) == old.st(a, b));
                    assert(self.levels_spec()[a].bits()[b] == old.levels_spec()[a].bits()[b]);
                    if a < t {
                        assert(b / 2 != k / 2);
                        assert(self.st(a + 1, b / 2) == old.st(a + 1, b / 2));
                    }
                }
            } else if a == l + 1 && b == k / 2 && l < t {
                assert(self.levels_spec()[a] == old.levels_spec()[a]);
            } else if a + 1 == l && (b / 2 == k || b / 2 == k + 1) {
                lemma_parent_valid(t, a, b);
                assert(self.levels_spec()[a] == old.levels_spec()[a]);
                assert(self.st(a, b) == old.st(a, b));
                assert(old.node_ok(l, b / 2));
            } else {
                assert(self.levels_spec()[a] == old.levels_spec()[a]);
                assert(self.st(a, b) == old.st(a, b));
                if a < t {
                    assert(self.st(a + 1, b / 2) == old.st(a + 1, b / 2));
                }
                Self::lemma_node_ok_frame(old, *self, a, b);
            }
        }
        assert forall|a: int, b: int| !#[trigger] self.is_allocated(a, b) by {
            assert(!old.is_allocated(a, b));
        }
        if memory_left - node_size(l) > 0 && l >= 1 {
            if l == t {
                assert(false);
            }
            old.lemma_pending_child(l, k + 1, start + node_size(l));
            assert(old.node_ok(l - 1, 2 * (k + 1)));
            assert((2 * (k + 1)) / 2 == k + 1);
            assert(self.st(l - 1, 2 * (k + 1)) == old.st(l - 1, 2 * (k + 1)));
        }
        assert forall|a: int, b: int| old.is_free_block(a, b) implies #[trigger] self.is_free_block(a, b) by {
            if l < t && a == l && b == k + 1 {
                assert(old.st(l, k + 1) is Inside);
            }
        }
        assert forall|a: int, b: int| #[trigger] self.is_free_block(a, b) && !old.is_free_block(a, b) implies a == l
            && b == k by {
            if !((a == l && b == k) || (l < t && a == l + 1 && b == k / 2) || (l < t && a == l && b == k + 1)) {
                assert(self.st(a, b) == old.st(a, b));
            }
        }
        assert(self.is_free_block(l, k));
        if l < t {
            assert(buddy_index(k) == k + 1);
            assert(self.st(l, k + 1) is Phantom);
        } else {
            lemma_pow2_facts(0);
            assert(level_blocks(t, t) == 1);
            assert(k == 0);
            assert(!self.valid_node(l, buddy_index(k)));
        }
    }
}

impl Zone {
    /// The initial roles: the top block is void, everything below it is inside it.
    pub open spec fn initial_status(t: int) -> spec_fn(int, int) -> NodeStatus {
        |l: int, k: int|
            if l == t && k == 0 {
                NodeStatus::Void
            } else {
                NodeStatus::Inside
            }
    }

    /// A zone over the memory from `addr_start` (included) to `addr_end` (excluded), with all
    /// of its memory distributed over the free lists.
    pub fn new(addr_start: PhysicalAddress, addr_end: PhysicalAddress, physical_memory_offset: usize) -> (r: Self)
        requires
            addr_start.value < addr_end.value,
            addr_end.value - addr_start.value >= pow2(MIN_ORDER as nat),
            zone_fits(addr_start.value as int, addr_end.value as int),
        ensures
            r.wf(),
            r.nothing_allocated(),
            r.start_spec() == addr_start.value,
            r.end_spec() == addr_end.value,
            r.offset_spec() == physical_memory_offset,
            r.available_spec() == addr_end.value - addr_start.value,
            is_next_power_of_two(
                (addr_end.value - addr_start.value) as nat,
                node_size(r.top()) as nat,
            ),
            forall|a: int|
                in_whole_blocks(addr_start.value as int, addr_end.value - addr_start.value, a)
                    ==> #[trigger] r.free_covers(a),
            r.greedy_free(addr_start.value as int, addr_end.value - addr_start.value, MIN_ORDER + r.top()),
            r.counts_ok(),
            r.buddies_merged(),
    {
        let total_size: usize = addr_end.value - addr_start.value;
        let rounded: usize = next_power_of_two(total_size);
        let largest_order: u8 = order_of_two(rounded);
        proof {
            lemma_pow2_facts(MIN_ORDER as nat);
            lemma_pow2_monotone(MIN_ORDER as nat, largest_order as nat);
            lemma_pow2_facts(largest_order as nat);
        }
        let mut levels: Vec<Level> = Vec::new();
        let mut order: u8 = MIN_ORDER;
        while order <= largest_order
            invariant
                MIN_ORDER <= order <= largest_order + 1,
                largest_order < usize::BITS,
                addr_start.value + pow2(largest_order as nat) <= usize::MAX,
                levels@.len() == order - MIN_ORDER,
                forall|i: int|
                    0 <= i < levels@.len() ==> {
                        let lv = #[trigger] levels@[i];
                        &&& lv.wf()
                        &&& lv.free_list() == Seq::<usize>::empty()
                        &&& lv.order_spec() == MIN_ORDER + i
                        &&& lv.base_spec() == addr_start.value
                        &&& lv.offset_spec() == physical_memory_offset
                        &&& lv.total_spec() == pow2((largest_order - MIN_ORDER - i) as nat)
                        &&& forall|j: int| 0 <= j < lv.bits().len() ==> !lv.bits()[j]
                    },
            decreases largest_order + 1 - order,
        {
            let level = Level::new(order, largest_order, addr_start, physical_memory_offset);
            levels.push(level);
            order = order + 1;
        }
        let ghost t: int = largest_order - MIN_ORDER;
        let mut zone = Zone {
            addr_start,
            addr_end,
            physical_memory_offset,
            available: total_size,
            levels,
            status: Ghost(Self::initial_status(t)),
        };
        proof {
            assert(zone.top() == t);
            assert forall|l: int| 0 <= l <= zone.top() implies #[trigger] zone.level_ok(l) by {
                let lv = zone.levels@[l];
                assert(lv.order_spec() == MIN_ORDER + l);
                assert((largest_order - MIN_ORDER - l) as nat == (t - l) as nat);
            }
            assert(zone.level_ok(t));
            lemma_pow2_facts(0);
            assert(zone.end_of(t, 0) == addr_start.value + rounded) by {
                assert(node_size(t) == pow2(largest_order as nat));
                assert(0 * node_size(t) == 0);
            }
            assert forall|l: int, k: int| #[trigger] zone.valid_node(l, k) implies zone.node_ok(l, k) by {
                assert(zone.level_ok(l));
                zone.lemma_node_in_level(l, k);
                let lv = zone.levels@[l];
                assert(!lv.bits()[k]);
                assert(!lv.free_list().contains(zone.addr(l, k) as usize));
                if l < t {
                    lemma_parent_valid(t, l, k);
                }
            }
            assert forall|a: int, b: int| !#[trigger] zone.is_allocated(a, b) by {}
            assert(zone.wf());
            assert(zone.pending_ok(addr_start.value as int, total_size as int, largest_order as int)) by {
                assert(0int / node_size(t) == 0) by {
                    lemma_block_div(0, node_size(t), 0);
                }
                assert(0int % node_size(t) == 0) by {
                    lemma_block_div(0, node_size(t), 0);
                }
                assert(zone.valid_node(t, 0));
            }
        }
        proof {
            lemma_pow2_facts(largest_order as nat);
        }
        proof {
            zone.lemma_free_bytes_none(zone.top() + 1);
            assert forall|l: int, k: int| !#[trigger] zone.is_free_block(l, k) by {}
        }
        zone.distribute_unused_memory(addr_start, total_size, largest_order);
        proof {
            zone.lemma_alloc_bytes_none(zone.top() + 1);
        }
        zone
    }

    /// Give back an allocated block, merging it with its free buddies.
    pub fn deallocate(&mut self, addr: PhysicalAddress)
        requires
            old(self).wf(),
            old(self).counts_ok(),
            old(self).buddies_merged(),
            exists|l: int, k: int| #[trigger] old(self).is_allocated(l, k) && old(self).addr(l, k) == addr.value,
        ensures
            final(self).wf(),
            final(self).counts_ok(),
            final(self).buddies_merged(),
            final(self).available_spec() > old(self).available_spec(),
            final(self).same_zone(*old(self)),
            Self::freed_block(*old(self), *final(self), addr.value as int),
    {
        let ghost (al, ak): (int, int) = choose|l: int, k: int| #[trigger] self.is_allocated(l, k) && self.addr(l, k) == addr.value;
        proof {
            self.lemma_node_in_level(al, ak);
            assert(self.node_ok(al, ak));
        }
        let level_index: usize = self.find_allocation_level_index(addr);
        proof {
            let k = choose|k: int| #[trigger] self.is_allocated(level_index as int, k) && self.addr(level_index as int, k) == addr.value;
            lemma_pow2_facts((MIN_ORDER + level_index) as nat);
            assert(self.holds_in(level_index as int, k, addr.value as int));
        }
        let ghost old_zone: Zone = *self;
        self.level_deallocate(level_index, addr);
        proof {
            let k = choose|k: int|
                #[trigger] Self::freed_one(old_zone, *self, level_index as int, k) && old_zone.holds_in(level_index as int, k, addr.value as int);
            let k0 = choose|k: int| #[trigger] old_zone.is_allocated(level_index as int, k) && old_zone.addr(level_index as int, k) == addr.value;
            lemma_pow2_facts((MIN_ORDER + level_index) as nat);
            assert(old_zone.holds_in(level_index as int, k0, addr.value as int));
            old_zone.lemma_holds_in_bit(level_index as int, k, addr.value as int);
            old_zone.lemma_holds_in_bit(level_index as int, k0, addr.value as int);
            assert(Self::freed_one(old_zone, *self, level_index as int, k0));
            assert(self.level_ok(level_index as int));
            assert(self.merged_from(level_index as int, k0));
        }
        let ghost mid: Zone = *self;
        let block_size: usize = self.levels[level_index].block_size();
        proof {
            let k0 = choose|k: int| #[trigger] old_zone.is_allocated(level_index as int, k) && old_zone.addr(level_index as int, k) == addr.value;
            assert(Self::freed_one(old_zone, mid, level_index as int, k0));
            assert(!mid.is_allocated(level_index as int, k0));
            Self::lemma_alloc_bytes_diff(old_zone, mid, level_index as int, k0);
            mid.lemma_bytes_nonneg(mid.top() + 1);
            assert(self.level_ok(level_index as int));
            lemma_pow2_facts((MIN_ORDER + level_index) as nat);
            assert(block_size == node_size(level_index as int));
            assert(self.available + block_size <= usize::MAX);
        }
        self.available = self.available.wrapping_add(block_size);
        proof {
            let k0 = choose|k: int| #[trigger] old_zone.is_allocated(level_index as int, k) && old_zone.addr(level_index as int, k) == addr.value;
            assert(Self::freed_one(old_zone, mid, level_index as int, k0));
            assert forall|l2: int, k2: int| #[trigger] self.is_allocated(l2, k2) == mid.is_allocated(l2, k2) by {
                assert(self.st(l2, k2) == mid.st(l2, k2));
            }
            assert(Self::freed_one(old_zone, *self, level_index as int, k0));
            assert(self.levels_spec() == mid.levels_spec());
            assert forall|l: int| 0 <= l <= self.top() implies #[trigger] self.level_ok(l) by {
                assert(mid.level_ok(l));
            }
            assert(mid.wf());
            assert forall|l: int, k: int| #[trigger] self.valid_node(l, k) implies self.node_ok(l, k) by {
                assert(mid.valid_node(l, k));
                assert(mid.node_ok(l, k));
            }
            let li: int = level_index as int;
            assert(mid.merged_from(li, k0));
            let l2 = choose|l2: int| #[trigger] mid.merged_at(li, k0, l2);
            let anc = k0 / pow2((l2 - li) as nat) as int;
            assert(self.st(l2, anc) == mid.st(l2, anc));
            assert(self.st(l2, buddy_index(anc)) == mid.st(l2, buddy_index(anc)));
            assert(self.merged_at(li, k0, l2));
            assert(old_zone.is_allocated(li, k0) && old_zone.holds_in(li, k0, addr.value as int));
            let l3 = choose|l3: int| Self::merged_into(old_zone, mid, li, k0, l3);
            assert(Self::merged_into(old_zone, *self, li, k0, l3));
            Self::lemma_free_bytes_diff(mid, *self, 0);
            Self::lemma_alloc_bytes_diff(mid, *self, li, k0);
            Self::lemma_merged_kept(mid, *self, -1, 0);
        }
    }
}

impl Zone {
    /// Two distinct blocks of one level do not overlap.
    proof fn lemma_same_level_disjoint(&self, l: int, k1: int, k2: int)
        requires
            self.wf(),
            self.valid_node(l, k1),
            self.valid_node(l, k2),
            k1 != k2,
        ensures
            self.end_of(l, k1) <= self.addr(l, k2) || self.end_of(l, k2) <= self.addr(l, k1),
    {
        self.lemma_node_in_level(l, k1);
        let ns = node_size(l);
        if k1 < k2 {
            assert((k1 + 1) * ns <= k2 * ns) by (nonlinear_arith)
                requires
                    k1 + 1 <= k2,
                    ns > 0,
            ;
            self.lemma_next_block(l, k1);
        } else {
            assert((k2 + 1) * ns <= k1 * ns) by (nonlinear_arith)
                requires
                    k2 + 1 <= k1,
                    ns > 0,
            ;
            self.lemma_next_block(l, k2);
        }
    }

    proof fn lemma_disjoint_ordered(&self, l1: int, k1: int, l2: int, k2: int)
        requires
            self.wf(),
            self.is_allocated(l1, k1),
            self.is_allocated(l2, k2),
            l1 <= l2,
            !(l1 == l2 && k1 == k2),
        ensures
            self.end_of(l1, k1) <= self.addr(l2, k2) || self.end_of(l2, k2) <= self.addr(l1, k1),
    {
        let d = l2 - l1;
        self.lemma_ancestor_geometry(l2, d, k1);
        let anc = k1 / pow2(d as nat) as int;
        if anc == k2 {
            if d == 0 {
                lemma_pow2_facts(0);
                assert(k1 / 1 == k1);
                assert(false);
            } else {
                self.lemma_descendant_inside(l2, d, k1);
                assert(false);
            }
        } else {
            self.lemma_same_level_disjoint(l2, anc, k2);
        }
    }

    /// Law: two distinct blocks that are handed out never overlap.
    pub proof fn lemma_allocated_blocks_disjoint(&self, l1: int, k1: int, l2: int, k2: int)
        requires
            self.wf(),
            self.is_allocated(l1, k1),
            self.is_allocated(l2, k2),
            !(l1 == l2 && k1 == k2),
        ensures
            self.end_of(l1, k1) <= self.addr(l2, k2) || self.end_of(l2, k2) <= self.addr(l1, k1),
    {
        if l1 <= l2 {
            self.lemma_disjoint_ordered(l1, k1, l2, k2);
        } else {
            self.lemma_disjoint_ordered(l2, k2, l1, k1);
        }
    }

    /// Law: every block that is handed out lies within the zone's memory.
    pub proof fn lemma_allocated_within_zone(&self, l: int, k: int)
        requires
            self.wf(),
            self.is_allocated(l, k),
        ensures
            self.start_spec() <= self.addr(l, k),
            self.end_of(l, k) <= self.end_spec(),
    {
        self.lemma_node_in_level(l, k);
        assert(self.node_ok(l, k));
    }

    /// Law: giving back the block that `allocate` just handed out leaves exactly the blocks
    /// that were handed out before.
    pub proof fn lemma_deallocate_undoes_allocate(z0: Zone, z1: Zone, z2: Zone, size: int, a: int)
        requires
            z0.wf(),
            z1.wf(),
            z1.same_zone(z0),
            Self::allocated_sized(z0, z1, size, a),
            z1.available_spec() == wrapping_sub_spec(z0.available_spec(), size),
            0 <= z0.available_spec() <= usize::MAX,
            Self::freed_block(z1, z2, a),
        ensures
            forall|l: int, k: int| #[trigger] z2.is_allocated(l, k) == z0.is_allocated(l, k),
            z2.available_spec() == z0.available_spec(),
    {
        let l = choose|l: int| node_size(l) == size && #[trigger] Self::allocated_at(z0, z1, l, a);
        let k = choose|k: int| #[trigger] Self::allocated_one(z0, z1, l, k, a);
        let (fl, fk) = choose|fl: int, fk: int|
            #[trigger] Self::freed_one(z1, z2, fl, fk) && z1.addr(fl, fk) == a && z2.available_spec()
                == wrapping_add_spec(z1.available_spec(), node_size(fl));
        z1.lemma_allocated_within_zone(l, k);
        if !(fl == l && fk == k) {
            z1.lemma_allocated_blocks_disjoint(l, k, fl, fk);
            lemma_pow2_facts((MIN_ORDER + l) as nat);
            lemma_pow2_facts((MIN_ORDER + fl) as nat);
            assert(false);
        }
        assert(fl == l);
        lemma_pow2_facts((MIN_ORDER + l) as nat);
        assert(z2.available_spec() == wrapping_add_spec(z1.available_spec(), size));
        assert(0 < size <= usize::MAX);
        assert forall|l2: int, k2: int| #[trigger] z2.is_allocated(l2, k2) == z0.is_allocated(l2, k2) by {
            assert(z2.is_allocated(l2, k2) == (z1.is_allocated(l2, k2) && !(l2 == l && k2 == k)));
            if !(l2 == l && k2 == k) {
                assert(z1.is_allocated(l2, k2) == z0.is_allocated(l2, k2));
            }
        }
    }
}

impl Zone {
    /// Law: giving back the block that `allocate` just handed out restores every free list,
    /// so that the same request is then served with the same block again.
    pub proof fn lemma_freed_block_served_again(z0: Zone, z1: Zone, z2: Zone, size: int, a: int)
        requires
            z0.wf(),
            z0.buddies_merged(),
            z1.wf(),
            z1.same_zone(z0),
            z2.same_zone(z1),
            Self::served_from(z0, z1, size, a),
            z0.hands_out(size, a),
            Self::freed_block(z1, z2, a),
        ensures
            forall|m: int|
                0 <= m <= z0.top() ==> #[trigger] z2.levels_spec()[m].free_list() == z0.levels_spec()[m].free_list(),
            z2.hands_out(size, a),
    {
        let (l, k, j) = choose|l: int, k: int, j: int|
            node_size(l) == size && Self::allocated_one(z0, z1, l, k, a) && #[trigger] Self::split_from(
                z0,
                z1,
                l,
                k,
                j,
            );
        let (fl, fk) = choose|fl: int, fk: int|
            #[trigger] Self::freed_one(z1, z2, fl, fk) && z1.addr(fl, fk) == a && z2.available_spec()
                == wrapping_add_spec(z1.available_spec(), node_size(fl)) && z2.merged_from(fl, fk)
                && exists|l2: int| Self::merged_into(z1, z2, fl, fk, l2);
        z1.lemma_allocated_within_zone(l, k);
        if !(fl == l && fk == k) {
            z1.lemma_allocated_blocks_disjoint(l, k, fl, fk);
            lemma_pow2_facts((MIN_ORDER + l) as nat);
            lemma_pow2_facts((MIN_ORDER + fl) as nat);
            assert(false);
        }
        let l2 = choose|l2: int| Self::merged_into(z1, z2, l, k, l2);
        let anc = ancestor(k, l, j);
        if l2 < j {
            assert(z1.levels_spec()[l2].free_list() == seq![
                z1.addr(l2, buddy_index(ancestor(k, l, l2))) as usize,
            ] && z1.is_free_block(l2, buddy_index(ancestor(k, l, l2))));
            assert(false);
        }
        if l2 > j {
            let b = buddy_index(anc);
            assert(z1.is_free_block(j, b));
            assert(z0.is_free_block(j, anc));
            assert(!z0.is_free_block(j, b));
            assert(z1.node_ok(j, b));
            let fl1 = z1.levels_spec()[j].free_list();
            let fl0 = z0.levels_spec()[j].free_list();
            assert(fl1.contains(z1.addr(j, b) as usize));
            let i = choose|i: int| 0 <= i < fl1.len() && fl1[i] == z1.addr(j, b) as usize;
            assert(fl0[i + 1] == fl1[i]);
            assert(fl0.contains(z0.addr(j, b) as usize));
            assert(z0.valid_node(j, b));
            assert(z0.node_ok(j, b));
            assert(false);
        }
        assert forall|m: int|
            0 <= m <= z0.top() implies #[trigger] z2.levels_spec()[m].free_list() == z0.levels_spec()[m].free_list() by {
            if l <= m < j {
                assert(z1.levels_spec()[m].free_list() == seq![
                    z1.addr(m, buddy_index(ancestor(k, l, m))) as usize,
                ] && z1.is_free_block(m, buddy_index(ancestor(k, l, m))));
                assert(removed_one(
                    z1.levels_spec()[m].free_list(),
                    z2.levels_spec()[m].free_list(),
                    z1.addr(m, buddy_index(ancestor(k, l, m))),
                ));
                assert(z0.levels_spec()[m].free_list().len() == 0);
                assert(z2.levels_spec()[m].free_list() =~= z0.levels_spec()[m].free_list());
            } else if m == j {
                let fl0 = z0.levels_spec()[j].free_list();
                assert(seq![fl0[0]].add(fl0.drop_first()) =~= fl0);
            } else {
                assert(z1.levels_spec()[m].free_list() == z0.levels_spec()[m].free_list());
            }
        }
        let hl = choose|hl: int| 0 <= hl && node_size(hl) == size && #[trigger] z0.served_block(hl) == Some(a);
        let hj = choose|hj: int| z0.is_first_free(hl, hj);
        assert(z0.is_first_free(hl, hj));
        z0.lemma_served_block_at(hl, hj);
        assert forall|m: int| hl <= m < hj implies #[trigger] z2.levels_spec()[m].free_list().len() == 0 by {
            assert(z0.levels_spec()[m].free_list().len() == 0);
            assert(z2.levels_spec()[m].free_list() == z0.levels_spec()[m].free_list());
        }
        assert(z2.levels_spec()[hj].free_list() == z0.levels_spec()[hj].free_list());
        assert(z2.is_first_free(hl, hj));
        z2.lemma_served_block_at(hl, hj);
        assert(z2.served_block(hl) == Some(a));
    }
}

} // verus!
