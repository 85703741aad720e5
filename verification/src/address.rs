//! Physical and virtual addresses.

use vstd::prelude::*;

verus! {

/// The largest multiple of `align` that is not above `value`.
pub open spec fn align_down_spec(value: int, align: int) -> int {
    value - value % align
}

/// The smallest multiple of `align` that is not below `value`.
pub open spec fn align_up_spec(value: int, align: int) -> int {
    if value % align == 0 {
        value
    } else {
        value - value % align + align
    }
}

/// The remainder of `x` by a positive `m` lies below both `x + 1` and `m`.
pub proof fn lemma_mod_facts(x: int, m: int)
    requires
        x >= 0,
        m > 0,
    ensures
        0 <= x % m < m,
        x % m <= x,
        (x - x % m) % m == 0,
        x - x % m >= 0,
{
    vstd::arithmetic::div_mod::lemma_mod_pos_bound(x, m);
    vstd::arithmetic::div_mod::lemma_fundamental_div_mod(x, m);
    vstd::arithmetic::div_mod::lemma_div_pos_is_pos(x, m);
    assert(x - x % m == m * (x / m));
    vstd::arithmetic::mul::lemma_mul_nonnegative(m, x / m);
    vstd::arithmetic::div_mod::lemma_mod_multiples_basic(x / m, m);
    vstd::arithmetic::mul::lemma_mul_is_commutative(m, x / m);
}

/// An address in physical memory.
#[derive(Clone, Copy, PartialEq, Eq, Structural, Debug)]
pub struct PhysicalAddress {
    pub value: usize,
}

/// An address in virtual memory.
#[derive(Clone, Copy, PartialEq, Eq, Structural, Debug)]
pub struct VirtualAddress {
    pub value: usize,
}

impl PhysicalAddress {
    pub fn new(value: usize) -> (r: Self)
        ensures
            r.value == value,
    {
        PhysicalAddress { value }
    }

    pub fn null() -> (r: Self)
        ensures
            r.value == 0,
    {
        PhysicalAddress { value: 0 }
    }

    pub fn is_null(&self) -> (r: bool)
        ensures
            r == (self.value == 0),
    {
        self.value == 0
    }

    pub fn as_usize(&self) -> (r: usize)
        ensures
            r == self.value,
    {
        self.value
    }

    pub fn as_u64(&self) -> (r: u64)
        ensures
            r == self.value,
    {
        self.value as u64
    }

    /// Round the address down to a multiple of `align`.
    pub fn align_down(&self, align: usize) -> (r: Self)
        requires
            align > 0,
        ensures
            r.value == align_down_spec(self.value as int, align as int),
    {
        proof {
            lemma_mod_facts(self.value as int, align as int);
        }
        PhysicalAddress { value: self.value - self.value % align }
    }

    /// The address `bytes` further on.
    pub fn offset(&self, bytes: usize) -> (r: Self)
        requires
            self.value + bytes <= usize::MAX,
        ensures
            r.value == self.value + bytes,
    {
        PhysicalAddress { value: self.value + bytes }
    }
}

impl VirtualAddress {
    pub fn new(value: usize) -> (r: Self)
        ensures
            r.value == value,
    {
        VirtualAddress { value }
    }

    pub fn null() -> (r: Self)
        ensures
            r.value == 0,
    {
        VirtualAddress { value: 0 }
    }

    pub fn is_null(&self) -> (r: bool)
        ensures
            r == (self.value == 0),
    {
        self.value == 0
    }

    pub fn as_usize(&self) -> (r: usize)
        ensures
            r == self.value,
    {
        self.value
    }

    pub fn as_u64(&self) -> (r: u64)
        ensures
            r == self.value,
    {
        self.value as u64
    }

    /// Round `value` up to the next multiple of `align`; `None` when that overflows.
    pub fn align_ptr_up(value: usize, align: usize) -> (r: Option<usize>)
        requires
            align > 0,
        ensures
            align_up_spec(value as int, align as int) <= usize::MAX ==> r == Some(
                align_up_spec(value as int, align as int) as usize,
            ),
            align_up_spec(value as int, align as int) > usize::MAX ==> r is None,
    {
        proof {
            lemma_mod_facts(value as int, align as int);
        }
        let rem: usize = value % align;
        if rem == 0 {
            Some(value)
        } else {
            let down: usize = value - rem;
            down.checked_add(align)
        }
    }
}

} // verus!
