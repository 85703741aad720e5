//! A fixed-size set of bits stored in bytes, least significant bit first.

use vstd::prelude::*;

verus! {

/// Bit `j` (0..8) of the byte `b`.
pub open spec fn byte_bit(b: u8, j: int) -> bool {
    (b >> (j as u8)) & 1u8 == 1u8
}

proof fn lemma_byte_bits()
    ensures
        forall|b: u8, k: u8, j: u8|
            k < 8 && j < 8 ==> (#[trigger] (((b | (1u8 << k)) >> j) & 1u8) == 1u8) == (j == k || ((b
                >> j) & 1u8 == 1u8)),
        forall|b: u8, k: u8, j: u8|
            k < 8 && j < 8 ==> (#[trigger] (((b & !(1u8 << k)) >> j) & 1u8) == 1u8) == (j != k && ((b
                >> j) & 1u8 == 1u8)),
        forall|j: u8| j < 8 ==> #[trigger] ((0u8 >> j) & 1u8) != 1u8,
{
    assert(forall|b: u8, k: u8, j: u8|
        k < 8 && j < 8 ==> (#[trigger] (((b | (1u8 << k)) >> j) & 1u8) == 1u8) == (j == k || ((b >> j)
            & 1u8 == 1u8))) by (bit_vector);
    assert(forall|b: u8, k: u8, j: u8|
        k < 8 && j < 8 ==> (#[trigger] (((b & !(1u8 << k)) >> j) & 1u8) == 1u8) == (j != k && ((b
            >> j) & 1u8 == 1u8))) by (bit_vector);
    assert(forall|j: u8| j < 8 ==> #[trigger] ((0u8 >> j) & 1u8) != 1u8) by (bit_vector);
}

/// A set of bits backed by a vector of bytes.
pub struct Bitmap {
    data: Vec<u8>,
}

impl View for Bitmap {
    type V = Seq<bool>;

    closed spec fn view(&self) -> Seq<bool> {
        Seq::new(self.data@.len() * 8, |i: int| byte_bit(self.data@[i / 8], i % 8))
    }
}

impl Bitmap {
    /// A bitmap over the bytes of `data`.
    pub fn new(data: Vec<u8>) -> (r: Self)
        ensures
            r@ == Seq::new(data@.len() * 8, |i: int| byte_bit(data@[i / 8], i % 8)),
    {
        Bitmap { data }
    }

    /// A bitmap of `bytes` bytes with every bit clear.
    pub fn zeroed(bytes: usize) -> (r: Self)
        ensures
            r@.len() == bytes * 8,
            forall|i: int| 0 <= i < r@.len() ==> !r@[i],
    {
        let data: Vec<u8> = vec![0u8; bytes];
        proof {
            lemma_byte_bits();
            assert forall|i: int| 0 <= i < data@.len() * 8 implies !#[trigger] byte_bit(data@[i / 8], i % 8) by {
                let j: u8 = (i % 8) as u8;
                assert(((0u8 >> j) & 1u8) != 1u8);
            }
        }
        Bitmap { data }
    }

    /// Whether bit `bit` is set.
    pub fn contains(&self, bit: usize) -> (r: bool)
        requires
            bit < self@.len(),
        ensures
            r == self@[bit as int],
    {
        let byte: u8 = self.data[bit / 8];
        let shift: u8 = (bit % 8) as u8;
        (byte >> shift) & 1u8 == 1u8
    }

    /// Set bit `bit`.
    pub fn set(&mut self, bit: usize)
        requires
            bit < old(self)@.len(),
        ensures
            final(self)@ == old(self)@.update(bit as int, true),
    {
        let index: usize = bit / 8;
        let shift: u8 = (bit % 8) as u8;
        let byte: u8 = self.data[index];
        let new_byte: u8 = byte | (1u8 << shift);
        self.data.set(index, new_byte);
        proof {
            lemma_byte_bits();
            assert forall|i: int| 0 <= i < self@.len() implies self@[i] == old(self)@.update(
                bit as int,
                true,
            )[i] by {
                if i / 8 == index {
                    let j: u8 = (i % 8) as u8;
                    assert(((new_byte >> j) & 1u8 == 1u8) == (j == shift || ((byte >> j) & 1u8
                        == 1u8)));
                }
            }
            assert(self@ =~= old(self)@.update(bit as int, true));
        }
    }

    /// Clear bit `bit`.
    pub fn clear(&mut self, bit: usize)
        requires
            bit < old(self)@.len(),
        ensures
            final(self)@ == old(self)@.update(bit as int, false),
    {
        let index: usize = bit / 8;
        let shift: u8 = (bit % 8) as u8;
        let byte: u8 = self.data[index];
        let new_byte: u8 = byte & !(1u8 << shift);
        self.data.set(index, new_byte);
        proof {
            lemma_byte_bits();
            assert forall|i: int| 0 <= i < self@.len() implies self@[i] == old(self)@.update(
                bit as int,
                false,
            )[i] by {
                if i / 8 == index {
                    let j: u8 = (i % 8) as u8;
                    assert(((new_byte >> j) & 1u8 == 1u8) == (j != shift && ((byte >> j) & 1u8
                        == 1u8)));
                }
            }
            assert(self@ =~= old(self)@.update(bit as int, false));
        }
    }
}

} // verus!
