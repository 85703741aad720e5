//! Powers of two.

use vstd::arithmetic::power2::*;
use vstd::prelude::*;

verus! {

/// `n` is a power of two.
pub open spec fn is_power_of_two(n: nat) -> bool {
    exists|e: nat| #[trigger] pow2(e) == n
}

/// `r` is the smallest power of two that is at least `n`.
pub open spec fn is_next_power_of_two(n: nat, r: nat) -> bool {
    &&& is_power_of_two(r)
    &&& r >= n
    &&& (r == 1 || r / 2 < n)
}

/// The smallest power of two that is at least `n`.
pub open spec fn next_pow2(n: nat) -> nat {
    choose|p: nat| is_next_power_of_two(n, p)
}

/// There is only one smallest power of two that is at least `n`.
pub proof fn lemma_next_pow2_unique(n: nat, a: nat, b: nat)
    requires
        is_next_power_of_two(n, a),
        is_next_power_of_two(n, b),
    ensures
        a == b,
{
    let x = choose|e: nat| #[trigger] pow2(e) == a;
    let y = choose|e: nat| #[trigger] pow2(e) == b;
    if x < y {
        lemma_pow2_facts(y);
        lemma_pow2_monotone(x, (y - 1) as nat);
        lemma_pow2_monotone(0, y);
        lemma_pow2_facts(0);
    } else if y < x {
        lemma_pow2_facts(x);
        lemma_pow2_monotone(y, (x - 1) as nat);
        lemma_pow2_monotone(0, x);
        lemma_pow2_facts(0);
    }
}

/// Powers of two below 2^BITS fit in a `usize`, and 2^e doubles with each step of e.
pub proof fn lemma_pow2_facts(e: nat)
    ensures
        pow2(e) > 0,
        e < usize::BITS ==> pow2(e) <= usize::MAX,
        e >= 1 ==> pow2(e) == 2 * pow2((e - 1) as nat),
        pow2(e + 1) == 2 * pow2(e),
        e >= usize::BITS ==> pow2(e) > usize::MAX,
        usize::MAX == pow2(usize::BITS as nat) - 1,
        usize::BITS == 32 || usize::BITS == 64,
        pow2(0) == 1,
        pow2(1) == 2,
{
    lemma_pow2_pos(e);
    lemma_pow2_unfold(e + 1);
    lemma2_to64();
    if e >= 1 {
        lemma_pow2_unfold(e);
    }
    vstd::layout::unsigned_int_max_values();
    if e < usize::BITS {
        vstd::bits::lemma_usize_pow2_no_overflow(e);
    }
    if e > usize::BITS {
        lemma_pow2_strictly_increases(usize::BITS as nat, e);
    }
}

/// 2^a <= 2^b exactly when a <= b.
pub proof fn lemma_pow2_monotone(a: nat, b: nat)
    ensures
        a <= b <==> pow2(a) <= pow2(b),
        a < b <==> pow2(a) < pow2(b),
{
    if a < b {
        lemma_pow2_strictly_increases(a, b);
    } else if b < a {
        lemma_pow2_strictly_increases(b, a);
    }
}

/// A power of two has exactly one exponent.
pub proof fn lemma_pow2_injective(a: nat, b: nat)
    requires
        pow2(a) == pow2(b),
    ensures
        a == b,
{
    lemma_pow2_monotone(a, b);
    lemma_pow2_monotone(b, a);
}

/// `2^e` as a `usize`.
pub fn pow2_usize(e: u8) -> (r: usize)
    requires
        e < usize::BITS,
    ensures
        r == pow2(e as nat),
{
    proof {
        lemma_pow2_facts(e as nat);
        vstd::bits::lemma_usize_shl_is_mul(1, e as usize);
    }
    1usize << (e as usize)
}

/// The base-two logarithm of a power of two.
pub fn order_of_two(size: usize) -> (r: u8)
    requires
        is_power_of_two(size as nat),
    ensures
        pow2(r as nat) == size,
        r < usize::BITS,
{
    let ghost e: nat = choose|e: nat| pow2(e) == size as nat;
    proof {
        lemma_pow2_facts(e);
    }
    let mut result: u8 = 0;
    let mut value: usize = size;
    while value > 1
        invariant
            pow2(e) == size,
            e < usize::BITS,
            result <= e,
            value == pow2((e - result) as nat),
        decreases value,
    {
        proof {
            if e == result {
                assert(pow2(0) == 1) by {
                    lemma2_to64();
                }
            }
            lemma_pow2_facts((e - result) as nat);
            vstd::bits::lemma_usize_shr_is_div(value, 1);
            assert(pow2(1) == 2) by {
                lemma2_to64();
            }
        }
        value = value >> 1;
        result = result + 1;
    }
    proof {
        if result < e {
            lemma_pow2_monotone(0, (e - result) as nat);
            lemma_pow2_facts((e - result) as nat);
            lemma_pow2_monotone(1, (e - result) as nat);
            assert(pow2(1) == 2) by {
                lemma2_to64();
            }
        }
        assert(pow2(0) == 1) by {
            lemma2_to64();
        }
    }
    result
}

/// The smallest power of two that is at least `n` (1 for `n == 0`).
pub fn next_power_of_two(n: usize) -> (r: usize)
    requires
        n <= usize::MAX / 2 + 1,
    ensures
        is_next_power_of_two(n as nat, r as nat),
        r == next_pow2(n as nat),
{
    let mut p: usize = 1;
    let ghost mut e: nat = 0;
    proof {
        lemma_pow2_facts(0);
    }
    while p < n
        invariant
            p == pow2(e),
            n <= usize::MAX / 2 + 1,
            p == 1 || p / 2 < n,
        decreases usize::MAX - p,
    {
        proof {
            lemma_pow2_facts(e);
        }
        p = p * 2;
        proof {
            e = e + 1;
        }
    }
    proof {
        assert(pow2(e) == p);
        assert(is_next_power_of_two(n as nat, p as nat));
        lemma_next_pow2_unique(n as nat, p as nat, next_pow2(n as nat));
    }
    p
}

} // verus!
