//! Powers of two, the only lengths a bracket can have.

use vstd::arithmetic::power2::{lemma_pow2_strictly_increases, lemma_pow2_unfold, pow2};
use vstd::prelude::*;

verus! {

/// `n` is one of 1, 2, 4, 8, ...
pub open spec fn is_power_of_two(n: int) -> bool {
    exists|e: nat| n == pow2(e)
}

/// `p` is the least power of two that is not below `n`.
pub open spec fn is_next_power_of_two(n: int, p: int) -> bool {
    &&& is_power_of_two(p)
    &&& n <= p
    &&& forall|m: int| is_power_of_two(m) && n <= m ==> p <= m
}

/// The least power of two that is not below `n`.
pub open spec fn next_power_of_two(n: int) -> int {
    choose|p: int| is_next_power_of_two(n, p)
}

/// The largest power of two that a `usize` can hold.
pub open spec fn top_power_of_two() -> int {
    usize::MAX / 2 + 1
}

/// Clearing the lowest set bit of `n` leaves nothing exactly when halving `n`
/// is exact and the same holds of the half.
proof fn lemma_single_bit_halves(n: usize)
    by (bit_vector)
    requires
        n > 1,
    ensures
        (n & ((n - 1) as usize)) == 0 <==> (n % 2 == 0 && ((n / 2) & ((n / 2 - 1) as usize)) == 0),
{
}

/// The bit test of `is_power_of_2` agrees with the definition.
proof fn lemma_single_bit_is_power(n: usize)
    requires
        n >= 1,
    ensures
        (n & ((n - 1) as usize)) == 0 <==> is_power_of_two(n as int),
    decreases n,
{
    if n == 1 {
        assert(1usize & 0usize == 0) by (bit_vector);
        assert(pow2(0) == 1) by {
            vstd::arithmetic::power2::lemma2_to64();
        }
    } else {
        let half: usize = n / 2;
        lemma_single_bit_halves(n);
        lemma_single_bit_is_power(half);
        if n % 2 == 0 && is_power_of_two(half as int) {
            let e = choose|e: nat| half == pow2(e);
            lemma_pow2_unfold(e + 1);
            assert(n == pow2(e + 1));
        }
        if is_power_of_two(n as int) {
            let e = choose|e: nat| n == pow2(e);
            if e == 0 {
                vstd::arithmetic::power2::lemma2_to64();
            } else {
                lemma_pow2_unfold(e);
                assert(half == pow2((e - 1) as nat));
            }
        }
    }
}

/// Half of a power of two above 1 is a power of two, and halving is exact.
pub proof fn lemma_half_of_power(n: int)
    requires
        is_power_of_two(n),
        n >= 2,
    ensures
        n % 2 == 0,
        is_power_of_two(n / 2),
        n >= 4 ==> n / 2 >= 2,
{
    let e = choose|e: nat| n == pow2(e);
    if e == 0 {
        vstd::arithmetic::power2::lemma2_to64();
    } else {
        lemma_pow2_unfold(e);
        assert(n / 2 == pow2((e - 1) as nat));
    }
}

/// Whether `n` is a power of two. Zero is none.
pub fn is_power_of_2(n: usize) -> (b: bool)
    ensures
        b <==> is_power_of_two(n as int),
{
    if n == 0 {
        proof {
            assert forall|e: nat| pow2(e) != 0 by {
                vstd::arithmetic::power2::lemma_pow2_pos(e);
            }
        }
        false
    } else {
        proof {
            lemma_single_bit_is_power(n);
        }
        (n & (n - 1)) == 0
    }
}

/// The least power of two that is not below `n`; for 0 and 1 that is 1.
///
/// `n` may not exceed the largest power of two that fits in a `usize`.
pub fn find_next_power_of_2(n: usize) -> (p: usize)
    requires
        n <= top_power_of_two(),
    ensures
        is_next_power_of_two(n as int, p as int),
        p == next_power_of_two(n as int),
{
    let mut power_of_2: usize = 1;
    let ghost mut e: nat = 0;
    proof {
        vstd::arithmetic::power2::lemma2_to64();
    }
    while power_of_2 < n
        invariant
            n <= top_power_of_two(),
            power_of_2 >= 1,
            power_of_2 == pow2(e),
            e > 0 ==> pow2((e - 1) as nat) < n,
        decreases
            (if power_of_2 < n {
                n - power_of_2
            } else {
                0
            }),
    {
        proof {
            lemma_pow2_unfold(e + 1);
            e = e + 1;
        }
        power_of_2 = power_of_2 * 2;
    }
    proof {
        assert forall|m: int| is_power_of_two(m) && n <= m implies power_of_2 <= m by {
            let f = choose|f: nat| m == pow2(f);
            if f + 1 < e {
                lemma_pow2_strictly_increases(f, (e - 1) as nat);
            } else if e < f {
                lemma_pow2_strictly_increases(e, f);
            }
        }
        assert(is_next_power_of_two(n as int, power_of_2 as int));
        assert(is_next_power_of_two(n as int, next_power_of_two(n as int)));
    }
    power_of_2
}

} // verus!
