//! Pure integer bit mathematics: the minimum number of bits needed to
//! represent a value range, and the bit population count used to compute it.
//!
//! `bits_required` is a hot path invoked once per serialized integer, so it
//! is branch-free: the range width is smeared (every bit below the top set
//! bit is filled by shifts of 1, 2, 4, 8 and 16), and the population count
//! of the smeared value shifted right by one is the floor of the base-two
//! logarithm. Both steps run in a constant number of instructions, with no
//! division and no loop.

use vstd::prelude::*;
use vstd::arithmetic::power2::{
    pow2, lemma_pow2_pos, lemma_pow2_strictly_increases, lemma_pow2_unfold, lemma2_to64,
};

verus! {

/// The number of set bits in `x`.
pub open spec fn pop_spec(x: nat) -> nat
    decreases x,
{
    if x == 0 {
        0
    } else {
        x % 2 + pop_spec(x / 2)
    }
}

/// The length of `x` in bits: the least `b` with `x < pow2(b)`.
pub open spec fn bit_width(x: nat) -> nat
    decreases x,
{
    if x == 0 {
        0
    } else {
        1 + bit_width(x / 2)
    }
}

/// `bit_width` brackets its argument between two adjacent powers of two.
pub proof fn lemma_bit_width_bounds(x: nat)
    ensures
        x < pow2(bit_width(x)),
        x > 0 ==> pow2((bit_width(x) - 1) as nat) <= x,
    decreases x,
{
    if x == 0 {
        lemma2_to64();
    } else {
        lemma_bit_width_bounds(x / 2);
        lemma_pow2_unfold(bit_width(x));
        assert(x < 2 * pow2(bit_width(x / 2)));
        if x / 2 == 0 {
            lemma2_to64();
        } else {
            lemma_pow2_unfold((bit_width(x) - 1) as nat);
        }
    }
}

/// No number of bits smaller than `bit_width(x)` can hold `x`: `bit_width`
/// is the least `b` with `x < pow2(b)`, so it equals the ceiling of the
/// base-two logarithm of `x + 1`.
pub proof fn lemma_bit_width_minimal(x: nat, b: nat)
    requires
        x < pow2(b),
    ensures
        bit_width(x) <= b,
{
    lemma_bit_width_bounds(x);
    if bit_width(x) > b {
        assert(x > 0);
        lemma_pow2_strictly_increases(b, bit_width(x));
        if b < bit_width(x) - 1 {
            lemma_pow2_strictly_increases(b, (bit_width(x) - 1) as nat);
        }
    }
}

/// `bit_width` is determined by the power-of-two bracket: if
/// `pow2(b) <= x < pow2(b + 1)` then `x` is exactly `b + 1` bits long.
pub proof fn lemma_bit_width_from_bracket(x: nat, b: nat)
    requires
        pow2(b) <= x,
        x < pow2(b + 1),
    ensures
        bit_width(x) == b + 1,
{
    lemma_pow2_pos(b);
    lemma_bit_width_minimal(x, b + 1);
    lemma_bit_width_bounds(x);
    if bit_width(x) <= b {
        lemma_pow2_pos(bit_width(x));
        if bit_width(x) < b {
            lemma_pow2_strictly_increases(bit_width(x), b);
        }
    }
}

/// A value one below a power of two is recognized by `v & (v + 1) == 0`
/// (with a wrapping increment): such a value is a string of one bits, and
/// its population count tells which power of two stands above it.
proof fn lemma_all_ones_shape(f: u32)
    requires
        f & ((f + 1) as u32) == 0,
    ensures
        f as nat == (pow2(pop_spec(f as nat)) - 1) as nat,
        pop_spec(f as nat) <= 32,
    decreases f,
{
    if f == 0 {
        lemma2_to64();
    } else {
        let g = f >> 1u32;
        assert(f & 1 == 1 && g & ((g + 1) as u32) == 0 && g < f && f == 2 * g + 1) by (bit_vector)
            requires
                f & ((f + 1) as u32) == 0,
                f != 0,
                g == f >> 1u32,
        ;
        lemma_all_ones_shape(g);
        let n = pop_spec(g as nat);
        assert(f as nat == 2 * g as nat + 1);
        assert(f as nat % 2 == 1 && f as nat / 2 == g as nat) by (nonlinear_arith)
            requires
                f as nat == 2 * g as nat + 1,
        ;
        assert(pop_spec(f as nat) == 1 + n);
        lemma_pow2_unfold(n + 1);
        lemma_pow2_pos(n);
        if n + 1 > 32 {
            lemma_pow2_strictly_increases(32, n + 1);
            lemma2_to64();
        }
    }
}

/// The sum of the bits of `x` from position `k` (inclusive) up to 31.
spec fn bit_sum_from(x: u32, k: u32) -> nat
    decreases 32 - k,
{
    if k >= 32 {
        0
    } else {
        ((x >> k) & 1) as nat + bit_sum_from(x, (k + 1) as u32)
    }
}

/// The population count of `x` with its low `k` bits dropped is the sum of
/// its remaining bits.
proof fn lemma_pop_is_bit_sum(x: u32, k: u32)
    requires
        k <= 32,
    ensures
        pop_spec((x >> k) as nat) == bit_sum_from(x, k),
    decreases 32 - k,
{
    if k == 32 {
        assert(x >> 32u32 == 0) by (bit_vector);
    } else {
        let y = x >> k;
        assert(y >> 1u32 == x >> ((k + 1) as u32) && (y & 1) == y % 2 && y >> 1u32 == y / 2)
            by (bit_vector)
            requires
                y == x >> k,
                k < 32,
        ;
        lemma_pop_is_bit_sum(x, (k + 1) as u32);
    }
}

/// Counts the set bits of `x`: a branch-free SWAR population count that
/// folds pair sums, nibble sums and byte sums in five steps.
pub fn popcount(x: u32) -> (r: u32)
    ensures
        r as nat == pop_spec(x as nat),
{
    let t: u32 = (x >> 1) & 0x55555555;
    assert(t <= x) by (bit_vector)
        requires
            t == (x >> 1) & 0x55555555,
    ;
    let a: u32 = x - t;
    assert(((a >> 2) & 0x33333333) + (a & 0x33333333) < 0x100000000) by (bit_vector);
    let b: u32 = ((a >> 2) & 0x33333333) + (a & 0x33333333);
    assert((b >> 4) + b < 0x100000000) by (bit_vector)
        requires
            b == ((a >> 2) & 0x33333333) + (a & 0x33333333),
    ;
    let c: u32 = ((b >> 4) + b) & 0x0f0f0f0f;
    assert(c + (c >> 8) < 0x100000000) by (bit_vector)
        requires
            c == (((b >> 4) + b) as u32) & 0x0f0f0f0f,
    ;
    let d: u32 = c + (c >> 8);
    assert(d + (d >> 16) < 0x100000000) by (bit_vector)
        requires
            d == c + (c >> 8),
            c == (((b >> 4) + b) as u32) & 0x0f0f0f0f,
    ;
    let e: u32 = d + (d >> 16);
    let r: u32 = e & 0x0000003f;
    assert(r == ((x >> 0u32) & 1) + ((x >> 1u32) & 1) + ((x >> 2u32) & 1) + ((x >> 3u32) & 1)
        + ((x >> 4u32) & 1) + ((x >> 5u32) & 1) + ((x >> 6u32) & 1) + ((x >> 7u32) & 1) + ((x
        >> 8u32) & 1) + ((x >> 9u32) & 1) + ((x >> 10u32) & 1) + ((x >> 11u32) & 1) + ((x
        >> 12u32) & 1) + ((x >> 13u32) & 1) + ((x >> 14u32) & 1) + ((x >> 15u32) & 1) + ((x
        >> 16u32) & 1) + ((x >> 17u32) & 1) + ((x >> 18u32) & 1) + ((x >> 19u32) & 1) + ((x
        >> 20u32) & 1) + ((x >> 21u32) & 1) + ((x >> 22u32) & 1) + ((x >> 23u32) & 1) + ((x
        >> 24u32) & 1) + ((x >> 25u32) & 1) + ((x >> 26u32) & 1) + ((x >> 27u32) & 1) + ((x
        >> 28u32) & 1) + ((x >> 29u32) & 1) + ((x >> 30u32) & 1) + ((x >> 31u32) & 1))
        by (bit_vector)
        requires
            t == (x >> 1) & 0x55555555,
            a == x - t,
            b == ((a >> 2) & 0x33333333) + (a & 0x33333333),
            c == (((b >> 4) + b) as u32) & 0x0f0f0f0f,
            d == c + (c >> 8),
            e == d + (d >> 16),
            r == e & 0x0000003f,
    ;
    proof {
        reveal_with_fuel(bit_sum_from, 33);
        assert(bit_sum_from(x, 0) == ((x >> 0u32) & 1) + ((x >> 1u32) & 1) + ((x >> 2u32) & 1)
            + ((x >> 3u32) & 1) + ((x >> 4u32) & 1) + ((x >> 5u32) & 1) + ((x >> 6u32) & 1) + ((x
            >> 7u32) & 1) + ((x >> 8u32) & 1) + ((x >> 9u32) & 1) + ((x >> 10u32) & 1) + ((x
            >> 11u32) & 1) + ((x >> 12u32) & 1) + ((x >> 13u32) & 1) + ((x >> 14u32) & 1) + ((x
            >> 15u32) & 1) + ((x >> 16u32) & 1) + ((x >> 17u32) & 1) + ((x >> 18u32) & 1) + ((x
            >> 19u32) & 1) + ((x >> 20u32) & 1) + ((x >> 21u32) & 1) + ((x >> 22u32) & 1) + ((x
            >> 23u32) & 1) + ((x >> 24u32) & 1) + ((x >> 25u32) & 1) + ((x >> 26u32) & 1) + ((x
            >> 27u32) & 1) + ((x >> 28u32) & 1) + ((x >> 29u32) & 1) + ((x >> 30u32) & 1) + ((x
            >> 31u32) & 1));
        lemma_pop_is_bit_sum(x, 0);
        assert(x >> 0u32 == x) by (bit_vector);
    }
    r
}

/// The floor of the base-two logarithm of `x`, and 0 when `x` is 0: a
/// branch-free smear of the top set bit downward followed by a population
/// count of the bits below the top one.
pub fn log2(x: u32) -> (r: u32)
    ensures
        x > 0 ==> r as nat == bit_width(x as nat) - 1,
        x == 0 ==> r == 0,
{
    let a = x | (x >> 1);
    let b = a | (a >> 2);
    let c = b | (b >> 4);
    let d = c | (c >> 8);
    let e = d | (d >> 16);
    let f = e >> 1;
    assert((x == 0 ==> f == 0) && (x != 0 ==> (f & ((f + 1) as u32) == 0 && f < x && x <= 2 * f
        + 1))) by (bit_vector)
        requires
            a == x | (x >> 1),
            b == a | (a >> 2),
            c == b | (b >> 4),
            d == c | (c >> 8),
            e == d | (d >> 16),
            f == e >> 1,
    ;
    let r = popcount(f);
    proof {
        if x > 0 {
            lemma_all_ones_shape(f);
            let n = pop_spec(f as nat);
            lemma_pow2_pos(n);
            // pow2(n) - 1 == f < x <= 2 * f + 1 == pow2(n + 1) - 1
            lemma_pow2_unfold(n + 1);
            lemma_bit_width_from_bracket(x as nat, n);
        }
    }
    r
}

/// The number of bits needed to represent any value of the inclusive range
/// `[min, max]` as an offset from `min`: 0 when the range has one value,
/// else one more than the floor of the base-two logarithm of the width.
pub fn bits_required(min: u32, max: u32) -> (r: u32)
    requires
        min <= max,
    ensures
        r as nat == bit_width((max - min) as nat),
        r <= 32,
{
    proof {
        lemma2_to64();
        lemma_bit_width_minimal((max - min) as nat, 32);
    }
    if min == max {
        0
    } else {
        log2(max - min) + 1
    }
}

} // verus!
