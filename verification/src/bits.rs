//! Bit-level primitives shared by the board engine: single-bit tests,
//! population count, and the lemmas that connect the two to `u64` operators.

use vstd::arithmetic::power2::{lemma2_to64, lemma_pow2_adds, lemma_pow2_pos, pow2};
use vstd::prelude::*;

verus! {

/// True when bit `i` of `x` is set (false for `i >= 64`).
pub open spec fn bit64(x: u64, i: u64) -> bool {
    i < 64 && (x >> i) & 1u64 == 1u64
}

/// Number of set bits of `x`.
pub open spec fn ones(x: u64) -> nat
    decreases x,
{
    if x == 0 {
        0
    } else {
        ones(x / 2) + (x % 2) as nat
    }
}

/// How the boolean connectives act on single bits.
pub proof fn lemma_bit_ops(x: u64, y: u64, i: u64)
    by (bit_vector)
    ensures
        bit64(x & y, i) == (bit64(x, i) && bit64(y, i)),
        bit64(x | y, i) == (bit64(x, i) || bit64(y, i)),
        bit64(x ^ y, i) == (bit64(x, i) != bit64(y, i)),
        bit64(!x, i) == (i < 64 && !bit64(x, i)),
        (x & (1u64 << i) != 0) == bit64(x, i),
        !bit64(0u64, i),
        i < 64 ==> (bit64(1u64 << i, i) && forall|j: u64| j < 64 && j != i ==> !bit64(1u64 << i, j)),
{
}

proof fn lemma_div2_bit(x: u64, j: u64)
    by (bit_vector)
    ensures
        j < 63 ==> bit64(x / 2, j) == bit64(x, (j + 1) as u64),
        !bit64(x / 2, 63),
        (x % 2 == 1) == bit64(x, 0),
{
}

/// Two words with the same bits are the same word.
pub proof fn lemma_bits_eq(x: u64, y: u64)
    requires
        forall|j: u64| j < 64 ==> bit64(x, j) == bit64(y, j),
    ensures
        x == y,
    decreases x + y,
{
    if x == 0 && y == 0 {
    } else {
        lemma_div2_bit(x, 0);
        lemma_div2_bit(y, 0);
        assert(bit64(x, 0) == bit64(y, 0));
        assert forall|j: u64| j < 64 implies #[trigger] bit64(x / 2, j) == bit64(y / 2, j) by {
            lemma_div2_bit(x, j);
            lemma_div2_bit(y, j);
            if j < 63 {
                assert(bit64(x, (j + 1) as u64) == bit64(y, (j + 1) as u64));
            }
        }
        lemma_bits_eq(x / 2, y / 2);
    }
}

/// Commutativity and the unit/zero laws of the word operations.
pub proof fn lemma_word_basics(x: u64, y: u64)
    by (bit_vector)
    ensures
        x & y == y & x,
        x | y == y | x,
        0u64 & x == 0,
        x & 0u64 == 0,
        0u64 | x == x,
        x | 0u64 == x,
        (x & y) & x == x & y,
        (x & y) & y == x & y,
        x & x == x,
        x | x == x,
{
}

proof fn lemma_halving(x: u64, y: u64)
    by (bit_vector)
    ensures
        x >> 1u64 == x / 2,
        y >> 1u64 == y / 2,
        (x | y) >> 1u64 == (x | y) / 2,
        (x | y) >> 1u64 == (x >> 1u64) | (y >> 1u64),
        x & y == 0 ==> (x >> 1u64) & (y >> 1u64) == 0,
        x & y == 0 ==> (x | y) % 2 == x % 2 + y % 2,
{
}

/// A word has at most 64 set bits; more precisely, a word below `pow2(w)`
/// has at most `w` of them.
proof fn lemma_ones_bound_rec(x: u64, w: nat)
    requires
        x < pow2(w),
    ensures
        ones(x) <= w,
    decreases w,
{
    if w == 0 {
        assert(pow2(0) == 1) by {
            lemma2_to64();
        }
    } else {
        assert(pow2(w) == pow2((w - 1) as nat) * 2) by {
            lemma_pow2_adds((w - 1) as nat, 1);
            lemma2_to64();
        }
        lemma_pow2_pos((w - 1) as nat);
        assert(x / 2 < pow2((w - 1) as nat));
        lemma_ones_bound_rec(x / 2, (w - 1) as nat);
    }
}

pub proof fn lemma_ones_le_64(x: u64)
    ensures
        ones(x) <= 64,
{
    assert(pow2(64) == 0x10000000000000000) by {
        lemma2_to64();
        lemma_pow2_adds(32, 32);
    }
    lemma_ones_bound_rec(x, 64);
}

/// Set bits add up over a disjoint union.
pub proof fn lemma_ones_disjoint(x: u64, y: u64)
    requires
        x & y == 0,
    ensures
        ones(x | y) == ones(x) + ones(y),
    decreases x | y,
{
    lemma_halving(x, y);
    if x | y == 0 {
        assert(x == 0 && y == 0) by (bit_vector)
            requires
                x | y == 0,
        ;
    } else {
        assert((x | y) / 2 == (x / 2) | (y / 2));
        assert((x / 2) | (y / 2) < x | y) by (bit_vector)
            requires
                x | y != 0,
                (x | y) >> 1u64 == (x >> 1u64) | (y >> 1u64),
                x >> 1u64 == x / 2,
                y >> 1u64 == y / 2,
        ;
        lemma_halving(y, x);
        lemma_ones_disjoint(x / 2, y / 2);
        assert(ones(x) == ones(x / 2) + (x % 2));
        assert(ones(y) == ones(y / 2) + (y % 2));
        assert(ones(x | y) == ones((x | y) / 2) + ((x | y) % 2));
    }
}

/// Only the zero word has no set bits.
pub proof fn lemma_ones_zero(x: u64)
    ensures
        (ones(x) == 0) == (x == 0),
    decreases x,
{
    if x != 0 && x % 2 == 0 {
        lemma_ones_zero(x / 2);
    }
}

/// A word with one bit set has one set bit.
pub proof fn lemma_ones_single(i: u64)
    requires
        i < 64,
    ensures
        ones(1u64 << i) == 1,
    decreases i,
{
    if i == 0 {
        assert(1u64 << 0u64 == 1) by (bit_vector);
        assert(ones(0) == 0);
        assert(ones(1) == 1);
    } else {
        assert((1u64 << i) / 2 == 1u64 << ((i - 1) as u64) && (1u64 << i) % 2 == 0 && 1u64 << i
            != 0) by (bit_vector)
            requires
                0 < i < 64,
        ;
        lemma_ones_single((i - 1) as u64);
    }
}

/// Population count, proved against `ones`.
pub fn popcount(x: u64) -> (n: u32)
    ensures
        n == ones(x),
        n <= 64,
{
    let mut v = x;
    let mut n: u32 = 0;
    proof {
        lemma_ones_le_64(x);
    }
    while v != 0
        invariant
            n + ones(v) == ones(x),
            ones(x) <= 64,
        decreases v,
    {
        proof {
            lemma_halving(v, 0);
            assert(v & 1u64 == v % 2) by (bit_vector);
            assert(v / 2 < v);
        }
        n = n + (v & 1) as u32;
        v = v >> 1u64;
    }
    n
}

} // verus!
