//! The bits of a path index.

use vstd::prelude::*;
use vstd::arithmetic::div_mod::lemma_basic_div;
use vstd::arithmetic::div_mod::lemma_fundamental_div_mod;
use vstd::arithmetic::div_mod::lemma_hoist_over_denominator;
use vstd::arithmetic::power2::lemma2_to64;
use vstd::arithmetic::power2::lemma2_to64_rest;
use vstd::arithmetic::power2::lemma_pow2_adds;
use vstd::arithmetic::power2::lemma_pow2_pos;
use vstd::arithmetic::power2::lemma_pow2_strictly_increases;
use vstd::arithmetic::power2::lemma_pow2_unfold;
use vstd::arithmetic::power2::pow2;
use vstd::bits::lemma_u64_shr_is_div;

verus! {

/// Bit `level` of a path index: `true` when the sibling at that level is the
/// left child, so that the accumulator is hashed second.
pub open spec fn path_bit(index: nat, level: nat) -> bool {
    (index / pow2(level)) % 2 == 1
}

/// Adding a multiple of `2^n` to an index leaves its bits below `n` as they
/// are.
pub proof fn lemma_low_bits_unchanged(a: nat, m: nat, n: nat, level: nat)
    requires
        level < n,
    ensures
        path_bit(a + m * pow2(n), level) == path_bit(a, level),
{
    let d = pow2(level);
    let e = pow2((n - level) as nat);
    let half = pow2((n - level - 1) as nat);
    lemma_pow2_pos(level);
    lemma_pow2_adds(level, (n - level) as nat);
    lemma_pow2_unfold((n - level) as nat);
    assert(m * pow2(n) == (m * e) * d) by (nonlinear_arith)
        requires
            pow2(n) == d * e,
    ;
    assert(m * e == 2 * (m * half)) by (nonlinear_arith)
        requires
            e == 2 * half,
    ;
    lemma_hoist_over_denominator(a as int, (m * e) as int, d);
}

/// An index below `2^n` has bit `n` clear, and adding `2^n` sets it.
pub proof fn lemma_top_bit(a: nat, n: nat)
    requires
        a < pow2(n),
    ensures
        !path_bit(a, n),
        path_bit(a + pow2(n), n),
{
    lemma_basic_div(a as int, pow2(n) as int);
    lemma_hoist_over_denominator(a as int, 1, pow2(n));
}

/// The bits of an index below `n` are those of its remainder modulo `2^n`.
pub proof fn lemma_bits_of_remainder(index: nat, n: nat, level: nat)
    requires
        level < n,
    ensures
        path_bit(index % pow2(n), level) == path_bit(index, level),
{
    lemma_pow2_pos(n);
    lemma_fundamental_div_mod(index as int, pow2(n) as int);
    let q = index / pow2(n);
    let r = index % pow2(n);
    assert(index == r + q * pow2(n)) by (nonlinear_arith)
        requires
            index == pow2(n) * q + r,
    ;
    lemma_low_bits_unchanged(r, q, n, level);
}

/// Reads bit `level` of a path index. Levels past the width of the index
/// read as zero.
pub fn sibling_on_left(index: u64, level: usize) -> (bit: bool)
    ensures
        bit == path_bit(index as nat, level as nat),
{
    if level < 64 {
        let shift: u64 = level as u64;
        let shifted: u64 = index >> shift;
        proof {
            lemma_u64_shr_is_div(index, shift);
            assert((shifted & 1 == 1) == (shifted % 2 == 1)) by (bit_vector);
        }
        shifted & 1 == 1
    } else {
        proof {
            lemma2_to64();
            lemma2_to64_rest();
            if level > 64 {
                lemma_pow2_strictly_increases(64, level as nat);
            }
            lemma_basic_div(index as int, pow2(level as nat) as int);
        }
        false
    }
}

} // verus!
