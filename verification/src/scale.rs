//! Log-based scaling of a raw count against the corpus total.
//!
//! A count `freq` in a corpus summing to `divider` receives the score
//! `round(log(freq) / log(divider) * (MAX_VALUE - OFFSET)) + OFFSET + 1`,
//! rounding half away from zero. With `1 <= freq <= divider` the logarithm
//! ratio lies in `[0, 1]`, so the rounded multiple `k` lies in `[0, 239]`
//! and is characterized exactly, with no real arithmetic, by
//! `divider^(2k-1) <= freq^478 < divider^(2k+1)` (`478 == 2 * 239`).

use vstd::prelude::*;
use vstd::arithmetic::power::pow;
use vstd::arithmetic::power::lemma_pow1;
use vstd::arithmetic::power::lemma_pow_adds;
use vstd::arithmetic::power::lemma_pow_positive;
use vstd::arithmetic::power::lemma_pow_strictly_increases;
use vstd::arithmetic::power::lemma_pow_increases;
use vstd::arithmetic::power::lemma_pow_increases_converse;
use crate::bignum::limbs;
use crate::bignum::big_from_u64;
use crate::bignum::big_mul_u64;
use crate::bignum::big_ge;

verus! {

/// Offset under the score range of the target dictionary format.
pub const OFFSET: usize = 15;

/// Upper end of the score range of the target dictionary format.
pub const MAX_VALUE: usize = 254;

/// Width of the logarithmic ramp: `MAX_VALUE - OFFSET`.
pub const SPAN: usize = 239;

/// Twice the ramp width, the exponent that states rounding exactly.
pub const DOUBLE_SPAN: usize = 478;

/// `k` is the rounded ramp index `round(SPAN * log(freq) / log(total))`.
///
/// Rounding half away from zero means `k - 1/2 <= SPAN * log_total(freq) < k + 1/2`,
/// which over integers is `total^(2k-1) <= freq^478 < total^(2k+1)`; the lower
/// bound is multiplied by `total` once so that `k == 0` needs no negative power.
pub open spec fn is_scale_index(freq: nat, total: nat, k: nat) -> bool {
    &&& pow(total as int, 2 * k) <= pow(freq as int, DOUBLE_SPAN as nat) * total
    &&& pow(freq as int, DOUBLE_SPAN as nat) < pow(total as int, 2 * k + 1)
}

/// The score assigned to a raw count `freq` in a corpus summing to `total`.
pub open spec fn scale_spec(freq: nat, total: nat) -> nat {
    ((choose|k: nat| is_scale_index(freq, total, k)) + OFFSET + 1) as nat
}

/// Raising both of two ordered bases to the same power keeps the order.
proof fn lemma_pow_base_le(a: nat, b: nat, e: nat)
    requires
        a <= b,
    ensures
        0 <= pow(a as int, e) <= pow(b as int, e),
    decreases e,
{
    reveal(pow);
    if e > 0 {
        lemma_pow_base_le(a, b, (e - 1) as nat);
        let pa = pow(a as int, (e - 1) as nat);
        let pb = pow(b as int, (e - 1) as nat);
        assert(0 <= a * pa <= b * pb) by (nonlinear_arith)
            requires
                0 <= a <= b,
                0 <= pa <= pb;
    }
}

/// Two ramp indices for the same count and total are ordered; with the
/// symmetric call this makes the index unique.
proof fn lemma_scale_index_le(freq: nat, total: nat, k1: nat, k2: nat)
    requires
        2 <= total,
        is_scale_index(freq, total, k1),
        is_scale_index(freq, total, k2),
    ensures
        k1 <= k2,
{
    if k2 < k1 {
        let f = pow(freq as int, DOUBLE_SPAN as nat);
        let t = total as int;
        // f < total^(2k2+1), so f * total < total^(2k2+2) <= total^(2k1) <= f * total
        assert(f * t < pow(t, 2 * k2 + 1) * t) by (nonlinear_arith)
            requires
                f < pow(t, 2 * k2 + 1),
                t >= 2;
        lemma_pow1(t);
        lemma_pow_adds(t, 2 * k2 + 1, 1);
        assert(pow(t, 2 * k2 + 1) * t == pow(t, 2 * k2 + 2));
        lemma_pow_increases(total, 2 * k2 + 2, 2 * k1);
        assert(false);
    }
}

/// The ramp index is unique.
pub proof fn lemma_scale_index_unique(freq: nat, total: nat, k1: nat, k2: nat)
    requires
        2 <= total,
        is_scale_index(freq, total, k1),
        is_scale_index(freq, total, k2),
    ensures
        k1 == k2,
{
    lemma_scale_index_le(freq, total, k1, k2);
    lemma_scale_index_le(freq, total, k2, k1);
}

/// Any index whose lower bound holds is at most `SPAN`.
proof fn lemma_scale_index_bounded(freq: nat, total: nat, n: nat)
    requires
        1 <= freq <= total,
        2 <= total,
        pow(total as int, 2 * n) <= pow(freq as int, DOUBLE_SPAN as nat) * total,
    ensures
        n <= SPAN,
{
    let t = total as int;
    lemma_pow_base_le(freq, total, DOUBLE_SPAN as nat);
    assert(pow(freq as int, DOUBLE_SPAN as nat) * t <= pow(t, DOUBLE_SPAN as nat) * t)
        by (nonlinear_arith)
        requires
            0 <= pow(freq as int, DOUBLE_SPAN as nat) <= pow(t, DOUBLE_SPAN as nat),
            t >= 2;
    lemma_pow1(t);
    lemma_pow_adds(t, DOUBLE_SPAN as nat, 1);
    assert(pow(t, 2 * n) <= pow(t, (DOUBLE_SPAN + 1) as nat));
    lemma_pow_increases_converse(total, 2 * n, (DOUBLE_SPAN + 1) as nat);
}

/// Search upward from a valid lower bound: some ramp index exists.
proof fn lemma_scale_index_search(freq: nat, total: nat, n: nat)
    requires
        1 <= freq <= total,
        2 <= total,
        pow(total as int, 2 * n) <= pow(freq as int, DOUBLE_SPAN as nat) * total,
    ensures
        exists|k: nat| is_scale_index(freq, total, k),
    decreases SPAN + 1 - n,
{
    let f = pow(freq as int, DOUBLE_SPAN as nat);
    let t = total as int;
    lemma_scale_index_bounded(freq, total, n);
    if f < pow(t, 2 * n + 1) {
        assert(is_scale_index(freq, total, n));
    } else {
        lemma_pow1(t);
        lemma_pow_adds(t, 2 * n + 1, 1);
        assert(pow(t, 2 * n + 1) * t <= f * t) by (nonlinear_arith)
            requires
                pow(t, 2 * n + 1) <= f,
                t >= 2;
        assert(pow(t, 2 * (n + 1)) <= f * t);
        lemma_scale_index_search(freq, total, n + 1);
    }
}

/// For every count within a valid total, a ramp index exists.
pub proof fn lemma_scale_index_exists(freq: nat, total: nat)
    requires
        1 <= freq <= total,
        2 <= total,
    ensures
        exists|k: nat| is_scale_index(freq, total, k),
{
    let t = total as int;
    lemma_pow_positive(freq as int, DOUBLE_SPAN as nat);
    assert(pow(t, 2 * 0nat) == 1) by {
        reveal(pow);
    }
    assert(1 <= pow(freq as int, DOUBLE_SPAN as nat) * t) by (nonlinear_arith)
        requires
            pow(freq as int, DOUBLE_SPAN as nat) >= 1,
            t >= 2;
    lemma_scale_index_search(freq, total, 0);
}

/// Maps a raw count onto the score range of the dictionary format by a
/// base-`divider` logarithm, exactly as `scale_spec` states.
pub fn divide_and_scale(freq: usize, divider: usize) -> (r: usize)
    requires
        1 <= freq <= divider,
        2 <= divider,
    ensures
        r == scale_spec(freq as nat, divider as nat),
        OFFSET + 1 <= r <= MAX_VALUE + 1,
{
    let f: u64 = freq as u64;
    let d: u64 = divider as u64;
    let mut fp: Vec<u64> = big_from_u64(f);
    let mut e: usize = 1;
    proof {
        lemma_pow1(f as int);
    }
    while e < DOUBLE_SPAN
        invariant
            1 <= e <= DOUBLE_SPAN,
            limbs(fp@) == pow(f as int, e as nat),
        decreases DOUBLE_SPAN - e,
    {
        fp = big_mul_u64(&fp, f);
        proof {
            lemma_pow1(f as int);
            lemma_pow_adds(f as int, e as nat, 1);
        }
        e = e + 1;
    }
    let mut p: Vec<u64> = big_from_u64(d);
    proof {
        lemma_pow1(d as int);
        assert(pow(d as int, 2 * 0nat) == 1) by {
            reveal(pow);
        }
        lemma_pow_positive(f as int, DOUBLE_SPAN as nat);
        assert(1 <= pow(f as int, DOUBLE_SPAN as nat) * d) by (nonlinear_arith)
            requires
                pow(f as int, DOUBLE_SPAN as nat) >= 1,
                d >= 2;
    }
    let mut n: usize = 0;
    while big_ge(&fp, &p)
        invariant
            1 <= f <= d,
            2 <= d,
            limbs(fp@) == pow(f as int, DOUBLE_SPAN as nat),
            limbs(p@) == pow(d as int, (2 * n + 1) as nat),
            pow(d as int, (2 * n) as nat) <= pow(f as int, DOUBLE_SPAN as nat) * d,
            n <= SPAN,
        decreases SPAN + 1 - n,
    {
        proof {
            // the loop test gives freq^478 >= divider^(2n+1), so n stays under SPAN
            lemma_pow_base_le(f as nat, d as nat, DOUBLE_SPAN as nat);
            lemma_pow_increases_converse(d as nat, (2 * n + 1) as nat, DOUBLE_SPAN as nat);
            lemma_pow1(d as int);
            lemma_pow_adds(d as int, (2 * n + 1) as nat, 1);
            lemma_pow_adds(d as int, (2 * n + 2) as nat, 1);
            assert(pow(d as int, (2 * n + 1) as nat) * d
                <= pow(f as int, DOUBLE_SPAN as nat) * d) by (nonlinear_arith)
                requires
                    pow(d as int, (2 * n + 1) as nat) <= pow(f as int, DOUBLE_SPAN as nat),
                    d >= 2;
        }
        p = big_mul_u64(&p, d);
        p = big_mul_u64(&p, d);
        n = n + 1;
    }
    proof {
        assert(is_scale_index(freq as nat, divider as nat, n as nat));
        let k = choose|k: nat| is_scale_index(freq as nat, divider as nat, k);
        lemma_scale_index_unique(freq as nat, divider as nat, k, n as nat);
    }
    n + OFFSET + 1
}

/// The sole entry of a single-entry corpus lands on the top score:
/// its count equals the total, the logarithm ratio is exactly 1, and
/// `round(SPAN) + OFFSET + 1 == MAX_VALUE + 1`.
pub proof fn lemma_scale_of_total(total: nat)
    requires
        2 <= total,
    ensures
        scale_spec(total, total) == MAX_VALUE + 1,
{
    let t = total as int;
    lemma_pow_positive(t, DOUBLE_SPAN as nat);
    assert(pow(t, DOUBLE_SPAN as nat) <= pow(t, DOUBLE_SPAN as nat) * t) by (nonlinear_arith)
        requires
            pow(t, DOUBLE_SPAN as nat) >= 1,
            t >= 2;
    lemma_pow_strictly_increases(total, DOUBLE_SPAN as nat, (DOUBLE_SPAN + 1) as nat);
    assert(is_scale_index(total, total, SPAN as nat));
    let k = choose|k: nat| is_scale_index(total, total, k);
    lemma_scale_index_unique(total, total, k, SPAN as nat);
}

/// Monotonicity of the scale: with the total fixed, a larger raw count
/// never receives a smaller score.
pub proof fn lemma_scale_monotonic(f1: nat, f2: nat, total: nat)
    requires
        1 <= f1 <= f2 <= total,
        2 <= total,
    ensures
        scale_spec(f1, total) <= scale_spec(f2, total),
{
    lemma_scale_index_exists(f1, total);
    lemma_scale_index_exists(f2, total);
    let k1 = choose|k: nat| is_scale_index(f1, total, k);
    let k2 = choose|k: nat| is_scale_index(f2, total, k);
    let t = total as int;
    if k1 > k2 {
        // total^(2k1) <= f1^478 * total <= f2^478 * total
        //             < total^(2k2+1) * total <= total^(2k1): absurd
        lemma_pow_base_le(f1, f2, DOUBLE_SPAN as nat);
        assert(pow(f1 as int, DOUBLE_SPAN as nat) * t
            <= pow(f2 as int, DOUBLE_SPAN as nat) * t) by (nonlinear_arith)
            requires
                0 <= pow(f1 as int, DOUBLE_SPAN as nat) <= pow(f2 as int, DOUBLE_SPAN as nat),
                t >= 2;
        assert(pow(f2 as int, DOUBLE_SPAN as nat) * t < pow(t, 2 * k2 + 1) * t)
            by (nonlinear_arith)
            requires
                pow(f2 as int, DOUBLE_SPAN as nat) < pow(t, 2 * k2 + 1),
                t >= 2;
        lemma_pow1(t);
        lemma_pow_adds(t, 2 * k2 + 1, 1);
        lemma_pow_increases(total, 2 * k2 + 2, 2 * k1);
        assert(false);
    }
}

} // verus!
