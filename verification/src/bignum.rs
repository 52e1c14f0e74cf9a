//! Unbounded natural numbers as little-endian `u64` limb vectors.
//!
//! The scaler compares powers such as `freq^478` and `total^479`, which far
//! exceed any machine integer, so it needs exact arithmetic on numbers of a
//! few hundred limbs: construction from a `u64`, multiplication by a `u64`,
//! and comparison.

use vstd::prelude::*;
use vstd::arithmetic::power::pow;
use vstd::arithmetic::power::lemma_pow0;
use vstd::arithmetic::power::lemma_pow1;
use vstd::arithmetic::power::lemma_pow_adds;
use vstd::arithmetic::power::lemma_pow_positive;
use vstd::arithmetic::div_mod::lemma_fundamental_div_mod;
use vstd::arithmetic::div_mod::lemma_multiply_divide_lt;
use vstd::arithmetic::div_mod::lemma_mod_division_less_than_divisor;

verus! {

/// Numeric weight of one limb position: `2^64`.
pub open spec fn limb_base() -> int {
    0x1_0000_0000_0000_0000
}

/// The natural number denoted by a little-endian limb sequence.
pub open spec fn limbs(s: Seq<u64>) -> nat
    decreases s.len(),
{
    if s.len() == 0 {
        0
    } else {
        (s[0] + limb_base() * limbs(s.skip(1))) as nat
    }
}

/// Appending a limb adds its value at the next power of the base.
pub proof fn lemma_limbs_push(s: Seq<u64>, x: u64)
    ensures
        limbs(s.push(x)) == limbs(s) + x * pow(limb_base(), s.len()),
    decreases s.len(),
{
    if s.len() == 0 {
        assert(s.push(x)[0] == x);
        assert(s.push(x).skip(1) =~= Seq::<u64>::empty());
        assert(limbs(Seq::<u64>::empty()) == 0);
        lemma_pow0(limb_base());
    } else {
        assert(s.push(x).skip(1) =~= s.skip(1).push(x));
        assert(s.push(x)[0] == s[0]);
        lemma_limbs_push(s.skip(1), x);
        let b = limb_base();
        let p = pow(b, (s.len() - 1) as nat);
        lemma_pow1(b);
        lemma_pow_adds(b, 1, (s.len() - 1) as nat);
        assert(pow(b, s.len()) == b * p);
        let r = limbs(s.skip(1)) as int;
        assert(b * (r + x * p) == b * r + x * (b * p)) by (nonlinear_arith);
        assert(limbs(s) == (s[0] + b * r) as nat);
        assert(s[0] + b * r >= 0) by {
            assert(b * r >= 0) by (nonlinear_arith)
                requires b > 0, r >= 0;
        }
        assert(r + x * p >= 0) by {
            lemma_pow_positive(b, (s.len() - 1) as nat);
            assert(x * p >= 0) by (nonlinear_arith)
                requires x >= 0, p > 0;
        }
        assert(limbs(s.push(x)) == (s[0] + b * limbs(s.skip(1).push(x))) as nat);
        assert(limbs(s.push(x)) == (s[0] + b * r + x * (b * p)) as nat);
        assert(limbs(s) + x * pow(b, s.len()) == (s[0] + b * r) + x * (b * p));
    }
}

/// A trailing zero limb does not change the denoted number.
pub proof fn lemma_limbs_push_zero(s: Seq<u64>)
    ensures
        limbs(s.push(0)) == limbs(s),
{
    lemma_limbs_push(s, 0);
}

/// If two equally long sequences agree above position `i` and differ there,
/// the one with the smaller limb denotes the smaller number.
pub proof fn lemma_limbs_cmp_at(a: Seq<u64>, b: Seq<u64>, i: int)
    requires
        a.len() == b.len(),
        0 <= i < a.len(),
        a.skip(i + 1) == b.skip(i + 1),
        a[i] < b[i],
    ensures
        limbs(a) < limbs(b),
    decreases i,
{
    let bb = limb_base();
    if i == 0 {
        assert(a.skip(1) == b.skip(1));
    } else {
        assert(a.skip(1).skip(i) =~= a.skip(i + 1));
        assert(b.skip(1).skip(i) =~= b.skip(i + 1));
        assert(a.skip(1)[i - 1] == a[i]);
        lemma_limbs_cmp_at(a.skip(1), b.skip(1), i - 1);
        let ra = limbs(a.skip(1)) as int;
        let rb = limbs(b.skip(1)) as int;
        assert(bb * ra + bb <= bb * rb) by (nonlinear_arith)
            requires bb > 0, ra + 1 <= rb;
        assert(a[0] < bb);
    }
}

/// A big number holding a single `u64`.
pub fn big_from_u64(x: u64) -> (r: Vec<u64>)
    ensures
        limbs(r@) == x,
{
    let mut r: Vec<u64> = Vec::new();
    r.push(x);
    proof {
        assert(r@.skip(1) =~= Seq::<u64>::empty());
        assert(limbs(Seq::<u64>::empty()) == 0);
    }
    r
}

/// Multiplies a big number by a `u64`, schoolbook style with a carry.
pub fn big_mul_u64(a: &Vec<u64>, m: u64) -> (r: Vec<u64>)
    ensures
        limbs(r@) == limbs(a@) * m,
{
    let ghost bb = limb_base();
    let mut out: Vec<u64> = Vec::new();
    let mut carry: u64 = 0;
    let mut i: usize = 0;
    proof {
        assert(a@.take(0) =~= Seq::<u64>::empty());
        assert(out@ =~= Seq::<u64>::empty());
        assert(limbs(Seq::<u64>::empty()) == 0);
        lemma_pow0(bb);
    }
    while i < a.len()
        invariant
            bb == limb_base(),
            i <= a.len(),
            out@.len() == i,
            limbs(out@) + carry * pow(limb_base(), i as nat)
                == limbs(a@.take(i as int)) * m,
        decreases a.len() - i,
    {
        proof {
            assert((a@[i as int] as int) * (m as int) + (carry as int) < bb * bb)
                by (nonlinear_arith)
                requires
                    0 <= a@[i as int] as int <= bb - 1,
                    0 <= m as int <= bb - 1,
                    0 <= carry as int <= bb - 1,
                    bb == 0x1_0000_0000_0000_0000;
        }
        let t: u128 = (a[i] as u128) * (m as u128) + (carry as u128);
        proof {
            assert(t < bb * bb);
            lemma_multiply_divide_lt(t as int, bb, bb);
            lemma_mod_division_less_than_divisor(t as int, bb);
        }
        let lo: u64 = (t % 0x1_0000_0000_0000_0000u128) as u64;
        let hi: u64 = (t / 0x1_0000_0000_0000_0000u128) as u64;
        proof {
            lemma_fundamental_div_mod(t as int, bb);
            assert(t == bb * hi + lo);
            let p = pow(bb, i as nat);
            lemma_pow1(bb);
            lemma_pow_adds(bb, 1, i as nat);
            assert(pow(bb, (i + 1) as nat) == bb * p);
            lemma_limbs_push(out@, lo);
            assert(out@.push(lo).len() == i + 1);
            // value of the accumulator after this step
            assert(limbs(out@.push(lo)) + hi * pow(bb, (i + 1) as nat)
                == limbs(out@) + (bb * hi + lo) * p) by (nonlinear_arith)
                requires
                    limbs(out@.push(lo)) == limbs(out@) + lo * p,
                    pow(bb, (i + 1) as nat) == bb * p;
            assert(limbs(out@) + (bb * hi + lo) * p
                == limbs(out@) + carry * p + (a@[i as int] * m) * p) by (nonlinear_arith)
                requires bb * hi + lo == a@[i as int] * m + carry;
            // value of the consumed prefix after this step
            assert(a@.take(i + 1) =~= a@.take(i as int).push(a@[i as int]));
            lemma_limbs_push(a@.take(i as int), a@[i as int]);
            assert(limbs(a@.take(i + 1)) == limbs(a@.take(i as int)) + a@[i as int] * p);
            assert(limbs(a@.take(i + 1)) * m
                == limbs(a@.take(i as int)) * m + (a@[i as int] * m) * p) by (nonlinear_arith)
                requires limbs(a@.take(i + 1)) == limbs(a@.take(i as int)) + a@[i as int] * p;
        }
        out.push(lo);
        carry = hi;
        i += 1;
    }
    proof {
        assert(a@.take(a@.len() as int) =~= a@);
        lemma_limbs_push(out@, carry);
    }
    out.push(carry);
    out
}

/// Pads a copy of `v` with zero limbs up to at least `n` limbs.
fn big_pad(v: &Vec<u64>, n: usize) -> (r: Vec<u64>)
    ensures
        limbs(r@) == limbs(v@),
        r@.len() == if v@.len() >= n { v@.len() as int } else { n as int },
{
    let mut r: Vec<u64> = Vec::new();
    let mut i: usize = 0;
    while i < v.len()
        invariant
            i <= v.len(),
            r@ =~= v@.take(i as int),
        decreases v.len() - i,
    {
        r.push(v[i]);
        proof {
            assert(r@ =~= v@.take(i + 1));
        }
        i += 1;
    }
    proof {
        assert(v@.take(v@.len() as int) =~= v@);
    }
    while r.len() < n
        invariant
            limbs(r@) == limbs(v@),
            r@.len() >= v@.len(),
            r@.len() <= if v@.len() >= n { v@.len() as int } else { n as int },
        decreases n - r.len(),
    {
        proof {
            lemma_limbs_push_zero(r@);
        }
        r.push(0);
    }
    r
}

/// Whether the first big number is at least the second.
pub fn big_ge(a: &Vec<u64>, b: &Vec<u64>) -> (r: bool)
    ensures
        r == (limbs(a@) >= limbs(b@)),
{
    let x = big_pad(a, b.len());
    let y = big_pad(b, a.len());
    let mut i: usize = x.len();
    proof {
        assert(x@.skip(x@.len() as int) =~= y@.skip(y@.len() as int));
    }
    while i > 0
        invariant
            i <= x@.len(),
            x@.len() == y@.len(),
            limbs(x@) == limbs(a@),
            limbs(y@) == limbs(b@),
            x@.skip(i as int) == y@.skip(i as int),
        decreases i,
    {
        i = i - 1;
        if x[i] > y[i] {
            proof {
                lemma_limbs_cmp_at(y@, x@, i as int);
            }
            return true;
        }
        if x[i] < y[i] {
            proof {
                lemma_limbs_cmp_at(x@, y@, i as int);
            }
            return false;
        }
        proof {
            let xi = i as int;
            assert forall|j: int| 0 <= j < x@.len() - xi implies x@.skip(xi)[j] == y@.skip(
                xi,
            )[j] by {
                if j == 0 {
                    assert(x@.skip(xi)[0] == x@[xi]);
                    assert(y@.skip(xi)[0] == y@[xi]);
                } else {
                    assert(x@.skip(xi)[j] == x@[xi + j]);
                    assert(x@.skip(xi + 1)[j - 1] == x@[xi + j]);
                    assert(y@.skip(xi)[j] == y@[xi + j]);
                    assert(y@.skip(xi + 1)[j - 1] == y@[xi + j]);
                }
            }
            assert(x@.skip(i as int) =~= y@.skip(i as int));
        }
    }
    proof {
        assert(x@.skip(0) =~= x@);
        assert(y@.skip(0) =~= y@);
        assert(x@ == y@);
    }
    true
}

} // verus!
