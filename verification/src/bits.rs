//! Bit-level facts shared by the tree formats.

use vstd::arithmetic::div_mod::{lemma_mod_bound, lemma_mod_breakdown};
use vstd::arithmetic::power2::{lemma2_to64, lemma_pow2_pos, lemma_pow2_unfold, pow2};
use vstd::bits::{lemma_u32_low_bits_mask_is_mod, lemma_u32_shl_is_mul, lemma_u32_shr_is_div};
use vstd::prelude::*;

verus! {

/// Number of ones in the binary representation of `x`.
pub open spec fn popcount(x: nat) -> nat
    decreases x,
{
    if x == 0 {
        0
    } else {
        x % 2 + popcount(x / 2)
    }
}

/// Whether bit `i` of `x` is one.
pub open spec fn bit_at(x: nat, i: nat) -> bool {
    (x / pow2(i)) % 2 == 1
}

/// `u32::count_ones` returns the number of ones in the binary representation
/// of its argument.
pub assume_specification[ u32::count_ones ](x: u32) -> (ones: u32)
    ensures
        ones == popcount(x as nat),
;

/// Setting a bit above all the others adds one to the count.
pub proof fn lemma_popcount_high_bit(m: nat, i: nat)
    requires
        m < pow2(i),
    ensures
        popcount(m + pow2(i)) == popcount(m) + 1,
    decreases i,
{
    if i == 0 {
        lemma2_to64();
        assert(popcount(1) == 1) by {
            reveal_with_fuel(popcount, 3);
        }
    } else {
        let j = (i - 1) as nat;
        lemma_pow2_unfold(i);
        lemma_pow2_pos(j);
        let n = m + pow2(i);
        assert(n % 2 == m % 2 && n / 2 == m / 2 + pow2(j) && m / 2 < pow2(j)) by {
            assert(pow2(i) == 2 * pow2(j));
        }
        lemma_popcount_high_bit(m / 2, j);
    }
}

/// Powers of two grow with their exponent.
pub proof fn lemma_pow2_monotone(a: nat, b: nat)
    requires
        a <= b,
    ensures
        0 < pow2(a) <= pow2(b),
    decreases b,
{
    lemma_pow2_pos(a);
    if a < b {
        lemma_pow2_unfold(b);
        lemma_pow2_monotone(a, (b - 1) as nat);
    }
}

/// The low `l` bits of two numbers agree exactly when bit `l - 1` agrees and
/// the bits below it do.
pub proof fn lemma_low_bits_split(x: nat, y: nat, l: nat)
    requires
        l > 0,
    ensures
        x % pow2(l) == y % pow2(l) <==> {
            &&& (x / pow2((l - 1) as nat)) % 2 == (y / pow2((l - 1) as nat)) % 2
            &&& x % pow2((l - 1) as nat) == y % pow2((l - 1) as nat)
        },
{
    let p = pow2((l - 1) as nat);
    lemma_pow2_unfold(l);
    lemma_pow2_pos((l - 1) as nat);
    assert(pow2(l) == p * 2);
    lemma_mod_breakdown(x as int, p as int, 2);
    lemma_mod_breakdown(y as int, p as int, 2);
    let a = (x / p) % 2;
    let b = (y / p) % 2;
    let c = x % p;
    let d = y % p;
    assert(x % pow2(l) == p * a + c);
    assert(y % pow2(l) == p * b + d);
    assert(p * a + c == p * b + d ==> a == b && c == d) by (nonlinear_arith)
        requires
            0 <= c < p,
            0 <= d < p,
            0 <= a < 2,
            0 <= b < 2,
    ;
}

/// A masked test of one bit is a test of that bit.
pub fn test_bit(x: u32, i: u32) -> (set: bool)
    requires
        i < 32,
    ensures
        set == bit_at(x as nat, i as nat),
{
    proof {
        lemma_u32_shr_is_div(x, i);
        assert((x & (1u32 << i) != 0) <==> (x >> i) % 2 == 1) by (bit_vector)
            requires
                i < 32,
        ;
    }
    x & (1u32 << i) != 0
}

/// How many bits below bit `i` are set.
pub fn ones_below(x: u32, i: u32) -> (ones: u32)
    requires
        i < 32,
    ensures
        ones == popcount(x as nat % pow2(i as nat)),
        ones <= i,
{
    proof {
        lemma_pow2_monotone(i as nat, 31);
        lemma2_to64();
        lemma_u32_shl_is_mul(1, i);
        lemma_u32_low_bits_mask_is_mod(x, i as nat);
        lemma_mod_bound(x as int, pow2(i as nat) as int);
        lemma_popcount_bound(x as nat % pow2(i as nat), i as nat);
    }
    (x & ((1u32 << i) - 1)).count_ones()
}

/// A number below `2^n` has at most `n` ones.
pub proof fn lemma_popcount_bound(x: nat, n: nat)
    requires
        x < pow2(n),
    ensures
        popcount(x) <= n,
    decreases n,
{
    if n == 0 {
        lemma2_to64();
    } else {
        lemma_pow2_unfold(n);
        lemma_popcount_bound(x / 2, (n - 1) as nat);
    }
}

/// Ones in the low part and ones above it add up.
pub proof fn lemma_popcount_split(lo: nat, hi: nat, k: nat)
    requires
        lo < pow2(k),
    ensures
        popcount(lo + pow2(k) * hi) == popcount(lo) + popcount(hi),
    decreases k,
{
    if k == 0 {
        lemma2_to64();
        assert(lo + pow2(k) * hi == hi) by (nonlinear_arith)
            requires
                lo == 0,
                pow2(k) == 1,
        ;
    } else {
        let j = (k - 1) as nat;
        lemma_pow2_unfold(k);
        let (p, n) = (pow2(j), lo + pow2(k) * hi);
        assert(n == lo + 2 * (p * hi)) by (nonlinear_arith)
            requires
                n == lo + (2 * p) * hi,
        ;
        let m = p * hi;
        assert(n % 2 == lo % 2 && n / 2 == lo / 2 + m && lo / 2 < p);
        lemma_popcount_split(lo / 2, hi, j);
        if n == 0 {
            assert(hi == 0) by (nonlinear_arith)
                requires
                    p * hi == 0,
                    p > 0,
            ;
        }
    }
}

/// A bit of a number is one just if the number's remainder by the next power of
/// two reaches the bit's own power of two.
pub proof fn law_bit_is_in_remainder(x: nat, i: nat)
    ensures
        bit_at(x, i) <==> x % pow2(i + 1) >= pow2(i),
{
    let p = pow2(i);
    lemma_pow2_unfold(i + 1);
    lemma_pow2_pos(i);
    lemma_mod_breakdown(x as int, p as int, 2);
    lemma_mod_bound(x as int, p as int);
    let d = (x / p) % 2;
    assert(pow2(i + 1) == p * 2);
    assert(d == 0 ==> p * d == 0) by (nonlinear_arith);
    assert(d == 1 ==> p * d == p) by (nonlinear_arith);
}

/// Counting the ones of a number below a place goes bit by bit: there are none
/// below the first place, and one more below the next place just if the bit at
/// this one is one.
pub proof fn law_count_below_by_bits(x: nat, i: nat)
    ensures
        popcount(x % pow2(0)) == 0,
        bit_at(x, i) ==> popcount(x % pow2(i + 1)) == popcount(x % pow2(i)) + 1,
        !bit_at(x, i) ==> popcount(x % pow2(i + 1)) == popcount(x % pow2(i)),
{
    lemma2_to64();
    assert(x % 1 == 0);
    let p = pow2(i);
    lemma_pow2_unfold(i + 1);
    lemma_pow2_pos(i);
    lemma_mod_breakdown(x as int, p as int, 2);
    lemma_mod_bound(x as int, p as int);
    let d = (x / p) % 2;
    assert(pow2(i + 1) == p * 2);
    assert(d == 0 ==> p * d == 0) by (nonlinear_arith);
    assert(d == 1 ==> p * d == p) by (nonlinear_arith);
    lemma_popcount_high_bit(x % p, i);
}

} // verus!
