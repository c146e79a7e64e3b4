//! Exact integer model of the few IEEE-754 operations that the game's random
//! number generators perform: a product or quotient of non-negative values,
//! rounded to nearest with ties to even, then truncated towards zero.
//!
//! A rounded result is a pair `(q, k)` that stands for `q * 2^k` (times the
//! scale that the caller fixed).
use vstd::arithmetic::div_mod::*;
use vstd::arithmetic::mul::*;
use vstd::arithmetic::power2::*;
use vstd::prelude::*;

verus! {

/// Number of binary digits of `x` (0 for 0).
pub open spec fn bit_len(x: nat) -> nat
    decreases x,
{
    if x == 0 {
        0
    } else {
        1 + bit_len(x / 2)
    }
}

/// Round-to-nearest, ties-to-even, of the quantity `m + f` to `p` significant
/// bits, where `m` is a natural number and `0 <= f < 1` is a fraction that is
/// non-zero exactly when `sticky` holds. The result `(q, k)` stands for `q * 2^k`.
/// (When `m` has at most `p` digits the quantity is returned as `m`: callers
/// only pass a non-zero fraction together with more than `p` digits.)
pub open spec fn round_sig(m: nat, sticky: bool, p: nat) -> (nat, nat) {
    if bit_len(m) <= p {
        (m, 0)
    } else {
        let k = (bit_len(m) - p) as nat;
        let q = m / pow2(k);
        let r = m % pow2(k);
        let h = pow2((k - 1) as nat);
        let up = r > h || (r == h && (sticky || q % 2 == 1));
        (if up {
            q + 1
        } else {
            q
        }, k)
    }
}

/// The value that a rounded pair stands for.
pub open spec fn sig_value(r: (nat, nat)) -> nat {
    r.0 * pow2(r.1)
}

pub proof fn lemma_pow2_128()
    ensures
        pow2(64) == 0x1_0000_0000_0000_0000,
        pow2(128) == 0x1_0000_0000_0000_0000_0000_0000_0000_0000,
{
    lemma2_to64_rest();
    lemma_pow2_adds(64, 64);
}

/// `x` has exactly `bit_len(x)` binary digits.
pub proof fn lemma_bit_len(x: nat)
    ensures
        x < pow2(bit_len(x)),
        x > 0 ==> pow2((bit_len(x) - 1) as nat) <= x,
        x > 0 ==> bit_len(x) >= 1,
    decreases x,
{
    lemma2_to64();
    if x > 0 {
        lemma_bit_len(x / 2);
        lemma_pow2_unfold(bit_len(x));
        if x / 2 > 0 {
            lemma_pow2_unfold((bit_len(x) - 1) as nat);
        }
    }
}

/// A number below `2^n` has at most `n` digits.
pub proof fn lemma_bit_len_le(x: nat, n: nat)
    requires
        x < pow2(n),
    ensures
        bit_len(x) <= n,
{
    lemma_bit_len(x);
    if bit_len(x) > n {
        lemma_pow2_increases(n, (bit_len(x) - 1) as nat);
    }
}

pub proof fn lemma_pow2_increases(a: nat, b: nat)
    requires
        a <= b,
    ensures
        pow2(a) <= pow2(b),
{
    if a < b {
        lemma_pow2_strictly_increases(a, b);
    }
}

/// The rounded significand has at most `p + 1` digits' worth of magnitude and
/// the exponent is at most the number of digits dropped.
pub proof fn lemma_round_sig_shape(m: nat, sticky: bool, p: nat)
    requires
        p >= 1,
    ensures
        round_sig(m, sticky, p).0 <= pow2(p),
        bit_len(m) <= p ==> round_sig(m, sticky, p) == (m, 0nat),
        bit_len(m) > p ==> round_sig(m, sticky, p).1 == bit_len(m) - p,
        round_sig(m, sticky, p).1 > 0 ==> pow2((round_sig(m, sticky, p).1 + p - 1) as nat) <= m,
{
    lemma_bit_len(m);
    if bit_len(m) <= p {
        lemma_pow2_increases(bit_len(m), p);
    } else {
        let k = (bit_len(m) - p) as nat;
        lemma_pow2_pos(k);
        lemma_pow2_adds(p, k);
        lemma_div_strictly_bounded(m as int, pow2(k) as int, pow2(p) as int);
    }
}

/// Dividing something below `b * d` by `d` gives something below `b`.
proof fn lemma_div_strictly_bounded(x: int, d: int, b: int)
    requires
        0 <= x,
        0 < d,
        x < b * d,
    ensures
        x / d < b,
{
    lemma_fundamental_div_mod(x, d);
    lemma_mod_bound(x, d);
    if x / d >= b {
        lemma_mul_inequality(b, x / d, d);
        lemma_mul_is_commutative(b, d);
        lemma_mul_is_commutative(x / d, d);
    }
}

/// Rounding never rises above a bound that is itself representable with `p`
/// significant bits.
pub proof fn lemma_round_le_representable(m: nat, sticky: bool, p: nat, u: nat, j: nat)
    requires
        p >= 1,
        u < pow2(p),
        m <= u * pow2(j),
    ensures
        sig_value(round_sig(m, sticky, p)) <= u * pow2(j),
{
    lemma_bit_len(m);
    lemma_pow2_pos(j);
    if bit_len(m) <= p {
        lemma2_to64();
        assert(m * pow2(0) == m * 1);
    } else {
        let len = bit_len(m);
        let k = (len - p) as nat;
        let pk = pow2(k);
        let q = m / pk;
        let r = m % pk;
        lemma_pow2_pos(k);
        // j >= k, else u * 2^j < 2^p * 2^(k-1) = 2^(len-1) <= m
        if j < k {
            lemma_pow2_increases(j, (k - 1) as nat);
            lemma_pow2_adds(p, (k - 1) as nat);
            lemma_mul_strict_inequality(u as int, pow2(p) as int, pow2(j) as int);
            lemma_mul_inequality(pow2(j) as int, pow2((k - 1) as nat) as int, pow2(p) as int);
            lemma_mul_is_commutative(pow2(j) as int, pow2(p) as int);
            lemma_mul_is_commutative(pow2((k - 1) as nat) as int, pow2(p) as int);
            assert(false);
        }
        let up_ = (u * pow2((j - k) as nat)) as nat;
        lemma_pow2_adds((j - k) as nat, k);
        lemma_mul_is_associative(u as int, pow2((j - k) as nat) as int, pk as int);
        assert(u * pow2(j) == up_ * pk);
        lemma_fundamental_div_mod(m as int, pk as int);
        lemma_mod_bound(m as int, pk as int);
        // q * pk <= m <= up_ * pk, so q <= up_
        if q > up_ {
            lemma_mul_inequality((up_ + 1) as int, q as int, pk as int);
            lemma_mul_is_distributive_add_other_way(pk as int, up_ as int, 1);
            assert(false);
        }
        let res = round_sig(m, sticky, p);
        assert(res.1 == k);
        if q == up_ {
            // then m == up_ * pk, so r == 0 and no rounding up happens
            lemma_mul_is_commutative(q as int, pk as int);
            assert(r == 0);
            lemma_pow2_pos((k - 1) as nat);
            assert(res.0 == q);
        } else {
            assert(res.0 <= up_);
            lemma_mul_inequality(res.0 as int, up_ as int, pk as int);
        }
        assert(sig_value(res) == res.0 * pk);
    }
}

/// Rounding adds less than one unit of the last kept place, and that unit is at
/// most `m / 2^(p-1)`.
pub proof fn lemma_round_up_bound(m: nat, sticky: bool, p: nat)
    requires
        p >= 1,
    ensures
        sig_value(round_sig(m, sticky, p)) <= m + pow2(round_sig(m, sticky, p).1),
{
    lemma_bit_len(m);
    lemma2_to64();
    if bit_len(m) > p {
        let k = (bit_len(m) - p) as nat;
        let pk = pow2(k);
        let q = m / pk;
        let res = round_sig(m, sticky, p);
        lemma_pow2_pos(k);
        assert(res.1 == k);
        assert(res.0 <= q + 1);
        assert(q * pk <= m) by {
            lemma_fundamental_div_mod(m as int, pk as int);
            lemma_mod_bound(m as int, pk as int);
            lemma_mul_is_commutative(q as int, pk as int);
        }
        assert(res.0 * pk <= (q + 1) * pk) by {
            lemma_mul_inequality(res.0 as int, (q + 1) as int, pk as int);
        }
        assert((q + 1) * pk == q * pk + pk) by {
            lemma_mul_is_distributive_add_other_way(pk as int, q as int, 1);
        }
        assert(sig_value(res) == res.0 * pk);
        assert(sig_value(res) <= m + pk);
    } else {
        assert(m * pow2(0) == m * 1);
    }
}

pub proof fn lemma_pow2_fits(k: nat)
    requires
        k < 128,
    ensures
        pow2(k) < 0x1_0000_0000_0000_0000_0000_0000_0000_0000,
        pow2(k + 1) <= 0x1_0000_0000_0000_0000_0000_0000_0000_0000,
{
    lemma_pow2_128();
    lemma_pow2_strictly_increases(k, 128);
    lemma_pow2_increases(k + 1, 128);
}

/// Number of binary digits of `x`.
pub fn bit_len_u128(x: u128) -> (r: u32)
    ensures
        r as nat == bit_len(x as nat),
        r <= 128,
{
    proof {
        lemma_pow2_128();
        lemma_bit_len_le(x as nat, 128);
    }
    let mut y = x;
    let mut n: u32 = 0;
    while y > 0
        invariant
            bit_len(x as nat) == n + bit_len(y as nat),
            bit_len(x as nat) <= 128,
        decreases y,
    {
        y = y / 2;
        n = n + 1;
    }
    n
}

/// `2^k` as a machine integer.
pub fn pow2_u128(k: u32) -> (r: u128)
    requires
        k < 128,
    ensures
        r as nat == pow2(k as nat),
{
    let mut r: u128 = 1;
    let mut i: u32 = 0;
    proof {
        lemma2_to64();
    }
    while i < k
        invariant
            i <= k,
            k < 128,
            r as nat == pow2(i as nat),
        decreases k - i,
    {
        proof {
            lemma_pow2_fits((i + 1) as nat);
            lemma_pow2_unfold((i + 1) as nat);
        }
        r = r * 2;
        i = i + 1;
    }
    r
}

/// Round `m + f` (see [`round_sig`]) to `p` significant bits.
pub fn round_sig_u128(m: u128, sticky: bool, p: u32) -> (res: (u128, u32))
    requires
        1 <= p <= 64,
    ensures
        (res.0 as nat, res.1 as nat) == round_sig(m as nat, sticky, p as nat),
        res.1 <= 127,
{
    let len = bit_len_u128(m);
    if len <= p {
        return (m, 0);
    }
    let k = len - p;
    let pk = pow2_u128(k);
    proof {
        lemma_pow2_pos(k as nat);
        lemma_pow2_unfold(k as nat);
        lemma_pow2_pos((k - 1) as nat);
        lemma_div_is_ordered_by_denominator(m as int, 2, pk as int);
    }
    let q = m / pk;
    let r = m % pk;
    let h = pow2_u128(k - 1);
    let up = r > h || (r == h && (sticky || q % 2 == 1));
    if up {
        (q + 1, k)
    } else {
        (q, k)
    }
}

} // verus!
