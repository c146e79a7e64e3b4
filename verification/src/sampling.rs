//! How the generators turn a raw draw into a number in a range.
//!
//! Both generators do this with IEEE-754 double arithmetic. The functions here
//! compute the same results with integers, using the rounding model of
//! [`crate::fp_round`]:
//!
//! * the engine generator scales a 32-bit draw `r` by `r / 4294967295.0` and
//!   multiplies by the width of the range;
//! * the .NET-style generator scales a draw `n` by the double constant
//!   `4.656612875245797e-10`, which is exactly `(2^31 + 1) / 2^62`, and
//!   multiplies by the width of the range.
use crate::fp_round::{bit_len, lemma_pow2_fits, pow2_u128, round_sig_u128, lemma_bit_len_le, lemma_pow2_increases, lemma_round_le_representable, lemma_round_sig_shape, lemma_round_up_bound, round_sig};
use vstd::arithmetic::div_mod::*;
use vstd::arithmetic::mul::*;
use vstd::arithmetic::power2::*;
use vstd::prelude::*;

verus! {

/// `2^32 - 1`, the divisor of the engine generator.
pub open spec fn u32_range() -> nat {
    4294967295
}

/// `r / (2^32 - 1)` rounded to a double, as `(q, k)` standing for `q * 2^k / 2^85`.
pub open spec fn unit_ratio(r: nat) -> (nat, nat) {
    round_sig(r * pow2(85) / u32_range(), (r * pow2(85)) % u32_range() != 0, 53)
}

/// Truncation towards zero of the double product `(r / (2^32 - 1)) * span`,
/// each operation rounded to nearest.
pub open spec fn ratio_scaled(r: u32, span: i32) -> int {
    let a = unit_ratio(r as nat);
    let mag: nat = if span < 0 {
        (-span) as nat
    } else {
        span as nat
    };
    let b = round_sig(a.0 * mag, false, 53);
    let t: int = ((b.0 * pow2(a.1 + b.1)) / pow2(85)) as int;
    if span < 0 {
        -t
    } else {
        t
    }
}

/// Saturating conversion to `i32`, as a cast from a double does.
pub open spec fn sat_i32(x: int) -> i32 {
    if x > i32::MAX {
        i32::MAX
    } else if x < i32::MIN {
        i32::MIN
    } else {
        x as i32
    }
}

/// Truncation of the double product `(n * 4.656612875245797e-10) * d` for
/// `n >= 0`, each operation rounded to nearest. The constant is exactly
/// `(2^31 + 1) / 2^62`.
pub open spec fn sample_product(n: nat, d: nat) -> nat {
    let a = round_sig(n * (pow2(31) + 1), false, 53);
    let b = round_sig(a.0 * d, false, 53);
    (b.0 * pow2(a.1 + b.1)) / pow2(62)
}

proof fn lemma_consts()
    ensures
        pow2(31) == 0x8000_0000,
        pow2(62) == 0x4000_0000_0000_0000,
        pow2(85) == 0x20_0000_0000_0000_0000_0000,
        pow2(53) == 0x20_0000_0000_0000,
{
    lemma2_to64();
    lemma2_to64_rest();
    lemma_pow2_adds(64, 21);
}

/// `a * c <= b * c` with `c > 0` gives `a <= b`.
proof fn lemma_cancel_le(a: nat, b: nat, c: nat)
    requires
        c > 0,
        a * c <= b * c,
    ensures
        a <= b,
{
    if a > b {
        lemma_mul_strict_inequality(b as int, a as int, c as int);
    }
}

/// The engine generator's scaled value lies between 0 and the width of a
/// positive range.
pub proof fn lemma_ratio_scaled_bounds(r: u32, span: i32)
    requires
        span >= 1,
    ensures
        0 <= ratio_scaled(r, span) <= span,
{
    lemma_consts();
    let q0 = (r as nat) * pow2(85) / u32_range();
    // q0 <= 2^85
    assert(q0 <= pow2(85)) by {
        lemma_mul_inequality(r as int, u32_range() as int, pow2(85) as int);
        lemma_div_is_ordered((r as nat * pow2(85)) as int, (u32_range() * pow2(85)) as int, u32_range() as int);
        lemma_div_multiples_vanish(pow2(85) as int, u32_range() as int);
        lemma_mul_is_commutative(u32_range() as int, pow2(85) as int);
    }
    let a = unit_ratio(r as nat);
    lemma_pow2_pos(85);
    lemma2_to64();
    lemma_round_le_representable(q0, (r as nat * pow2(85)) % u32_range() != 0, 53, 1, 85);
    lemma_round_sig_shape(q0, (r as nat * pow2(85)) % u32_range() != 0, 53);
    // a.0 * 2^a.1 <= 2^85, and a.1 <= 33
    lemma_pow2_strictly_increases(85, 86);
    lemma_bit_len_le(q0, 86);
    assert(a.1 <= 33);
    let j = (85 - a.1) as nat;
    lemma_pow2_adds(j, a.1);
    lemma_pow2_pos(a.1);
    assert(a.0 * pow2(a.1) <= pow2(j) * pow2(a.1));
    lemma_cancel_le(a.0, pow2(j), pow2(a.1));
    let mag = span as nat;
    assert(a.0 * mag <= mag * pow2(j)) by {
        lemma_mul_inequality(a.0 as int, pow2(j) as int, mag as int);
        lemma_mul_is_commutative(pow2(j) as int, mag as int);
    }
    lemma_pow2_strictly_increases(31, 53);
    lemma_round_le_representable(a.0 * mag, false, 53, mag, j);
    let b = round_sig(a.0 * mag, false, 53);
    lemma_pow2_adds(a.1, b.1);
    lemma_pow2_pos(b.1);
    assert(b.0 * pow2(a.1 + b.1) <= mag * pow2(85)) by {
        lemma_mul_is_associative(b.0 as int, pow2(b.1) as int, pow2(a.1) as int);
        lemma_mul_is_commutative(pow2(a.1) as int, pow2(b.1) as int);
        lemma_mul_inequality((b.0 * pow2(b.1)) as int, (mag * pow2(j)) as int, pow2(a.1) as int);
        lemma_mul_is_associative(mag as int, pow2(j) as int, pow2(a.1) as int);
    }
    assert((b.0 * pow2(a.1 + b.1)) / pow2(85) <= mag) by {
        lemma_div_is_ordered((b.0 * pow2(a.1 + b.1)) as int, (mag * pow2(85)) as int, pow2(85) as int);
        lemma_div_multiples_vanish(mag as int, pow2(85) as int);
        lemma_mul_is_commutative(mag as int, pow2(85) as int);
    }
    lemma_div_pos_is_pos((b.0 * pow2(a.1 + b.1)) as int, pow2(85) as int);
}

/// The .NET generator's scaled value never exceeds the width `d` for a draw
/// that fits in an `i32`, and stays below it for every draw but `i32::MAX`.
pub proof fn lemma_sample_product_bounds(n: nat, d: nat)
    requires
        n <= i32::MAX,
        d <= u32::MAX,
    ensures
        sample_product(n, d) <= d,
        n < i32::MAX && d > 0 ==> sample_product(n, d) < d,
{
    lemma_consts();
    lemma2_to64();
    let m1 = n * (pow2(31) + 1);
    assert(m1 <= 0x3fff_ffff_ffff_ffff) by {
        lemma_mul_inequality(n as int, i32::MAX as int, (pow2(31) + 1) as int);
    }
    let a = round_sig(m1, false, 53);
    lemma_round_sig_shape(m1, false, 53);
    lemma_bit_len_le(m1, 62);
    assert(a.1 <= 9);
    lemma_pow2_pos(a.1);
    lemma_pow2_pos(62);
    // upper bound of the first rounding: 2^62
    lemma_round_le_representable(m1, false, 53, 1, 62);
    let j = (62 - a.1) as nat;
    lemma_pow2_adds(j, a.1);
    assert(a.0 * pow2(a.1) <= pow2(j) * pow2(a.1));
    lemma_cancel_le(a.0, pow2(j), pow2(a.1));
    assert(a.0 * d <= d * pow2(j)) by {
        lemma_mul_inequality(a.0 as int, pow2(j) as int, d as int);
        lemma_mul_is_commutative(pow2(j) as int, d as int);
    }
    let m2 = a.0 * d;
    let b = round_sig(m2, false, 53);
    lemma_pow2_pos(b.1);
    lemma_pow2_adds(a.1, b.1);
    let scaled = b.0 * pow2(a.1 + b.1);
    assert(scaled == (b.0 * pow2(b.1)) * pow2(a.1)) by {
        lemma_mul_is_associative(b.0 as int, pow2(b.1) as int, pow2(a.1) as int);
        lemma_mul_is_commutative(pow2(a.1) as int, pow2(b.1) as int);
    }
    lemma_round_le_representable(m2, false, 53, d, j);
    assert(scaled <= d * pow2(62)) by {
        lemma_mul_inequality((b.0 * pow2(b.1)) as int, (d * pow2(j)) as int, pow2(a.1) as int);
        lemma_mul_is_associative(d as int, pow2(j) as int, pow2(a.1) as int);
    }
    assert(scaled / pow2(62) <= d) by {
        lemma_div_is_ordered(scaled as int, (d * pow2(62)) as int, pow2(62) as int);
        lemma_div_multiples_vanish(d as int, pow2(62) as int);
        lemma_mul_is_commutative(d as int, pow2(62) as int);
    }
    if n < i32::MAX && d > 0 {
        // the first rounding stays at or below 2^62 - 2^31
        assert(m1 <= 0x7fff_ffff * pow2(31)) by {
            lemma_mul_inequality(n as int, (i32::MAX - 1) as int, (pow2(31) + 1) as int);
        }
        lemma_pow2_strictly_increases(31, 53);
        lemma_round_le_representable(m1, false, 53, 0x7fff_ffff, 31);
        // scaled <= m2 * 2^a.1 + 2^(a.1 + b.1)
        lemma_round_up_bound(m2, false, 53);
        assert(scaled <= m2 * pow2(a.1) + pow2(a.1 + b.1)) by {
            lemma_mul_inequality((b.0 * pow2(b.1)) as int, (m2 + pow2(b.1)) as int, pow2(a.1) as int);
            lemma_mul_is_distributive_add_other_way(pow2(a.1) as int, m2 as int, pow2(b.1) as int);
            lemma_mul_is_commutative(pow2(b.1) as int, pow2(a.1) as int);
        }
        // m2 * 2^a.1 = (a.0 * 2^a.1) * d <= (2^62 - 2^31) * d
        assert(m2 * pow2(a.1) <= (pow2(62) - pow2(31)) * d) by {
            lemma_mul_is_associative(a.0 as int, d as int, pow2(a.1) as int);
            lemma_mul_is_commutative(d as int, pow2(a.1) as int);
            lemma_mul_is_associative(a.0 as int, pow2(a.1) as int, d as int);
            lemma_mul_inequality((a.0 * pow2(a.1)) as int, (pow2(62) - pow2(31)) as int, d as int);
        }
        // 2^(a.1 + b.1) <= 2^10 * d
        lemma_round_sig_shape(m2, false, 53);
        if b.1 > 0 {
            assert(pow2(b.1 + 52) <= m2);
            lemma_pow2_adds(b.1, 52);
            lemma_pow2_adds(a.1 + b.1, 52);
            assert(pow2(a.1 + b.1) * pow2(52) <= pow2(62) * d) by {
                lemma_mul_is_associative(pow2(a.1) as int, pow2(b.1) as int, pow2(52) as int);
                lemma_mul_inequality(pow2(b.1 + 52) as int, m2 as int, pow2(a.1) as int);
                lemma_mul_is_commutative(pow2(b.1 + 52) as int, pow2(a.1) as int);
                lemma_mul_is_commutative(m2 as int, pow2(a.1) as int);
                lemma_mul_is_associative(a.0 as int, d as int, pow2(a.1) as int);
                lemma_mul_is_commutative(d as int, pow2(a.1) as int);
                lemma_mul_is_associative(a.0 as int, pow2(a.1) as int, d as int);
                lemma_mul_inequality((a.0 * pow2(a.1)) as int, pow2(62) as int, d as int);
            }
            lemma_pow2_adds(10, 52);
            assert(pow2(a.1 + b.1) * pow2(52) <= (pow2(10) * d) * pow2(52)) by {
                lemma_mul_is_associative(pow2(10) as int, pow2(52) as int, d as int);
                lemma_mul_is_associative(pow2(10) as int, d as int, pow2(52) as int);
                lemma_mul_is_commutative(d as int, pow2(52) as int);
                lemma_mul_is_commutative(pow2(62) as int, d as int);
            }
            lemma_pow2_pos(52);
            lemma_cancel_le(pow2(a.1 + b.1), pow2(10) * d, pow2(52));
        } else {
            lemma_pow2_increases(a.1, 10);
            assert(pow2(a.1 + b.1) <= pow2(10) * d) by {
                lemma_mul_inequality(1, d as int, pow2(10) as int);
                lemma_mul_is_commutative(d as int, pow2(10) as int);
            }
        }
        assert(scaled < pow2(62) * d);
        assert(scaled / pow2(62) < d) by {
            lemma_mul_is_commutative(pow2(62) as int, d as int);
            lemma_div_strictly_bounded_nat(scaled, pow2(62), d);
        }
    }
}

/// The engine generator's scaling: `(r / 4294967295.0 * span as f64) as i32`.
pub fn ratio_scale(r: u32, span: i32) -> (res: i32)
    ensures
        res == sat_i32(ratio_scaled(r, span)),
{
    proof {
        lemma_consts();
    }
    let big: u128 = (r as u128) * 0x20_0000_0000_0000_0000_0000;
    let q0 = big / 4294967295;
    let sticky = big % 4294967295 != 0;
    proof {
        assert(q0 <= pow2(85)) by {
            lemma_div_is_ordered(big as int, (u32_range() * pow2(85)) as int, u32_range() as int);
            lemma_div_multiples_vanish(pow2(85) as int, u32_range() as int);
            lemma_mul_is_commutative(u32_range() as int, pow2(85) as int);
        }
        lemma_pow2_strictly_increases(85, 86);
        lemma_bit_len_le(q0 as nat, 86);
        lemma_round_sig_shape(q0 as nat, sticky, 53);
    }
    let (q1, k1) = round_sig_u128(q0, sticky, 53);
    let mag: u128 = if span < 0 {
        (0 - (span as i64)) as u128
    } else {
        span as u128
    };
    proof {
        assert(q1 * mag <= 0x20_0000_0000_0000 * 0x8000_0000) by {
            lemma_mul_inequality(q1 as int, 0x20_0000_0000_0000, mag as int);
            lemma_mul_inequality(mag as int, 0x8000_0000, 0x20_0000_0000_0000);
            lemma_mul_is_commutative(mag as int, 0x20_0000_0000_0000);
        }
        lemma_pow2_strictly_increases(84, 85);
        lemma_pow2_adds(53, 31);
        lemma_bit_len_le((q1 * mag) as nat, 85);
        lemma_round_sig_shape((q1 * mag) as nat, false, 53);
    }
    let (q2, k2) = round_sig_u128(q1 * mag, false, 53);
    let p = pow2_u128(k1 + k2);
    proof {
        lemma_pow2_increases((k1 + k2) as nat, 65);
        lemma_pow2_adds(53, 65);
        assert(q2 * p <= pow2(53) * pow2(65)) by {
            lemma_mul_inequality(q2 as int, pow2(53) as int, p as int);
            lemma_mul_inequality(p as int, pow2(65) as int, pow2(53) as int);
            lemma_mul_is_commutative(p as int, pow2(53) as int);
        }
        lemma_pow2_fits(118);
    }
    let t = q2 * p / 0x20_0000_0000_0000_0000_0000;
    if span < 0 {
        if t > 0x8000_0000 {
            i32::MIN
        } else {
            (0 - (t as i64)) as i32
        }
    } else {
        if t > 0x7fff_ffff {
            i32::MAX
        } else {
            t as i32
        }
    }
}

/// The .NET generator's scaling of a draw `n >= 0` to a width `d`:
/// `(n as f64 * 4.656612875245797e-10 * d as f64)` truncated towards zero.
pub fn sample_scale(n: u32, d: u32) -> (res: u64)
    requires
        n <= 0x8000_0000,
    ensures
        res == sample_product(n as nat, d as nat),
{
    proof {
        lemma_consts();
    }
    let m1: u128 = (n as u128) * 0x8000_0001;
    proof {
        lemma_pow2_strictly_increases(63, 64);
        lemma2_to64_rest();
        lemma_bit_len_le(m1 as nat, 64);
        lemma_round_sig_shape(m1 as nat, false, 53);
    }
    let (q1, k1) = round_sig_u128(m1, false, 53);
    proof {
        assert(q1 * (d as u128) <= 0x20_0000_0000_0000 * 0xffff_ffff) by {
            lemma_mul_inequality(q1 as int, 0x20_0000_0000_0000, d as int);
            lemma_mul_inequality(d as int, 0xffff_ffff, 0x20_0000_0000_0000);
            lemma_mul_is_commutative(d as int, 0x20_0000_0000_0000);
        }
        lemma_pow2_adds(53, 32);
        lemma_bit_len_le((q1 * (d as u128)) as nat, 85);
        lemma_round_sig_shape((q1 * (d as u128)) as nat, false, 53);
    }
    let (q2, k2) = round_sig_u128(q1 * (d as u128), false, 53);
    let p = pow2_u128(k1 + k2);
    proof {
        lemma_pow2_increases((k1 + k2) as nat, 43);
        lemma_pow2_adds(53, 43);
        assert(q2 * p <= pow2(53) * pow2(43)) by {
            lemma_mul_inequality(q2 as int, pow2(53) as int, p as int);
            lemma_mul_inequality(p as int, pow2(43) as int, pow2(53) as int);
            lemma_mul_is_commutative(p as int, pow2(53) as int);
        }
        lemma_pow2_fits(96);
        lemma_pow2_adds(62, 34);
        lemma_div_strictly_bounded_nat((q2 * p) as nat, pow2(62), pow2(34) + 1);
        lemma_pow2_fits(34);
    }
    let t = q2 * p / 0x4000_0000_0000_0000;
    t as u64
}

/// Truncation of the single-precision product `x * (m / 2^e)` with the
/// product rounded to nearest; `x` and `m / 2^e` must be exact floats.
pub open spec fn f32_product(x: nat, m: nat, e: nat) -> nat {
    let a = round_sig(x * m, false, 24);
    (a.0 * pow2(a.1)) / pow2(e)
}

/// `(x as f32 * c) as i32` for `x < 2^16` and a constant `c = m / 2^e` with
/// `m < 2^24`.
pub fn f32_scale(x: u32, m: u32, e: u32) -> (r: u64)
    requires
        x <= 0x1_0000,
        m < 0x100_0000,
        e < 64,
    ensures
        r == f32_product(x as nat, m as nat, e as nat),
{
    proof {
        lemma_consts();
        lemma2_to64();
    }
    proof {
        assert((x as int) * (m as int) <= 0x1_0000 * 0x100_0000) by (nonlinear_arith)
            requires
                x <= 0x1_0000,
                m < 0x100_0000,
        ;
    }
    let prod: u128 = (x as u128) * (m as u128);
    proof {
        lemma_pow2_adds(16, 24);
        lemma_pow2_strictly_increases(40, 41);
        lemma_bit_len_le(prod as nat, 41);
        lemma_round_sig_shape(prod as nat, false, 24);
    }
    let (q, k) = round_sig_u128(prod, false, 24);
    let p = pow2_u128(k);
    let d = pow2_u128(e);
    proof {
        lemma_pow2_increases(k as nat, 17);
        lemma_pow2_adds(24, 17);
        assert(q * p <= pow2(24) * pow2(17)) by {
            lemma_mul_inequality(q as int, pow2(24) as int, p as int);
            lemma_mul_inequality(p as int, pow2(17) as int, pow2(24) as int);
            lemma_mul_is_commutative(p as int, pow2(24) as int);
        }
        lemma_pow2_pos(e as nat);
        lemma_div_is_ordered((q * p) as int, pow2(41) as int, d as int);
        lemma_div_basics(pow2(41) as int);
        lemma_div_is_ordered_by_denominator(pow2(41) as int, 1, d as int);
        lemma_pow2_strictly_increases(41, 64);
    }
    let t = q * p / d;
    t as u64
}

proof fn lemma_div_strictly_bounded_nat(x: nat, dv: nat, b: nat)
    requires
        dv > 0,
        x < b * dv,
    ensures
        x / dv < b,
{
    lemma_fundamental_div_mod(x as int, dv as int);
    lemma_mod_bound(x as int, dv as int);
    if x / dv >= b {
        lemma_mul_inequality(b as int, (x / dv) as int, dv as int);
        lemma_mul_is_commutative(b as int, dv as int);
        lemma_mul_is_commutative((x / dv) as int, dv as int);
    }
}

} // verus!
