//! Text seeds: the game turns a text into a numeric seed with the Java-style
//! string hash over UTF-16 code units; [`find_chinese_collision`] builds, for
//! any numeric seed, a text of eight Chinese characters that hashes to it.
use vstd::arithmetic::div_mod::*;
use vstd::arithmetic::mul::*;
use vstd::prelude::*;
use vstd::string::StrSliceExecFns;

verus! {

/// `2^32`.
pub open spec fn m32() -> int {
    0x1_0000_0000
}

/// The UTF-16 code units of one character.
pub open spec fn utf16_of_char(c: char) -> Seq<u16> {
    let v = (c as u32) as int;
    if v < 0x1_0000 {
        seq![v as u16]
    } else {
        seq![(0xD800 + (v - 0x1_0000) / 0x400) as u16, (0xDC00 + (v - 0x1_0000) % 0x400) as u16]
    }
}

/// The UTF-16 code units of a text.
pub open spec fn utf16_of(s: Seq<char>) -> Seq<u16>
    decreases s.len(),
{
    if s.len() == 0 {
        seq![]
    } else {
        utf16_of(s.drop_last()) + utf16_of_char(s.last())
    }
}

/// The polynomial `sum units[i] * 31^(len - 1 - i)` over the integers.
pub open spec fn poly31(u: Seq<u16>) -> int
    decreases u.len(),
{
    if u.len() == 0 {
        0
    } else {
        poly31(u.drop_last()) * 31 + u.last() as int
    }
}

/// Reading of a 32-bit pattern as a two's-complement `i32`.
pub open spec fn as_i32(x: int) -> int {
    if x < 0x8000_0000 {
        x
    } else {
        x - m32()
    }
}

/// The hash of a sequence of code units: `h = 31 * h + unit` over 32-bit
/// two's-complement integers, starting from 0.
pub open spec fn hash_units(u: Seq<u16>) -> int {
    as_i32(poly31(u) % m32())
}

/// `h * 31 + x` modulo `2^32`, step by step, stays the polynomial modulo `2^32`.
proof fn lemma_poly_step(u: Seq<u16>, h: int)
    requires
        u.len() > 0,
        h == poly31(u.drop_last()) % m32(),
    ensures
        (h * 31 + u.last() as int) % m32() == poly31(u) % m32(),
{
    let p = poly31(u.drop_last());
    lemma_mul_mod_noop_left(p, 31, m32());
    lemma_add_mod_noop(p * 31, u.last() as int, m32());
    lemma_add_mod_noop(h * 31, u.last() as int, m32());
    lemma_mod_twice(h * 31, m32());
    lemma_mod_twice(p * 31, m32());
}

proof fn lemma_utf16_push(s: Seq<char>, c: char)
    ensures
        utf16_of(s.push(c)) == utf16_of(s) + utf16_of_char(c),
{
    assert(s.push(c).drop_last() =~= s);
}

/// Extends the running hash `h` of `prev` by the code units of `c`.
fn hash_push_char(h: u32, c: char, Ghost(prev): Ghost<Seq<u16>>) -> (r: u32)
    requires
        h as int == poly31(prev) % m32(),
    ensures
        r as int == poly31(prev + utf16_of_char(c)) % m32(),
{
    let v = c as u32;
    if v < 0x1_0000 {
        proof {
            let u = prev + seq![v as u16];
            assert(u.drop_last() =~= prev);
            lemma_poly_step(u, h as int);
            assert(u =~= prev + utf16_of_char(c));
        }
        h.wrapping_mul(31).wrapping_add(v)
    } else {
        let hi = 0xD800 + (v - 0x1_0000) / 0x400;
        let lo = 0xDC00 + (v - 0x1_0000) % 0x400;
        proof {
            let u1 = prev + seq![hi as u16];
            let u2 = u1 + seq![lo as u16];
            assert(u1.drop_last() =~= prev);
            assert(u2.drop_last() =~= u1);
            lemma_poly_step(u1, h as int);
            let h1 = ((h as int) * 31 + hi) % m32();
            lemma_poly_step(u2, h1);
            assert(u2 =~= prev + utf16_of_char(c));
        }
        let h1 = h.wrapping_mul(31).wrapping_add(hi);
        h1.wrapping_mul(31).wrapping_add(lo)
    }
}

/// The text-to-seed hash of the game: Java's `String.hashCode` over the
/// UTF-16 code units of `s` (`h = 31 * h + unit`, wrapping), read as an `i32`.
pub fn string_hash(s: &str) -> (r: i32)
    ensures
        r == hash_units(utf16_of(s@)),
{
    let n = s.unicode_len();
    let mut h: u32 = 0;
    let mut i: usize = 0;
    proof {
        assert(s@.take(0) =~= Seq::<char>::empty());
    }
    while i < n
        invariant
            i <= n,
            n == s@.len(),
            h as int == poly31(utf16_of(s@.take(i as int))) % m32(),
        decreases n - i,
    {
        let c = s.get_char(i);
        proof {
            lemma_utf16_push(s@.take(i as int), c);
            assert(s@.take(i as int).push(c) =~= s@.take(i + 1));
        }
        h = hash_push_char(h, c, Ghost(utf16_of(s@.take(i as int))));
        i = i + 1;
    }
    proof {
        assert(s@.take(n as int) =~= s@);
        assert(h >= 0x8000_0000 ==> (h as i32) as int == h - 0x1_0000_0000) by (bit_vector);
        assert(h < 0x8000_0000 ==> (h as i32) as int == h) by (bit_vector);
    }
    h as i32
}

/// Decodes UTF-16 code units (`String::from_utf16`).
/// Trusted: units that are none of them surrogates decode to the characters
/// of the same numbers, one for one.
#[verifier::external_body]
fn string_from_utf16(units: &[u16]) -> (r: Option<String>)
    ensures
        (forall|i: int| 0 <= i < units@.len() ==> !(0xD800 <= #[trigger] units@[i] <= 0xDFFF)) ==> {
            &&& r is Some
            &&& r->0@.len() == units@.len()
            &&& forall|i: int| 0 <= i < units@.len() ==> (#[trigger] r->0@[i]) as u32 == units@[i] as u32
        },
{
    String::from_utf16(units).ok()
}

/// The place values of the five generated characters: `31^4 .. 31^0`.
pub open spec fn place(i: int) -> int {
    if i == 0 {
        923521
    } else if i == 1 {
        29791
    } else if i == 2 {
        961
    } else if i == 3 {
        31
    } else {
        1
    }
}

/// The code units of 玄, 黎 and 曰.
pub open spec fn prefix_units() -> Seq<u16> {
    seq![0x7384u16, 0x9ECEu16, 0x66F0u16]
}

/// The remainder that the five generated characters have to encode:
/// `seed - hash(玄黎曰) * 31^5 - 0x7384 * (31^4 + .. + 1)` modulo `2^32`.
pub open spec fn collision_remainder(seed: i32) -> int {
    ((seed as int) - (poly31(prefix_units()) % m32()) * 28629151 - 2450903684) % m32()
}

/// Digit `i` of the remainder in the mixed base `31^4, .., 1` (the first digit
/// unbounded).
pub open spec fn collision_digit(rem: int, i: int) -> int
    decreases i,
{
    if i <= 0 {
        rem / place(0)
    } else {
        collision_rest(rem, i) / place(i)
    }
}

/// What remains of `rem` after taking digits `0 .. i`.
pub open spec fn collision_rest(rem: int, i: int) -> int
    decreases i,
{
    if i <= 0 {
        rem
    } else {
        collision_rest(rem, i - 1) % place(i - 1)
    }
}

/// The eight code units of the text that [`find_chinese_collision`] builds.
pub open spec fn collision_units(seed: i32) -> Seq<u16> {
    let rem = collision_remainder(seed);
    prefix_units() + Seq::new(5, |i: int| (0x7384 + collision_digit(rem, i)) as u16)
}

proof fn lemma_prefix_poly()
    ensures
        poly31(prefix_units()) == 0x7384 * 961 + 0x9ECE * 31 + 0x66F0,
{
    let p = prefix_units();
    let p2 = p.drop_last();
    let p1 = p2.drop_last();
    let p0 = p1.drop_last();
    assert(p2 =~= seq![0x7384u16, 0x9ECEu16]);
    assert(p1 =~= seq![0x7384u16]);
    assert(p0 =~= Seq::<u16>::empty());
    assert(poly31(p0) == 0);
    assert(poly31(p1) == 0x7384);
    assert(poly31(p2) == 0x7384 * 31 + 0x9ECE);
    assert(poly31(p) == poly31(p2) * 31 + 0x66F0);
}

/// The digits reassemble the remainder: `sum digit(i) * place(i) == rem`.
proof fn lemma_digits_sum(rem: int)
    requires
        0 <= rem < m32(),
    ensures
        collision_digit(rem, 0) * 923521 + collision_digit(rem, 1) * 29791 + collision_digit(rem, 2)
            * 961 + collision_digit(rem, 3) * 31 + collision_digit(rem, 4) == rem,
        0 <= collision_digit(rem, 0) <= 4650,
        forall|i: int| 1 <= i < 5 ==> 0 <= #[trigger] collision_digit(rem, i) < 31,
{
    let r1 = rem % 923521;
    let r2 = r1 % 29791;
    let r3 = r2 % 961;
    let r4 = r3 % 31;
    assert(collision_rest(rem, 0) == rem);
    assert(place(0) == 923521 && place(1) == 29791 && place(2) == 961 && place(3) == 31 && place(4) == 1);
    assert(collision_rest(rem, 1) == r1);
    assert(collision_rest(rem, 2) == r2);
    assert(collision_rest(rem, 3) == r3);
    assert(collision_rest(rem, 4) == r4);
    lemma_fundamental_div_mod(rem, 923521);
    lemma_fundamental_div_mod(r1, 29791);
    lemma_fundamental_div_mod(r2, 961);
    lemma_fundamental_div_mod(r3, 31);
    lemma_mod_bound(rem, 923521);
    lemma_mod_bound(r1, 29791);
    lemma_mod_bound(r2, 961);
    lemma_mod_bound(r3, 31);
    lemma_div_pos_is_pos(rem, 923521);
    lemma_div_pos_is_pos(r1, 29791);
    lemma_div_pos_is_pos(r2, 961);
    lemma_div_pos_is_pos(r3, 31);
    lemma_div_is_ordered(rem, m32() - 1, 923521);
    lemma_div_strictly_bounded(r1, 29791, 31);
    lemma_div_strictly_bounded(r2, 961, 31);
    lemma_div_strictly_bounded(r3, 31, 31);
    assert forall|i: int| 1 <= i < 5 implies 0 <= #[trigger] collision_digit(rem, i) < 31 by {
        if i == 1 {
        } else if i == 2 {
        } else if i == 3 {
        } else {
        }
    }
}

proof fn lemma_div_strictly_bounded(x: int, d: int, b: int)
    requires
        0 <= x < b * d,
        0 < d,
    ensures
        x / d < b,
{
    lemma_fundamental_div_mod(x, d);
    lemma_mod_bound(x, d);
    if x / d >= b {
        lemma_mul_inequality(b, x / d, d);
        lemma_mul_is_commutative(b, d);
        lemma_mul_is_commutative(x / d, d);
    }
}

/// The hash of the eight collision units is the seed itself.
pub proof fn lemma_collision_hash(seed: i32)
    ensures
        hash_units(collision_units(seed)) == seed,
{
    let rem = collision_remainder(seed);
    let u = collision_units(seed);
    lemma_prefix_poly();
    let p = poly31(prefix_units());
    lemma_mod_bound((seed as int) - (p % m32()) * 28629151 - 2450903684, m32());
    lemma_digits_sum(rem);
    let d0 = collision_digit(rem, 0);
    let d1 = collision_digit(rem, 1);
    let d2 = collision_digit(rem, 2);
    let d3 = collision_digit(rem, 3);
    let d4 = collision_digit(rem, 4);
    // unfold the polynomial over the eight units
    let u7 = u.drop_last();
    let u6 = u7.drop_last();
    let u5 = u6.drop_last();
    let u4 = u5.drop_last();
    let u3 = u4.drop_last();
    assert(u3 =~= prefix_units());
    assert(u.last() as int == 0x7384 + d4);
    assert(u7.last() as int == 0x7384 + d3);
    assert(u6.last() as int == 0x7384 + d2);
    assert(u5.last() as int == 0x7384 + d1);
    assert(u4.last() as int == 0x7384 + d0);
    let total = poly31(u);
    assert(poly31(u4) == p * 31 + 0x7384 + d0);
    assert(poly31(u5) == poly31(u4) * 31 + 0x7384 + d1);
    assert(poly31(u6) == poly31(u5) * 31 + 0x7384 + d2);
    assert(poly31(u7) == poly31(u6) * 31 + 0x7384 + d3);
    assert(total == poly31(u7) * 31 + 0x7384 + d4);
    assert(total == p * 28629151 + 28220707460 + rem);
    // modulo 2^32 the total is the seed
    let s = seed as int;
    let x = s - (p % m32()) * 28629151 - 2450903684;
    assert(rem == x % m32());
    lemma_fundamental_div_mod(x, m32());
    lemma_fundamental_div_mod(p, m32());
    let q1 = x / m32();
    let q2 = p / m32();
    assert(total == s + m32() * (q2 * 28629151 - q1 + 6)) by (nonlinear_arith)
        requires
            total == p * 28629151 + 28220707460 + rem,
            rem == x - m32() * q1,
            x == s - (p % m32()) * 28629151 - 2450903684,
            p == m32() * q2 + p % m32(),
    ;
    lemma_mod_multiples_vanish(q2 * 28629151 - q1 + 6, s, m32());
    assert(total % m32() == s % m32());
    if s >= 0 {
        lemma_small_mod(s as nat, m32() as nat);
    } else {
        lemma_mod_add_multiples_vanish(s, m32());
        lemma_small_mod((s + m32()) as nat, m32() as nat);
    }
}

/// Every character below `U+10000` is one code unit.
proof fn lemma_utf16_bmp(s: Seq<char>)
    requires
        forall|i: int| 0 <= i < s.len() ==> (#[trigger] s[i]) as u32 <= 0xFFFF,
    ensures
        utf16_of(s).len() == s.len(),
        forall|i: int| 0 <= i < s.len() ==> #[trigger] utf16_of(s)[i] as int == s[i] as u32,
    decreases s.len(),
{
    if s.len() > 0 {
        let t = s.drop_last();
        assert forall|i: int| 0 <= i < t.len() implies (#[trigger] t[i]) as u32 <= 0xFFFF by {
            assert(t[i] == s[i]);
        }
        lemma_utf16_bmp(t);
        let c = s.last();
        assert((c as u32) as int <= 0xFFFF);
        assert(utf16_of_char(c) =~= seq![(c as u32) as u16]);
        assert(utf16_of(s) == utf16_of(t) + seq![(c as u32) as u16]);
        assert forall|i: int| 0 <= i < s.len() implies #[trigger] utf16_of(s)[i] as int == s[i] as u32 by {
            if i < t.len() {
                assert(s[i] == t[i]);
                assert(utf16_of(s)[i] == utf16_of(t)[i]);
            } else {
                assert(i == t.len());
                assert(s[i] == c);
                assert(utf16_of(s)[i] == (c as u32) as u16);
            }
        }
    }
}

/// Two's-complement reinterpretation of an `i32` as a `u32`.
proof fn lemma_i32_as_u32(x: i32)
    ensures
        (x as u32) as int == if x < 0 { x + m32() } else { x as int },
{
    assert(x < 0 ==> (x as u32) as int == x + 0x1_0000_0000) by (bit_vector);
    assert(x >= 0 ==> (x as u32) as int == x) by (bit_vector);
}

/// A text of eight Chinese characters, beginning with 玄黎曰 (U+7384,
/// U+9ECE, U+66F0), whose hash is `seed`. The last five characters are `U+7384 + digit` for the digits of
/// the remaining value in the mixed base `31^4, 31^3, 31^2, 31, 1`.
pub fn find_chinese_collision(seed: i32) -> (r: Option<String>)
    ensures
        r is Some,
        r->0@.len() == 8,
        r->0@[0] as u32 == 0x7384 && r->0@[1] as u32 == 0x9ECE && r->0@[2] as u32 == 0x66F0,
        utf16_of(r->0@) == collision_units(seed),
        hash_units(utf16_of(r->0@)) == seed,
{
    let prefix = "玄黎曰";
    proof {
        reveal_strlit("玄黎曰");
        assert(prefix@ =~= seq!['玄', '黎', '曰']);
        lemma_utf16_bmp(prefix@);
        assert(utf16_of(prefix@) =~= prefix_units());
        lemma_prefix_poly();
    }
    let prefix_hash = string_hash(prefix);
    proof {
        lemma_i32_as_u32(prefix_hash);
        lemma_i32_as_u32(seed);
    }
    let offset = (prefix_hash as u32).wrapping_mul(28629151);
    let mut rem: u32 = (seed as u32).wrapping_sub(offset).wrapping_sub(2450903684);
    let ghost rem0 = rem;
    proof {
        let p = poly31(prefix_units());
        let m = m32();
        let s = seed as int;
        let pm = p % m;
        let c = pm * 28629151;
        lemma_fundamental_div_mod(c, m);
        lemma_mod_bound(c, m);
        assert(offset as int == c % m);
        let x = s - c - 2450903684;
        let k: int = (if s < 0 { 1int } else { 0 }) + c / m + (if (seed as u32) < offset { 1int } else { 0 })
            + (if ((seed as u32).wrapping_sub(offset)) < 2450903684 { 1int } else { 0 });
        assert(rem as int == m * k + x) by (nonlinear_arith)
            requires
                c == m * (c / m) + c % m,
                offset as int == c % m,
                (seed as u32) as int == if s < 0 { s + m } else { s },
                ((seed as u32).wrapping_sub(offset)) as int == (seed as u32) as int - offset as int + (if (seed as u32) < offset { m } else { 0 }),
                rem as int == ((seed as u32).wrapping_sub(offset)) as int - 2450903684 + (if ((seed as u32).wrapping_sub(offset)) < 2450903684 { m } else { 0 }),
                x == s - c - 2450903684,
                k == (if s < 0 { 1int } else { 0 }) + c / m + (if (seed as u32) < offset { 1int } else { 0 })
                    + (if ((seed as u32).wrapping_sub(offset)) < 2450903684 { 1int } else { 0 }),
        ;
        lemma_mod_multiples_vanish(k, x, m);
        lemma_small_mod(rem as nat, m as nat);
        assert(rem0 as int == collision_remainder(seed));
    }
    let mut units: Vec<u16> = Vec::new();
    units.push(0x7384);
    units.push(0x9ECE);
    units.push(0x66F0);
    let places: [u32; 5] = [923521, 29791, 961, 31, 1];
    proof {
        lemma_digits_sum(rem0 as int);
    }
    let mut i: usize = 0;
    while i < 5
        invariant
            i <= 5,
            units@.len() == 3 + i,
            units@.subrange(0, 3) == prefix_units(),
            forall|j: int| 0 <= j < i ==> #[trigger] units@[3 + j] == (0x7384 + collision_digit(rem0 as int, j)) as u16,
            places@ == seq![923521u32, 29791u32, 961u32, 31u32, 1u32],
            rem as int == collision_rest(rem0 as int, i as int),
            0 <= collision_digit(rem0 as int, 0) <= 4650,
            forall|j: int| 1 <= j < 5 ==> 0 <= #[trigger] collision_digit(rem0 as int, j) < 31,
        decreases 5 - i,
    {
        let d = places[i];
        assert(d as int == place(i as int));
        let v = rem / d;
        assert(v as int == collision_digit(rem0 as int, i as int));
        rem = rem % d;
        let ghost before = units@;
        units.push((0x7384 + v) as u16);
        proof {
            assert(units@.subrange(0, 3) =~= before.subrange(0, 3));
            assert forall|j: int| 0 <= j < i + 1 implies #[trigger] units@[3 + j] == (0x7384
                + collision_digit(rem0 as int, j)) as u16 by {
                if j < i {
                    assert(units@[3 + j] == before[3 + j]);
                }
            }
        }
        i = i + 1;
    }
    proof {
        let cu = collision_units(seed);
        assert forall|k: int| 0 <= k < 8 implies units@[k] == #[trigger] cu[k] by {
            if k >= 3 {
                assert(units@[3 + (k - 3)] == (0x7384 + collision_digit(rem0 as int, k - 3)) as u16);
            } else {
                assert(units@.subrange(0, 3)[k] == units@[k]);
            }
        }
        assert(units@ =~= cu);
        assert forall|k: int| 0 <= k < units@.len() implies !(0xD800 <= #[trigger] units@[k] <= 0xDFFF) by {
            if k >= 3 {
                assert(units@[3 + (k - 3)] == units@[k]);
            } else {
                assert(units@[k] == prefix_units()[k]);
            }
        }
    }
    let text = string_from_utf16(units.as_slice());
    proof {
        let t = text->0@;
        assert forall|k: int| 0 <= k < t.len() implies (#[trigger] t[k]) as u32 <= 0xFFFF by {
            assert(t[k] as u32 == units@[k] as u32);
        }
        lemma_utf16_bmp(t);
        assert(utf16_of(t) =~= units@);
        lemma_collision_hash(seed);
        assert(t[0] as u32 == units@[0] as u32 && t[1] as u32 == units@[1] as u32 && t[2] as u32 == units@[2] as u32);
    }
    text
}

} // verus!
