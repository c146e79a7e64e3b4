//! The game's two random number generators.
//!
//! * [`GRandom`]: the engine's linear congruential generator, whose state is
//!   rotated by 16 bits after every step.
//! * [`DotNetRandom`]: the subtractive generator of .NET's `System.Random`
//!   (Knuth's algorithm with a 55-entry table).
//!
//! Both are deterministic functions of their seed; the contracts below state
//! each step over the generators' views.
use crate::sampling::{
    lemma_ratio_scaled_bounds, lemma_sample_product_bounds, ratio_scale, ratio_scaled, sample_product,
    sample_scale, sat_i32,
};
use vstd::prelude::*;

verus! {

/// Which of the game's random channels a draw belongs to. The channel does not
/// change the draw; it is carried for fidelity with the game's call sites.
#[derive(Clone, Copy, PartialEq, Eq, Hash, Debug)]
pub enum RandomType {
    EmNone,
    EmJianghu,
}

/// Reduction of an integer into the range of `i32`, as two's-complement
/// arithmetic wraps a single addition or subtraction.
pub open spec fn wrap_i32(x: int) -> int {
    if x > i32::MAX {
        x - 0x1_0000_0000
    } else if x < i32::MIN {
        x + 0x1_0000_0000
    } else {
        x
    }
}

// ---------------------------------------------------------------------------
// The engine generator
// ---------------------------------------------------------------------------
/// One step of the engine generator: `s * 1103515245 + 12345` modulo `2^32`,
/// with its two 16-bit halves swapped.
pub open spec fn lcg_next(s: u32) -> u32 {
    let t = ((s as nat) * 1103515245 + 12345) % 0x1_0000_0000;
    ((t % 0x1_0000) * 0x1_0000 + t / 0x1_0000) as u32
}

/// The closed interval that `rand_range(n_min, n_max)` draws from: the game
/// takes `[n_min, n_max - 1]` and swaps its ends when they are reversed.
pub open spec fn grandom_interval(n_min: i32, n_max: i32) -> (int, int) {
    let hi = wrap_i32(n_max - 1);
    if n_min > hi {
        (hi, n_min as int)
    } else {
        (n_min as int, hi)
    }
}

/// The value that `rand_range` returns when the new state is `r`.
pub open spec fn grandom_pick(r: u32, lo: int, hi: int) -> int {
    let span = wrap_i32(wrap_i32(hi - lo) + 1);
    let num2 = sat_i32(ratio_scaled(r, span as i32));
    let num3 = wrap_i32(num2 + lo);
    if num3 > hi {
        hi
    } else {
        num3
    }
}

/// The engine's random number generator. `seed` is its whole state.
pub struct GRandom {
    pub seed: u32,
}

impl GRandom {
    /// A generator in state `seed`.
    pub fn new(seed: u32) -> (r: Self)
        ensures
            r.seed == seed,
    {
        Self { seed }
    }

    /// Advances the state one step and returns the new state.
    pub fn rand(&mut self) -> (r: u32)
        ensures
            final(self).seed == lcg_next(old(self).seed),
            r == final(self).seed,
    {
        let t: u64 = (self.seed as u64).wrapping_mul(1103515245).wrapping_add(12345);
        let s = t as u32;
        let rotated = (s << 16u32) | (s >> 16u32);
        proof {
            let tt = ((self.seed as nat) * 1103515245 + 12345);
            assert(t == tt) by {
                assert((self.seed as nat) * 1103515245 <= 0xffff_ffff * 1103515245) by (nonlinear_arith)
                    requires
                        self.seed <= 0xffff_ffff,
                ;
            }
            assert(s == t % 0x1_0000_0000) by (bit_vector)
                requires
                    s == t as u32,
            ;
            assert(rotated == ((s % 0x1_0000) * 0x1_0000 + s / 0x1_0000) as u32) by (bit_vector)
                requires
                    rotated == (s << 16u32) | (s >> 16u32),
            ;
        }
        self.seed = rotated;
        self.seed
    }

    /// One draw from the closed interval `[n_min, n_max - 1]` (ends swapped
    /// when reversed), as the game's `RandRange(nMin, nMax - 1)`. Always
    /// advances the state by exactly one step, even for a one-value interval.
    pub fn rand_range(&mut self, n_min: i32, n_max: i32) -> (r: i32)
        ensures
            final(self).seed == lcg_next(old(self).seed),
            r == grandom_pick(
                final(self).seed,
                grandom_interval(n_min, n_max).0,
                grandom_interval(n_min, n_max).1,
            ),
            // a draw stays in its interval whenever the interval's width fits in an i32
            ({
                let (lo, hi) = grandom_interval(n_min, n_max);
                hi - lo < i32::MAX && hi < i32::MAX ==> lo <= r <= hi
            }),
    {
        let mut c_min = n_min;
        let mut c_max = n_max.wrapping_sub(1);
        if c_min > c_max {
            let t = c_min;
            c_min = c_max;
            c_max = t;
        }
        let r = self.rand();
        let span = c_max.wrapping_sub(c_min).wrapping_add(1);
        let num2 = ratio_scale(r, span);
        let mut num3 = num2.wrapping_add(c_min);
        if num3 > c_max {
            num3 = c_max;
        }
        proof {
            let lo = c_min as int;
            let hi = c_max as int;
            if hi - lo < i32::MAX && hi < i32::MAX {
                lemma_ratio_scaled_bounds(r, span);
            }
        }
        num3
    }
}

// ---------------------------------------------------------------------------
// The .NET-style subtractive generator
// ---------------------------------------------------------------------------
/// `i32::MAX`, the modulus of the subtractive generator.
pub open spec fn mbig() -> int {
    0x7fff_ffff
}

/// `a - b` with two's-complement wrap-around, brought back into the
/// generator's range by adding `i32::MAX` when negative.
pub open spec fn sub_adjust(a: i32, b: i32) -> i32 {
    let w = wrap_i32(a - b);
    (if w < 0 {
        w + mbig()
    } else {
        w
    }) as i32
}

/// As [`sub_adjust`], with the value `i32::MAX` first lowered by one, as the
/// floating-point sample does.
pub open spec fn sub_adjust_sample(a: i32, b: i32) -> i32 {
    let w0 = wrap_i32(a - b);
    let w = if w0 == mbig() {
        w0 - 1
    } else {
        w0
    };
    (if w < 0 {
        w + mbig()
    } else {
        w
    }) as i32
}

/// The next position of either table cursor: `1..=55`, cyclically.
pub open spec fn next_slot(i: int) -> int {
    if i + 1 == 56 {
        1
    } else {
        i + 1
    }
}

/// The generator's abstract state: both cursors and the 56-entry table.
pub type DotNetState = (int, int, Seq<i32>);

/// One draw of an integer sample: the new state and the drawn value.
pub open spec fn draw_int(st: DotNetState) -> (DotNetState, i32) {
    let i = next_slot(st.0);
    let j = next_slot(st.1);
    let n = sub_adjust(st.2[i], st.2[j]);
    ((i, j, st.2.update(i, n)), n)
}

/// One draw of a floating-point sample: the new state and the numerator `n`
/// of the sample `n * 4.656612875245797e-10`.
pub open spec fn draw_sample(st: DotNetState) -> (DotNetState, i32) {
    let i = next_slot(st.0);
    let j = next_slot(st.1);
    let n = sub_adjust_sample(st.2[i], st.2[j]);
    ((i, j, st.2.update(i, n)), n)
}

/// The state after `steps` floating-point samples.
pub open spec fn advanced(st: DotNetState, steps: nat) -> DotNetState
    decreases steps,
{
    if steps == 0 {
        st
    } else {
        advanced(draw_sample(st).0, (steps - 1) as nat)
    }
}

/// `161803398 - |seed|`, with `|i32::MIN|` taken as `i32::MAX`.
pub open spec fn seed_base(seed: i32) -> i32 {
    let sub: int = if seed == i32::MIN {
        i32::MAX as int
    } else if seed < 0 {
        -seed
    } else {
        seed as int
    };
    (161803398 - sub) as i32
}

/// The first phase of seeding after `i` steps: the table and the running
/// values `(mj, mk)`.
pub open spec fn fill_phase(base: i32, i: nat) -> (Seq<i32>, i32, i32)
    decreases i,
{
    if i == 0 {
        (Seq::new(56, |k: int| 0i32).update(55, base), base, 1i32)
    } else {
        let (t, mj, mk) = fill_phase(base, (i - 1) as nat);
        let ii = (21 * i) % 55;
        let d = mj - mk;
        let mk2 = if d < 0 {
            d + mbig()
        } else {
            d
        };
        (t.update(ii as int, mk), mk, mk2 as i32)
    }
}

/// The second phase of seeding: `s` mixing steps, step `s` updating entry
/// `1 + s % 55` from entry `1 + (k + 30) % 55`.
pub open spec fn mix_phase(t: Seq<i32>, s: nat) -> Seq<i32>
    decreases s,
{
    if s == 0 {
        t
    } else {
        let prev = mix_phase(t, (s - 1) as nat);
        let k = 1 + (s - 1) % 55;
        prev.update(k, sub_adjust(prev[k], prev[1 + (k + 30) % 55]))
    }
}

/// The table that seeding with `seed` produces.
pub open spec fn seeded_table(seed: i32) -> Seq<i32> {
    mix_phase(fill_phase(seed_base(seed), 54).0, 220)
}

/// The state of a generator seeded with `seed`.
pub open spec fn seeded_state(seed: i32) -> DotNetState {
    (0int, 31int, seeded_table(seed))
}

/// Every entry of a 56-entry table lies in `[0, i32::MAX - 1]`.
pub open spec fn table_in_range(t: Seq<i32>) -> bool {
    t.len() == 56 && forall|k: int| 0 <= k < 56 ==> 0 <= #[trigger] t[k] < mbig()
}

proof fn lemma_fill_in_range(base: i32, i: nat)
    requires
        0 <= base < mbig(),
        i <= 54,
    ensures
        table_in_range(fill_phase(base, i).0),
        0 <= fill_phase(base, i).1 < mbig(),
        0 <= fill_phase(base, i).2 < mbig(),
    decreases i,
{
    if i == 0 {
        let t = Seq::new(56, |k: int| 0i32).update(55, base);
        assert forall|k: int| 0 <= k < 56 implies 0 <= #[trigger] t[k] < mbig() by {
            if k != 55 {
                assert(t[k] == 0);
            }
        }
    } else {
        lemma_fill_in_range(base, (i - 1) as nat);
        let (t, mj, mk) = fill_phase(base, (i - 1) as nat);
        let ii = (21 * i) % 55;
        let t2 = t.update(ii as int, mk);
        assert forall|k: int| 0 <= k < 56 implies 0 <= #[trigger] t2[k] < mbig() by {
            if k != ii {
                assert(t2[k] == t[k]);
            }
        }
    }
}

proof fn lemma_mix_in_range(t: Seq<i32>, s: nat)
    requires
        table_in_range(t),
    ensures
        table_in_range(mix_phase(t, s)),
    decreases s,
{
    if s > 0 {
        lemma_mix_in_range(t, (s - 1) as nat);
        let prev = mix_phase(t, (s - 1) as nat);
        let k = 1 + (s - 1) % 55;
        let j = 1 + (k + 30) % 55;
        assert(0 <= prev[k] < mbig() && 0 <= prev[j] < mbig());
        let t2 = prev.update(k, sub_adjust(prev[k], prev[j]));
        assert forall|q: int| 0 <= q < 56 implies 0 <= #[trigger] t2[q] < mbig() by {
            if q != k {
                assert(t2[q] == prev[q]);
            }
        }
    }
}

/// A generator seeded with a seed of magnitude at most 161803398 starts with
/// its cursors in the table and every entry in range, so that its integer
/// draws stay below their upper bound.
pub proof fn lemma_seeded_canonical(seed: i32)
    requires
        -161803398 <= seed <= 161803398,
    ensures
        canonical(seeded_state(seed)),
        table_shape(seeded_state(seed)),
{
    lemma_fill_in_range(seed_base(seed), 54);
    lemma_mix_in_range(fill_phase(seed_base(seed), 54).0, 220);
    let t = seeded_table(seed);
    assert forall|i: int| 1 <= i < 56 implies 0 <= #[trigger] seeded_state(seed).2[i] < mbig() by {
        assert(seeded_state(seed).2 == t);
    }
}

/// Every table entry lies in `[0, i32::MAX - 1]`: the range in which .NET's
/// generator keeps its table.
pub open spec fn canonical(st: DotNetState) -> bool {
    forall|i: int| 1 <= i < 56 ==> 0 <= #[trigger] st.2[i] < mbig()
}

/// Both cursors lie in the 56-entry table.
pub open spec fn table_shape(st: DotNetState) -> bool {
    0 <= st.0 < 56 && 0 <= st.1 < 56 && st.2.len() == 56
}

/// .NET's `System.Random`: Knuth's subtractive generator.
pub struct DotNetRandom {
    inext: usize,
    inextp: usize,
    seed_array: [i32; 56],
}

impl View for DotNetRandom {
    type V = DotNetState;

    closed spec fn view(&self) -> DotNetState {
        (self.inext as int, self.inextp as int, self.seed_array@)
    }
}

impl DotNetRandom {
    #[verifier::type_invariant]
    spec fn cursors_in_table(&self) -> bool {
        self.inext < 56 && self.inextp < 56
    }

    /// A generator seeded as `System.Random(seed)`.
    pub fn new(seed: i32) -> (r: Self)
        ensures
            r@ == (0int, 31int, seeded_table(seed)),
    {
        let mut table: [i32; 56] = [0i32; 56];
        let sub = if seed == i32::MIN {
            i32::MAX
        } else if seed < 0 {
            -seed
        } else {
            seed
        };
        let base: i32 = 161803398 - sub;
        let mut mj = base;
        table[55] = mj;
        let mut mk: i32 = 1;
        let mut i: usize = 1;
        proof {
            assert(table@ =~= fill_phase(base, 0).0);
        }
        while i < 55
            invariant
                1 <= i <= 55,
                base == seed_base(seed),
                161803398 - i32::MAX <= base <= 161803398,
                (table@, mj, mk) == fill_phase(base, (i - 1) as nat),
                i == 1 ==> mj == base && mk == 1,
                i > 1 ==> 0 <= mj < mbig() && 0 <= mk < mbig(),
            decreases 55 - i,
        {
            let ii = (21 * i) % 55;
            table[ii] = mk;
            let d = mj - mk;
            let nmk = if d < 0 {
                d + i32::MAX
            } else {
                d
            };
            mj = table[ii];
            mk = nmk;
            proof {
                assert(table@ =~= fill_phase(base, i as nat).0);
            }
            i = i + 1;
        }
        let ghost filled = table@;
        assert(filled == fill_phase(seed_base(seed), 54).0);
        let mut round: usize = 1;
        while round < 5
            invariant
                1 <= round <= 5,
                table@ == mix_phase(filled, ((round - 1) * 55) as nat),
            decreases 5 - round,
        {
            let mut k: usize = 1;
            while k < 56
                invariant
                    1 <= k <= 56,
                    1 <= round < 5,
                    table@ == mix_phase(filled, ((round - 1) * 55 + k - 1) as nat),
                decreases 56 - k,
            {
                let other = 1 + (k + 30) % 55;
                let w = table[k].wrapping_sub(table[other]);
                let v = if w < 0 {
                    w + i32::MAX
                } else {
                    w
                };
                proof {
                    let s = ((round - 1) * 55 + k) as nat;
                    assert((s - 1) % 55 == k - 1) by {
                        assert(((round - 1) * 55 + k - 1) % 55 == k - 1) by (nonlinear_arith)
                            requires
                                1 <= k <= 55,
                                1 <= round,
                        ;
                    }
                    assert(mix_phase(filled, s) == mix_phase(filled, (s - 1) as nat).update(
                        k as int,
                        sub_adjust(table@[k as int], table@[other as int]),
                    ));
                }
                table[k] = v;
                k = k + 1;
            }
            round = round + 1;
        }
        DotNetRandom { inext: 0, inextp: 31, seed_array: table }
    }

    /// Draws an integer sample: both cursors move one slot and the entry at
    /// the first becomes `table[i] - table[j]`, brought into range.
    fn draw(&mut self) -> (n: i32)
        ensures
            (final(self)@, n) == draw_int(old(self)@),
    {
        proof {
            use_type_invariant(&*self);
        }
        self.inext = if self.inext + 1 == 56 {
            1
        } else {
            self.inext + 1
        };
        self.inextp = if self.inextp + 1 == 56 {
            1
        } else {
            self.inextp + 1
        };
        let w = self.seed_array[self.inext].wrapping_sub(self.seed_array[self.inextp]);
        let n = if w < 0 {
            w + i32::MAX
        } else {
            w
        };
        self.seed_array[self.inext] = n;
        n
    }

    /// Draws the numerator `n` of a floating-point sample; the sample that
    /// .NET's `NextDouble` returns is `n * 4.656612875245797e-10`.
    pub fn next_sample(&mut self) -> (n: i32)
        ensures
            (final(self)@, n) == draw_sample(old(self)@),
            -1 <= n < i32::MAX,
            canonical(old(self)@) ==> canonical(final(self)@) && 0 <= n,
    {
        proof {
            use_type_invariant(&*self);
        }
        self.inext = if self.inext + 1 == 56 {
            1
        } else {
            self.inext + 1
        };
        self.inextp = if self.inextp + 1 == 56 {
            1
        } else {
            self.inextp + 1
        };
        let mut w = self.seed_array[self.inext].wrapping_sub(self.seed_array[self.inextp]);
        if w == i32::MAX {
            w = w - 1;
        }
        let n = if w < 0 {
            w + i32::MAX
        } else {
            w
        };
        proof {
            if canonical(old(self)@) {
                let ghost st = old(self)@;
                assert(0 <= st.2[next_slot(st.0)] < mbig());
                assert(0 <= st.2[next_slot(st.1)] < mbig());
            }
        }
        self.seed_array[self.inext] = n;
        n
    }

    /// .NET's `Next(min, max)`: with `lo`/`hi` the smaller and larger bound,
    /// returns `lo` without drawing when `hi - lo <= 1`, and otherwise draws
    /// once and returns `lo + trunc(sample * (hi - lo))`.
    pub fn next_range(&mut self, min: i32, max: i32) -> (r: i32)
        ensures
            ({
                let lo: int = if min > max { max as int } else { min as int };
                let hi: int = if min > max { min as int } else { max as int };
                &&& lo <= r <= hi
                &&& table_shape(final(self)@)
                &&& hi - lo <= 1 ==> final(self)@ == old(self)@ && r == lo
                &&& hi - lo > 1 ==> {
                    let (st, n) = draw_int(old(self)@);
                    &&& final(self)@ == st
                    &&& r == lo + (if n <= 0 { 0 } else { sample_product(n as nat, (hi - lo) as nat) })
                    &&& lo <= r <= hi
                    &&& n < i32::MAX ==> r < hi
                    &&& canonical(old(self)@) ==> canonical(final(self)@) && r < hi
                }
            }),
    {
        let (lo, hi) = if min > max {
            (max, min)
        } else {
            (min, max)
        };
        let diff: i64 = (hi as i64) - (lo as i64);
        proof {
            use_type_invariant(&*self);
        }
        if diff <= 1 {
            return lo;
        }
        let n = self.draw();
        proof {
            use_type_invariant(&*self);
        }
        let scaled: u64 = if n <= 0 {
            0
        } else {
            sample_scale(n as u32, diff as u32)
        };
        proof {
            if n > 0 {
                lemma_sample_product_bounds(n as nat, diff as nat);
            }
            if canonical(old(self)@) {
                let ghost st = old(self)@;
                assert(0 <= st.2[next_slot(st.0)] < mbig());
                assert(0 <= st.2[next_slot(st.1)] < mbig());
                assert(canonical(final(self)@));
            }
        }
        ((lo as i64) + (scaled as i64)) as i32
    }

    /// The game's strict variant of `Next(min, max)`: always draws one
    /// floating-point sample and returns `min + trunc(sample * (max - min))`
    /// (bounds swapped when reversed).
    pub fn next_range_strict(&mut self, min: i32, max: i32) -> (r: i32)
        ensures
            ({
                let lo: int = if min > max { max as int } else { min as int };
                let hi: int = if min > max { min as int } else { max as int };
                let (st, n) = draw_sample(old(self)@);
                &&& final(self)@ == st
                &&& r == wrap_i32(lo + (if n < 0 {
                    -sample_product((-n) as nat, (hi - lo) as nat)
                } else {
                    sample_product(n as nat, (hi - lo) as nat) as int
                }))
                &&& canonical(old(self)@) ==> canonical(final(self)@) && lo <= r && (lo == hi || r < hi)
            }),
    {
        let (lo, hi) = if min > max {
            (max, min)
        } else {
            (min, max)
        };
        let n = self.next_sample();
        let d: i64 = (hi as i64) - (lo as i64);
        proof {
            lemma_sample_product_bounds((if n < 0 { -n } else { n as int }) as nat, d as nat);
        }
        let t: i64 = if n < 0 {
            0 - (sample_scale((0 - n) as u32, d as u32) as i64)
        } else {
            sample_scale(n as u32, d as u32) as i64
        };
        let v: i64 = t + (lo as i64);
        proof {
            assert(v > 0x7fff_ffff ==> (v as i32) as i64 == v - 0x1_0000_0000i64) by (bit_vector)
                requires
                    v <= 0x7fff_ffff + 0x1_0000_0000i64,
            ;
            assert(v < -0x8000_0000i64 ==> (v as i32) as i64 == v + 0x1_0000_0000i64) by (bit_vector)
                requires
                    v >= -0x8000_0000i64 - 0x1_0000_0000i64,
            ;
            assert(-0x8000_0000i64 <= v <= 0x7fff_ffff ==> (v as i32) as i64 == v) by (bit_vector);
        }
        v as i32
    }

    /// Draws `steps` floating-point samples and discards them.
    pub fn advance(&mut self, steps: usize)
        ensures
            final(self)@ == advanced(old(self)@, steps as nat),
    {
        let mut i: usize = 0;
        while i < steps
            invariant
                i <= steps,
                advanced(old(self)@, steps as nat) == advanced(self@, (steps - i) as nat),
            decreases steps - i,
        {
            self.next_sample();
            i = i + 1;
        }
    }

    /// Whether every table entry lies in `[0, i32::MAX - 1]` (see
    /// `canonical`).
    pub fn is_canonical(&self) -> (r: bool)
        ensures
            r == canonical(self@),
            table_shape(self@),
    {
        proof {
            use_type_invariant(self);
        }
        let mut i: usize = 1;
        while i < 56
            invariant
                1 <= i <= 56,
                self.seed_array@.len() == 56,
                table_shape(self@),
                forall|q: int| 1 <= q < i ==> 0 <= #[trigger] self.seed_array@[q] < mbig(),
            decreases 56 - i,
        {
            let x = self.seed_array[i];
            if x < 0 || x == i32::MAX {
                proof {
                    assert(self@.2[i as int] == x);
                    assert(!(0 <= self@.2[i as int] < mbig()));
                }
                return false;
            }
            i = i + 1;
        }
        proof {
            assert forall|q: int| 1 <= q < 56 implies 0 <= #[trigger] self@.2[q] < mbig() by {
                assert(self@.2[q] == self.seed_array@[q]);
            }
        }
        true
    }
}

/// The game's math utility: a .NET-style generator behind the game's
/// `RandomRange` entry point.
/// The state after a draw in the range of `min` and `max` (either order)
/// from state `st`, and the value drawn: no draw where the range holds at
/// most one value.
pub open spec fn range_draw(st: DotNetState, min: i32, max: i32) -> (DotNetState, int) {
    let lo: int = if min > max { max as int } else { min as int };
    let hi: int = if min > max { min as int } else { max as int };
    if hi - lo <= 1 {
        (st, lo)
    } else {
        let (st2, n) = draw_int(st);
        (st2, lo + (if n <= 0 { 0 } else { sample_product(n as nat, (hi - lo) as nat) as int }))
    }
}

pub struct GMathUtl {
    pub sys_random: DotNetRandom,
}

impl GMathUtl {
    /// A utility whose generator is seeded with `seed`.
    pub fn new(seed: i32) -> (r: Self)
        ensures
            r.sys_random@ == (0int, 31int, seeded_table(seed)),
    {
        Self { sys_random: DotNetRandom::new(seed) }
    }

    /// The game's `RandomRange(min, max)` on a channel: `Next(min, max)` of the
    /// generator. The channel and the caller's label do not change the draw.
    pub fn random_range_int(&mut self, min: i32, max: i32, _kind: RandomType, _label: &str) -> (r: i32)
        ensures
            (final(self).sys_random@, r as int) == range_draw(old(self).sys_random@, min, max),
            ({
                let lo: int = if min > max { max as int } else { min as int };
                let hi: int = if min > max { min as int } else { max as int };
                &&& lo <= r <= hi
                &&& hi - lo <= 1 ==> final(self).sys_random@ == old(self).sys_random@ && r == lo
                &&& hi - lo > 1 ==> {
                    let (st, n) = draw_int(old(self).sys_random@);
                    &&& final(self).sys_random@ == st
                    &&& r == lo + (if n <= 0 { 0 } else { sample_product(n as nat, (hi - lo) as nat) })
                    &&& lo <= r <= hi
                    &&& canonical(old(self).sys_random@) ==> canonical(final(self).sys_random@) && r < hi
                }
            }),
    {
        self.sys_random.next_range(min, max)
    }
}

} // verus!
