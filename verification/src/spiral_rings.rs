//! The rings of the spiral of offsets (see [`crate::map_maker::spiral`]):
//! after the centre, ring `k` takes the next `8k` places and holds exactly
//! the offsets at Chebyshev distance `k`, so that the first `(2k+1)^2`
//! offsets are the square of radius `k`, each once.
use vstd::prelude::*;
use crate::map_maker::{dir_delta, leg_dir, spiral};

verus! {

/// The larger of the two coordinates' absolute values.
pub open spec fn cheb(p: (int, int)) -> int {
    let ax = if p.0 < 0 { -p.0 } else { p.0 };
    let ay = if p.1 < 0 { -p.1 } else { p.1 };
    if ax < ay { ay } else { ax }
}

/// The number of offsets at Chebyshev distance at most `k`.
pub open spec fn ball_len(k: int) -> int {
    (2 * k + 1) * (2 * k + 1)
}

/// The place of the spiral where ring `k` (from 1) starts: `(2k-1)^2`.
pub open spec fn ring_base(k: nat) -> int
    decreases k,
{
    if k <= 1 {
        1
    } else {
        ring_base((k - 1) as nat) + 8 * (k - 1)
    }
}

/// The offset at place `j` of ring `k`: along the top row leftwards, down
/// the left column, along the bottom row rightwards, up the right column.
pub open spec fn ring_cell(k: int, j: int) -> (int, int) {
    if j < 2 * k {
        (k - 1 - j, -k)
    } else if j < 4 * k {
        (-k, j - 3 * k + 1)
    } else if j < 6 * k {
        (j - 5 * k + 1, k)
    } else {
        (k, 7 * k - 1 - j)
    }
}

/// The length of leg `l` of the spiral.
pub open spec fn leg_len(l: nat) -> int {
    (l / 2 + 1) as int
}

/// The place where leg `l` of the spiral starts.
pub open spec fn leg_start(l: nat) -> int
    decreases l,
{
    if l == 0 {
        1
    } else {
        leg_start((l - 1) as nat) + leg_len((l - 1) as nat)
    }
}

proof fn lemma_leg_start_mono(a: nat, b: nat)
    requires
        a <= b,
    ensures
        leg_start(a) <= leg_start(b),
    decreases b - a,
{
    if a < b {
        lemma_leg_start_mono(a, (b - 1) as nat);
    }
}

/// From leg `l` on, the direction of step `m` is found by starting at leg `l`.
proof fn lemma_leg_dir_skip(m: int, l: nat)
    requires
        m >= leg_start(l),
    ensures
        leg_dir(m, 0, 1) == leg_dir(m, l, leg_start(l)),
    decreases l,
{
    if l > 0 {
        let p = (l - 1) as nat;
        lemma_leg_dir_skip(m, p);
    }
}

/// A step inside leg `l` goes in direction `(1 + l) % 4`.
proof fn lemma_leg_dir_in(m: int, l: nat)
    requires
        leg_start(l) <= m < leg_start(l) + leg_len(l),
    ensures
        leg_dir(m, 0, 1) == (1 + l) % 4,
{
    lemma_leg_dir_skip(m, l);
}

/// The four legs that end in ring `k`: the up leg `4k - 4` ends at its
/// first place.
proof fn lemma_leg_starts(k: nat)
    requires
        k >= 1,
    ensures
        leg_start((4 * k - 4) as nat) == ring_base(k) - 2 * k + 2,
        leg_start((4 * k - 3) as nat) == ring_base(k) + 1,
        leg_start((4 * k - 2) as nat) == ring_base(k) + 2 * k,
        leg_start((4 * k - 1) as nat) == ring_base(k) + 4 * k,
        leg_start((4 * k) as nat) == ring_base(k) + 6 * k,
        leg_len((4 * k - 4) as nat) == 2 * k - 1,
        leg_len((4 * k - 3) as nat) == 2 * k - 1,
        leg_len((4 * k - 2) as nat) == 2 * k,
        leg_len((4 * k - 1) as nat) == 2 * k,
        leg_len((4 * k) as nat) == 2 * k + 1,
    decreases k,
{
    assert(((4 * k - 4) as nat) / 2 == 2 * k - 2);
    assert(((4 * k - 3) as nat) / 2 == 2 * k - 2);
    assert(((4 * k - 2) as nat) / 2 == 2 * k - 1);
    assert(((4 * k - 1) as nat) / 2 == 2 * k - 1);
    assert(((4 * k) as nat) / 2 == 2 * k);
    if k > 1 {
        lemma_leg_starts((k - 1) as nat);
        assert(leg_start((4 * k - 4) as nat) == leg_start((4 * k - 5) as nat) + leg_len((4 * k - 5) as nat));
    }
}

/// The entry at place `m` of any spiral of more than `m` entries is the
/// last entry of the spiral of `m + 1` entries.
proof fn lemma_spiral_prefix(n: nat, m: nat)
    requires
        m < n,
    ensures
        spiral(n).len() == n,
        spiral(n)[m as int] == spiral(m + 1)[m as int],
    decreases n,
{
    if n > m + 1 {
        lemma_spiral_prefix((n - 1) as nat, m);
    } else {
        lemma_spiral_len(n);
    }
}

proof fn lemma_spiral_len(n: nat)
    ensures
        spiral(n).len() == n,
    decreases n,
{
    if n > 1 {
        lemma_spiral_len((n - 1) as nat);
    }
}

/// Place `j` of ring `k` of the spiral holds `ring_cell(k, j)`.
proof fn lemma_spiral_at(k: nat, j: int)
    requires
        k >= 1,
        0 <= j < 8 * k,
    ensures
        spiral((ring_base(k) + j + 1) as nat).last() == ring_cell(k as int, j),
        spiral((ring_base(k) + j + 1) as nat).len() == ring_base(k) + j + 1,
    decreases k, j,
{
    let m = ring_base(k) + j;
    lemma_ring_base_pos(k);
    lemma_spiral_len((m + 1) as nat);
    lemma_spiral_len(m as nat);
    lemma_leg_starts(k);
    if j > 0 {
        lemma_spiral_at(k, j - 1);
    } else if k > 1 {
        lemma_spiral_at((k - 1) as nat, 8 * (k - 1) - 1);
    }
    let l: nat = if j == 0 {
        (4 * k - 4) as nat
    } else if j < 2 * k {
        (4 * k - 3) as nat
    } else if j < 4 * k {
        (4 * k - 2) as nat
    } else if j < 6 * k {
        (4 * k - 1) as nat
    } else {
        (4 * k) as nat
    };
    lemma_leg_dir_in(m, l);
    assert(spiral((m + 1) as nat) == spiral(m as nat).push(
        (spiral(m as nat).last().0 + dir_delta(leg_dir(m, 0, 1)).0, spiral(m as nat).last().1 + dir_delta(leg_dir(m, 0, 1)).1),
    ));
}

proof fn lemma_ring_base_pos(k: nat)
    ensures
        ring_base(k) >= 1,
    decreases k,
{
    if k > 1 {
        lemma_ring_base_pos((k - 1) as nat);
    }
}

/// `ring_base(k)` is `(2k-1)^2`.
proof fn lemma_ring_base_square(k: nat)
    requires
        k >= 1,
    ensures
        ring_base(k) == (2 * k - 1) * (2 * k - 1),
    decreases k,
{
    if k == 1 {
        assert((2 * k - 1) * (2 * k - 1) == 1) by (nonlinear_arith)
            requires
                k == 1,
        ;
    } else {
        let p = (k - 1) as nat;
        lemma_ring_base_square(p);
        assert(ring_base(k) == ring_base(p) + 8 * p);
        assert((2 * k - 1) * (2 * k - 1) == (2 * p - 1) * (2 * p - 1) + 8 * p) by (nonlinear_arith)
            requires
                p + 1 == k,
        ;
    }
}

/// The square of radius `k` holds as many offsets as the rings up to `k`.
proof fn lemma_ball_ring(k: nat)
    ensures
        ball_len(k as int) == ring_base(k + 1),
{
    lemma_ring_base_square(k + 1);
    assert((2 * (k + 1) - 1) * (2 * (k + 1) - 1) == (2 * k + 1) * (2 * k + 1)) by (nonlinear_arith);
}

proof fn lemma_ring_base_mono(a: nat, b: nat)
    requires
        1 <= a <= b,
    ensures
        ring_base(a) <= ring_base(b),
        a < b ==> ring_base(a + 1) <= ring_base(b),
    decreases b - a,
{
    if a < b {
        lemma_ring_base_mono(a, (b - 1) as nat);
    }
}

/// The ring of place `i >= 1`, searched from ring `k` on.
proof fn lemma_ring_of(i: int, k: nat) -> (r: nat)
    requires
        k >= 1,
        ring_base(k) <= i,
    ensures
        r >= k,
        ring_base(r) <= i < ring_base(r + 1),
    decreases i - ring_base(k),
{
    if i < ring_base(k + 1) {
        k
    } else {
        lemma_ring_of(i, k + 1)
    }
}

proof fn lemma_ring_cell_norm(k: int, j: int)
    requires
        k >= 1,
        0 <= j < 8 * k,
    ensures
        cheb(ring_cell(k, j)) == k,
{
}

proof fn lemma_ring_cell_injective(k: int, a: int, b: int)
    requires
        k >= 1,
        0 <= a < b < 8 * k,
    ensures
        ring_cell(k, a) != ring_cell(k, b),
{
}

/// Place `i` of the spiral of 10201 entries: the centre, or place `j` of
/// ring `k`.
proof fn lemma_place(i: int) -> (kj: (nat, int))
    requires
        1 <= i < 10201,
    ensures
        1 <= kj.0 <= 50,
        0 <= kj.1 < 8 * kj.0,
        i == ring_base(kj.0) + kj.1,
        spiral(10201)[i] == ring_cell(kj.0 as int, kj.1),
{
    let k = lemma_ring_of(i, 1);
    lemma_ball_ring(50);
    assert(101 * 101 == 10201) by (nonlinear_arith);
    assert(ball_len(50) == 101 * 101);
    if k > 50 {
        lemma_ring_base_mono(51, k);
    }
    let j = i - ring_base(k);
    lemma_spiral_at(k, j);
    lemma_spiral_prefix(10201, i as nat);
    (k, j)
}

/// The spiral of 10201 offsets around a cell (see
/// [`crate::map_maker::get_base_around_50`]) repeats no offset, and for every
/// radius `k` up to 50 its first `(2k+1)^2` offsets are exactly those at
/// Chebyshev distance at most `k`: a prefix of that length covers the square
/// of radius `k`.
pub proof fn lemma_spiral_squares()
    ensures
        spiral(10201).len() == 10201,
        forall|a: int, b: int| 0 <= a < b < 10201 ==> #[trigger] spiral(10201)[a] != #[trigger] spiral(10201)[b],
        forall|k: int, i: int|
            #![trigger ball_len(k), spiral(10201)[i]]
            0 <= k <= 50 && 0 <= i < ball_len(k) ==> cheb(spiral(10201)[i]) <= k,
        forall|k: int, p: (int, int)|
            #![trigger ball_len(k), cheb(p)]
            0 <= k <= 50 && cheb(p) <= k ==> exists|i: int| 0 <= i < ball_len(k) && #[trigger] spiral(10201)[i] == p,
{
    lemma_spiral_len(10201);
    assert(spiral(1) == seq![(0int, 0int)]);
    lemma_spiral_prefix(10201, 0);
    assert forall|a: int, b: int| 0 <= a < b < 10201 implies #[trigger] spiral(10201)[a] != #[trigger] spiral(10201)[b] by {
        let (kb, jb) = lemma_place(b);
        lemma_ring_cell_norm(kb as int, jb);
        if a >= 1 {
            let (ka, ja) = lemma_place(a);
            lemma_ring_cell_norm(ka as int, ja);
            if ka == kb {
                lemma_ring_cell_injective(ka as int, ja, jb);
            }
        }
    }
    assert forall|k: int, i: int|
        #![trigger ball_len(k), spiral(10201)[i]]
        0 <= k <= 50 && 0 <= i < ball_len(k) implies cheb(spiral(10201)[i]) <= k by {
        assert(ball_len(k) <= 10201) by (nonlinear_arith)
            requires
                0 <= k <= 50,
        ;
        if i >= 1 {
            let (ki, ji) = lemma_place(i);
            lemma_ring_cell_norm(ki as int, ji);
            lemma_ball_ring(k as nat);
            if ki > k {
                lemma_ring_base_mono((k + 1) as nat, ki);
            }
        }
    }
    assert forall|k: int, p: (int, int)|
        #![trigger ball_len(k), cheb(p)]
        0 <= k <= 50 && cheb(p) <= k implies exists|i: int| 0 <= i < ball_len(k) && #[trigger] spiral(10201)[i] == p by {
        let c = cheb(p);
        if c == 0 {
            assert(p == (0int, 0int));
            assert(spiral(10201)[0] == p);
            assert(ball_len(k) >= 1) by (nonlinear_arith)
                requires
                    k >= 0,
            ;
        } else {
            let kk = c as nat;
            let (x, y) = p;
            let j = if y == -c && x <= c - 1 {
                c - 1 - x
            } else if x == -c {
                y + 3 * c - 1
            } else if y == c {
                x + 5 * c - 1
            } else {
                7 * c - 1 - y
            };
            assert(ring_cell(c, j) == p);
            lemma_ball_ring(k as nat);
            lemma_ball_ring(50);
            assert(101 * 101 == 10201) by (nonlinear_arith);
    assert(ball_len(50) == 101 * 101);
            lemma_ring_base_mono(kk + 1, (k + 1) as nat);
            let i = ring_base(kk) + j;
            assert(ring_base(kk + 1) == ring_base(kk) + 8 * kk);
            lemma_ring_base_mono((k + 1) as nat, 51);
            lemma_ring_base_pos(kk);
            lemma_spiral_at(kk, j);
            lemma_spiral_prefix(10201, i as nat);
            assert(spiral(10201)[i] == p);
        }
    }
}

} // verus!
