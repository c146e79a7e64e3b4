//! The CPU side of the hybrid scanner: the map generator of a 192 x 192 map
//! on bit boards, step by step, for a pipeline that runs the smoothing passes
//! on a graphics card and hands their results back word by word.
//!
//! The layers are those of [`crate::map_maker`]: `bb[t]` holds one bit per
//! cell, six words per row, 1152 words in all. Each step keeps every cell in
//! at most one terrain layer, leaves the birth layers alone once they are
//! drawn, and a step that grows one layer only moves cells into it.
use vstd::prelude::*;
use crate::map_maker::{
    ctype_base, get_base_around_50, masked_word, small_offset, CType, T_BORN_LINE, T_BORN_SPACE, T_COPPER_ORE,
    T_DEPTH_WATER, T_D_DEPTH_WATER, T_FERTILE_SOIL, T_MUD, T_SHALLOW_WATER, T_IRON_ORE, T_LING_SOIL, T_ROCK_BROWN, T_ROCK_GRAY, T_ROCK_MARBLE, T_SILVER_ORE, T_SOIL,
    T_STONE_LAND, T_TMP_1,
};
use crate::rng::{range_draw, seeded_state, DotNetState, GMathUtl, RandomType};
use crate::map_maker::{offsets_view, spiral};

verus! {

/// Words of a layer.
pub const WORDS: usize = 1152;

/// Cells of the map.
pub const CELLS: i32 = 36864;

/// Upper bound on the steps of one mine path (see `step_1_cpu`). The walk
/// moves right with probability 9/10 and ends after about 240 steps; the
/// bound only stops a walk that would otherwise overflow its coordinates.
pub const WALK_LIMIT: u32 = 0x400_0000;

/// The layers of a pipeline as sequences of words.
pub open spec fn shadow_layers(bb: Seq<Vec<u32>>) -> Seq<Seq<u32>> {
    Seq::new(bb.len(), |t: int| bb[t]@)
}

proof fn lemma_masked_disjoint(a: u32, c: u32, b: u32)
    requires
        a & c == 0,
    ensures
        (a | b) & (c & !b) == 0,
        (a & !b) & (c | b) == 0,
        (a & !b) & (c & !b) == 0,
{
    assert((a | b) & (c & !b) == 0 && (a & !b) & (c | b) == 0 && (a & !b) & (c & !b) == 0) by (bit_vector)
        requires
            a & c == 0,
    ;
}

proof fn lemma_and_zero(x: u32)
    ensures
        x & 0u32 == 0,
{
    assert(x & 0u32 == 0) by (bit_vector);
}

proof fn lemma_no_mask(x: u32)
    ensures
        x | 0u32 == x,
        x & !0u32 == x,
{
    assert(x | 0u32 == x && x & !0u32 == x) by (bit_vector);
}

/// No cell lies in two of the terrain layers 1 to 15.
pub open spec fn layers_exclusive(bb: Seq<Vec<u32>>) -> bool {
    forall|t1: int, t2: int, w: int|
        1 <= t1 < t2 <= 15 && 0 <= w < WORDS ==> #[trigger] bb[t1]@[w] & #[trigger] bb[t2]@[w] == 0
}

/// The terrain layers 2 to 15 are empty.
pub open spec fn layers_bare(bb: Seq<Vec<u32>>) -> bool {
    forall|t: int, w: int| 2 <= t <= 15 && 0 <= w < WORDS ==> #[trigger] bb[t]@[w] == 0
}

/// The birth space and the birth line (layers 16 and 17) are the same in
/// `a` and `b`.
pub open spec fn keeps_birth(a: Seq<Vec<u32>>, b: Seq<Vec<u32>>) -> bool {
    &&& a[T_BORN_SPACE as int]@ == b[T_BORN_SPACE as int]@
    &&& a[T_BORN_LINE as int]@ == b[T_BORN_LINE as int]@
}

/// One word of layer `t` goes from `x` to `y` by a move of cells into layer
/// `target`: the target layer only gains cells, every other layer only loses
/// cells.
pub open spec fn word_moves(x: u32, y: u32, t: int, target: int) -> bool {
    if t == target {
        x & !y == 0
    } else {
        y & !x == 0
    }
}

/// The terrain layers (1 to 15) go from `a` to `b` by moves of cells into
/// layer `target`.
pub open spec fn moves_into(a: Seq<Vec<u32>>, b: Seq<Vec<u32>>, target: int) -> bool {
    forall|t: int, w: int| 1 <= t <= 15 && 0 <= w < WORDS ==> #[trigger] word_moves(a[t]@[w], b[t]@[w], t, target)
}

pub(crate) proof fn lemma_word_moves(x: u32, y: u32, z: u32, b: u32)
    ensures
        x & !x == 0,
        x & !(x | b) == 0,
        (x & !b) & !x == 0,
        x & !y == 0 && y & !z == 0 ==> x & !z == 0,
{
    assert(x & !x == 0 && x & !(x | b) == 0 && (x & !b) & !x == 0) by (bit_vector);
    assert(x & !y == 0 && y & !z == 0 ==> x & !z == 0) by (bit_vector);
}

/// Moves into one layer compose.
proof fn lemma_moves_trans(a: Seq<Vec<u32>>, b: Seq<Vec<u32>>, c: Seq<Vec<u32>>, target: int)
    requires
        moves_into(a, b, target),
        moves_into(b, c, target),
    ensures
        moves_into(a, c, target),
{
    assert forall|t: int, w: int| 1 <= t <= 15 && 0 <= w < WORDS implies #[trigger] word_moves(
        a[t]@[w],
        c[t]@[w],
        t,
        target,
    ) by {
        assert(word_moves(a[t]@[w], b[t]@[w], t, target));
        assert(word_moves(b[t]@[w], c[t]@[w], t, target));
        lemma_word_moves(a[t]@[w], b[t]@[w], c[t]@[w], 0);
        lemma_word_moves(c[t]@[w], b[t]@[w], a[t]@[w], 0);
    }
}

/// Terrain layers that did not change moved nothing.
proof fn lemma_moves_none(a: Seq<Vec<u32>>, b: Seq<Vec<u32>>, target: int)
    requires
        forall|t: int| 1 <= t <= 15 ==> (#[trigger] a[t])@ == b[t]@,
    ensures
        moves_into(a, b, target),
{
    assert forall|t: int, w: int| 1 <= t <= 15 && 0 <= w < WORDS implies #[trigger] word_moves(
        a[t]@[w],
        b[t]@[w],
        t,
        target,
    ) by {
        assert(a[t]@ == b[t]@);
        lemma_word_moves(a[t]@[w], 0, 0, 0);
    }
}

/// The step of direction `dir` in columns and rows: 0 a row up the keys,
/// 1 a row down, 2 left, 3 right, 4 and 5 left and right a row down, 6 and 7
/// (and any larger number) left and right a row up.
pub open spec fn dir_step(dir: int) -> (int, int) {
    if dir == 0 {
        (0, 1)
    } else if dir == 1 {
        (0, -1)
    } else if dir == 2 {
        (-1, 0)
    } else if dir == 3 {
        (1, 0)
    } else if dir == 4 {
        (-1, -1)
    } else if dir == 5 {
        (1, -1)
    } else if dir == 6 {
        (-1, 1)
    } else {
        (1, 1)
    }
}

/// The key of the cell next to `key` in direction `dir` on the 192 x 192
/// map, or -1 where that cell is off the map, or is the cell with key 0
/// reached by a step that changes the row.
pub open spec fn neighbour_of(key: int, dir: int) -> int {
    let x = key % 192;
    let y = key / 192;
    let nx = x + dir_step(dir).0;
    let ny = y + dir_step(dir).1;
    if 0 <= nx < 192 && 0 <= ny < 192 && (dir_step(dir).1 == 0 || ny * 192 + nx > 0) {
        ny * 192 + nx
    } else {
        -1
    }
}

/// A mine path of the 192 x 192 map walked from column `i` and row `num`
/// with generator state `st`, after `steps` steps: while the column is left
/// of the right edge (and fewer than the step limit were taken), a draw below
/// 10 in 100 steps one column back, any other one column forward; the row
/// then drifts by a draw in `[-3, 2]` (where the path began below row 96,
/// `num2 > 96`) or `[-2, 3]`; each cell reached that lies on the map and is
/// not the cell with key 0 joins the path. The generator's final state and
/// the cells, in order.
pub open spec fn path_walk(st: DotNetState, i: int, num: int, steps: nat, num2: int) -> (DotNetState, Seq<u32>)
    decreases WALK_LIMIT - steps,
{
    if !(i < 192 && steps < WALK_LIMIT) {
        (st, Seq::empty())
    } else {
        let (s1, a) = range_draw(st, 0, 100);
        let i2 = if a < 10 { i - 1 } else { i + 1 };
        let (s2, d) = if num2 > 96 {
            range_draw(s1, -3i32, 2)
        } else {
            range_draw(s1, -2i32, 3)
        };
        let num3 = num + d;
        let rest = path_walk(s2, i2, num3, steps + 1, num2);
        (
            rest.0,
            if 0 <= i2 < 192 && 0 <= num3 < 192 && num3 * 192 + i2 > 0 {
                seq![(num3 * 192 + i2) as u32] + rest.1
            } else {
                rest.1
            },
        )
    }
}

/// One mine path: a start row drawn in `[0, 192)`, a second draw that is
/// not used, then the walk from column 0.
pub open spec fn mine_path(st: DotNetState) -> (DotNetState, Seq<u32>) {
    let (s0, n0) = range_draw(st, 0, 192);
    let s1 = range_draw(s0, 0, 192).0;
    path_walk(s1, 0, n0, 0, n0)
}

/// `k` mine paths walked one after the other: the generator's final state
/// and all their cells, in order.
pub open spec fn mine_paths(st: DotNetState, k: nat) -> (DotNetState, Seq<u32>)
    decreases k,
{
    if k == 0 {
        (st, Seq::empty())
    } else {
        let a = mine_paths(st, (k - 1) as nat);
        let b = mine_path(a.0);
        (b.0, a.1 + b.1)
    }
}

/// Word `w` of terrain layer `t` after the first step: soil everywhere, then
/// the fertile cell at `(kx, ky)` where it lies on the map.
pub open spec fn first_step_word(old_word: u32, t: int, w: int, kx: int, ky: int) -> u32 {
    let pre = if t == T_SOIL { 0xFFFF_FFFFu32 } else { old_word };
    if 0 <= kx < 192 && 0 <= ky < 192 && w == ky * 6 + kx / 32 {
        masked_word(pre, t, T_FERTILE_SOIL as int, 1u32 << ((kx % 32) as u32))
    } else {
        pre
    }
}

/// The layers after the cells of `bit` in word `word` go to layer `tgt` and
/// leave every other terrain layer (1 to 15).
pub open spec fn set_bit_v(l: Seq<Seq<u32>>, tgt: int, word: int, bit: u32) -> Seq<Seq<u32>> {
    Seq::new(
        l.len(),
        |t: int|
            if 1 <= t <= 15 {
                l[t].update(word, masked_word(l[t][word], t, tgt, bit))
            } else {
                l[t]
            },
    )
}

/// The state of a widening pass: the generator, the layers and the takes
/// still allowed.
pub type OutState = (DotNetState, Seq<Seq<u32>>, int);

/// The parameters of a widening pass: target layer, number of spiral
/// offsets, take level, take limit and class.
pub type OutParams = (int, int, i32, i32, CType);

/// The spiral offsets from the `i`-th on (before `end`) around the cell
/// `(cx, cy)`: each one on the map draws in `[0, 100)`; a draw of at most
/// the level takes the cell where the class admits it; with a positive
/// limit, the take that uses the last one ends the cell.
pub open spec fn out_offsets(st: OutState, cx: int, cy: int, i: int, p: OutParams) -> OutState
    decreases p.1 - i,
{
    if i < 0 || i >= p.1 {
        st
    } else {
        let off = spiral(10201)[i];
        let nx = cx + off.0;
        let ny = cy + off.1;
        if 0 <= nx < 192 && 0 <= ny < 192 {
            let (r1, v) = range_draw(st.0, 0, 100);
            if v <= p.2 {
                let key = ny * 192 + nx;
                let nw = key / 32;
                let bit = 1u32 << ((key % 32) as u32);
                if ctype_base(st.1, nw, p.4) & bit != 0 {
                    let l2 = set_bit_v(st.1, p.0, nw, bit);
                    if p.3 > 0 && st.2 > 0 {
                        if st.2 - 1 == 0 {
                            (r1, l2, 0)
                        } else {
                            out_offsets((r1, l2, st.2 - 1), cx, cy, i + 1, p)
                        }
                    } else {
                        out_offsets((r1, l2, st.2), cx, cy, i + 1, p)
                    }
                } else {
                    out_offsets((r1, st.1, st.2), cx, cy, i + 1, p)
                }
            } else {
                out_offsets((r1, st.1, st.2), cx, cy, i + 1, p)
            }
        } else {
            out_offsets(st, cx, cy, i + 1, p)
        }
    }
}

/// The cells of bits `b - 1` down to 0 of word `word` in `mask`, each
/// widened (see `out_offsets`).
pub open spec fn out_bits(st: OutState, word: int, b: int, mask: u32, p: OutParams) -> OutState
    decreases b,
{
    if b <= 0 {
        st
    } else {
        let key = word * 32 + (b - 1);
        let st1 = if (mask >> ((b - 1) as u32)) & 1u32 == 1u32 {
            out_offsets(st, key % 192, key / 192, 0, p)
        } else {
            st
        };
        out_bits(st1, word, b - 1, mask, p)
    }
}

/// The cells of the source words `word - 1` down to 0 (without the cell
/// with key 0), each widened.
pub open spec fn out_words(st: OutState, word: int, src: Seq<u32>, p: OutParams) -> OutState
    decreases word,
{
    if word <= 0 {
        st
    } else {
        let w1 = word - 1;
        let mask = if w1 == 0 {
            src[0] & !1u32
        } else {
            src[w1]
        };
        out_words(out_bits(st, w1, 32, mask, p), w1, src, p)
    }
}

/// The generator's state and the layers after widening layer `src` into
/// `tgt` (see `ShadowPipeline::cpu_out_line`).
pub open spec fn out_line_result(
    rng: DotNetState,
    l: Seq<Seq<u32>>,
    src: int,
    tgt: int,
    w: int,
    lv: i32,
    maxcount: i32,
    ctype: CType,
) -> (DotNetState, Seq<Seq<u32>>) {
    let l1 = l.update(T_TMP_1 as int, l[src]);
    let end = if (2 * w + 1) * (2 * w + 1) < 10201 { (2 * w + 1) * (2 * w + 1) } else { 10201 };
    let r = out_words((rng, l1, maxcount as int), WORDS as int, l[src], (tgt, end, lv, maxcount, ctype));
    (r.0, r.1)
}

/// The layers after the first step (see [`first_step_word`]).
pub open spec fn first_step_layers(l: Seq<Seq<u32>>, kx: int, ky: int) -> Seq<Seq<u32>> {
    Seq::new(
        l.len(),
        |t: int|
            if 1 <= t <= 15 {
                Seq::new(l[t].len(), |w: int| first_step_word(l[t][w], t, w, kx, ky))
            } else {
                l[t]
            },
    )
}

/// The fertile cells of word `w`, without the cell with key 0.
pub open spec fn fertile_cells(layers: Seq<Seq<u32>>, w: int) -> u32 {
    if w == 0 {
        layers[T_FERTILE_SOIL as int][w] & !1u32
    } else {
        layers[T_FERTILE_SOIL as int][w]
    }
}

/// The order in which neighbours are listed.
pub open spec fn dir_order() -> Seq<int> {
    seq![6, 4, 7, 5, 1, 2, 3, 0]
}

/// The existing neighbours of `key` in the first `d` directions of
/// [`dir_order`], in that order.
pub open spec fn neighbours_upto(key: int, d: nat) -> Seq<int>
    decreases d,
{
    if d == 0 {
        Seq::empty()
    } else {
        let s = neighbours_upto(key, (d - 1) as nat);
        let n = neighbour_of(key, dir_order()[d - 1]);
        if n == -1 {
            s
        } else {
            s.push(n)
        }
    }
}

/// The generator's state and the layers, as one step of the pipeline sees
/// them.
pub type PState = (DotNetState, Seq<Seq<u32>>);

/// The layers after the cells of `bit` in word `nw` join layer `def` where
/// class `ctype` admits them.
pub open spec fn admit_v(l: Seq<Seq<u32>>, def: int, nw: int, bit: u32, ctype: CType) -> Seq<Seq<u32>> {
    if ctype_base(l, nw, ctype) & bit != 0 {
        set_bit_v(l, def, nw, bit)
    } else {
        l
    }
}

/// The layers after cell `key` joins layer `def` where `ctype` admits it.
pub open spec fn admit_key(l: Seq<Seq<u32>>, def: int, key: int, ctype: CType) -> Seq<Seq<u32>> {
    admit_v(l, def, key / 32, 1u32 << ((key % 32) as u32), ctype)
}

/// `n` random cells for layer `target`: each draws a column and a row in
/// `[0, 192)`, and joins the layer where `ctype` admits it.
pub open spec fn fill_draws(st: PState, n: int, target: int, ctype: CType) -> PState
    decreases n,
{
    if n <= 0 {
        st
    } else {
        let (r1, x) = range_draw(st.0, 0, 192);
        let (r2, y) = range_draw(r1, 0, 192);
        let l = if x < 192 && y < 192 {
            admit_v(st.1, target, y * 6 + x / 32, 1u32 << ((x % 32) as u32), ctype)
        } else {
            st.1
        };
        fill_draws((r2, l), n - 1, target, ctype)
    }
}

/// The cells of `ns` from the `d`-th on join layer `def` where `ectype`
/// admits them, in order.
pub open spec fn spread_v(l: Seq<Seq<u32>>, def: int, ns: Seq<int>, d: int, ectype: CType) -> Seq<Seq<u32>>
    decreases ns.len() - d,
{
    if d < 0 || d >= ns.len() {
        l
    } else {
        spread_v(admit_key(l, def, ns[d], ectype), def, ns, d + 1, ectype)
    }
}

/// One cell of an expansion pass: if cell `key` lies in layer `def`, a draw
/// in `[0, 100)` of at most `lv` spreads it to its neighbours.
pub open spec fn expand_at(st: PState, key: int, def: int, lv: i32, ectype: CType) -> PState {
    if (st.1[def][key / 32] >> ((key % 32) as u32)) & 1u32 == 1u32 {
        let (r, v) = range_draw(st.0, 0, 100);
        if v <= lv {
            (r, spread_v(st.1, def, neighbours_upto(key, 8), 0, ectype))
        } else {
            (r, st.1)
        }
    } else {
        st
    }
}

/// A forward pass over bits `b` to 31 of word `w`.
pub open spec fn fwd_bits(st: PState, w: int, b: int, def: int, lv: i32, ectype: CType) -> PState
    decreases 32 - b,
{
    if b < 0 || b >= 32 {
        st
    } else {
        fwd_bits(expand_at(st, w * 32 + b, def, lv, ectype), w, b + 1, def, lv, ectype)
    }
}

/// A forward pass over words `w` to the last.
pub open spec fn fwd_words(st: PState, w: int, def: int, lv: i32, ectype: CType) -> PState
    decreases WORDS - w,
{
    if w < 0 || w >= WORDS {
        st
    } else {
        fwd_words(fwd_bits(st, w, 0, def, lv, ectype), w + 1, def, lv, ectype)
    }
}

/// A backward pass over bits `b - 1` down to 0 of word `w`.
pub open spec fn bwd_bits(st: PState, w: int, b: int, def: int, lv: i32, ectype: CType) -> PState
    decreases b,
{
    if b <= 0 {
        st
    } else {
        bwd_bits(expand_at(st, w * 32 + (b - 1), def, lv, ectype), w, b - 1, def, lv, ectype)
    }
}

/// A backward pass over words `w - 1` down to 0.
pub open spec fn bwd_words(st: PState, w: int, def: int, lv: i32, ectype: CType) -> PState
    decreases w,
{
    if w <= 0 {
        st
    } else {
        bwd_words(bwd_bits(st, w - 1, 32, def, lv, ectype), w - 1, def, lv, ectype)
    }
}

/// `e` expansion passes, the first forward if `forward`, then alternating.
pub open spec fn expand_passes(st: PState, e: int, forward: bool, def: int, lv: i32, ectype: CType) -> PState
    decreases e,
{
    if e <= 0 {
        st
    } else {
        let st1 = if forward {
            fwd_words(st, 0, def, lv, ectype)
        } else {
            bwd_words(st, WORDS as int, def, lv, ectype)
        };
        expand_passes(st1, e - 1, !forward, def, lv, ectype)
    }
}

/// The generator's state and the layers after
/// `ShadowPipeline::cpu_random_and_expand`.
pub open spec fn random_and_expand_result(
    rng: DotNetState,
    l: Seq<Seq<u32>>,
    def: int,
    rcount: i32,
    ecount: i32,
    lv: i32,
    ctype: CType,
    ectype: CType,
) -> PState {
    let st = fill_draws((rng, l), if rcount > 1 { rcount as int } else { 1 }, def, ctype);
    expand_passes(st, ecount as int, true, def, lv, ectype)
}

/// `cpu_random_and_expand` always seeds at least one cell: any cell count
/// up to 1 gives the same result as 1.
pub proof fn lemma_at_least_one_seed(
    rng: DotNetState,
    l: Seq<Seq<u32>>,
    def: int,
    rcount: i32,
    ecount: i32,
    lv: i32,
    ctype: CType,
    ectype: CType,
)
    requires
        rcount <= 1,
    ensures
        random_and_expand_result(rng, l, def, rcount, ecount, lv, ctype, ectype) == random_and_expand_result(
            rng,
            l,
            def,
            1,
            ecount,
            lv,
            ctype,
            ectype,
        ),
{
}

/// `n` points along the mine path `mine`, the next from index `num` (a new
/// random index once `num` passes the end): each point moves to a random
/// neighbour and joins layer `def` where `ctype` admits it.
pub open spec fn line_points(st: PState, num: int, n: int, mine: Seq<u32>, def: int, ctype: CType) -> PState
    decreases n,
{
    if n <= 0 {
        st
    } else {
        let len = mine.len() as int;
        let (r0, num0) = if num >= len {
            range_draw(st.0, 0, len as i32)
        } else {
            (st.0, num)
        };
        let idx = if num0 < len { num0 } else { len - 1 };
        let key = mine[idx] as int;
        let ns = neighbours_upto(key, 8);
        let (r1, fkey) = if ns.len() > 0 {
            let (r, p) = range_draw(r0, 0, ns.len() as i32);
            (r, ns[if p < ns.len() { p } else { ns.len() - 1 }])
        } else {
            (r0, key)
        };
        line_points((r1, admit_key(st.1, def, fkey, ctype)), num0 + 1, n - 1, mine, def, ctype)
    }
}

/// The generator's state and the layers after
/// `ShadowPipeline::cpu_random_line_from_mine_dir`.
pub open spec fn line_from_mine_result(
    rng: DotNetState,
    l: Seq<Seq<u32>>,
    mine: Seq<u32>,
    w: int,
    size: i32,
    def: int,
    ctype: CType,
) -> PState {
    if mine.len() == 0 {
        (rng, l)
    } else {
        let (r, num) = range_draw(rng, 0, mine.len() as i32);
        let st = line_points((r, l), num, size as int, mine, def, ctype);
        out_line_result(st.0, st.1, def, def, w, 4, 0, ctype)
    }
}

/// The iron lines of `ShadowPipeline::step_6_pre_rock_opt` from the `i`-th
/// on: while `i` is below a fresh draw in `[3, 5)`, a line of radius drawn
/// in `[0, 3)` with a length drawn in `[8, 13)`.
pub open spec fn iron_lines(st: PState, i: int, mine: Seq<u32>) -> PState
    decreases 5 - i,
{
    let (r, v) = range_draw(st.0, 3, 5);
    if i < v && i < 5 {
        let (r1, a1) = range_draw(r, 0, 3);
        let (r2, a2) = range_draw(r1, 8, 13);
        iron_lines(line_from_mine_result(r2, st.1, mine, a1, a2 as i32, T_IRON_ORE as int, CType::NoBorn), i + 1, mine)
    } else {
        (r, st.1)
    }
}

/// The lines of ore `t` from the `i`-th of four on: radius drawn in
/// `[0, 1)`, length drawn in `[6, 8)`.
pub open spec fn ore_lines(st: PState, i: int, t: int, mine: Seq<u32>) -> PState
    decreases 4 - i,
{
    if i < 0 || i >= 4 {
        st
    } else {
        let (r1, a1) = range_draw(st.0, 0, 1);
        let (r2, a2) = range_draw(r1, 6, 8);
        ore_lines(line_from_mine_result(r2, st.1, mine, a1, a2 as i32, t, CType::NoBorn), i + 1, t, mine)
    }
}

/// The rock lines from the `i`-th on: while `i` is below a fresh draw in
/// `[1, 3)`, a line of radius drawn in `[0, 1)` and length drawn in
/// `[8, 16)`, of grey rock if a draw in `[1, 3)` gives 1, else of marble.
pub open spec fn rock_lines(st: PState, i: int, mine: Seq<u32>) -> PState
    decreases 3 - i,
{
    let (r, v) = range_draw(st.0, 1, 3);
    if i < v && i < 3 {
        let (r1, w) = range_draw(r, 0, 1);
        let (r2, sz) = range_draw(r1, 8, 16);
        let (r3, c) = range_draw(r2, 1, 3);
        let t = if c == 1 { T_ROCK_GRAY as int } else { T_ROCK_MARBLE as int };
        rock_lines(line_from_mine_result(r3, st.1, mine, w, sz as i32, t, CType::NoBorn), i + 1, mine)
    } else {
        (r, st.1)
    }
}

/// The generator's state and the layers after
/// `ShadowPipeline::step_6_pre_rock_opt`.
pub open spec fn pre_rock_result(st: PState, mine: Seq<u32>) -> PState {
    let s1 = iron_lines(st, 0, mine);
    let s2 = ore_lines(s1, 0, T_COPPER_ORE as int, mine);
    let s3 = ore_lines(s2, 0, T_SILVER_ORE as int, mine);
    rock_lines(s3, 0, mine)
}

/// Grey rock (`m == 1`) and marble (`m == 2`) grown from the `m`-th on:
/// while `m` is below a fresh draw in `[1, 3)`, from a number of random
/// cells drawn in `[0, 3)`.
pub open spec fn rock_growth(st: PState, m: int) -> PState
    decreases 3 - m,
{
    let (r, v) = range_draw(st.0, 1, 3);
    if m < v && m < 3 {
        let t = if m == 1 { T_ROCK_GRAY as int } else { T_ROCK_MARBLE as int };
        let (r1, c) = range_draw(r, 0, 3);
        rock_growth(random_and_expand_result(r1, st.1, t, c as i32, 3, 24, CType::NoBorn, CType::NoBorn), m + 1)
    } else {
        (r, st.1)
    }
}

/// Ore `t` grown: random cells drawn in `[0, 4)`, passes drawn in `[1, 4)`,
/// level 13 plus three times a draw in `[1, 4)`.
pub open spec fn ore_growth(st: PState, t: int) -> PState {
    let (r1, a) = range_draw(st.0, 0, 4);
    let (r2, b) = range_draw(r1, 1, 4);
    let (r3, c) = range_draw(r2, 1, 4);
    random_and_expand_result(r3, st.1, t, a as i32, b as i32, (13 + 3 * c) as i32, CType::NoBorn, CType::NoBorn)
}

/// Brown rock around layer `src`, radius `w`, level `lv`.
pub open spec fn brown_ring(st: PState, src: int, w: int, lv: i32) -> PState {
    out_line_result(st.0, st.1, src, T_ROCK_BROWN as int, w, lv, 0, CType::NoBorn)
}

/// Brown rock around layer `src`, radius drawn in `[1, 2)`, level 32.
pub open spec fn drawn_brown_ring(st: PState, src: int) -> PState {
    let (r, a) = range_draw(st.0, 1, 2);
    brown_ring((r, st.1), src, a, 32)
}

/// Brown rock around brown rock, grey rock and marble (`j` = 0, 1, 2) from
/// the `j`-th on, radius drawn in `[1, 3)`, level 32.
pub open spec fn rock_rings(st: PState, j: int) -> PState
    decreases 3 - j,
{
    if j < 0 || j >= 3 {
        st
    } else {
        let t = if j == 1 {
            T_ROCK_GRAY as int
        } else if j == 2 {
            T_ROCK_MARBLE as int
        } else {
            T_ROCK_BROWN as int
        };
        let (r, a) = range_draw(st.0, 1, 3);
        rock_rings(brown_ring((r, st.1), t, a, 32), j + 1)
    }
}

/// The generator's state and the layers after
/// `ShadowPipeline::before_rock_pass`.
pub open spec fn before_rock_result(st: PState, mine: Seq<u32>) -> PState {
    let s1 = random_and_expand_result(st.0, st.1, T_SHALLOW_WATER as int, 3, 3, 20, CType::NoBorn, CType::NoBorn);
    let s2 = out_line_result(s1.0, s1.1, T_SHALLOW_WATER as int, T_MUD as int, 4, 90, 0, CType::CheckCon);
    let s3 = rock_growth(pre_rock_result(s2, mine), 1);
    let s4 = ore_growth(ore_growth(ore_growth(s3, T_IRON_ORE as int), T_COPPER_ORE as int), T_SILVER_ORE as int);
    let (r5, a5) = range_draw(s4.0, 2, 4);
    let s5 = random_and_expand_result(r5, s4.1, T_ROCK_BROWN as int, a5 as i32, 4, 25, CType::NoBorn, CType::NoBorn);
    let s6 = brown_ring(brown_ring(s5, T_ROCK_GRAY as int, 1, 86), T_ROCK_MARBLE as int, 1, 86);
    let s7 = brown_ring(brown_ring(brown_ring(s6, T_IRON_ORE as int, 1, 86), T_COPPER_ORE as int, 1, 86), T_SILVER_ORE as int, 1, 86);
    let s8 = drawn_brown_ring(drawn_brown_ring(drawn_brown_ring(s7, T_IRON_ORE as int), T_COPPER_ORE as int), T_SILVER_ORE as int);
    rock_rings(s8, 0)
}

/// The cell at position `n` of side `side` (left column, right column, top
/// row, bottom row), or -1 past the map's edge.
pub open spec fn side_cell(side: int, n: int) -> int {
    if n < 192 {
        if side == 0 {
            n * 192
        } else if side == 1 {
            n * 192 + 191
        } else if side == 2 {
            n
        } else {
            191 * 192 + n
        }
    } else {
        -1
    }
}

/// The birth-line run of side `side` from the `j`-th cell on: while `j` is
/// below a fresh draw in `[5, 15)`, the cell at position `num2 + j` of the
/// side joins the birth line.
pub open spec fn line_run(st: (DotNetState, Seq<u32>), side: int, num2: int, j: int) -> (DotNetState, Seq<u32>)
    decreases 15 - j,
{
    let (r, v) = range_draw(st.0, 5, 15);
    if j < v && j < 15 {
        let k = side_cell(side, num2 + j);
        let l = if 0 <= k < CELLS {
            st.1.update(k / 32, st.1[k / 32] | (1u32 << ((k % 32) as u32)))
        } else {
            st.1
        };
        line_run((r, l), side, num2, j + 1)
    } else {
        (r, st.1)
    }
}

/// The birth-line runs of sides `side` to 3, each from a position drawn in
/// `[57, 115)`.
pub open spec fn line_sides(st: (DotNetState, Seq<u32>), side: int) -> (DotNetState, Seq<u32>)
    decreases 4 - side,
{
    if side < 0 || side >= 4 {
        st
    } else {
        let (r, n2) = range_draw(st.0, 57, 115);
        line_sides(line_run((r, st.1), side, n2, 0), side + 1)
    }
}

/// The layers after `ShadowPipeline::step_2_cpu_a`: the birth space is the
/// fertile layer without the cell with key 0.
pub open spec fn born_space_layers(l: Seq<Seq<u32>>) -> Seq<Seq<u32>> {
    l.update(
        T_BORN_SPACE as int,
        Seq::new(l[T_FERTILE_SOIL as int].len(), |w: int| fertile_cells(l, w)),
    )
}

/// The layers after `ShadowPipeline::step_2_cpu_b`, given its birth line
/// `bl`: the fertile cells (without the cell with key 0) become soil.
pub open spec fn soil_layers(l: Seq<Seq<u32>>, bl: Seq<u32>) -> Seq<Seq<u32>> {
    Seq::new(
        l.len(),
        |t: int|
            if 1 <= t <= 15 {
                Seq::new(l[t].len(), |w: int| masked_word(l[t][w], t, T_SOIL as int, fertile_cells(l, w)))
            } else if t == T_BORN_LINE {
                bl
            } else {
                l[t]
            },
    )
}

/// The generator's state and the layers after
/// `ShadowPipeline::before_water_pass`.
pub open spec fn before_water_result(st: PState) -> PState {
    let s1 = out_line_result(
        st.0,
        born_space_layers(st.1),
        T_FERTILE_SOIL as int,
        T_FERTILE_SOIL as int,
        2,
        100,
        0,
        CType::AllTrue,
    );
    let bl = line_sides((s1.0, s1.1[T_BORN_LINE as int]), 0);
    let s2 = (bl.0, soil_layers(s1.1, bl.1));
    let s3 = random_and_expand_result(s2.0, s2.1, T_FERTILE_SOIL as int, 20, 4, 30, CType::AllTrue, CType::AllTrue);
    let s4 = random_and_expand_result(s3.0, s3.1, T_D_DEPTH_WATER as int, 2, 5, 31, CType::NoBorn, CType::NoBorn);
    let s5 = out_line_result(s4.0, s4.1, T_D_DEPTH_WATER as int, T_DEPTH_WATER as int, 1, 100, 0, CType::CheckCon);
    let s6 = out_line_result(s5.0, s5.1, T_DEPTH_WATER as int, T_DEPTH_WATER as int, 1, 28, 0, CType::NoBorn);
    out_line_result(s6.0, s6.1, T_DEPTH_WATER as int, T_SHALLOW_WATER as int, 4, 86, 0, CType::CheckCon)
}

/// The neighbour of a cell of the 192 x 192 map in one of the eight
/// directions, or -1 (the game's rules: the cell with key 0 is never a
/// vertical neighbour).
fn neighbour(key: i32, dir: u8) -> (n: i32)
    requires
        0 <= key < CELLS,
    ensures
        n == neighbour_of(key as int, dir as int),
        n == -1 || 0 <= n < CELLS,
{
    if dir == 0 {
        let n = key + 192;
        if n <= 0 || n >= CELLS { -1 } else { n }
    } else if dir == 1 {
        let n = key - 192;
        if n <= 0 || n >= CELLS { -1 } else { n }
    } else if dir == 2 {
        let n = key - 1;
        if n < 0 || n >= CELLS || key / 192 != n / 192 { -1 } else { n }
    } else if dir == 3 {
        let n = key + 1;
        if n < 0 || n >= CELLS || key / 192 != n / 192 { -1 } else { n }
    } else {
        let t = if dir == 4 || dir == 6 { key - 1 } else { key + 1 };
        if t >= 0 && t < CELLS && key / 192 == t / 192 {
            let n = if dir == 4 || dir == 5 { t - 192 } else { t + 192 };
            if n <= 0 || n >= CELLS { -1 } else { n }
        } else {
            -1
        }
    }
}

/// The CPU state of one seed of the hybrid scanner: the bit boards, the
/// generator and the mine path.
pub struct ShadowPipeline {
    pub bb: Vec<Vec<u32>>,
    pub rand: GMathUtl,
    pub mine_dirs: Vec<u32>,
}

impl ShadowPipeline {
    /// Twenty layers of 1152 words, and a mine path of cells of the map.
    pub open spec fn wf(&self) -> bool {
        &&& self.bb@.len() == 20
        &&& forall|t: int| 0 <= t < 20 ==> (#[trigger] self.bb@[t])@.len() == WORDS
        &&& forall|i: int| 0 <= i < self.mine_dirs@.len() ==> #[trigger] self.mine_dirs@[i] < CELLS
    }

    /// The layers as sequences of words.
    pub open spec fn layers(&self) -> Seq<Seq<u32>> {
        shadow_layers(self.bb@)
    }

    /// No cell lies in two terrain layers (1 to 15).
    pub open spec fn exclusive(&self) -> bool {
        layers_exclusive(self.bb@)
    }

    /// The terrain layers but soil (2 to 15) are empty.
    pub open spec fn bare(&self) -> bool {
        layers_bare(self.bb@)
    }

    /// A pipeline for `seed`: empty layers, a fresh generator, no mine path.
    pub fn new(seed: i32) -> (r: Self)
        ensures
            r.wf(),
            r.rand.sys_random@ == seeded_state(seed),
            r.mine_dirs@.len() == 0,
            r.bare(),
            r.exclusive(),
            forall|t: int, w: int| 0 <= t < 20 && 0 <= w < WORDS ==> #[trigger] r.layers()[t][w] == 0,
    {
        let mut bb: Vec<Vec<u32>> = Vec::new();
        let mut t: usize = 0;
        while t < 20
            invariant
                t <= 20,
                bb@.len() == t,
                forall|i: int| 0 <= i < t ==> (#[trigger] bb@[i])@.len() == WORDS,
                forall|i: int, w: int| 0 <= i < t && 0 <= w < WORDS ==> #[trigger] bb@[i]@[w] == 0,
            decreases 20 - t,
        {
            let mut layer: Vec<u32> = Vec::new();
            let mut w: usize = 0;
            while w < WORDS
                invariant
                    w <= WORDS,
                    layer@.len() == w,
                    forall|v: int| 0 <= v < w ==> #[trigger] layer@[v] == 0,
                decreases WORDS - w,
            {
                layer.push(0);
                w = w + 1;
            }
            bb.push(layer);
            t = t + 1;
        }
        proof {
            assert forall|t1: int, t2: int, w: int|
                1 <= t1 < t2 <= 15 && 0 <= w < WORDS implies #[trigger] bb@[t1]@[w] & #[trigger] bb@[t2]@[w] == 0 by {
                lemma_and_zero(bb@[t1]@[w]);
            }
        }
        ShadowPipeline { bb, rand: GMathUtl::new(seed), mine_dirs: Vec::new() }
    }

    /// Gives the cells of `bit` in `word` to layer `t_target` and takes them
    /// from every other terrain layer (1 to 15).
    fn set_bit(&mut self, t_target: usize, word: usize, bit: u32)
        requires
            old(self).wf(),
            word < WORDS,
        ensures
            final(self).wf(),
            final(self).layers() == set_bit_v(old(self).layers(), t_target as int, word as int, bit),
            moves_into(old(self).bb@, final(self).bb@, t_target as int),
            keeps_birth(old(self).bb@, final(self).bb@),
            old(self).exclusive() ==> final(self).exclusive(),
            final(self).rand == old(self).rand,
            final(self).mine_dirs == old(self).mine_dirs,
            forall|t: int|
                1 <= t <= 15 ==> #[trigger] final(self).layers()[t][word as int] == masked_word(
                    old(self).layers()[t][word as int],
                    t,
                    t_target as int,
                    bit,
                ),
            forall|t: int, w: int|
                0 <= t < 20 && 0 <= w < WORDS && (w != word || t == 0 || t >= 16) ==> #[trigger] final(self).layers()[t][w] == old(self).layers()[t][w],
    {
        let mut t: usize = 1;
        while t <= 15
            invariant
                1 <= t <= 16,
                word < WORDS,
                self.rand == old(self).rand,
                self.mine_dirs == old(self).mine_dirs,
                self.bb@.len() == 20,
                forall|i: int| 0 <= i < 20 ==> (#[trigger] self.bb@[i])@.len() == WORDS,
                forall|i: int|
                    1 <= i < t ==> #[trigger] self.bb@[i]@[word as int] == masked_word(
                        old(self).bb@[i]@[word as int],
                        i,
                        t_target as int,
                        bit,
                    ),
                forall|i: int, w: int|
                    0 <= i < 20 && 0 <= w < WORDS && (w != word || i == 0 || i >= t) ==> #[trigger] self.bb@[i]@[w]
                        == old(self).bb@[i]@[w],
                old(self).wf(),
            decreases 16 - t,
        {
            if t == t_target {
                self.bb[t][word] = self.bb[t][word] | bit;
            } else {
                self.bb[t][word] = self.bb[t][word] & !bit;
            }
            t = t + 1;
        }
        proof {
            assert forall|t: int, w: int| 1 <= t <= 15 && 0 <= w < WORDS implies #[trigger] word_moves(
                old(self).bb@[t]@[w],
                self.bb@[t]@[w],
                t,
                t_target as int,
            ) by {
                lemma_word_moves(old(self).bb@[t]@[w], 0, 0, bit);
            }
            assert(self.bb@[T_BORN_SPACE as int]@ =~= old(self).bb@[T_BORN_SPACE as int]@);
            assert(self.bb@[T_BORN_LINE as int]@ =~= old(self).bb@[T_BORN_LINE as int]@);
            let nl = set_bit_v(old(self).layers(), t_target as int, word as int, bit);
            assert forall|t: int| 0 <= t < 20 implies #[trigger] self.layers()[t] == nl[t] by {
                assert(self.layers()[t] =~= nl[t]);
            }
            assert(self.layers() =~= nl);
            if old(self).exclusive() {
                assert forall|t1: int, t2: int, w: int|
                    1 <= t1 < t2 <= 15 && 0 <= w < WORDS implies #[trigger] self.bb@[t1]@[w]
                        & #[trigger] self.bb@[t2]@[w] == 0 by {
                    let a = old(self).bb@[t1]@[w];
                    let c = old(self).bb@[t2]@[w];
                    assert(a & c == 0);
                    if w == word {
                        lemma_masked_disjoint(a, c, bit);
                    }
                }
            }
        }
    }

    /// Merges a word that the graphics card computed: the cells of
    /// `newly_added` in word `w` go to layer `target` and leave every other
    /// terrain layer (1 to 15).
    pub fn apply_readback_word(&mut self, target: usize, w: usize, newly_added: u32)
        requires
            old(self).wf(),
            w < WORDS,
        ensures
            final(self).wf(),
            keeps_birth(old(self).bb@, final(self).bb@),
            moves_into(old(self).bb@, final(self).bb@, target as int),
            old(self).exclusive() ==> final(self).exclusive(),
            final(self).rand == old(self).rand,
            final(self).mine_dirs == old(self).mine_dirs,
            forall|t: int|
                1 <= t <= 15 ==> #[trigger] final(self).layers()[t][w as int] == masked_word(
                    old(self).layers()[t][w as int],
                    t,
                    target as int,
                    newly_added,
                ),
            forall|t: int, v: int|
                0 <= t < 20 && 0 <= v < WORDS && (v != w || t == 0 || t >= 16) ==> #[trigger] final(self).layers()[t][v] == old(self).layers()[t][v],
    {
        self.set_bit(target, w, newly_added);
    }

    /// The cells of word `i` that class `ctype` admits.
    pub fn get_ctype_mask(&self, i: usize, ctype: CType) -> (r: u32)
        requires
            self.wf(),
            i < WORDS,
        ensures
            r == ctype_base(self.layers(), i as int, ctype),
    {
        match ctype {
            CType::AllTrue => 0xFFFFFFFF,
            CType::NoBorn => {
                let fs = self.bb[T_SOIL][i] | self.bb[T_FERTILE_SOIL][i];
                let bp = self.bb[T_BORN_SPACE][i] | self.bb[T_BORN_LINE][i];
                fs & !bp
            },
            CType::CheckCon => self.bb[T_SOIL][i] | self.bb[T_FERTILE_SOIL][i] | self.bb[T_LING_SOIL][i],
            CType::CheckCon2 => {
                let bad = self.bb[T_IRON_ORE][i] | self.bb[T_COPPER_ORE][i] | self.bb[T_SILVER_ORE][i]
                    | self.bb[T_ROCK_BROWN][i] | self.bb[T_ROCK_GRAY][i];
                let marble = self.bb[T_ROCK_MARBLE][i];
                let bp = self.bb[T_BORN_SPACE][i] | self.bb[T_BORN_LINE][i];
                !(bad | (marble & !bp))
            },
        }
    }

    /// The existing neighbours of `key`, in the order left-down, left-up,
    /// right-down, right-up, up, left, right, down; returns how many.
    fn get_cpu_neighbor(key: i32, out_keys: &mut [u32; 8]) -> (count: usize)
        requires
            0 <= key < CELLS,
        ensures
            count <= 8,
            count == neighbours_upto(key as int, 8).len(),
            forall|i: int| 0 <= i < count ==> #[trigger] final(out_keys)@[i] == neighbours_upto(key as int, 8)[i],
            forall|i: int| 0 <= i < count ==> #[trigger] final(out_keys)@[i] < CELLS,
    {
        let dirs: [u8; 8] = [6, 4, 7, 5, 1, 2, 3, 0];
        let mut count: usize = 0;
        let mut d: usize = 0;
        while d < 8
            invariant
                d <= 8,
                count <= d,
                0 <= key < CELLS,
                dirs@ == seq![6u8, 4u8, 7u8, 5u8, 1u8, 2u8, 3u8, 0u8],
                count == neighbours_upto(key as int, d as nat).len(),
                forall|i: int| 0 <= i < count ==> #[trigger] out_keys@[i] == neighbours_upto(key as int, d as nat)[i],
                forall|i: int| 0 <= i < count ==> #[trigger] out_keys@[i] < CELLS,
            decreases 8 - d,
        {
            assert(dirs@[d as int] as int == dir_order()[d as int]);
            let n = neighbour(key, dirs[d]);
            if n != -1 {
                out_keys[count] = n as u32;
                count = count + 1;
            }
            d = d + 1;
        }
        count
    }

    /// Sets the cells of `bit` in word `nw` to layer `def` where class
    /// `ctype` admits them.
    fn set_where_admitted(&mut self, def: usize, nw: usize, bit: u32, ctype: CType)
        requires
            old(self).wf(),
            nw < WORDS,
        ensures
            final(self).wf(),
            keeps_birth(old(self).bb@, final(self).bb@),
            moves_into(old(self).bb@, final(self).bb@, def as int),
            old(self).exclusive() ==> final(self).exclusive(),
            final(self).rand == old(self).rand,
            final(self).mine_dirs == old(self).mine_dirs,
            final(self).layers() == admit_v(old(self).layers(), def as int, nw as int, bit, ctype),
            ctype_base(old(self).layers(), nw as int, ctype) & bit == 0 ==> *final(self) == *old(self),
            ctype_base(old(self).layers(), nw as int, ctype) & bit != 0 ==> {
                &&& forall|t: int|
                    1 <= t <= 15 ==> #[trigger] final(self).layers()[t][nw as int] == masked_word(
                        old(self).layers()[t][nw as int],
                        t,
                        def as int,
                        bit,
                    )
                &&& forall|t: int, w: int|
                    0 <= t < 20 && 0 <= w < WORDS && (w != nw || t == 0 || t >= 16) ==> #[trigger] final(self).layers()[t][w]
                        == old(self).layers()[t][w]
            },
    {
        if (self.get_ctype_mask(nw, ctype) & bit) != 0 {
            self.set_bit(def, nw, bit);
        } else {
            proof {
                lemma_moves_none(old(self).bb@, self.bb@, def as int);
            }
        }
    }

    /// `max(1, rcount)` random cells go to layer `target_t` where `ctype`
    /// admits them. A draw at the map's edge (possible only from a generator
    /// whose table has left its range) is skipped.
    fn step_cpu_random_fills(&mut self, target_t: usize, rcount: i32, ctype: CType)
        requires
            old(self).wf(),
        ensures
            final(self).wf(),
            keeps_birth(old(self).bb@, final(self).bb@),
            moves_into(old(self).bb@, final(self).bb@, target_t as int),
            old(self).exclusive() ==> final(self).exclusive(),
            final(self).mine_dirs == old(self).mine_dirs,
            (final(self).rand.sys_random@, final(self).layers()) == fill_draws(
                (old(self).rand.sys_random@, old(self).layers()),
                if rcount > 1 { rcount as int } else { 1 },
                target_t as int,
                ctype,
            ),
    {
        proof {
            lemma_moves_none(old(self).bb@, self.bb@, target_t as int);
        }
        let rc = if rcount > 1 { rcount } else { 1 };
        let ghost total = fill_draws((self.rand.sys_random@, self.layers()), rc as int, target_t as int, ctype);
        let mut k: i32 = 0;
        while k < rc
            invariant
                fill_draws((self.rand.sys_random@, self.layers()), rc - k, target_t as int, ctype) == total,
                self.wf(),
                keeps_birth(old(self).bb@, self.bb@),
                moves_into(old(self).bb@, self.bb@, target_t as int),
                old(self).exclusive() ==> self.exclusive(),
                self.mine_dirs == old(self).mine_dirs,
                0 <= k <= rc,
            decreases rc - k,
        {
            let x = self.rand.random_range_int(0, 192, RandomType::EmNone, "MakeMap");
            let y = self.rand.random_range_int(0, 192, RandomType::EmNone, "MakeMap");
            if x < 192 && y < 192 {
                let i = (y as usize) * 6 + (x as usize) / 32;
                let bit = 1u32 << ((x % 32) as u32);
                let ghost pre = self.bb@;
                self.set_where_admitted(target_t, i, bit, ctype);
                proof {
                    lemma_moves_trans(old(self).bb@, pre, self.bb@, target_t as int);
                }
            }
            k = k + 1;
        }
    }

    /// Spreads layer `src` into `t_target`: for every cell of `src` (but the
    /// cell with key 0), from the last word to the first and the highest bit
    /// to the lowest, each cell of the `(2w+1) x (2w+1)` square around it, in
    /// spiral order, is taken with probability `(lv + 1) / 100` where `ctype`
    /// admits it. With `maxcount > 0`, the square of the cell at which the
    /// takes reach `maxcount` in all is cut short there; callers pass 0.
    #[verifier::spinoff_prover]
    #[verifier::rlimit(40)]
    pub fn cpu_out_line(&mut self, src: usize, t_target: usize, w: i32, lv: i32, maxcount: i32, ctype: CType)
        requires
            old(self).wf(),
            src < 20,
            0 <= w <= 1024,
        ensures
            final(self).wf(),
            keeps_birth(old(self).bb@, final(self).bb@),
            moves_into(old(self).bb@, final(self).bb@, t_target as int),
            old(self).exclusive() ==> final(self).exclusive(),
            final(self).mine_dirs == old(self).mine_dirs,
            (final(self).rand.sys_random@, final(self).layers()) == out_line_result(
                old(self).rand.sys_random@,
                old(self).layers(),
                src as int,
                t_target as int,
                w as int,
                lv,
                maxcount,
                ctype,
            ),
    {
        let mut k: usize = 0;
        while k < WORDS
            invariant
                k <= WORDS,
                src < 20,
                self.wf(),
                old(self).wf(),
                keeps_birth(old(self).bb@, self.bb@),
                old(self).exclusive() ==> self.exclusive(),
                forall|t: int| 0 <= t < 20 && t != T_TMP_1 ==> #[trigger] self.bb@[t] == old(self).bb@[t],
                forall|v: int| 0 <= v < k ==> #[trigger] self.bb@[T_TMP_1 as int]@[v] == old(self).bb@[src as int]@[v],
                forall|v: int| k <= v < WORDS ==> #[trigger] self.bb@[T_TMP_1 as int]@[v] == old(self).bb@[T_TMP_1 as int]@[v],
                self.mine_dirs == old(self).mine_dirs,
                self.rand == old(self).rand,
            decreases WORDS - k,
        {
            let v = self.bb[src][k];
            self.bb[T_TMP_1][k] = v;
            k = k + 1;
        }
        let ghost tmp = old(self).layers()[src as int];
        proof {
            lemma_moves_none(old(self).bb@, self.bb@, t_target as int);
            assert(self.layers()[T_TMP_1 as int] =~= tmp);
            assert forall|t: int| 0 <= t < 20 implies #[trigger] self.layers()[t] == old(self).layers().update(
                T_TMP_1 as int,
                tmp,
            )[t] by {
                if t != T_TMP_1 {
                    assert(self.bb@[t] == old(self).bb@[t]);
                }
            }
            assert(self.layers() =~= old(self).layers().update(T_TMP_1 as int, tmp));
            assert(0 <= (w * 2 + 1) * (w * 2 + 1) <= 2049 * 2049) by (nonlinear_arith)
                requires
                    0 <= w <= 1024,
            ;
        }
        let limit = ((w * 2 + 1) * (w * 2 + 1)) as usize;
        let around = get_base_around_50();
        let end = if limit < around.len() {
            limit
        } else {
            around.len()
        };
        let ghost p: OutParams = (t_target as int, end as int, lv, maxcount, ctype);
        let mut current_max = maxcount;
        let ghost total = out_words(
            (self.rand.sys_random@, self.layers(), current_max as int),
            WORDS as int,
            tmp,
            p,
        );
        let mut word = WORDS;
        while word > 0
            invariant
                word <= WORDS,
                end <= around@.len(),
                around@.len() == 10201,
                forall|i: int| 0 <= i < around@.len() ==> small_offset(#[trigger] around@[i]),
                offsets_view(around@) == spiral(10201),
                p == (t_target as int, end as int, lv, maxcount, ctype),
                self.wf(),
                keeps_birth(old(self).bb@, self.bb@),
                moves_into(old(self).bb@, self.bb@, t_target as int),
                old(self).exclusive() ==> self.exclusive(),
                self.mine_dirs == old(self).mine_dirs,
                self.layers()[T_TMP_1 as int] == tmp,
                out_words((self.rand.sys_random@, self.layers(), current_max as int), word as int, tmp, p) == total,
            decreases word,
        {
            word = word - 1;
            let mut mask = self.bb[T_TMP_1][word];
            if word == 0 {
                mask = mask & !1u32;
            }
            let mut b: u32 = 32;
            while b > 0
                invariant
                    b <= 32,
                    word < WORDS,
                    end <= around@.len(),
                    around@.len() == 10201,
                    forall|i: int| 0 <= i < around@.len() ==> small_offset(#[trigger] around@[i]),
                    offsets_view(around@) == spiral(10201),
                    p == (t_target as int, end as int, lv, maxcount, ctype),
                    mask == if word == 0 { tmp[0] & !1u32 } else { tmp[word as int] },
                    self.wf(),
                    keeps_birth(old(self).bb@, self.bb@),
                    moves_into(old(self).bb@, self.bb@, t_target as int),
                    old(self).exclusive() ==> self.exclusive(),
                    self.mine_dirs == old(self).mine_dirs,
                    self.layers()[T_TMP_1 as int] == tmp,
                    out_words(
                        out_bits((self.rand.sys_random@, self.layers(), current_max as int), word as int, b as int, mask, p),
                        word as int,
                        tmp,
                        p,
                    ) == total,
                decreases b,
            {
                b = b - 1;
                if (mask >> b) & 1 == 1 {
                    let key = (word * 32 + b as usize) as i32;
                    let cx = key % 192;
                    let cy = key / 192;
                    let mut i: usize = 0;
                    while i < end
                        invariant_except_break
                            out_words(
                                out_bits(
                                    out_offsets(
                                        (self.rand.sys_random@, self.layers(), current_max as int),
                                        cx as int,
                                        cy as int,
                                        i as int,
                                        p,
                                    ),
                                    word as int,
                                    b as int,
                                    mask,
                                    p,
                                ),
                                word as int,
                                tmp,
                                p,
                            ) == total,
                        invariant
                            i <= end,
                            end <= around@.len(),
                            around@.len() == 10201,
                            forall|j: int| 0 <= j < around@.len() ==> small_offset(#[trigger] around@[j]),
                            offsets_view(around@) == spiral(10201),
                            p == (t_target as int, end as int, lv, maxcount, ctype),
                            0 <= cx < 192,
                            0 <= cy < 192,
                            word < WORDS,
                            self.wf(),
                            keeps_birth(old(self).bb@, self.bb@),
                            moves_into(old(self).bb@, self.bb@, t_target as int),
                            old(self).exclusive() ==> self.exclusive(),
                            self.mine_dirs == old(self).mine_dirs,
                            self.layers()[T_TMP_1 as int] == tmp,
                        ensures
                            out_words(
                                out_bits((self.rand.sys_random@, self.layers(), current_max as int), word as int, b as int, mask, p),
                                word as int,
                                tmp,
                                p,
                            ) == total,
                        decreases end - i,
                    {
                        let ghost st0: OutState = (self.rand.sys_random@, self.layers(), current_max as int);
                        let (dx, dy) = around[i];
                        assert(small_offset(around@[i as int]));
                        assert(offsets_view(around@)[i as int] == (dx as int, dy as int));
                        let nx = cx + dx;
                        let ny = cy + dy;
                        if nx >= 0 && nx < 192 && ny >= 0 && ny < 192 {
                            if self.rand.random_range_int(0, 100, RandomType::EmNone, "OutLine") <= lv {
                                let n_key = (ny * 192 + nx) as usize;
                                let nw = n_key / 32;
                                let n_bit = 1u32 << ((n_key % 32) as u32);
                                if (self.get_ctype_mask(nw, ctype) & n_bit) != 0 {
                                    let ghost pre = self.bb@;
                                    self.set_bit(t_target, nw, n_bit);
                                    proof {
                                        lemma_moves_trans(old(self).bb@, pre, self.bb@, t_target as int);
                                    }
                                    if maxcount > 0 && current_max > 0 {
                                        current_max = current_max - 1;
                                        if current_max == 0 {
                                            break;
                                        }
                                    }
                                }
                            }
                        }
                        i = i + 1;
                    }
                }
            }
        }
    }

    /// Draws `size` points along the mine paths (each moved to a random
    /// neighbour), marks them `def` where `ctype` admits them, and widens the
    /// result with [`Self::cpu_out_line`]. A draw at the bound of its range
    /// (possible only from a generator whose table has left its range) takes
    /// the last candidate.
    #[verifier::spinoff_prover]
    #[verifier::rlimit(40)]
    pub fn cpu_random_line_from_mine_dir(&mut self, w: i32, size: i32, def: usize, ctype: CType)
        requires
            old(self).wf(),
            def < 20,
            0 <= w <= 1024,
            old(self).mine_dirs@.len() <= 0x7000_0000,
        ensures
            final(self).wf(),
            keeps_birth(old(self).bb@, final(self).bb@),
            moves_into(old(self).bb@, final(self).bb@, def as int),
            old(self).exclusive() ==> final(self).exclusive(),
            final(self).mine_dirs == old(self).mine_dirs,
            (final(self).rand.sys_random@, final(self).layers()) == line_from_mine_result(
                old(self).rand.sys_random@,
                old(self).layers(),
                old(self).mine_dirs@,
                w as int,
                size,
                def as int,
                ctype,
            ),
    {
        proof {
            lemma_moves_none(old(self).bb@, self.bb@, def as int);
        }
        let len = self.mine_dirs.len();
        if len == 0 {
            return;
        }
        let mut num = self.rand.random_range_int(0, len as i32, RandomType::EmNone, "MakeMap") as usize;
        let ghost mine = self.mine_dirs@;
        let ghost pts = line_points((self.rand.sys_random@, self.layers()), num as int, size as int, mine, def as int, ctype);
        let mut s: i32 = 0;
        while s < size
            invariant
                line_points((self.rand.sys_random@, self.layers()), num as int, size - s, mine, def as int, ctype) == pts,
                mine == self.mine_dirs@,
                self.wf(),
                keeps_birth(old(self).bb@, self.bb@),
                moves_into(old(self).bb@, self.bb@, def as int),
                old(self).exclusive() ==> self.exclusive(),
                self.mine_dirs == old(self).mine_dirs,
                len == self.mine_dirs@.len(),
                0 < len <= 0x7000_0000,
                num <= len + (s as int) + 1,
                0 <= s,
                s <= size || size < 0,
            decreases size - s,
        {
            if num >= len {
                num = self.rand.random_range_int(0, len as i32, RandomType::EmNone, "MakeMap") as usize;
            }
            let idx = if num < len {
                num
            } else {
                len - 1
            };
            let key = self.mine_dirs[idx];
            num = num + 1;
            let mut v_keys = [0u32; 8];
            let n_count = Self::get_cpu_neighbor(key as i32, &mut v_keys);
            let mut f_key = key;
            if n_count > 0 {
                let pick = self.rand.random_range_int(0, n_count as i32, RandomType::EmNone, "MakeMap") as usize;
                let pick = if pick < n_count {
                    pick
                } else {
                    n_count - 1
                };
                f_key = v_keys[pick];
            }
            let nw = (f_key / 32) as usize;
            let nbit = 1u32 << (f_key % 32);
            let ghost pre = self.bb@;
            self.set_where_admitted(def, nw, nbit, ctype);
            proof {
                lemma_moves_trans(old(self).bb@, pre, self.bb@, def as int);
            }
            s = s + 1;
        }
        let ghost pre = self.bb@;
        self.cpu_out_line(def, def, w, 4, 0, ctype);
        proof {
            lemma_moves_trans(old(self).bb@, pre, self.bb@, def as int);
        }
    }

    /// The neighbours of cell `key` that `ectype` admits join layer `def`.
    fn spread_cell(&mut self, def: usize, key: usize, ectype: CType)
        requires
            old(self).wf(),
            key < CELLS,
        ensures
            final(self).wf(),
            keeps_birth(old(self).bb@, final(self).bb@),
            moves_into(old(self).bb@, final(self).bb@, def as int),
            old(self).exclusive() ==> final(self).exclusive(),
            final(self).rand == old(self).rand,
            final(self).mine_dirs == old(self).mine_dirs,
            final(self).layers() == spread_v(old(self).layers(), def as int, neighbours_upto(key as int, 8), 0, ectype),
    {
        proof {
            lemma_moves_none(old(self).bb@, self.bb@, def as int);
        }
        let mut n_keys = [0u32; 8];
        let n_count = Self::get_cpu_neighbor(key as i32, &mut n_keys);
        let ghost ns = neighbours_upto(key as int, 8);
        let ghost total = spread_v(old(self).layers(), def as int, ns, 0, ectype);
        let mut d: usize = 0;
        while d < n_count
            invariant
                spread_v(self.layers(), def as int, ns, d as int, ectype) == total,
                n_count == ns.len(),
                forall|i: int| 0 <= i < n_count ==> #[trigger] n_keys@[i] == ns[i],
                d <= n_count <= 8,
                forall|i: int| 0 <= i < n_count ==> #[trigger] n_keys@[i] < CELLS,
                self.wf(),
                keeps_birth(old(self).bb@, self.bb@),
                moves_into(old(self).bb@, self.bb@, def as int),
                old(self).exclusive() ==> self.exclusive(),
                self.rand == old(self).rand,
                self.mine_dirs == old(self).mine_dirs,
            decreases n_count - d,
        {
            let nk = n_keys[d] as usize;
            let nw = nk / 32;
            let n_bit = 1u32 << ((nk % 32) as u32);
            let ghost pre = self.bb@;
            self.set_where_admitted(def, nw, n_bit, ectype);
            proof {
                lemma_moves_trans(old(self).bb@, pre, self.bb@, def as int);
            }
            d = d + 1;
        }
    }

    /// Random cells of layer `def` (see [`Self::step_cpu_random_fills`]),
    /// then `ecount` expansion passes, alternately forwards and backwards over
    /// the cells of the layer as it grows, each cell spreading to its
    /// neighbours that `ectype` admits with probability
    /// `(expand_lv + 1) / 100`.
    #[verifier::spinoff_prover]
    #[verifier::rlimit(40)]
    pub fn cpu_random_and_expand(
        &mut self,
        def: usize,
        rcount: i32,
        ecount: i32,
        expand_lv: i32,
        ctype: CType,
        ectype: CType,
    )
        requires
            old(self).wf(),
            def < 20,
        ensures
            final(self).wf(),
            keeps_birth(old(self).bb@, final(self).bb@),
            moves_into(old(self).bb@, final(self).bb@, def as int),
            old(self).exclusive() ==> final(self).exclusive(),
            final(self).mine_dirs == old(self).mine_dirs,
            (final(self).rand.sys_random@, final(self).layers()) == random_and_expand_result(
                old(self).rand.sys_random@,
                old(self).layers(),
                def as int,
                rcount,
                ecount,
                expand_lv,
                ctype,
                ectype,
            ),
    {
        proof {
            lemma_moves_none(old(self).bb@, self.bb@, def as int);
        }
        let ghost pre = self.bb@;
        self.step_cpu_random_fills(def, rcount, ctype);
        proof {
            lemma_moves_trans(old(self).bb@, pre, self.bb@, def as int);
        }
        let ghost total = random_and_expand_result(
            old(self).rand.sys_random@,
            old(self).layers(),
            def as int,
            rcount,
            ecount,
            expand_lv,
            ctype,
            ectype,
        );
        let mut flag = true;
        let mut e: i32 = 0;
        while e < ecount
            invariant
                expand_passes((self.rand.sys_random@, self.layers()), ecount - e, flag, def as int, expand_lv, ectype)
                    == total,
                def < 20,
                self.wf(),
                keeps_birth(old(self).bb@, self.bb@),
                moves_into(old(self).bb@, self.bb@, def as int),
                old(self).exclusive() ==> self.exclusive(),
                self.mine_dirs == old(self).mine_dirs,
                0 <= e,
                e <= ecount || ecount < 0,
            decreases ecount - e,
        {
            let ghost pass = if flag {
                fwd_words((self.rand.sys_random@, self.layers()), 0, def as int, expand_lv, ectype)
            } else {
                bwd_words((self.rand.sys_random@, self.layers()), WORDS as int, def as int, expand_lv, ectype)
            };
            if flag {
                let mut w: usize = 0;
                while w < WORDS
                    invariant
                        fwd_words((self.rand.sys_random@, self.layers()), w as int, def as int, expand_lv, ectype) == pass,
                        w <= WORDS,
                        def < 20,
                        self.wf(),
                        keeps_birth(old(self).bb@, self.bb@),
                        moves_into(old(self).bb@, self.bb@, def as int),
                        old(self).exclusive() ==> self.exclusive(),
                        self.mine_dirs == old(self).mine_dirs,
                    decreases WORDS - w,
                {
                    let mut b: u32 = 0;
                    while b < 32
                        invariant
                            fwd_words(
                                fwd_bits((self.rand.sys_random@, self.layers()), w as int, b as int, def as int, expand_lv, ectype),
                                w + 1,
                                def as int,
                                expand_lv,
                                ectype,
                            ) == pass,
                            b <= 32,
                            w < WORDS,
                            def < 20,
                            self.wf(),
                            keeps_birth(old(self).bb@, self.bb@),
                            moves_into(old(self).bb@, self.bb@, def as int),
                            old(self).exclusive() ==> self.exclusive(),
                            self.mine_dirs == old(self).mine_dirs,
                        decreases 32 - b,
                    {
                        let key = w * 32 + b as usize;
                        proof {
                            assert(key as int / 32 == w as int && key as int % 32 == b as int);
                        }
                        if (self.bb[def][w] >> b) & 1 == 1 {
                            if self.rand.random_range_int(0, 100, RandomType::EmNone, "MakeMap") <= expand_lv {
                                let ghost pre = self.bb@;
                                self.spread_cell(def, key, ectype);
                                proof {
                                    lemma_moves_trans(old(self).bb@, pre, self.bb@, def as int);
                                }
                            }
                        }
                        b = b + 1;
                    }
                    w = w + 1;
                }
                flag = false;
            } else {
                let mut w: usize = WORDS;
                while w > 0
                    invariant
                        bwd_words((self.rand.sys_random@, self.layers()), w as int, def as int, expand_lv, ectype) == pass,
                        w <= WORDS,
                        def < 20,
                        self.wf(),
                        keeps_birth(old(self).bb@, self.bb@),
                        moves_into(old(self).bb@, self.bb@, def as int),
                        old(self).exclusive() ==> self.exclusive(),
                        self.mine_dirs == old(self).mine_dirs,
                    decreases w,
                {
                    w = w - 1;
                    let mut b: u32 = 32;
                    while b > 0
                        invariant
                            bwd_words(
                                bwd_bits((self.rand.sys_random@, self.layers()), w as int, b as int, def as int, expand_lv, ectype),
                                w as int,
                                def as int,
                                expand_lv,
                                ectype,
                            ) == pass,
                            b <= 32,
                            w < WORDS,
                            def < 20,
                            self.wf(),
                            keeps_birth(old(self).bb@, self.bb@),
                            moves_into(old(self).bb@, self.bb@, def as int),
                            old(self).exclusive() ==> self.exclusive(),
                            self.mine_dirs == old(self).mine_dirs,
                        decreases b,
                    {
                        b = b - 1;
                        let key = w * 32 + b as usize;
                        proof {
                            assert(key as int / 32 == w as int && key as int % 32 == b as int);
                        }
                        if (self.bb[def][w] >> b) & 1 == 1 {
                            if self.rand.random_range_int(0, 100, RandomType::EmNone, "MakeMap") <= expand_lv {
                                let ghost pre = self.bb@;
                                self.spread_cell(def, key, ectype);
                                proof {
                                    lemma_moves_trans(old(self).bb@, pre, self.bb@, def as int);
                                }
                            }
                        }
                    }
                }
                flag = true;
            }
            e = e + 1;
        }
    }

    /// The first step: soil everywhere, three mine paths walked from the
    /// left edge (one step back with probability 1/10, else one step right,
    /// drifting up or down), and one fertile cell near the lower middle.
    pub fn step_1_cpu(&mut self)
        requires
            old(self).wf(),
            old(self).mine_dirs@.len() <= 0x1000_0000,
        ensures
            final(self).wf(),
            keeps_birth(old(self).bb@, final(self).bb@),
            old(self).bare() ==> final(self).exclusive(),
            final(self).mine_dirs@.len() <= old(self).mine_dirs@.len() + 3 * WALK_LIMIT,
            ({
                let paths = mine_paths(old(self).rand.sys_random@, 3);
                let (s4, kx) = range_draw(paths.0, 76, 133);
                let (s5, ky) = range_draw(s4, 114, 133);
                &&& final(self).mine_dirs@ == old(self).mine_dirs@ + paths.1
                &&& final(self).rand.sys_random@ == s5
                &&& forall|t: int, w: int|
                    1 <= t <= 15 && 0 <= w < WORDS ==> #[trigger] final(self).layers()[t][w] == first_step_word(
                        old(self).layers()[t][w],
                        t,
                        w,
                        kx,
                        ky,
                    )
            }),
            forall|t: int| (t == 0 || 16 <= t < 20) ==> #[trigger] final(self).layers()[t] == old(self).layers()[t],
    {
        let mut i: usize = 0;
        while i < WORDS
            invariant
                i <= WORDS,
                self.wf(),
                keeps_birth(old(self).bb@, self.bb@),
                old(self).wf(),
                forall|t: int| 0 <= t < 20 && t != T_SOIL ==> #[trigger] self.bb@[t] == old(self).bb@[t],
                forall|v: int| 0 <= v < i ==> #[trigger] self.bb@[T_SOIL as int]@[v] == 0xFFFF_FFFFu32,
                self.rand == old(self).rand,
                self.mine_dirs == old(self).mine_dirs,
            decreases WORDS - i,
        {
            self.bb[T_SOIL][i] = 0xFFFFFFFF;
            i = i + 1;
        }
        proof {
            if old(self).bare() {
                assert forall|t1: int, t2: int, w: int|
                    1 <= t1 < t2 <= 15 && 0 <= w < WORDS implies #[trigger] self.bb@[t1]@[w]
                        & #[trigger] self.bb@[t2]@[w] == 0 by {
                    assert(self.bb@[t2] == old(self).bb@[t2]);
                    assert(old(self).bb@[t2]@[w] == 0);
                    lemma_and_zero(self.bb@[t1]@[w]);
                }
            }
        }
        let ghost filled = self.bb@;
        let mut path: u32 = 0;
        while path < 3
            invariant
                path <= 3,
                self.wf(),
                keeps_birth(old(self).bb@, self.bb@),
                old(self).bare() ==> self.exclusive(),
                self.mine_dirs@.len() <= old(self).mine_dirs@.len() + path * WALK_LIMIT,
                old(self).mine_dirs@.len() <= 0x1000_0000,
                self.bb@ == filled,
                ({
                    let a = mine_paths(old(self).rand.sys_random@, path as nat);
                    &&& self.rand.sys_random@ == a.0
                    &&& self.mine_dirs@ == old(self).mine_dirs@ + a.1
                }),
            decreases 3 - path,
        {
            let ghost pstate = self.rand.sys_random@;
            let ghost pdirs = self.mine_dirs@;
            let mut i: i32 = 0;
            let mut num = self.rand.random_range_int(0, 192, RandomType::EmNone, "MakeMineDir");
            let num2 = num;
            let _ = self.rand.random_range_int(0, 192, RandomType::EmNone, "MakeMineDir");
            let mut steps: u32 = 0;
            let ghost base = self.mine_dirs@.len();
            let ghost total = path_walk(self.rand.sys_random@, 0, num2 as int, 0, num2 as int);
            proof {
                assert(total == mine_path(pstate));
            }
            while i < 192 && steps < WALK_LIMIT
                invariant
                    self.wf(),
                    keeps_birth(old(self).bb@, self.bb@),
                    old(self).bare() ==> self.exclusive(),
                    steps <= WALK_LIMIT,
                    -(steps as int) <= i <= steps,
                    -3 * (steps as int) <= num <= 192 + 3 * (steps as int),
                    self.mine_dirs@.len() <= base + steps,
                    base <= old(self).mine_dirs@.len() + path * WALK_LIMIT,
                    path < 3,
                    old(self).mine_dirs@.len() <= 0x1000_0000,
                    self.bb@ == filled,
                    ({
                        let cur = path_walk(self.rand.sys_random@, i as int, num as int, steps as nat, num2 as int);
                        &&& total.0 == cur.0
                        &&& pdirs + total.1 == self.mine_dirs@ + cur.1
                    }),
                decreases WALK_LIMIT - steps,
            {
                if self.rand.random_range_int(0, 100, RandomType::EmNone, "MakeMineDir") < 10 {
                    i = i - 1;
                } else {
                    i = i + 1;
                }
                if num2 > 96 {
                    num = num + self.rand.random_range_int(-3, 2, RandomType::EmNone, "MakeMineDir");
                } else {
                    num = num + self.rand.random_range_int(-2, 3, RandomType::EmNone, "MakeMineDir");
                }
                let ghost before = self.mine_dirs@;
                let ghost rest = path_walk(self.rand.sys_random@, i as int, num as int, (steps + 1) as nat, num2 as int);
                if i >= 0 && i < 192 && num >= 0 && num < 192 {
                    let key = num * 192 + i;
                    if key > 0 {
                        self.mine_dirs.push(key as u32);
                        proof {
                            assert(before.push(key as u32) + rest.1 =~= before + (seq![key as u32] + rest.1));
                        }
                    }
                }
                steps = steps + 1;
            }
            proof {
                assert(self.mine_dirs@ + Seq::<u32>::empty() =~= self.mine_dirs@);
                let a = mine_paths(old(self).rand.sys_random@, path as nat);
                assert(mine_paths(old(self).rand.sys_random@, (path + 1) as nat) == (mine_path(a.0).0, a.1 + mine_path(
                    a.0,
                ).1));
                assert(old(self).mine_dirs@ + (a.1 + total.1) =~= (old(self).mine_dirs@ + a.1) + total.1);
            }
            path = path + 1;
        }
        let ghost before_set = self.layers();
        let kx = self.rand.random_range_int(76, 133, RandomType::EmNone, "MakeMap");
        let ky = self.rand.random_range_int(114, 133, RandomType::EmNone, "MakeMap");
        if kx < 192 && ky < 192 {
            self.set_bit(T_FERTILE_SOIL, (ky * 6 + kx / 32) as usize, 1u32 << ((kx % 32) as u32));
        }
        proof {
            assert forall|t: int, w: int| 1 <= t <= 15 && 0 <= w < WORDS implies #[trigger] self.layers()[t][w]
                == first_step_word(old(self).layers()[t][w], t, w, kx as int, ky as int) by {
                if t == T_SOIL {
                    assert(filled[t]@[w] == 0xFFFF_FFFFu32);
                } else {
                    assert(filled[t] == old(self).bb@[t]);
                }
                assert(before_set[t][w] == filled[t]@[w]);
            }
            assert forall|t: int| (t == 0 || 16 <= t < 20) implies #[trigger] self.layers()[t] == old(self).layers()[t] by {
                assert(filled[t] == old(self).bb@[t]);
                assert(self.layers()[t] =~= before_set[t]);
            }
        }
    }

    /// The birth space: the fertile layer, without the cell with key 0.
    pub fn step_2_cpu_a(&mut self)
        requires
            old(self).wf(),
        ensures
            final(self).wf(),
            old(self).exclusive() ==> final(self).exclusive(),
            final(self).rand == old(self).rand,
            final(self).mine_dirs == old(self).mine_dirs,
            forall|w: int|
                0 <= w < WORDS ==> #[trigger] final(self).layers()[T_BORN_SPACE as int][w] == if w == 0 {
                    old(self).layers()[T_FERTILE_SOIL as int][w] & !1u32
                } else {
                    old(self).layers()[T_FERTILE_SOIL as int][w]
                },
            forall|t: int| 0 <= t < 20 && t != T_BORN_SPACE ==> #[trigger] final(self).layers()[t] == old(self).layers()[t],
    {
        let mut i: usize = 0;
        while i < WORDS
            invariant
                i <= WORDS,
                self.wf(),
                old(self).exclusive() ==> self.exclusive(),
                self.rand == old(self).rand,
                self.mine_dirs == old(self).mine_dirs,
                forall|w: int|
                    0 <= w < i ==> #[trigger] self.bb@[T_BORN_SPACE as int]@[w] == if w == 0 {
                        old(self).bb@[T_FERTILE_SOIL as int]@[w] & !1u32
                    } else {
                        old(self).bb@[T_FERTILE_SOIL as int]@[w]
                    },
                forall|w: int| i <= w < WORDS ==> #[trigger] self.bb@[T_BORN_SPACE as int]@[w] == old(self).bb@[T_BORN_SPACE as int]@[w],
                forall|t: int| 0 <= t < 20 && t != T_BORN_SPACE ==> #[trigger] self.bb@[t] == old(self).bb@[t],
                old(self).wf(),
            decreases WORDS - i,
        {
            let mut m = self.bb[T_FERTILE_SOIL][i];
            if i == 0 {
                m = m & !1u32;
            }
            self.bb[T_BORN_SPACE][i] = m;
            i = i + 1;
        }
    }

    /// The fertile cells (without the cell with key 0) become soil, and the
    /// birth line is marked: four runs of 5 to 14 cells on the map's edges
    /// (left, right, top, bottom), starting between rows or columns 57 and
    /// 114.
    #[verifier::spinoff_prover]
    #[verifier::rlimit(40)]
    pub fn step_2_cpu_b(&mut self)
        requires
            old(self).wf(),
        ensures
            final(self).wf(),
            old(self).exclusive() ==> final(self).exclusive(),
            final(self).mine_dirs == old(self).mine_dirs,
            forall|t: int, w: int|
                1 <= t <= 15 && 0 <= w < WORDS ==> #[trigger] final(self).layers()[t][w] == masked_word(
                    old(self).layers()[t][w],
                    t,
                    T_SOIL as int,
                    fertile_cells(old(self).layers(), w),
                ),
            forall|t: int| (t == 0 || t == T_BORN_SPACE || T_TMP_1 <= t < 20) ==> #[trigger] final(self).layers()[t] == old(self).layers()[t],
            forall|w: int|
                0 <= w < WORDS ==> #[trigger] old(self).layers()[T_BORN_LINE as int][w] & !final(self).layers()[T_BORN_LINE as int][w] == 0,
            (final(self).rand.sys_random@, final(self).layers()[T_BORN_LINE as int]) == line_sides(
                (old(self).rand.sys_random@, old(self).layers()[T_BORN_LINE as int]),
                0,
            ),
    {
        let ghost total = line_sides((self.rand.sys_random@, self.layers()[T_BORN_LINE as int]), 0);
        let mut i: usize = 0;
        while i < WORDS
            invariant
                i <= WORDS,
                self.wf(),
                old(self).wf(),
                old(self).exclusive() ==> self.exclusive(),
                self.mine_dirs == old(self).mine_dirs,
                self.rand == old(self).rand,
                forall|t: int, w: int|
                    1 <= t <= 15 && 0 <= w < i ==> #[trigger] self.layers()[t][w] == masked_word(
                        old(self).layers()[t][w],
                        t,
                        T_SOIL as int,
                        fertile_cells(old(self).layers(), w),
                    ),
                forall|t: int, w: int|
                    0 <= t < 20 && 0 <= w < WORDS && (i <= w || t == 0 || t >= 16) ==> #[trigger] self.layers()[t][w]
                        == old(self).layers()[t][w],
            decreases WORDS - i,
        {
            let mut m = self.bb[T_FERTILE_SOIL][i];
            if i == 0 {
                m = m & !1u32;
            }
            assert(self.layers()[T_FERTILE_SOIL as int][i as int] == old(self).layers()[T_FERTILE_SOIL as int][i as int]);
            assert(m == fertile_cells(old(self).layers(), i as int));
            self.set_bit(T_SOIL, i, m);
            i = i + 1;
        }
        let ghost mid = self.bb@;
        let ghost mid_layers = self.layers();
        proof {
            assert forall|t: int| (t == 0 || 16 <= t < 20) implies #[trigger] mid[t]@ =~= old(self).bb@[t]@ by {
                assert forall|w: int| 0 <= w < WORDS implies mid[t]@[w] == old(self).bb@[t]@[w] by {
                    assert(self.layers()[t][w] == old(self).layers()[t][w]);
                }
            }
            assert forall|w: int| 0 <= w < WORDS implies #[trigger] mid[T_BORN_LINE as int]@[w]
                & !self.bb@[T_BORN_LINE as int]@[w] == 0 by {
                lemma_word_moves(mid[T_BORN_LINE as int]@[w], 0, 0, 0);
            }
        }
        proof {
            assert(self.layers()[T_BORN_LINE as int] =~= old(self).layers()[T_BORN_LINE as int]);
        }
        let mut side: i32 = 0;
        while side < 4
            invariant
                line_sides((self.rand.sys_random@, self.layers()[T_BORN_LINE as int]), side as int) == total,
                0 <= side <= 4,
                self.wf(),
                old(self).exclusive() ==> self.exclusive(),
                self.mine_dirs == old(self).mine_dirs,
                forall|t: int| 0 <= t < 20 && t != T_BORN_LINE ==> #[trigger] self.bb@[t] == mid[t],
                forall|w: int| 0 <= w < WORDS ==> #[trigger] mid[T_BORN_LINE as int]@[w] & !self.bb@[T_BORN_LINE as int]@[w] == 0,
            decreases 4 - side,
        {
            let num2 = self.rand.random_range_int(57, 115, RandomType::EmNone, "MakeMap");
            let ghost run = line_run((self.rand.sys_random@, self.layers()[T_BORN_LINE as int]), side as int, num2 as int, 0);
            let mut j: i32 = 0;
            loop
                invariant_except_break
                    line_run((self.rand.sys_random@, self.layers()[T_BORN_LINE as int]), side as int, num2 as int, j as int) == run,
                invariant
                    0 <= side < 4,
                    57 <= num2 <= 115,
                    0 <= j <= 15,
                    self.wf(),
                    old(self).exclusive() ==> self.exclusive(),
                    self.mine_dirs == old(self).mine_dirs,
                    forall|t: int| 0 <= t < 20 && t != T_BORN_LINE ==> #[trigger] self.bb@[t] == mid[t],
                    forall|w: int| 0 <= w < WORDS ==> #[trigger] mid[T_BORN_LINE as int]@[w] & !self.bb@[T_BORN_LINE as int]@[w] == 0,
                ensures
                    (self.rand.sys_random@, self.layers()[T_BORN_LINE as int]) == run,
                    self.wf(),
                    old(self).exclusive() ==> self.exclusive(),
                    self.mine_dirs == old(self).mine_dirs,
                    forall|t: int| 0 <= t < 20 && t != T_BORN_LINE ==> #[trigger] self.bb@[t] == mid[t],
                    forall|w: int| 0 <= w < WORDS ==> #[trigger] mid[T_BORN_LINE as int]@[w] & !self.bb@[T_BORN_LINE as int]@[w] == 0,
                decreases 15 - j,
            {
                let v = self.rand.random_range_int(5, 15, RandomType::EmNone, "MakeMap");
                if !(j < v) {
                    break;
                }
                let ny_nx = num2 + j;
                let k: i32 = if ny_nx < 192 {
                    if side == 0 {
                        ny_nx * 192
                    } else if side == 1 {
                        ny_nx * 192 + 191
                    } else if side == 2 {
                        ny_nx
                    } else {
                        191 * 192 + ny_nx
                    }
                } else {
                    -1
                };
                if k >= 0 && k < CELLS {
                    let nw = (k / 32) as usize;
                    let bit = 1u32 << ((k % 32) as u32);
                    let ghost prev = self.bb@[T_BORN_LINE as int]@;
                    let nv = self.bb[T_BORN_LINE][nw] | bit;
                    self.bb[T_BORN_LINE][nw] = nv;
                    proof {
                        assert(self.layers()[T_BORN_LINE as int] =~= prev.update(nw as int, prev[nw as int] | bit));
                        assert forall|w: int| 0 <= w < WORDS implies #[trigger] mid[T_BORN_LINE as int]@[w]
                            & !self.bb@[T_BORN_LINE as int]@[w] == 0 by {
                            let x = mid[T_BORN_LINE as int]@[w];
                            let y = prev[w];
                            let z = self.bb@[T_BORN_LINE as int]@[w];
                            lemma_word_moves(y, 0, 0, bit);
                            lemma_word_moves(x, y, z, 0);
                        }
                    }
                }
                j = j + 1;
            }
            side = side + 1;
        }
        proof {
            assert(mid[T_BORN_LINE as int]@ == old(self).bb@[T_BORN_LINE as int]@);
            assert forall|t: int, w: int| 1 <= t <= 15 && 0 <= w < WORDS implies #[trigger] self.layers()[t][w]
                == masked_word(old(self).layers()[t][w], t, T_SOIL as int, fertile_cells(old(self).layers(), w)) by {
                assert(self.bb@[t] == mid[t]);
                assert(mid_layers[t][w] == masked_word(old(self).layers()[t][w], t, T_SOIL as int, fertile_cells(old(self).layers(), w)));
            }
            assert forall|t: int| (t == 0 || t == T_BORN_SPACE || T_TMP_1 <= t < 20) implies #[trigger] self.layers()[t]
                == old(self).layers()[t] by {
                assert(self.bb@[t] == mid[t]);
            }
        }
    }

    /// Ore and rock lines along the mine paths: iron lines, copper and
    /// silver lines, and grey rock or marble lines.
    #[verifier::spinoff_prover]
    #[verifier::rlimit(40)]
    pub fn step_6_pre_rock_opt(&mut self)
        requires
            old(self).wf(),
            old(self).mine_dirs@.len() <= 0x7000_0000,
        ensures
            final(self).wf(),
            keeps_birth(old(self).bb@, final(self).bb@),
            old(self).exclusive() ==> final(self).exclusive(),
            final(self).mine_dirs == old(self).mine_dirs,
            (final(self).rand.sys_random@, final(self).layers()) == pre_rock_result(
                (old(self).rand.sys_random@, old(self).layers()),
                old(self).mine_dirs@,
            ),
    {
        let ghost mine = self.mine_dirs@;
        let ghost s1 = iron_lines((self.rand.sys_random@, self.layers()), 0, mine);
        let ss: i32 = 3;
        let mut i1: i32 = 0;
        loop
            invariant_except_break
                iron_lines((self.rand.sys_random@, self.layers()), i1 as int, mine) == s1,
            invariant
                0 <= i1 <= 5,
                ss == 3,
                mine == self.mine_dirs@,
                self.wf(),
                keeps_birth(old(self).bb@, self.bb@),
                old(self).exclusive() ==> self.exclusive(),
                self.mine_dirs == old(self).mine_dirs,
                old(self).mine_dirs@.len() <= 0x7000_0000,
            ensures
                (self.rand.sys_random@, self.layers()) == s1,
            decreases 5 - i1,
        {
            let v = self.rand.random_range_int(ss, ss + 2, RandomType::EmNone, "MakeMap");
            if !(i1 < v) {
                break;
            }
            let arg1 = self.rand.random_range_int(0, ss, RandomType::EmNone, "MakeMap");
            let arg2 = self.rand.random_range_int(5 + ss, 10 + ss, RandomType::EmNone, "MakeMap");
            self.cpu_random_line_from_mine_dir(arg1, arg2, T_IRON_ORE, CType::NoBorn);
            i1 = i1 + 1;
        }
        let mut kind: i32 = 0;
        while kind < 2
            invariant
                0 <= kind <= 2,
                ss == 3,
                mine == self.mine_dirs@,
                kind == 0 ==> (self.rand.sys_random@, self.layers()) == s1,
                kind == 1 ==> (self.rand.sys_random@, self.layers()) == ore_lines(s1, 0, T_COPPER_ORE as int, mine),
                kind == 2 ==> (self.rand.sys_random@, self.layers()) == ore_lines(
                    ore_lines(s1, 0, T_COPPER_ORE as int, mine),
                    0,
                    T_SILVER_ORE as int,
                    mine,
                ),
                self.wf(),
                keeps_birth(old(self).bb@, self.bb@),
                old(self).exclusive() ==> self.exclusive(),
                self.mine_dirs == old(self).mine_dirs,
                old(self).mine_dirs@.len() <= 0x7000_0000,
            decreases 2 - kind,
        {
            let t = if kind == 0 {
                T_COPPER_ORE
            } else {
                T_SILVER_ORE
            };
            let ghost total = ore_lines((self.rand.sys_random@, self.layers()), 0, t as int, mine);
            let mut i2: i32 = 0;
            while i2 < 1 + ss
                invariant
                    ore_lines((self.rand.sys_random@, self.layers()), i2 as int, t as int, mine) == total,
                    0 <= i2 <= 4,
                    ss == 3,
                    t < 20,
                    mine == self.mine_dirs@,
                    self.wf(),
                    keeps_birth(old(self).bb@, self.bb@),
                    old(self).exclusive() ==> self.exclusive(),
                    self.mine_dirs == old(self).mine_dirs,
                    old(self).mine_dirs@.len() <= 0x7000_0000,
                decreases 4 - i2,
            {
                let arg1 = self.rand.random_range_int(0, 1, RandomType::EmNone, "MakeMap");
                let arg2 = self.rand.random_range_int(3 + ss, 5 + ss, RandomType::EmNone, "MakeMap");
                self.cpu_random_line_from_mine_dir(arg1, arg2, t, CType::NoBorn);
                i2 = i2 + 1;
            }
            kind = kind + 1;
        }
        let ghost s3 = (self.rand.sys_random@, self.layers());
        let ghost s4 = rock_lines(s3, 0, mine);
        let mut i4: i32 = 0;
        loop
            invariant_except_break
                rock_lines((self.rand.sys_random@, self.layers()), i4 as int, mine) == s4,
            invariant
                0 <= i4 <= 3,
                mine == self.mine_dirs@,
                self.wf(),
                keeps_birth(old(self).bb@, self.bb@),
                old(self).exclusive() ==> self.exclusive(),
                self.mine_dirs == old(self).mine_dirs,
                old(self).mine_dirs@.len() <= 0x7000_0000,
            ensures
                (self.rand.sys_random@, self.layers()) == s4,
            decreases 3 - i4,
        {
            let v = self.rand.random_range_int(1, 3, RandomType::EmNone, "MakeMap");
            if !(i4 < v) {
                break;
            }
            let w = self.rand.random_range_int(0, 1, RandomType::EmNone, "MakeMap");
            let s = self.rand.random_range_int(8, 16, RandomType::EmNone, "MakeMap");
            let st = if self.rand.random_range_int(1, 3, RandomType::EmNone, "MakeMap") == 1 {
                T_ROCK_GRAY
            } else {
                T_ROCK_MARBLE
            };
            self.cpu_random_line_from_mine_dir(w, s, st, CType::NoBorn);
            i4 = i4 + 1;
        }
    }

    /// Stone land around rocks and ores, then around stone land itself.
    pub fn step_7_cpu(&mut self)
        requires
            old(self).wf(),
        ensures
            final(self).wf(),
            keeps_birth(old(self).bb@, final(self).bb@),
            moves_into(old(self).bb@, final(self).bb@, T_STONE_LAND as int),
            old(self).exclusive() ==> final(self).exclusive(),
            final(self).mine_dirs == old(self).mine_dirs,
            ({
                let r1 = out_line_result(old(self).rand.sys_random@, old(self).layers(), T_ROCK_BROWN as int, T_STONE_LAND as int, 1, 30, 0, CType::CheckCon2);
                let r2 = out_line_result(r1.0, r1.1, T_IRON_ORE as int, T_STONE_LAND as int, 1, 30, 0, CType::CheckCon2);
                let r3 = out_line_result(r2.0, r2.1, T_SILVER_ORE as int, T_STONE_LAND as int, 1, 30, 0, CType::CheckCon2);
                let r4 = out_line_result(r3.0, r3.1, T_COPPER_ORE as int, T_STONE_LAND as int, 1, 30, 0, CType::CheckCon2);
                let r5 = out_line_result(r4.0, r4.1, T_ROCK_BROWN as int, T_STONE_LAND as int, 1, 30, 0, CType::CheckCon2);
                let r6 = out_line_result(r5.0, r5.1, T_STONE_LAND as int, T_STONE_LAND as int, 1, 5, 0, CType::CheckCon);
                (final(self).rand.sys_random@, final(self).layers()) == r6
            }),
    {
        proof {
            lemma_moves_none(old(self).bb@, self.bb@, T_STONE_LAND as int);
        }
        let ghost pre = self.bb@;
        self.cpu_out_line(T_ROCK_BROWN, T_STONE_LAND, 1, 30, 0, CType::CheckCon2);
        proof {
            lemma_moves_trans(old(self).bb@, pre, self.bb@, T_STONE_LAND as int);
        }
        let ghost pre = self.bb@;
        self.cpu_out_line(T_IRON_ORE, T_STONE_LAND, 1, 30, 0, CType::CheckCon2);
        proof {
            lemma_moves_trans(old(self).bb@, pre, self.bb@, T_STONE_LAND as int);
        }
        let ghost pre = self.bb@;
        self.cpu_out_line(T_SILVER_ORE, T_STONE_LAND, 1, 30, 0, CType::CheckCon2);
        proof {
            lemma_moves_trans(old(self).bb@, pre, self.bb@, T_STONE_LAND as int);
        }
        let ghost pre = self.bb@;
        self.cpu_out_line(T_COPPER_ORE, T_STONE_LAND, 1, 30, 0, CType::CheckCon2);
        proof {
            lemma_moves_trans(old(self).bb@, pre, self.bb@, T_STONE_LAND as int);
        }
        let ghost pre = self.bb@;
        self.cpu_out_line(T_ROCK_BROWN, T_STONE_LAND, 1, 30, 0, CType::CheckCon2);
        proof {
            lemma_moves_trans(old(self).bb@, pre, self.bb@, T_STONE_LAND as int);
        }
        let ghost pre = self.bb@;
        self.cpu_out_line(T_STONE_LAND, T_STONE_LAND, 1, 5, 0, CType::CheckCon);
        proof {
            lemma_moves_trans(old(self).bb@, pre, self.bb@, T_STONE_LAND as int);
        }
    }

    /// The admitted cells of class `ctype`, word by word, for the graphics
    /// card.
    pub fn ctype_masks(&self, ctype: CType) -> (r: Vec<u32>)
        requires
            self.wf(),
        ensures
            r@.len() == WORDS,
            forall|w: int| 0 <= w < WORDS ==> #[trigger] r@[w] == ctype_base(self.layers(), w, ctype),
    {
        let mut r: Vec<u32> = Vec::new();
        let mut w: usize = 0;
        while w < WORDS
            invariant
                w <= WORDS,
                self.wf(),
                r@.len() == w,
                forall|v: int| 0 <= v < w ==> #[trigger] r@[v] == ctype_base(self.layers(), v, ctype),
            decreases WORDS - w,
        {
            r.push(self.get_ctype_mask(w, ctype));
            w = w + 1;
        }
        r
    }

    /// Merges a layer that the graphics card returned: in each word, the
    /// cells of `words` that layer `target` lacks go to it and leave every
    /// other terrain layer (1 to 15).
    pub fn merge_readback(&mut self, target: usize, words: &[u32])
        requires
            old(self).wf(),
            target < 20,
            words@.len() == WORDS,
        ensures
            final(self).wf(),
            keeps_birth(old(self).bb@, final(self).bb@),
            old(self).exclusive() ==> final(self).exclusive(),
            final(self).rand == old(self).rand,
            final(self).mine_dirs == old(self).mine_dirs,
            forall|t: int, w: int|
                1 <= t <= 15 && 0 <= w < WORDS ==> #[trigger] final(self).layers()[t][w] == masked_word(
                    old(self).layers()[t][w],
                    t,
                    target as int,
                    words@[w] & !old(self).layers()[target as int][w],
                ),
            forall|t: int, w: int|
                (t == 0 || 16 <= t < 20) && 0 <= w < WORDS ==> #[trigger] final(self).layers()[t][w] == old(self).layers()[t][w],
    {
        let ghost start = self.layers();
        let mut w: usize = 0;
        while w < WORDS
            invariant
                w <= WORDS,
                target < 20,
                words@.len() == WORDS,
                self.wf(),
                keeps_birth(old(self).bb@, self.bb@),
                old(self).exclusive() ==> self.exclusive(),
                start == old(self).layers(),
                old(self).wf(),
                self.rand == old(self).rand,
                self.mine_dirs == old(self).mine_dirs,
                forall|t: int, v: int|
                    1 <= t <= 15 && 0 <= v < w ==> #[trigger] self.layers()[t][v] == masked_word(
                        start[t][v],
                        t,
                        target as int,
                        words@[v] & !start[target as int][v],
                    ),
                forall|t: int, v: int|
                    0 <= t < 20 && 0 <= v < WORDS && (w <= v || t == 0 || t >= 16) ==> #[trigger] self.layers()[t][v] == start[t][v],
            decreases WORDS - w,
        {
            assert(self.layers()[target as int][w as int] == start[target as int][w as int]);
            let newly_added = words[w] & !self.bb[target][w];
            assert(newly_added == words@[w as int] & !start[target as int][w as int]);
            if newly_added != 0 {
                self.apply_readback_word(target, w, newly_added);
            } else {
                proof {
                    assert forall|t: int| 1 <= t <= 15 implies #[trigger] masked_word(start[t][w as int], t, target as int, newly_added)
                        == start[t][w as int] by {
                        lemma_no_mask(start[t][w as int]);
                    }
                }
            }
            w = w + 1;
        }
    }

    /// The work before the first pass on the graphics card: the first step,
    /// then the fertile layer widened twice (radius 2 always, radius 5 with
    /// probability 1/5 per cell).
    pub fn before_fertile_pass(&mut self)
        requires
            old(self).wf(),
            old(self).mine_dirs@.len() <= 0x1000_0000,
        ensures
            final(self).wf(),
            keeps_birth(old(self).bb@, final(self).bb@),
            old(self).bare() ==> final(self).exclusive(),
            final(self).mine_dirs@.len() <= old(self).mine_dirs@.len() + 3 * WALK_LIMIT,
            ({
                let paths = mine_paths(old(self).rand.sys_random@, 3);
                let (s4, kx) = range_draw(paths.0, 76, 133);
                let (s5, ky) = range_draw(s4, 114, 133);
                let r1 = out_line_result(
                    s5,
                    first_step_layers(old(self).layers(), kx, ky),
                    T_FERTILE_SOIL as int,
                    T_FERTILE_SOIL as int,
                    2,
                    100,
                    0,
                    CType::AllTrue,
                );
                let r2 = out_line_result(r1.0, r1.1, T_FERTILE_SOIL as int, T_FERTILE_SOIL as int, 5, 20, 0, CType::AllTrue);
                &&& final(self).mine_dirs@ == old(self).mine_dirs@ + paths.1
                &&& (final(self).rand.sys_random@, final(self).layers()) == r2
            }),
    {
        self.step_1_cpu();
        proof {
            let paths = mine_paths(old(self).rand.sys_random@, 3);
            let (s4, kx) = range_draw(paths.0, 76, 133);
            let (s5, ky) = range_draw(s4, 114, 133);
            let fl = first_step_layers(old(self).layers(), kx, ky);
            assert forall|t: int| 0 <= t < 20 implies #[trigger] self.layers()[t] == fl[t] by {
                assert(self.layers()[t] =~= fl[t]);
            }
            assert(self.layers() =~= fl);
        }
        self.cpu_out_line(T_FERTILE_SOIL, T_FERTILE_SOIL, 2, 100, 0, CType::AllTrue);
        self.cpu_out_line(T_FERTILE_SOIL, T_FERTILE_SOIL, 5, 20, 0, CType::AllTrue);
    }

    /// The work between the fertile pass and the shallow-water pass: birth
    /// space and birth line, the fertile layer widened and grown, then deep
    /// water grown and ringed by water and shallow water.
    #[verifier::spinoff_prover]
    #[verifier::rlimit(40)]
    pub fn before_water_pass(&mut self)
        requires
            old(self).wf(),
        ensures
            final(self).wf(),
            old(self).exclusive() ==> final(self).exclusive(),
            final(self).mine_dirs == old(self).mine_dirs,
            (final(self).rand.sys_random@, final(self).layers()) == before_water_result(
                (old(self).rand.sys_random@, old(self).layers()),
            ),
    {
        let ss: i32 = 3;
        self.step_2_cpu_a();
        proof {
            let bs = born_space_layers(old(self).layers());
            assert forall|t: int| 0 <= t < 20 implies #[trigger] self.layers()[t] == bs[t] by {
                assert(self.layers()[t] =~= bs[t]);
            }
            assert(self.layers() =~= bs);
        }
        self.cpu_out_line(T_FERTILE_SOIL, T_FERTILE_SOIL, 2, 100, 0, CType::AllTrue);
        let ghost l1 = self.layers();
        self.step_2_cpu_b();
        proof {
            let sl = soil_layers(l1, self.layers()[T_BORN_LINE as int]);
            assert forall|t: int| 0 <= t < 20 implies #[trigger] self.layers()[t] == sl[t] by {
                assert(self.layers()[t] =~= sl[t]);
            }
            assert(self.layers() =~= sl);
        }
        self.cpu_random_and_expand(T_FERTILE_SOIL, 20, 4, 30, CType::AllTrue, CType::AllTrue);
        self.cpu_random_and_expand(T_D_DEPTH_WATER, ss - 1, 2 * ss - 1, 13 + 6 * ss, CType::NoBorn, CType::NoBorn);
        self.cpu_out_line(T_D_DEPTH_WATER, T_DEPTH_WATER, 1, 100, 0, CType::CheckCon);
        self.cpu_out_line(T_DEPTH_WATER, T_DEPTH_WATER, 1, 10 + 6 * ss, 0, CType::NoBorn);
        self.cpu_out_line(T_DEPTH_WATER, T_SHALLOW_WATER, 4, 50 + 12 * ss, 0, CType::CheckCon);
    }

    /// The work between the shallow-water pass and the rock pass: shallow
    /// water grown, mud around it, the ore and rock lines of
    /// [`Self::step_6_pre_rock_opt`], grey rock and marble grown (one or two
    /// of them), iron, copper, silver and brown rock grown, and brown rock
    /// around every rock and ore.
    #[verifier::spinoff_prover]
    #[verifier::rlimit(60)]
    pub fn before_rock_pass(&mut self)
        requires
            old(self).wf(),
            old(self).mine_dirs@.len() <= 0x7000_0000,
        ensures
            final(self).wf(),
            keeps_birth(old(self).bb@, final(self).bb@),
            old(self).exclusive() ==> final(self).exclusive(),
            final(self).mine_dirs == old(self).mine_dirs,
            (final(self).rand.sys_random@, final(self).layers()) == before_rock_result(
                (old(self).rand.sys_random@, old(self).layers()),
                old(self).mine_dirs@,
            ),
    {
        let ghost mine = self.mine_dirs@;
        let ss: i32 = 3;
        self.cpu_random_and_expand(T_SHALLOW_WATER, 3, 3, 20, CType::NoBorn, CType::NoBorn);
        self.cpu_out_line(T_SHALLOW_WATER, T_MUD, 4, 90, 0, CType::CheckCon);
        self.step_6_pre_rock_opt();
        let ghost s3 = rock_growth((self.rand.sys_random@, self.layers()), 1);
        let mut m: i32 = 1;
        loop
            invariant_except_break
                rock_growth((self.rand.sys_random@, self.layers()), m as int) == s3,
            invariant
                1 <= m <= 3,
                ss == 3,
                mine == self.mine_dirs@,
                self.wf(),
                keeps_birth(old(self).bb@, self.bb@),
                old(self).exclusive() ==> self.exclusive(),
                self.mine_dirs == old(self).mine_dirs,
            ensures
                (self.rand.sys_random@, self.layers()) == s3,
            decreases 3 - m,
        {
            let v = self.rand.random_range_int(1, 3, RandomType::EmNone, "MakeMap");
            if !(m < v) {
                break;
            }
            let st = if m == 1 {
                T_ROCK_GRAY
            } else {
                T_ROCK_MARBLE
            };
            let random_count = self.rand.random_range_int(0, 3, RandomType::EmNone, "MakeMap");
            self.cpu_random_and_expand(st, random_count, 3, 15 + 3 * ss, CType::NoBorn, CType::NoBorn);
            m = m + 1;
        }
        let iron_1 = self.rand.random_range_int(0, ss + 1, RandomType::EmNone, "MakeMap");
        let iron_2 = self.rand.random_range_int(1, ss + 1, RandomType::EmNone, "MakeMap");
        let iron_3 = self.rand.random_range_int(1, 4, RandomType::EmNone, "MakeMap");
        self.cpu_random_and_expand(T_IRON_ORE, iron_1, iron_2, 13 + ss * iron_3, CType::NoBorn, CType::NoBorn);
        let cu_1 = self.rand.random_range_int(0, ss + 1, RandomType::EmNone, "MakeMap");
        let cu_2 = self.rand.random_range_int(1, ss + 1, RandomType::EmNone, "MakeMap");
        let cu_3 = self.rand.random_range_int(1, 4, RandomType::EmNone, "MakeMap");
        self.cpu_random_and_expand(T_COPPER_ORE, cu_1, cu_2, 13 + ss * cu_3, CType::NoBorn, CType::NoBorn);
        let ag_1 = self.rand.random_range_int(0, ss + 1, RandomType::EmNone, "MakeMap");
        let ag_2 = self.rand.random_range_int(1, ss + 1, RandomType::EmNone, "MakeMap");
        let ag_3 = self.rand.random_range_int(1, 4, RandomType::EmNone, "MakeMap");
        self.cpu_random_and_expand(T_SILVER_ORE, ag_1, ag_2, 13 + ss * ag_3, CType::NoBorn, CType::NoBorn);
        let rb_1 = self.rand.random_range_int(2, ss + 1, RandomType::EmNone, "MakeMap");
        self.cpu_random_and_expand(T_ROCK_BROWN, rb_1, ss + 1, 13 + ss * 4, CType::NoBorn, CType::NoBorn);
        self.cpu_out_line(T_ROCK_GRAY, T_ROCK_BROWN, 1, 50 + 12 * ss, 0, CType::NoBorn);
        self.cpu_out_line(T_ROCK_MARBLE, T_ROCK_BROWN, 1, 50 + 12 * ss, 0, CType::NoBorn);
        self.cpu_out_line(T_IRON_ORE, T_ROCK_BROWN, 1, 50 + 12 * ss, 0, CType::NoBorn);
        self.cpu_out_line(T_COPPER_ORE, T_ROCK_BROWN, 1, 50 + 12 * ss, 0, CType::NoBorn);
        self.cpu_out_line(T_SILVER_ORE, T_ROCK_BROWN, 1, 50 + 12 * ss, 0, CType::NoBorn);
        let arg_iron = self.rand.random_range_int(1, 2, RandomType::EmNone, "MakeMap");
        self.cpu_out_line(T_IRON_ORE, T_ROCK_BROWN, arg_iron, 8 + 8 * ss, 0, CType::NoBorn);
        let arg_cu = self.rand.random_range_int(1, 2, RandomType::EmNone, "MakeMap");
        self.cpu_out_line(T_COPPER_ORE, T_ROCK_BROWN, arg_cu, 8 + 8 * ss, 0, CType::NoBorn);
        let arg_ag = self.rand.random_range_int(1, 2, RandomType::EmNone, "MakeMap");
        self.cpu_out_line(T_SILVER_ORE, T_ROCK_BROWN, arg_ag, 8 + 8 * ss, 0, CType::NoBorn);
        let ghost s8 = (self.rand.sys_random@, self.layers());
        let mut j: i32 = 0;
        while j < 3
            invariant
                rock_rings((self.rand.sys_random@, self.layers()), j as int) == rock_rings(s8, 0),
                0 <= j <= 3,
                ss == 3,
                self.wf(),
                keeps_birth(old(self).bb@, self.bb@),
                old(self).exclusive() ==> self.exclusive(),
                self.mine_dirs == old(self).mine_dirs,
            decreases 3 - j,
        {
            let t = if j == 1 {
                T_ROCK_GRAY
            } else if j == 2 {
                T_ROCK_MARBLE
            } else {
                T_ROCK_BROWN
            };
            let arg_r = self.rand.random_range_int(1, ss, RandomType::EmNone, "MakeMap");
            self.cpu_out_line(t, T_ROCK_BROWN, arg_r, 8 + 8 * ss, 0, CType::NoBorn);
            j = j + 1;
        }
    }

    /// The work after the stone-land pass: spirit soil grown on soil,
    /// fertile soil and spirit soil.
    pub fn after_stone_pass(&mut self)
        requires
            old(self).wf(),
        ensures
            final(self).wf(),
            keeps_birth(old(self).bb@, final(self).bb@),
            moves_into(old(self).bb@, final(self).bb@, T_LING_SOIL as int),
            old(self).exclusive() ==> final(self).exclusive(),
            final(self).mine_dirs == old(self).mine_dirs,
            (final(self).rand.sys_random@, final(self).layers()) == random_and_expand_result(
                old(self).rand.sys_random@,
                old(self).layers(),
                T_LING_SOIL as int,
                3,
                6,
                33,
                CType::CheckCon,
                CType::CheckCon,
            ),
    {
        proof {
            lemma_moves_none(old(self).bb@, self.bb@, T_LING_SOIL as int);
        }
        let ghost pre = self.bb@;
        self.cpu_random_and_expand(T_LING_SOIL, 3, 6, 33, CType::CheckCon, CType::CheckCon);
        proof {
            lemma_moves_trans(old(self).bb@, pre, self.bb@, T_LING_SOIL as int);
        }
    }
}

} // verus!
