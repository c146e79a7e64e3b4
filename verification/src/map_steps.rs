//! The map generator's steps as functions of the generator's state and the
//! bit boards, on a map of `width` by `height` cells (see
//! [`crate::map_maker::MapMaker`]); [`make_map_result`] composes them into
//! the whole map of one run.
use vstd::prelude::*;
use crate::map_maker::{
    born_sides, bit_at, ctype_mask, full_row_word, masked_word, mine_walk, mm_out_line_result, neighbor_list,
    safe_key, smoothing_bit, terrain_at, words_of, Terrain, CType, T_BORN_LINE, T_BORN_SPACE, T_COPPER_ORE, T_DEPTH_WATER, T_D_DEPTH_WATER,
    T_FERTILE_SOIL, T_IRON_ORE, T_LING_SOIL, T_MUD, T_ROCK_BROWN, T_ROCK_GRAY, T_ROCK_MARBLE, T_SHALLOW_WATER,
    T_SILVER_ORE, T_SOIL, T_STONE_LAND, T_TMP_1, T_TMP_2,
};
use crate::rng::{range_draw, seeded_state, DotNetState};
use crate::sampling::f32_product;
use crate::shadow::set_bit_v;

verus! {

/// The generator's state and the bit boards.
pub type MState = (DotNetState, Seq<Seq<u32>>);

/// Words per row of a map `width` cells wide.
pub open spec fn mm_stride(width: int) -> int {
    (width + 31) / 32
}

/// The 32 bits of `x` are `f(0)` to `f(31)`.
pub open spec fn bits_are(x: u32, f: spec_fn(u32) -> u32) -> bool {
    forall|i: u32| i < 32 ==> #[trigger] bit_at(x, i) == f(i)
}

/// The word whose 32 bits are `f(0)` to `f(31)` (each 0 or 1).
pub open spec fn word_of_bits(f: spec_fn(u32) -> u32) -> u32 {
    choose|x: u32| #[trigger] bits_are(x, f)
}

/// A word is the word of its bits.
pub proof fn lemma_word_of_bits(x: u32, f: spec_fn(u32) -> u32)
    requires
        forall|i: u32| i < 32 ==> #[trigger] bit_at(x, i) == f(i),
    ensures
        word_of_bits(f) == x,
{
    assert(bits_are(x, f));
    let y = word_of_bits(f);
    assert(bits_are(y, f));
    assert(bit_at(x, 0) == bit_at(y, 0));
    assert(bit_at(x, 1) == bit_at(y, 1));
    assert(bit_at(x, 2) == bit_at(y, 2));
    assert(bit_at(x, 3) == bit_at(y, 3));
    assert(bit_at(x, 4) == bit_at(y, 4));
    assert(bit_at(x, 5) == bit_at(y, 5));
    assert(bit_at(x, 6) == bit_at(y, 6));
    assert(bit_at(x, 7) == bit_at(y, 7));
    assert(bit_at(x, 8) == bit_at(y, 8));
    assert(bit_at(x, 9) == bit_at(y, 9));
    assert(bit_at(x, 10) == bit_at(y, 10));
    assert(bit_at(x, 11) == bit_at(y, 11));
    assert(bit_at(x, 12) == bit_at(y, 12));
    assert(bit_at(x, 13) == bit_at(y, 13));
    assert(bit_at(x, 14) == bit_at(y, 14));
    assert(bit_at(x, 15) == bit_at(y, 15));
    assert(bit_at(x, 16) == bit_at(y, 16));
    assert(bit_at(x, 17) == bit_at(y, 17));
    assert(bit_at(x, 18) == bit_at(y, 18));
    assert(bit_at(x, 19) == bit_at(y, 19));
    assert(bit_at(x, 20) == bit_at(y, 20));
    assert(bit_at(x, 21) == bit_at(y, 21));
    assert(bit_at(x, 22) == bit_at(y, 22));
    assert(bit_at(x, 23) == bit_at(y, 23));
    assert(bit_at(x, 24) == bit_at(y, 24));
    assert(bit_at(x, 25) == bit_at(y, 25));
    assert(bit_at(x, 26) == bit_at(y, 26));
    assert(bit_at(x, 27) == bit_at(y, 27));
    assert(bit_at(x, 28) == bit_at(y, 28));
    assert(bit_at(x, 29) == bit_at(y, 29));
    assert(bit_at(x, 30) == bit_at(y, 30));
    assert(bit_at(x, 31) == bit_at(y, 31));
    assert(x == y) by (bit_vector)
        requires
            (x >> 0u32) & 1u32 == (y >> 0u32) & 1u32,
            (x >> 1u32) & 1u32 == (y >> 1u32) & 1u32,
            (x >> 2u32) & 1u32 == (y >> 2u32) & 1u32,
            (x >> 3u32) & 1u32 == (y >> 3u32) & 1u32,
            (x >> 4u32) & 1u32 == (y >> 4u32) & 1u32,
            (x >> 5u32) & 1u32 == (y >> 5u32) & 1u32,
            (x >> 6u32) & 1u32 == (y >> 6u32) & 1u32,
            (x >> 7u32) & 1u32 == (y >> 7u32) & 1u32,
            (x >> 8u32) & 1u32 == (y >> 8u32) & 1u32,
            (x >> 9u32) & 1u32 == (y >> 9u32) & 1u32,
            (x >> 10u32) & 1u32 == (y >> 10u32) & 1u32,
            (x >> 11u32) & 1u32 == (y >> 11u32) & 1u32,
            (x >> 12u32) & 1u32 == (y >> 12u32) & 1u32,
            (x >> 13u32) & 1u32 == (y >> 13u32) & 1u32,
            (x >> 14u32) & 1u32 == (y >> 14u32) & 1u32,
            (x >> 15u32) & 1u32 == (y >> 15u32) & 1u32,
            (x >> 16u32) & 1u32 == (y >> 16u32) & 1u32,
            (x >> 17u32) & 1u32 == (y >> 17u32) & 1u32,
            (x >> 18u32) & 1u32 == (y >> 18u32) & 1u32,
            (x >> 19u32) & 1u32 == (y >> 19u32) & 1u32,
            (x >> 20u32) & 1u32 == (y >> 20u32) & 1u32,
            (x >> 21u32) & 1u32 == (y >> 21u32) & 1u32,
            (x >> 22u32) & 1u32 == (y >> 22u32) & 1u32,
            (x >> 23u32) & 1u32 == (y >> 23u32) & 1u32,
            (x >> 24u32) & 1u32 == (y >> 24u32) & 1u32,
            (x >> 25u32) & 1u32 == (y >> 25u32) & 1u32,
            (x >> 26u32) & 1u32 == (y >> 26u32) & 1u32,
            (x >> 27u32) & 1u32 == (y >> 27u32) & 1u32,
            (x >> 28u32) & 1u32 == (y >> 28u32) & 1u32,
            (x >> 29u32) & 1u32 == (y >> 29u32) & 1u32,
            (x >> 30u32) & 1u32 == (y >> 30u32) & 1u32,
            (x >> 31u32) & 1u32 == (y >> 31u32) & 1u32,
    ;
}

/// Word `w` of what one round of smoothing adds to layer `def` (see
/// [`crate::map_maker::smoothing_bit`]).
pub open spec fn smooth_word(
    sl: Seq<Seq<u32>>,
    def: int,
    width: int,
    height: int,
    w: int,
    opt_min: i32,
    opt_max: i32,
    ctype: CType,
) -> u32 {
    word_of_bits(|i: u32| smoothing_bit(sl, def, width, height, w, i, opt_min, opt_max, ctype))
}

/// Word `w` of terrain layer `t` after one round of smoothing of layer
/// `def`: the cells that smoothing adds move to `def`.
pub open spec fn optimize_word(
    sl: Seq<Seq<u32>>,
    def: int,
    width: int,
    height: int,
    opt_min: i32,
    opt_max: i32,
    ctype: CType,
    t: int,
    w: int,
) -> u32 {
    let d = smooth_word(sl, def, width, height, w, opt_min, opt_max, ctype) & !sl[def][w];
    if d != 0 {
        masked_word(sl[t][w], t, def, d)
    } else {
        sl[t][w]
    }
}

/// The bit boards after one round of smoothing of layer `def` (a terrain
/// layer): every word takes the cells that smoothing adds and the other
/// terrain layers give them up; the scratch layers hold the smoothing words
/// and the class masks.
pub open spec fn optimize_layers(
    sl: Seq<Seq<u32>>,
    def: int,
    width: int,
    height: int,
    opt_min: i32,
    opt_max: i32,
    ctype: CType,
) -> Seq<Seq<u32>> {
    Seq::new(
        sl.len(),
        |t: int|
            if 1 <= t <= 15 {
                Seq::new(sl[t].len(), |w: int| optimize_word(sl, def, width, height, opt_min, opt_max, ctype, t, w))
            } else if t == T_TMP_1 {
                Seq::new(sl[t].len(), |w: int| smooth_word(sl, def, width, height, w, opt_min, opt_max, ctype))
            } else if t == T_TMP_2 {
                Seq::new(sl[t].len(), |w: int| ctype_mask(sl, width, w, ctype))
            } else {
                sl[t]
            },
    )
}

/// The bit boards after every cell of the map goes to layer `def` and the
/// other terrain layers are cleared.
pub open spec fn fill_layers(l: Seq<Seq<u32>>, def: int, width: int) -> Seq<Seq<u32>> {
    Seq::new(
        l.len(),
        |t: int|
            if 1 <= t <= 15 {
                Seq::new(l[t].len(), |w: int| if t == def { full_row_word(width, w) } else { 0u32 })
            } else {
                l[t]
            },
    )
}

/// The bit boards after the cells of `bit` in word `nw` join layer `def`
/// where class `ctype` admits them.
pub open spec fn mm_admit(l: Seq<Seq<u32>>, def: int, nw: int, bit: u32, ctype: CType, width: int) -> Seq<Seq<u32>> {
    if ctype_mask(l, width, nw, ctype) & bit != 0 {
        set_bit_v(l, def, nw, bit)
    } else {
        l
    }
}

/// The bit boards after cell `key` joins layer `def` where `ctype` admits it.
pub open spec fn mm_admit_key(l: Seq<Seq<u32>>, def: int, key: int, ctype: CType, width: int) -> Seq<Seq<u32>> {
    let nx = key % width;
    let ny = key / width;
    mm_admit(l, def, ny * mm_stride(width) + nx / 32, 1u32 << ((nx % 32) as u32), ctype, width)
}

/// The cells of `ns` from the `d`-th on join layer `def` where `ectype`
/// admits them, in order.
pub open spec fn mm_spread(l: Seq<Seq<u32>>, def: int, ns: Seq<int>, d: int, ectype: CType, width: int) -> Seq<Seq<u32>>
    decreases ns.len() - d,
{
    if d < 0 || d >= ns.len() {
        l
    } else {
        mm_spread(mm_admit_key(l, def, ns[d], ectype, width), def, ns, d + 1, ectype, width)
    }
}

/// One expansion of the cell in bit `b` of word `w` (when it lies on the
/// map): a draw in `[0, 100)` of at most `lv` spreads it to its neighbours.
pub open spec fn mm_expand_cell(st: MState, w: int, b: int, def: int, lv: i32, ectype: CType, width: int, height: int) -> MState {
    let cx = (w % mm_stride(width)) * 32 + b;
    if cx >= width {
        st
    } else {
        let key = (w / mm_stride(width)) * width + cx;
        let (r, v) = range_draw(st.0, 0, 100);
        if v <= lv {
            (r, mm_spread(st.1, def, neighbor_list(width, height, key, 8), 0, ectype, width))
        } else {
            (r, st.1)
        }
    }
}

/// `n` random cells for layer `def`: each draws a column in `[0, width)`
/// and a row in `[0, height)` and joins the layer where `ctype` admits it.
pub open spec fn mm_seed_draws(st: MState, n: int, def: int, ctype: CType, width: int, height: int) -> MState
    decreases n,
{
    if n <= 0 {
        st
    } else {
        let (r1, x) = range_draw(st.0, 0, width as i32);
        let (r2, y) = range_draw(r1, 0, height as i32);
        let key = safe_key(x, y, width, height);
        let l = if key >= 0 && key < width * height {
            mm_admit(st.1, def, y * mm_stride(width) + x / 32, 1u32 << ((x % 32) as u32), ctype, width)
        } else {
            st.1
        };
        mm_seed_draws((r2, l), n - 1, def, ctype, width, height)
    }
}

/// A forward pass over bits `b` to 31 of word `w`, whose cells in layer
/// `def` (as the word was when the pass reached it) are `mask`.
pub open spec fn mm_fwd_bits(st: MState, w: int, b: int, mask: u32, def: int, lv: i32, ectype: CType, width: int, height: int) -> MState
    decreases 32 - b,
{
    if b < 0 || b >= 32 {
        st
    } else {
        let st1 = if (mask >> (b as u32)) & 1u32 == 1u32 {
            mm_expand_cell(st, w, b, def, lv, ectype, width, height)
        } else {
            st
        };
        mm_fwd_bits(st1, w, b + 1, mask, def, lv, ectype, width, height)
    }
}

/// A forward pass over words `w` to `words - 1`.
pub open spec fn mm_fwd_words(st: MState, w: int, words: int, def: int, lv: i32, ectype: CType, width: int, height: int) -> MState
    decreases words - w,
{
    if w < 0 || w >= words {
        st
    } else {
        mm_fwd_words(mm_fwd_bits(st, w, 0, st.1[def][w], def, lv, ectype, width, height), w + 1, words, def, lv, ectype, width, height)
    }
}

/// A backward pass over bits `b - 1` down to 0 of word `w`.
pub open spec fn mm_bwd_bits(st: MState, w: int, b: int, mask: u32, def: int, lv: i32, ectype: CType, width: int, height: int) -> MState
    decreases b,
{
    if b <= 0 {
        st
    } else {
        let st1 = if (mask >> ((b - 1) as u32)) & 1u32 == 1u32 {
            mm_expand_cell(st, w, b - 1, def, lv, ectype, width, height)
        } else {
            st
        };
        mm_bwd_bits(st1, w, b - 1, mask, def, lv, ectype, width, height)
    }
}

/// A backward pass over words `w - 1` down to 0.
pub open spec fn mm_bwd_words(st: MState, w: int, def: int, lv: i32, ectype: CType, width: int, height: int) -> MState
    decreases w,
{
    if w <= 0 {
        st
    } else {
        mm_bwd_words(mm_bwd_bits(st, w - 1, 32, st.1[def][w - 1], def, lv, ectype, width, height), w - 1, def, lv, ectype, width, height)
    }
}

/// `e` expansion passes over `words` words, the first forward if `forward`,
/// then alternating.
pub open spec fn mm_expand_passes(
    st: MState,
    e: int,
    forward: bool,
    words: int,
    def: int,
    lv: i32,
    ectype: CType,
    width: int,
    height: int,
) -> MState
    decreases e,
{
    if e <= 0 {
        st
    } else {
        let st1 = if forward {
            mm_fwd_words(st, 0, words, def, lv, ectype, width, height)
        } else {
            mm_bwd_words(st, words, def, lv, ectype, width, height)
        };
        mm_expand_passes(st1, e - 1, !forward, words, def, lv, ectype, width, height)
    }
}

/// The generator's state and the bit boards after
/// `MapMaker::random_and_expand`: `max(1, rcount)` random cells, `ecount`
/// expansion passes, and one round of smoothing when `opt_lv > 0`.
#[verifier::opaque]
pub open spec fn mm_random_and_expand_result(
    rng: DotNetState,
    l: Seq<Seq<u32>>,
    def: int,
    rcount: i32,
    ecount: i32,
    lv: i32,
    opt_lv: i32,
    opt_count: i32,
    ctype: CType,
    ectype: CType,
    width: int,
    height: int,
) -> MState {
    let s1 = mm_seed_draws((rng, l), if rcount > 1 { rcount as int } else { 1 }, def, ctype, width, height);
    let s2 = mm_expand_passes(s1, ecount as int, true, l[0].len() as int, def, lv, ectype, width, height);
    if opt_lv > 0 {
        (s2.0, optimize_layers(s2.1, def, width, height, opt_lv, opt_count, ectype))
    } else {
        s2
    }
}

/// `n` points along the mine path `mine`, the next from index `num` (a new
/// random index once `num` passes the end): each point moves to a random
/// neighbour and, on the map, joins layer `def` where `ctype` admits it.
pub open spec fn mm_line_points(
    st: MState,
    num: int,
    n: int,
    mine: Seq<i32>,
    def: int,
    ctype: CType,
    width: int,
    height: int,
) -> MState
    decreases n,
{
    if n <= 0 {
        st
    } else {
        let len = mine.len() as int;
        let (r0, num0) = if num >= len {
            range_draw(st.0, 0, len as i32)
        } else {
            (st.0, num)
        };
        let idx = if num0 < len { num0 } else { len - 1 };
        let key0 = mine[idx] as int;
        let ns = neighbor_list(width, height, key0, 8);
        let (r1, key) = if ns.len() > 0 {
            let (r, p) = range_draw(r0, 0, ns.len() as i32);
            (r, ns[if p < ns.len() { p } else { ns.len() - 1 }])
        } else {
            (r0, key0)
        };
        let l = if key >= 0 && key < width * height {
            mm_admit_key(st.1, def, key, ctype, width)
        } else {
            st.1
        };
        mm_line_points((r1, l), num0 + 1, n - 1, mine, def, ctype, width, height)
    }
}

/// The generator's state and the bit boards after
/// `MapMaker::random_line_from_mine_dir`.
#[verifier::opaque]
pub open spec fn mm_line_result(
    rng: DotNetState,
    l: Seq<Seq<u32>>,
    mine: Seq<i32>,
    w: int,
    size: i32,
    def: int,
    ctype: CType,
    width: int,
    height: int,
) -> MState {
    if mine.len() == 0 {
        (rng, l)
    } else {
        let (r, num) = range_draw(rng, 0, mine.len() as i32);
        let st = mm_line_points((r, l), num, size as int, mine, def, ctype, width, height);
        mm_out_line_result(st.0, st.1, def, def, w, 4, 0, ctype, width, height)
    }
}

/// The iron lines of `MapMaker::place_ore_lines` from the `i`-th on: while
/// `i` is below a fresh draw in `[ss, ss + 2)`, a line of radius drawn in
/// `[0, ss)` and length drawn in `[5 + ss, 10 + ss)`.
pub open spec fn mm_iron_lines(st: MState, i: int, ss: i32, mine: Seq<i32>, width: int, height: int) -> MState
    decreases ss + 2 - i,
{
    let (r, v) = range_draw(st.0, ss, (ss + 2) as i32);
    if i < v && i < ss + 2 {
        let (r1, a1) = range_draw(r, 0, ss);
        let (r2, a2) = range_draw(r1, (5 + ss) as i32, (10 + ss) as i32);
        mm_iron_lines(
            mm_line_result(r2, st.1, mine, a1, a2 as i32, T_IRON_ORE as int, CType::NoBorn, width, height),
            i + 1,
            ss,
            mine,
            width,
            height,
        )
    } else {
        (r, st.1)
    }
}

/// The lines of ore `t` from the `i`-th of `1 + ss` on: radius drawn in
/// `[0, 1)`, length drawn in `[3 + ss, 5 + ss)`.
pub open spec fn mm_ore_lines(st: MState, i: int, t: int, ss: i32, mine: Seq<i32>, width: int, height: int) -> MState
    decreases 1 + ss - i,
{
    if i < 0 || i >= 1 + ss {
        st
    } else {
        let (r1, a1) = range_draw(st.0, 0, 1);
        let (r2, a2) = range_draw(r1, (3 + ss) as i32, (5 + ss) as i32);
        mm_ore_lines(
            mm_line_result(r2, st.1, mine, a1, a2 as i32, t, CType::NoBorn, width, height),
            i + 1,
            t,
            ss,
            mine,
            width,
            height,
        )
    }
}

/// The rock lines from the `i`-th on: while `i` is below a fresh draw in
/// `[1, 3)`, a line of radius drawn in `[0, 1)` and length drawn in
/// `[8, 16)`, of grey rock if a draw in `[1, 3)` gives 1, else of marble.
pub open spec fn mm_rock_lines(st: MState, i: int, mine: Seq<i32>, width: int, height: int) -> MState
    decreases 3 - i,
{
    let (r, v) = range_draw(st.0, 1, 3);
    if i < v && i < 3 {
        let (r1, w) = range_draw(r, 0, 1);
        let (r2, sz) = range_draw(r1, 8, 16);
        let (r3, c) = range_draw(r2, 1, 3);
        let t = if c == 1 { T_ROCK_GRAY as int } else { T_ROCK_MARBLE as int };
        mm_rock_lines(mm_line_result(r3, st.1, mine, w, sz as i32, t, CType::NoBorn, width, height), i + 1, mine, width, height)
    } else {
        (r, st.1)
    }
}

/// The generator's state and the bit boards after
/// `MapMaker::place_ore_lines`.
#[verifier::opaque]
pub open spec fn mm_ore_lines_result(st: MState, ss: i32, mine: Seq<i32>, width: int, height: int) -> MState {
    let s1 = mm_iron_lines(st, 0, ss, mine, width, height);
    let s2 = mm_ore_lines(s1, 0, T_COPPER_ORE as int, ss, mine, width, height);
    let s3 = mm_ore_lines(s2, 0, T_SILVER_ORE as int, ss, mine, width, height);
    mm_rock_lines(s3, 0, mine, width, height)
}

/// Grey rock (`m == 1`) and marble (`m == 2`) grown from the `m`-th on: while
/// `m` is below a fresh draw in `[1, 3)`, from a number of random cells drawn
/// in `[0, 3)`.
pub open spec fn mm_rock_growth(st: MState, m: int, ss: i32, width: int, height: int) -> MState
    decreases 3 - m,
{
    let (r, v) = range_draw(st.0, 1, 3);
    if m < v && m < 3 {
        let t = if m == 1 { T_ROCK_GRAY as int } else { T_ROCK_MARBLE as int };
        let (r1, c) = range_draw(r, 0, 3);
        mm_rock_growth(
            mm_random_and_expand_result(r1, st.1, t, c as i32, 3, (15 + 3 * ss) as i32, 0, 3, CType::NoBorn, CType::NoBorn, width, height),
            m + 1,
            ss,
            width,
            height,
        )
    } else {
        (r, st.1)
    }
}

/// Ore `t` grown: random cells drawn in `[0, ss + 1)`, passes drawn in
/// `[1, ss + 1)`, level 13 plus `ss` times a draw in `[1, 4)`.
pub open spec fn mm_ore_growth(st: MState, t: int, ss: i32, width: int, height: int) -> MState {
    let (r1, a0) = range_draw(st.0, 0, (ss + 1) as i32);
    let (r2, a1) = range_draw(r1, 1, (ss + 1) as i32);
    let (r3, a2) = range_draw(r2, 1, 4);
    mm_random_and_expand_result(r3, st.1, t, a0 as i32, a1 as i32, (13 + ss * a2) as i32, 0, 3, CType::NoBorn, CType::NoBorn, width, height)
}

/// Brown rock around layer `src`, radius `w`, level `lv`.
pub open spec fn mm_brown_ring(st: MState, src: int, w: int, lv: i32, width: int, height: int) -> MState {
    mm_out_line_result(st.0, st.1, src, T_ROCK_BROWN as int, w, lv, 0, CType::NoBorn, width, height)
}

/// Brown rock around the ores from the `o`-th on (iron, copper, silver),
/// radius drawn in `[1, 2)`.
pub open spec fn mm_ore_rings(st: MState, o: int, ss: i32, width: int, height: int) -> MState
    decreases 3 - o,
{
    if o < 0 || o >= 3 {
        st
    } else {
        let t = if o == 0 { T_IRON_ORE as int } else if o == 1 { T_COPPER_ORE as int } else { T_SILVER_ORE as int };
        let (r, a) = range_draw(st.0, 1, 2);
        mm_ore_rings(mm_brown_ring((r, st.1), t, a, (8 + 8 * ss) as i32, width, height), o + 1, ss, width, height)
    }
}

/// Brown rock around brown rock, grey rock and marble from the `j`-th on,
/// radius drawn in `[1, ss)`.
pub open spec fn mm_rock_rings(st: MState, j: int, ss: i32, width: int, height: int) -> MState
    decreases 3 - j,
{
    if j < 0 || j >= 3 {
        st
    } else {
        let t = if j == 0 { T_ROCK_BROWN as int } else if j == 1 { T_ROCK_GRAY as int } else { T_ROCK_MARBLE as int };
        let (r, a) = range_draw(st.0, 1, ss);
        mm_rock_rings(mm_brown_ring((r, st.1), t, a, (8 + 8 * ss) as i32, width, height), j + 1, ss, width, height)
    }
}

/// The generator's state and the bit boards after `MapMaker::grow_rocks`.
#[verifier::opaque]
pub open spec fn mm_grow_rocks_result(st: MState, ss: i32, width: int, height: int) -> MState {
    let s1 = mm_rock_growth(st, 1, ss, width, height);
    let s2 = mm_ore_growth(mm_ore_growth(mm_ore_growth(s1, T_IRON_ORE as int, ss, width, height), T_COPPER_ORE as int, ss, width, height), T_SILVER_ORE as int, ss, width, height);
    let (r3, a3) = range_draw(s2.0, 2, (ss + 1) as i32);
    let s3 = mm_random_and_expand_result(r3, s2.1, T_ROCK_BROWN as int, a3 as i32, (ss + 1) as i32, (13 + ss * 4) as i32, 0, 3, CType::NoBorn, CType::NoBorn, width, height);
    let lv = (50 + 12 * ss) as i32;
    let s4 = mm_brown_ring(mm_brown_ring(s3, T_ROCK_GRAY as int, 1, lv, width, height), T_ROCK_MARBLE as int, 1, lv, width, height);
    let s5 = mm_brown_ring(mm_brown_ring(mm_brown_ring(s4, T_IRON_ORE as int, 1, lv, width, height), T_COPPER_ORE as int, 1, lv, width, height), T_SILVER_ORE as int, 1, lv, width, height);
    mm_rock_rings(mm_ore_rings(s5, 0, ss, width, height), 0, ss, width, height)
}

/// The generator's state and the mine path after one mine path is walked
/// (drift bounds `fx`, `fy`) and appended to `mine`.
pub open spec fn mine_dir_result(rng: DotNetState, mine: Seq<i32>, fx: i32, fy: i32, width: int, height: int) -> (DotNetState, Seq<i32>) {
    let (s0, n0) = range_draw(rng, 0, height as i32);
    let s1 = range_draw(s0, 0, height as i32).0;
    let walk = mine_walk(s1, 0, n0, 0, width, height, fx, fy, n0);
    (walk.0, mine + walk.1)
}

/// The birth cell: a column drawn in `[0.4, 0.7)` of the width (in tenths)
/// and a row in `[0.6, 0.7)` of the height; on the map it goes to layer
/// `def`.
pub open spec fn born_fill_result(st: MState, def: int, width: int, height: int) -> MState {
    let (r1, x) = range_draw(st.0, (width / 10 * 4) as i32, (width / 10 * 7) as i32);
    let (r2, y) = range_draw(r1, (height / 10 * 6) as i32, (height / 10 * 7) as i32);
    let key = safe_key(x, y, width, height);
    if key >= 0 && key < width * height {
        (r2, set_bit_v(st.1, def, y * mm_stride(width) + x / 32, 1u32 << ((x % 32) as u32)))
    } else {
        (r2, st.1)
    }
}

/// Word `w` of the fertile layer, without the cell with key 0.
pub open spec fn fertile_word(l: Seq<Seq<u32>>, w: int) -> u32 {
    if w == 0 {
        l[T_FERTILE_SOIL as int][0] & !1u32
    } else {
        l[T_FERTILE_SOIL as int][w]
    }
}

/// The bit boards with the birth space set to the fertile layer (without
/// the cell with key 0).
pub open spec fn born_copy_layers(l: Seq<Seq<u32>>) -> Seq<Seq<u32>> {
    l.update(T_BORN_SPACE as int, Seq::new(l[T_BORN_SPACE as int].len(), |w: int| fertile_word(l, w)))
}

/// The bit boards after the fertile cells of words 0 to `w - 1` (without
/// the cell with key 0) become soil.
pub open spec fn soil_fold(l: Seq<Seq<u32>>, w: int) -> Seq<Seq<u32>>
    decreases w,
{
    if w <= 0 {
        l
    } else {
        let l1 = soil_fold(l, w - 1);
        let m = fertile_word(l, w - 1);
        if m != 0 {
            set_bit_v(l1, T_SOIL as int, w - 1, m)
        } else {
            l1
        }
    }
}

/// The generator's state and the bit boards after the birth line is drawn
/// (see [`crate::map_maker::born_sides`]).
pub open spec fn born_line_result(st: MState, width: int, height: int) -> MState {
    let res = born_sides(
        st.0,
        0,
        Seq::new(words_of(width, height) as nat, |i: int| 0u32),
        f32_product(width as nat, 5033165, 24) as i32,
        f32_product(width as nat, 5033165, 23) as i32,
        width,
        height,
        mm_stride(width),
    );
    (res.0, st.1.update(T_BORN_LINE as int, res.1))
}

/// A widening pass (see `MapMaker::out_line`) on a state.
pub open spec fn mm_out(st: MState, src: int, tgt: int, w: int, lv: i32, ctype: CType, width: int, height: int) -> MState {
    mm_out_line_result(st.0, st.1, src, tgt, w, lv, 0, ctype, width, height)
}

/// One round of smoothing (see `MapMaker::optimize`) on a state.
pub open spec fn mm_opt(st: MState, def: int, opt_min: i32, opt_max: i32, ctype: CType, width: int, height: int) -> MState {
    (st.0, optimize_layers(st.1, def, width, height, opt_min, opt_max, ctype))
}

/// `MapMaker::random_and_expand` on a state.
pub open spec fn mm_rae(
    st: MState,
    def: int,
    rcount: i32,
    ecount: i32,
    lv: i32,
    ctype: CType,
    width: int,
    height: int,
) -> MState {
    mm_random_and_expand_result(st.0, st.1, def, rcount, ecount, lv, 5, 3, ctype, ctype, width, height)
}

/// The scale of a map: its width in units of 64, at least 1.
pub open spec fn size_scale_of(width: int) -> int {
    if width / 64 > 1 { width / 64 } else { 1 }
}

/// The first part of `MapMaker::make_map`: three mine paths, soil
/// everywhere, the fertile birth area and its copy in the birth space, soil
/// under it, and the birth line.
#[verifier::opaque]
pub open spec fn mm_base_result(
    rng: DotNetState,
    l: Seq<Seq<u32>>,
    mine: Seq<i32>,
    width: int,
    height: int,
) -> (DotNetState, Seq<Seq<u32>>, Seq<i32>) {
    let (r1, m1) = mine_dir_result(rng, mine, 2, 3, width, height);
    let (r2, m2) = mine_dir_result(r1, m1, 2, 3, width, height);
    let (r3, m3) = mine_dir_result(r2, m2, 2, 3, width, height);
    let fs = T_FERTILE_SOIL as int;
    let s1 = born_fill_result((r3, fill_layers(l, T_SOIL as int, width)), fs, width, height);
    let s2 = mm_out(mm_out(s1, fs, fs, 2, 100, CType::AllTrue, width, height), fs, fs, 5, 20, CType::AllTrue, width, height);
    let s3 = mm_opt(s2, fs, 2, 4, CType::AllTrue, width, height);
    let s4 = mm_out((s3.0, born_copy_layers(s3.1)), fs, fs, 2, 100, CType::AllTrue, width, height);
    let s5 = born_line_result((s4.0, soil_fold(s4.1, words_of(width, height))), width, height);
    (s5.0, s5.1, m3)
}

/// The second part of `MapMaker::make_map`: fertile soil and deep water
/// grown, water, shallow water and mud around them.
#[verifier::opaque]
pub open spec fn mm_water_result(s5: MState, ss: int, width: int, height: int) -> MState {
    let fs = T_FERTILE_SOIL as int;
    let s6 = mm_rae(s5, fs, 20, 4, 30, CType::AllTrue, width, height);
    let s7 = mm_rae(s6, T_D_DEPTH_WATER as int, (ss - 1) as i32, (2 * ss - 1) as i32, (13 + 6 * ss) as i32, CType::NoBorn, width, height);
    let s8 = mm_out(s7, T_D_DEPTH_WATER as int, T_DEPTH_WATER as int, 1, 100, CType::CheckCon, width, height);
    let s9 = mm_out(s8, T_DEPTH_WATER as int, T_DEPTH_WATER as int, 1, (10 + 6 * ss) as i32, CType::NoBorn, width, height);
    let s10 = mm_out(s9, T_DEPTH_WATER as int, T_SHALLOW_WATER as int, 4, (50 + 12 * ss) as i32, CType::CheckCon, width, height);
    let s11 = mm_opt(s10, T_SHALLOW_WATER as int, 2, 6, CType::CheckCon, width, height);
    let s12 = mm_rae(s11, T_SHALLOW_WATER as int, 3, 3, 20, CType::NoBorn, width, height);
    mm_out(s12, T_SHALLOW_WATER as int, T_MUD as int, 4, 90, CType::CheckCon, width, height)
}

/// The last part of `MapMaker::make_map`: ore lines along the mine path
/// `mine`, rocks, stone land and spirit soil.
#[verifier::opaque]
pub open spec fn mm_stone_result(s13: MState, ss: int, mine: Seq<i32>, width: int, height: int) -> MState {
    let s14 = mm_grow_rocks_result(mm_ore_lines_result(s13, ss as i32, mine, width, height), ss as i32, width, height);
    let s15 = mm_opt(s14, T_ROCK_BROWN as int, 2, 9, CType::NoBorn, width, height);
    let st = T_STONE_LAND as int;
    let s16 = mm_out(mm_out(s15, T_ROCK_BROWN as int, st, 1, 30, CType::CheckCon2, width, height), T_IRON_ORE as int, st, 1, 30, CType::CheckCon2, width, height);
    let s17 = mm_out(mm_out(s16, T_SILVER_ORE as int, st, 1, 30, CType::CheckCon2, width, height), T_COPPER_ORE as int, st, 1, 30, CType::CheckCon2, width, height);
    let s18 = mm_out(mm_out(s17, T_ROCK_BROWN as int, st, 1, 30, CType::CheckCon2, width, height), st, st, 1, 5, CType::CheckCon, width, height);
    let s19 = mm_opt(s18, st, 2, 9, CType::CheckCon, width, height);
    mm_rae(s19, T_LING_SOIL as int, ss as i32, 6, 33, CType::CheckCon, width, height)
}

/// The generator's state, the bit boards and the mine path after
/// `MapMaker::make_map` on a map of `width` by `height` cells, from
/// generator state `rng`, bit boards `l` and mine path `mine`.
pub open spec fn make_map_result(
    rng: DotNetState,
    l: Seq<Seq<u32>>,
    mine: Seq<i32>,
    width: int,
    height: int,
) -> (DotNetState, Seq<Seq<u32>>, Seq<i32>) {
    let ss = size_scale_of(width);
    let b = mm_base_result(rng, l, mine, width, height);
    let s = mm_stone_result(mm_water_result((b.0, b.1), ss, width, height), ss, b.2, width, height);
    (s.0, s.1, b.2)
}
/// Twenty empty bit boards of a `width` by `height` map.
pub open spec fn zero_layers(width: int, height: int) -> Seq<Seq<u32>> {
    Seq::new(20, |t: int| Seq::new(words_of(width, height) as nat, |w: int| 0u32))
}

/// The grid that bit boards `l` show: cell `k` has the terrain of the layer
/// holding column `k % width` of row `k / width`.
pub open spec fn grid_of(l: Seq<Seq<u32>>, width: int, height: int) -> Seq<Terrain> {
    Seq::new((width * height) as nat, |k: int| terrain_at(l, mm_stride(width), k % width, k / width))
}

/// The bit boards of the map of `seed` on a `width` by `height` map: a
/// generator seeded with `seed`, empty boards and no mine path, then
/// `MapMaker::make_map`.
pub open spec fn seed_map(seed: i32, width: int, height: int) -> Seq<Seq<u32>> {
    make_map_result(seeded_state(seed), zero_layers(width, height), Seq::empty(), width, height).1
}

/// The grid of the map of `seed`.
pub open spec fn seed_grid(seed: i32, width: int, height: int) -> Seq<Terrain> {
    grid_of(seed_map(seed, width, height), width, height)
}

/// The map before its spirit soil: the last part of `MapMaker::make_map` up
/// to the smoothing of the stone land (ore lines, rocks, brown rock smoothed,
/// stone land around rocks and ores and around itself, stone land smoothed).
pub open spec fn stone_land_result(s13: MState, ss: int, mine: Seq<i32>, width: int, height: int) -> MState {
    let rocks = mm_grow_rocks_result(mm_ore_lines_result(s13, ss as i32, mine, width, height), ss as i32, width, height);
    let smoothed = (rocks.0, optimize_layers(rocks.1, T_ROCK_BROWN as int, width, height, 2, 9, CType::NoBorn));
    let sl = T_STONE_LAND as int;
    let ring_rock = mm_out_line_result(smoothed.0, smoothed.1, T_ROCK_BROWN as int, sl, 1, 30, 0, CType::CheckCon2, width, height);
    let ring_iron = mm_out_line_result(ring_rock.0, ring_rock.1, T_IRON_ORE as int, sl, 1, 30, 0, CType::CheckCon2, width, height);
    let ring_silver = mm_out_line_result(ring_iron.0, ring_iron.1, T_SILVER_ORE as int, sl, 1, 30, 0, CType::CheckCon2, width, height);
    let ring_copper = mm_out_line_result(ring_silver.0, ring_silver.1, T_COPPER_ORE as int, sl, 1, 30, 0, CType::CheckCon2, width, height);
    let ring_again = mm_out_line_result(ring_copper.0, ring_copper.1, T_ROCK_BROWN as int, sl, 1, 30, 0, CType::CheckCon2, width, height);
    let widened = mm_out_line_result(ring_again.0, ring_again.1, sl, sl, 1, 5, 0, CType::CheckCon, width, height);
    (widened.0, optimize_layers(widened.1, sl, width, height, 2, 9, CType::CheckCon))
}

/// The map of `seed` before its spirit soil.
pub open spec fn seed_stone_land(seed: i32, width: int, height: int) -> MState {
    let ss = size_scale_of(width);
    let b = mm_base_result(seeded_state(seed), zero_layers(width, height), Seq::empty(), width, height);
    stone_land_result(mm_water_result((b.0, b.1), ss, width, height), ss, b.2, width, height)
}

/// The spirit soil comes last: the map of a seed is its stone-land map after
/// one `random_and_expand` of the spirit-soil layer with as many random
/// cells as the map's scale, 6 expansion passes at level 33 on soil, fertile
/// soil and spirit soil (`CheckCon`), and one round of smoothing with bounds
/// `(5, 3)`; the same holds of the last part of any run of `make_map`.
pub proof fn lemma_spirit_soil_last(seed: i32, width: int, height: int, s13: MState, ss: int, mine: Seq<i32>)
    ensures
        mm_stone_result(s13, ss, mine, width, height) == mm_random_and_expand_result(
            stone_land_result(s13, ss, mine, width, height).0,
            stone_land_result(s13, ss, mine, width, height).1,
            T_LING_SOIL as int,
            ss as i32,
            6,
            33,
            5,
            3,
            CType::CheckCon,
            CType::CheckCon,
            width,
            height,
        ),
        seed_map(seed, width, height) == mm_random_and_expand_result(
            seed_stone_land(seed, width, height).0,
            seed_stone_land(seed, width, height).1,
            T_LING_SOIL as int,
            size_scale_of(width) as i32,
            6,
            33,
            5,
            3,
            CType::CheckCon,
            CType::CheckCon,
            width,
            height,
        ).1,
{
    reveal(mm_stone_result);
}

/// One step of the map generator, as the game lists them.
pub enum MapStep {
    /// A mine path walked from the left edge (drift bounds 2 and 3).
    MinePath,
    /// Every cell to one layer.
    Fill(int),
    /// The birth cell near the lower middle, to one layer.
    BornCell(int),
    /// A widening pass: source, target, radius, level, class.
    Widen(int, int, int, i32, CType),
    /// A round of smoothing: layer, bounds, class.
    Smooth(int, i32, i32, CType),
    /// The birth space set to the fertile layer.
    CopyBirthSpace,
    /// Soil under the fertile cells.
    SoilUnderBirth,
    /// The birth line on the map's edges.
    BirthLine,
    /// Random cells grown: layer, cells, passes, level, class (smoothed with
    /// bounds 5 and 3).
    Grow(int, i32, i32, i32, CType),
    /// Ore and rock lines along the mine paths, at a scale.
    OreLines(i32),
    /// Rocks, ores and their rings, at a scale.
    Rocks(i32),
}

/// The generator's state, the bit boards and the mine path after one step.
pub open spec fn run_step(
    st: (DotNetState, Seq<Seq<u32>>, Seq<i32>),
    step: MapStep,
    width: int,
    height: int,
) -> (DotNetState, Seq<Seq<u32>>, Seq<i32>) {
    match step {
        MapStep::MinePath => {
            let (r, m) = mine_dir_result(st.0, st.2, 2, 3, width, height);
            (r, st.1, m)
        },
        MapStep::Fill(t) => (st.0, fill_layers(st.1, t, width), st.2),
        MapStep::BornCell(t) => {
            let x = born_fill_result((st.0, st.1), t, width, height);
            (x.0, x.1, st.2)
        },
        MapStep::Widen(src, tgt, w, lv, c) => {
            let x = mm_out_line_result(st.0, st.1, src, tgt, w, lv, 0, c, width, height);
            (x.0, x.1, st.2)
        },
        MapStep::Smooth(def, lo, hi, c) => (st.0, optimize_layers(st.1, def, width, height, lo, hi, c), st.2),
        MapStep::CopyBirthSpace => (st.0, born_copy_layers(st.1), st.2),
        MapStep::SoilUnderBirth => (st.0, soil_fold(st.1, words_of(width, height)), st.2),
        MapStep::BirthLine => {
            let x = born_line_result((st.0, st.1), width, height);
            (x.0, x.1, st.2)
        },
        MapStep::Grow(def, rc, ec, lv, c) => {
            let x = mm_random_and_expand_result(st.0, st.1, def, rc, ec, lv, 5, 3, c, c, width, height);
            (x.0, x.1, st.2)
        },
        MapStep::OreLines(ss) => {
            let x = mm_ore_lines_result((st.0, st.1), ss, st.2, width, height);
            (x.0, x.1, st.2)
        },
        MapStep::Rocks(ss) => {
            let x = mm_grow_rocks_result((st.0, st.1), ss, width, height);
            (x.0, x.1, st.2)
        },
    }
}

/// The steps of `plan` from the `i`-th on.
pub open spec fn run_steps(
    st: (DotNetState, Seq<Seq<u32>>, Seq<i32>),
    plan: Seq<MapStep>,
    i: int,
    width: int,
    height: int,
) -> (DotNetState, Seq<Seq<u32>>, Seq<i32>)
    decreases plan.len() - i,
{
    if i < 0 || i >= plan.len() {
        st
    } else {
        run_steps(run_step(st, plan[i], width, height), plan, i + 1, width, height)
    }
}

/// The first steps of the game's map: three mine paths; soil everywhere;
/// the fertile birth area widened twice and smoothed, copied to the birth
/// space, widened again, soil under it; the birth line.
pub open spec fn base_plan() -> Seq<MapStep> {
    let fs = T_FERTILE_SOIL as int;
    seq![
        MapStep::MinePath,
        MapStep::MinePath,
        MapStep::MinePath,
        MapStep::Fill(T_SOIL as int),
        MapStep::BornCell(fs),
        MapStep::Widen(fs, fs, 2, 100, CType::AllTrue),
        MapStep::Widen(fs, fs, 5, 20, CType::AllTrue),
        MapStep::Smooth(fs, 2, 4, CType::AllTrue),
        MapStep::CopyBirthSpace,
        MapStep::Widen(fs, fs, 2, 100, CType::AllTrue),
        MapStep::SoilUnderBirth,
        MapStep::BirthLine
    ]
}

/// The water steps at scale `ss`: fertile soil and deep water grown;
/// water, its rim and shallow water, smoothed; shallow water grown; mud.
pub open spec fn water_plan(ss: int) -> Seq<MapStep> {
    seq![
        MapStep::Grow(T_FERTILE_SOIL as int, 20, 4, 30, CType::AllTrue),
        MapStep::Grow(T_D_DEPTH_WATER as int, (ss - 1) as i32, (2 * ss - 1) as i32, (13 + 6 * ss) as i32, CType::NoBorn),
        MapStep::Widen(T_D_DEPTH_WATER as int, T_DEPTH_WATER as int, 1, 100, CType::CheckCon),
        MapStep::Widen(T_DEPTH_WATER as int, T_DEPTH_WATER as int, 1, (10 + 6 * ss) as i32, CType::NoBorn),
        MapStep::Widen(T_DEPTH_WATER as int, T_SHALLOW_WATER as int, 4, (50 + 12 * ss) as i32, CType::CheckCon),
        MapStep::Smooth(T_SHALLOW_WATER as int, 2, 6, CType::CheckCon),
        MapStep::Grow(T_SHALLOW_WATER as int, 3, 3, 20, CType::NoBorn),
        MapStep::Widen(T_SHALLOW_WATER as int, T_MUD as int, 4, 90, CType::CheckCon)
    ]
}

/// The last steps at scale `ss`: ore lines; rocks; brown rock smoothed;
/// stone land around brown rock, iron, silver, copper and brown rock again,
/// widened, smoothed; and last the spirit soil.
pub open spec fn stone_plan(ss: int) -> Seq<MapStep> {
    let sl = T_STONE_LAND as int;
    seq![
        MapStep::OreLines(ss as i32),
        MapStep::Rocks(ss as i32),
        MapStep::Smooth(T_ROCK_BROWN as int, 2, 9, CType::NoBorn),
        MapStep::Widen(T_ROCK_BROWN as int, sl, 1, 30, CType::CheckCon2),
        MapStep::Widen(T_IRON_ORE as int, sl, 1, 30, CType::CheckCon2),
        MapStep::Widen(T_SILVER_ORE as int, sl, 1, 30, CType::CheckCon2),
        MapStep::Widen(T_COPPER_ORE as int, sl, 1, 30, CType::CheckCon2),
        MapStep::Widen(T_ROCK_BROWN as int, sl, 1, 30, CType::CheckCon2),
        MapStep::Widen(sl, sl, 1, 5, CType::CheckCon),
        MapStep::Smooth(sl, 2, 9, CType::CheckCon),
        MapStep::Grow(T_LING_SOIL as int, ss as i32, 6, 33, CType::CheckCon)
    ]
}

/// The game's map of a map `width` cells wide, step by step.
pub open spec fn map_plan(width: int) -> Seq<MapStep> {
    base_plan() + water_plan(size_scale_of(width)) + stone_plan(size_scale_of(width))
}

/// Running two plans one after the other is running their concatenation.
proof fn lemma_run_concat(
    st: (DotNetState, Seq<Seq<u32>>, Seq<i32>),
    p: Seq<MapStep>,
    q: Seq<MapStep>,
    i: int,
    width: int,
    height: int,
)
    requires
        0 <= i <= p.len(),
    ensures
        run_steps(st, p + q, i, width, height) == run_steps(run_steps(st, p, i, width, height), q, 0, width, height),
    decreases p.len() - i,
{
    if i < p.len() {
        assert((p + q)[i] == p[i]);
        lemma_run_concat(run_step(st, p[i], width, height), p, q, i + 1, width, height);
    } else {
        lemma_run_shift(st, p, q, 0, width, height);
    }
}

proof fn lemma_run_shift(
    st: (DotNetState, Seq<Seq<u32>>, Seq<i32>),
    p: Seq<MapStep>,
    q: Seq<MapStep>,
    j: int,
    width: int,
    height: int,
)
    requires
        0 <= j <= q.len(),
    ensures
        run_steps(st, p + q, p.len() + j, width, height) == run_steps(st, q, j, width, height),
    decreases q.len() - j,
{
    if j < q.len() {
        assert((p + q)[p.len() + j] == q[j]);
        lemma_run_shift(run_step(st, q[j], width, height), p, q, j + 1, width, height);
    }
}

#[verifier::spinoff_prover]
#[verifier::rlimit(100)]
proof fn lemma_base_plan(rng: DotNetState, l: Seq<Seq<u32>>, mine: Seq<i32>, width: int, height: int)
    ensures
        run_steps((rng, l, mine), base_plan(), 0, width, height) == mm_base_result(rng, l, mine, width, height),
{
    let p = base_plan();
    let s0 = (rng, l, mine);
    let s1 = run_step(s0, p[0], width, height);
    let s2 = run_step(s1, p[1], width, height);
    let s3 = run_step(s2, p[2], width, height);
    let s4 = run_step(s3, p[3], width, height);
    let s5 = run_step(s4, p[4], width, height);
    let s6 = run_step(s5, p[5], width, height);
    let s7 = run_step(s6, p[6], width, height);
    let s8 = run_step(s7, p[7], width, height);
    let s9 = run_step(s8, p[8], width, height);
    let s10 = run_step(s9, p[9], width, height);
    let s11 = run_step(s10, p[10], width, height);
    let s12 = run_step(s11, p[11], width, height);
    assert(run_steps(s12, p, 12, width, height) == s12);
    assert(run_steps(s11, p, 11, width, height) == run_steps(s12, p, 12, width, height));
    assert(run_steps(s10, p, 10, width, height) == run_steps(s11, p, 11, width, height));
    assert(run_steps(s9, p, 9, width, height) == run_steps(s10, p, 10, width, height));
    assert(run_steps(s8, p, 8, width, height) == run_steps(s9, p, 9, width, height));
    assert(run_steps(s7, p, 7, width, height) == run_steps(s8, p, 8, width, height));
    assert(run_steps(s6, p, 6, width, height) == run_steps(s7, p, 7, width, height));
    assert(run_steps(s5, p, 5, width, height) == run_steps(s6, p, 6, width, height));
    assert(run_steps(s4, p, 4, width, height) == run_steps(s5, p, 5, width, height));
    assert(run_steps(s3, p, 3, width, height) == run_steps(s4, p, 4, width, height));
    assert(run_steps(s2, p, 2, width, height) == run_steps(s3, p, 3, width, height));
    assert(run_steps(s1, p, 1, width, height) == run_steps(s2, p, 2, width, height));
    assert(run_steps(s0, p, 0, width, height) == run_steps(s1, p, 1, width, height));
    reveal(mm_base_result);
}

#[verifier::spinoff_prover]
#[verifier::rlimit(100)]
proof fn lemma_water_plan(st: (DotNetState, Seq<Seq<u32>>, Seq<i32>), ss: int, width: int, height: int)
    ensures
        ({
            let r = run_steps(st, water_plan(ss), 0, width, height);
            let w = mm_water_result((st.0, st.1), ss, width, height);
            r == (w.0, w.1, st.2)
        }),
{
    reveal(mm_water_result);
    reveal_with_fuel(run_steps, 9);
}

#[verifier::spinoff_prover]
#[verifier::rlimit(100)]
proof fn lemma_stone_plan(st: (DotNetState, Seq<Seq<u32>>, Seq<i32>), ss: int, width: int, height: int)
    ensures
        ({
            let r = run_steps(st, stone_plan(ss), 0, width, height);
            let w = mm_stone_result((st.0, st.1), ss, st.2, width, height);
            r == (w.0, w.1, st.2)
        }),
{
    reveal(mm_stone_result);
    reveal_with_fuel(run_steps, 12);
}

/// A run of `MapMaker::make_map` is the game's plan of 31 steps, in order,
/// ending with the spirit soil.
pub proof fn lemma_make_map_plan(rng: DotNetState, l: Seq<Seq<u32>>, mine: Seq<i32>, width: int, height: int)
    ensures
        make_map_result(rng, l, mine, width, height) == run_steps((rng, l, mine), map_plan(width), 0, width, height),
        map_plan(width).len() == 31,
        map_plan(width)[30] == MapStep::Grow(T_LING_SOIL as int, size_scale_of(width) as i32, 6, 33, CType::CheckCon),
{
    let ss = size_scale_of(width);
    let st0 = (rng, l, mine);
    let b = base_plan();
    let w = water_plan(ss);
    let s = stone_plan(ss);
    lemma_run_concat(st0, b + w, s, 0, width, height);
    lemma_run_concat(st0, b, w, 0, width, height);
    lemma_base_plan(rng, l, mine, width, height);
    let sb = run_steps(st0, b, 0, width, height);
    lemma_water_plan(sb, ss, width, height);
    let sw = run_steps(sb, w, 0, width, height);
    lemma_stone_plan(sw, ss, width, height);
}
/// `random_and_expand` always seeds at least one cell: any cell count up to
/// 1 gives the same result as 1.
pub proof fn lemma_at_least_one_seed(
    rng: DotNetState,
    l: Seq<Seq<u32>>,
    def: int,
    rcount: i32,
    ecount: i32,
    lv: i32,
    opt_lv: i32,
    opt_count: i32,
    ctype: CType,
    ectype: CType,
    width: int,
    height: int,
)
    requires
        rcount <= 1,
    ensures
        mm_random_and_expand_result(rng, l, def, rcount, ecount, lv, opt_lv, opt_count, ctype, ectype, width, height)
            == mm_random_and_expand_result(rng, l, def, 1, ecount, lv, opt_lv, opt_count, ctype, ectype, width, height),
{
    reveal(mm_random_and_expand_result);
}
} // verus!
