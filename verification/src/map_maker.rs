//! The terrain generator of the game's world map, driven by the .NET-style
//! generator of [`crate::rng`].
//!
//! The map is kept as bit boards: `bb[t]` holds one bit per cell, row by row,
//! `stride = ceil(width / 32)` words per row. Layers 1 to 15 are the terrain
//! kinds (at most one of them holds any cell), layer 16 the birth space,
//! layer 17 the birth line, layers 18 and 19 scratch space.
use crate::rng::{draw_int, range_draw, seeded_state, DotNetState, GMathUtl, RandomType};
use crate::fp_round::{lemma_round_le_representable, round_sig};
use crate::sampling::{f32_product, f32_scale, sample_product};
use crate::shadow::{lemma_word_moves, set_bit_v, word_moves};
use crate::spiral_rings::{ball_len, cheb, lemma_spiral_squares};
use crate::map_steps::{
    lemma_word_of_bits, mm_admit, mm_admit_key, mm_bwd_bits, mm_bwd_words, mm_expand_cell, mm_expand_passes, mm_fwd_bits,
    mm_fwd_words, make_map_result, zero_layers, grid_of, seed_map, mm_base_result, mm_water_result, mm_stone_result, fill_layers, born_fill_result, born_copy_layers, soil_fold, fertile_word, size_scale_of,
    mm_grow_rocks_result, mm_iron_lines, mm_line_points, mm_ore_growth, mm_ore_lines, mm_ore_lines_result,
    mm_ore_rings, mm_rock_growth, mm_rock_lines, mm_rock_rings, mm_line_result, mm_random_and_expand_result, mm_seed_draws, mm_spread, mm_stride, optimize_layers, optimize_word, smooth_word,
};
use vstd::arithmetic::div_mod::*;
use vstd::arithmetic::mul::*;
use vstd::arithmetic::power2::*;
use vstd::prelude::*;

verus! {

/// The kinds of terrain a cell can hold.
#[derive(Clone, Copy, PartialEq, Eq, Debug, Structural)]
pub enum Terrain {
    Null,
    Soil,
    DepthWater,
    DDepthWater,
    ShallowWater,
    Mud,
    FertileSoil,
    LingSoil,
    StoneLand,
    RockBrown,
    RockGray,
    RockMarble,
    IronOre,
    CopperOre,
    SilverOre,
}

/// Which cells an operation may write.
#[derive(Clone, Copy, PartialEq, Eq, Debug, Structural)]
pub enum CType {
    /// every cell
    AllTrue,
    /// soil or fertile soil outside the birth space and line
    NoBorn,
    /// soil, fertile soil or spirit soil
    CheckCon,
    /// anything but ore, brown or grey rock, and marble outside the birth area
    CheckCon2,
}

pub const T_SOIL: usize = 1;

pub const T_DEPTH_WATER: usize = 2;

pub const T_D_DEPTH_WATER: usize = 3;

pub const T_SHALLOW_WATER: usize = 4;

pub const T_MUD: usize = 5;

pub const T_FERTILE_SOIL: usize = 6;

pub const T_LING_SOIL: usize = 7;

pub const T_STONE_LAND: usize = 9;

pub const T_ROCK_BROWN: usize = 10;

pub const T_ROCK_GRAY: usize = 11;

pub const T_ROCK_MARBLE: usize = 12;

pub const T_IRON_ORE: usize = 13;

pub const T_COPPER_ORE: usize = 14;

pub const T_SILVER_ORE: usize = 15;

pub const T_BORN_SPACE: usize = 16;

pub const T_BORN_LINE: usize = 17;

pub const T_TMP_1: usize = 18;

pub const T_TMP_2: usize = 19;

/// Number of offsets in the spiral around a cell (a 101 x 101 square).
const AROUND_LEN: usize = 10201;

/// The bit-board layer of each terrain kind (0 for `Null`).
pub open spec fn t_idx(t: Terrain) -> int {
    match t {
        Terrain::Soil => 1,
        Terrain::DepthWater => 2,
        Terrain::DDepthWater => 3,
        Terrain::ShallowWater => 4,
        Terrain::Mud => 5,
        Terrain::FertileSoil => 6,
        Terrain::LingSoil => 7,
        Terrain::StoneLand => 9,
        Terrain::RockBrown => 10,
        Terrain::RockGray => 11,
        Terrain::RockMarble => 12,
        Terrain::IronOre => 13,
        Terrain::CopperOre => 14,
        Terrain::SilverOre => 15,
        Terrain::Null => 0,
    }
}

/// The bit-board layer of a terrain kind.
fn get_t_idx(t: Terrain) -> (r: usize)
    ensures
        r == t_idx(t),
{
    match t {
        Terrain::Soil => T_SOIL,
        Terrain::DepthWater => T_DEPTH_WATER,
        Terrain::DDepthWater => T_D_DEPTH_WATER,
        Terrain::ShallowWater => T_SHALLOW_WATER,
        Terrain::Mud => T_MUD,
        Terrain::FertileSoil => T_FERTILE_SOIL,
        Terrain::LingSoil => T_LING_SOIL,
        Terrain::StoneLand => T_STONE_LAND,
        Terrain::RockBrown => T_ROCK_BROWN,
        Terrain::RockGray => T_ROCK_GRAY,
        Terrain::RockMarble => T_ROCK_MARBLE,
        Terrain::IronOre => T_IRON_ORE,
        Terrain::CopperOre => T_COPPER_ORE,
        Terrain::SilverOre => T_SILVER_ORE,
        Terrain::Null => 0,
    }
}

/// The step of direction `d`: 0 right, 1 up, 2 left, 3 down (rows count
/// downwards).
pub open spec fn dir_delta(d: int) -> (int, int) {
    if d == 0 {
        (1, 0)
    } else if d == 1 {
        (0, -1)
    } else if d == 2 {
        (-1, 0)
    } else {
        (0, 1)
    }
}

/// The direction of step `k` of the spiral, counting from leg `leg`, which
/// starts at step `start`: leg `L` has length `L / 2 + 1` and direction
/// `(1 + L) % 4`.
pub open spec fn leg_dir(k: int, leg: nat, start: int) -> int
    decreases k - start,
{
    if k < start + (leg / 2 + 1) as int {
        ((1 + leg) % 4) as int
    } else {
        leg_dir(k, leg + 1, start + (leg / 2 + 1) as int)
    }
}

/// The first `n` offsets of the spiral: `(0, 0)`, then one step at a time
/// along legs of lengths 1, 1, 2, 2, 3, 3, ..., turning up, left, down, right
/// in turn.
pub open spec fn spiral(n: nat) -> Seq<(int, int)>
    decreases n,
{
    if n == 0 {
        Seq::empty()
    } else if n == 1 {
        seq![(0int, 0int)]
    } else {
        let prev = spiral((n - 1) as nat);
        let d = dir_delta(leg_dir(n - 1, 0, 1));
        prev.push((prev.last().0 + d.0, prev.last().1 + d.1))
    }
}

/// Offsets as pairs of integers.
pub open spec fn offsets_view(s: Seq<(i32, i32)>) -> Seq<(int, int)> {
    s.map_values(|p: (i32, i32)| (p.0 as int, p.1 as int))
}

/// An offset whose coordinates are at most the spiral's length.
pub open spec fn small_offset(p: (i32, i32)) -> bool {
    -10201 <= p.0 <= 10201 && -10201 <= p.1 <= 10201
}

/// The spiral of offsets as `get_base_around_50` builds it repeats no
/// offset, and its first `(2k+1)^2` offsets lie at Chebyshev distance at
/// most `k` (that they are all of them is `lemma_spiral_squares`).
proof fn lemma_around_squares(list: Seq<(i32, i32)>)
    requires
        list.len() == 10201,
        offsets_view(list) == spiral(10201),
    ensures
        forall|a: int, b: int| 0 <= a < b < 10201 ==> #[trigger] list[a] != #[trigger] list[b],
        forall|k: int, i: int|
            #![trigger ball_len(k), list[i]]
            0 <= k <= 50 && 0 <= i < ball_len(k) ==> cheb((list[i].0 as int, list[i].1 as int)) <= k,
{
    lemma_spiral_squares();
    let ov = offsets_view(list);
    assert forall|a: int, b: int| 0 <= a < b < 10201 implies #[trigger] list[a] != #[trigger] list[b] by {
        assert(ov[a] != ov[b]);
    }
    assert forall|k: int, i: int|
        #![trigger ball_len(k), list[i]]
        0 <= k <= 50 && 0 <= i < ball_len(k) implies cheb((list[i].0 as int, list[i].1 as int)) <= k by {
        assert(ball_len(k) <= 10201) by (nonlinear_arith)
            requires
                0 <= k <= 50,
        ;
        assert(cheb(spiral(10201)[i]) <= k);
    }
}

/// The spiral of offsets around a cell: its first 10201 entries (see
/// `spiral`).
pub(crate) fn get_base_around_50() -> (list: Vec<(i32, i32)>)
    ensures
        list@.len() == 10201,
        list@[0] == (0i32, 0i32),
        forall|i: int| 0 <= i < list@.len() ==> small_offset(#[trigger] list@[i]),
        offsets_view(list@) == spiral(10201),
        forall|a: int, b: int| 0 <= a < b < 10201 ==> #[trigger] list@[a] != #[trigger] list@[b],
        forall|k: int, i: int|
            #![trigger ball_len(k), list@[i]]
            0 <= k <= 50 && 0 <= i < ball_len(k) ==> cheb((list@[i].0 as int, list@[i].1 as int)) <= k,
{
    let mut list: Vec<(i32, i32)> = Vec::new();
    list.push((0, 0));
    let mut num: i32 = 1;
    let mut dir: i32 = 1;
    let mut x: i32 = 0;
    let mut y: i32 = 0;
    let mut j: i32 = 1;
    let ghost mut leg: nat = 0;
    proof {
        assert(offsets_view(list@) =~= spiral(1));
    }
    while j < 10201
        invariant
            1 <= j <= 10201,
            list@.len() == j,
            1 <= num <= j,
            0 <= dir < 4,
            -j < x < j,
            -j < y < j,
            list@[0] == (0i32, 0i32),
            forall|i: int| 0 <= i < list@.len() ==> small_offset(#[trigger] list@[i]),
            offsets_view(list@) == spiral(j as nat),
            spiral(j as nat).last() == (x as int, y as int),
            leg == 2 * (num - 1),
            dir == (1 + leg) % 4,
            forall|k: int| j <= k ==> #[trigger] leg_dir(k, 0, 1) == leg_dir(k, leg, j as int),
        decreases 10201 - j,
    {
        let ghost jstart = j;
        let mut current_i: i32 = 2;
        while current_i > 0
            invariant
                0 <= current_i <= 2,
                current_i == 2 ==> j >= jstart,
                current_i == 1 ==> j >= jstart + num,
                current_i == 0 ==> j >= jstart + 2 * num,
                jstart >= 1,
                1 <= j <= 10201,
                j < 10201,
                list@.len() == j,
                1 <= num <= j,
                0 <= dir < 4,
                -j < x < j,
                -j < y < j,
                list@[0] == (0i32, 0i32),
                forall|i: int| 0 <= i < list@.len() ==> small_offset(#[trigger] list@[i]),
                offsets_view(list@) == spiral(j as nat),
                spiral(j as nat).last() == (x as int, y as int),
                leg == 2 * (num - 1) + (2 - current_i),
                dir == (1 + leg) % 4,
                forall|k: int| j <= k ==> #[trigger] leg_dir(k, 0, 1) == leg_dir(k, leg, j as int),
            decreases current_i,
        {
            let ghost jin = j;
            let mut step: i32 = 0;
            while step < num
                invariant
                    0 <= step <= num,
                    j == jin + step,
                    1 <= j < 10201,
                    list@.len() == j,
                    1 <= num,
                    num <= j,
                    0 <= dir < 4,
                    -j < x < j,
                    -j < y < j,
                    list@[0] == (0i32, 0i32),
                    forall|i: int| 0 <= i < list@.len() ==> small_offset(#[trigger] list@[i]),
                    offsets_view(list@) == spiral(j as nat),
                    spiral(j as nat).last() == (x as int, y as int),
                    leg == 2 * (num - 1) + (2 - current_i),
                    0 < current_i <= 2,
                    dir == (1 + leg) % 4,
                    forall|k: int| jin <= k ==> #[trigger] leg_dir(k, 0, 1) == leg_dir(k, leg, jin as int),
                decreases num - step,
            {
                proof {
                    assert(leg / 2 + 1 == num);
                    assert(leg_dir(j as int, 0, 1) == leg_dir(j as int, leg, jin as int));
                    assert(leg_dir(j as int, leg, jin as int) == dir);
                }
                let ghost before = list@;
                if dir == 0 {
                    x = x + 1;
                } else if dir == 1 {
                    y = y - 1;
                } else if dir == 2 {
                    x = x - 1;
                } else {
                    y = y + 1;
                }
                list.push((x, y));
                j = j + 1;
                proof {
                    assert(offsets_view(list@) =~= offsets_view(before).push((x as int, y as int)));
                    assert(spiral(j as nat) == spiral((j - 1) as nat).push((x as int, y as int)));
                }
                if j >= 10201 {
                    proof {
                        lemma_around_squares(list@);
                    }
                    return list;
                }
                step = step + 1;
            }
            proof {
                assert forall|k: int| j <= k implies #[trigger] leg_dir(k, 0, 1) == leg_dir(k, (leg + 1) as nat, j as int) by {
                    assert(leg_dir(k, 0, 1) == leg_dir(k, leg, jin as int));
                    assert(leg / 2 + 1 == num);
                }
                leg = leg + 1;
            }
            dir = (dir + 1) % 4;
            current_i = current_i - 1;
        }
        num = num + 1;
    }
    proof {
        lemma_around_squares(list@);
    }
    list
}

/// Truncating division of Rust's `/` (towards zero), for a positive divisor.
pub open spec fn div_tz(a: int, b: int) -> int {
    if a >= 0 {
        a / b
    } else {
        -((-a) / b)
    }
}

/// Rust's remainder `%` (sign of the dividend), for a positive divisor.
pub open spec fn rem_tz(a: int, b: int) -> int {
    if a >= 0 {
        a % b
    } else {
        -((-a) % b)
    }
}

/// The neighbour of `key` in direction `dir` on a `width` x `height` map, or
/// -1: 0 below, 1 above, 2 left, 3 right, and the diagonals 4 (left then
/// up), 5 (right then up), 6 (left then down), 7 (right then down). As in the
/// game, the cell with key 0 is never a vertical neighbour.
pub open spec fn grid_step(width: int, height: int, key: int, dir: u8) -> int
    decreases dir,
{
    let count = width * height;
    if key == -1 {
        -1
    } else if dir == 0 {
        if 0 < key + width < count {
            key + width
        } else {
            -1
        }
    } else if dir == 1 {
        if 0 < key - width < count {
            key - width
        } else {
            -1
        }
    } else if dir == 2 {
        if 0 <= key - 1 < count && div_tz(key, width) == div_tz(key - 1, width) {
            key - 1
        } else {
            -1
        }
    } else if dir == 3 {
        if 0 <= key + 1 < count && div_tz(key, width) == div_tz(key + 1, width) {
            key + 1
        } else {
            -1
        }
    } else if dir == 4 {
        grid_step(width, height, grid_step(width, height, key, 2), 1)
    } else if dir == 5 {
        grid_step(width, height, grid_step(width, height, key, 3), 1)
    } else if dir == 6 {
        grid_step(width, height, grid_step(width, height, key, 2), 0)
    } else if dir == 7 {
        grid_step(width, height, grid_step(width, height, key, 3), 0)
    } else {
        -1
    }
}

/// The order in which a cell's neighbours are listed.
pub open spec fn neighbor_dir(i: int) -> u8 {
    if i == 0 {
        6
    } else if i == 1 {
        4
    } else if i == 2 {
        7
    } else if i == 3 {
        5
    } else if i == 4 {
        1
    } else if i == 5 {
        2
    } else if i == 6 {
        3
    } else {
        0
    }
}

/// The existing neighbours of `key` among the first `n` directions of
/// [`neighbor_dir`], in that order.
pub open spec fn neighbor_list(width: int, height: int, key: int, n: int) -> Seq<int>
    decreases n,
{
    if n <= 0 {
        seq![]
    } else {
        let prev = neighbor_list(width, height, key, n - 1);
        let g = grid_step(width, height, key, neighbor_dir(n - 1));
        if g != -1 {
            prev.push(g)
        } else {
            prev
        }
    }
}

/// The bit of cell column `x` within its word.
pub open spec fn bit_of(x: int) -> u32 {
    (1u32 << ((x % 32) as u32))
}

/// Whether layer `t` holds the cell `(x, y)`.
pub open spec fn cell_bit(bb: Seq<Seq<u32>>, stride: int, t: int, x: int, y: int) -> bool {
    (bb[t][y * stride + x / 32] & bit_of(x)) != 0
}

/// The terrain that the final map shows for a cell: the first kind, in the
/// game's order of precedence, whose layer holds the cell.
pub open spec fn terrain_at(bb: Seq<Seq<u32>>, stride: int, x: int, y: int) -> Terrain {
    if cell_bit(bb, stride, 7, x, y) {
        Terrain::LingSoil
    } else if cell_bit(bb, stride, 9, x, y) {
        Terrain::StoneLand
    } else if cell_bit(bb, stride, 10, x, y) {
        Terrain::RockBrown
    } else if cell_bit(bb, stride, 11, x, y) {
        Terrain::RockGray
    } else if cell_bit(bb, stride, 12, x, y) {
        Terrain::RockMarble
    } else if cell_bit(bb, stride, 13, x, y) {
        Terrain::IronOre
    } else if cell_bit(bb, stride, 14, x, y) {
        Terrain::CopperOre
    } else if cell_bit(bb, stride, 15, x, y) {
        Terrain::SilverOre
    } else if cell_bit(bb, stride, 5, x, y) {
        Terrain::Mud
    } else if cell_bit(bb, stride, 4, x, y) {
        Terrain::ShallowWater
    } else if cell_bit(bb, stride, 2, x, y) {
        Terrain::DepthWater
    } else if cell_bit(bb, stride, 3, x, y) {
        Terrain::DDepthWater
    } else if cell_bit(bb, stride, 6, x, y) {
        Terrain::FertileSoil
    } else if cell_bit(bb, stride, 1, x, y) {
        Terrain::Soil
    } else {
        Terrain::Null
    }
}

/// The number of bit-board words of a `width` x `height` map.
pub open spec fn words_of(width: int, height: int) -> int {
    ((width + 31) / 32) * height
}

/// Bounds on the sizes derived from a map's dimensions.
proof fn lemma_dims(width: int, height: int)
    requires
        1 <= width,
        1 <= height,
        (width + 1) * (height + 1) <= i32::MAX,
    ensures
        width * height + width + height + 1 <= i32::MAX,
        width * height >= width,
        width * height >= height,
        1 <= (width + 31) / 32 <= width,
        words_of(width, height) <= width * height,
        words_of(width, height) >= height,
        width <= 0x7fff_fffe,
        height <= 0x7fff_fffe,
{
    assert((width + 1) * (height + 1) == width * height + width + height + 1) by (nonlinear_arith);
    assert(width * height >= width) by (nonlinear_arith)
        requires
            height >= 1,
            width >= 1,
    ;
    assert(width * height >= height) by (nonlinear_arith)
        requires
            height >= 1,
            width >= 1,
    ;
    let s = (width + 31) / 32;
    assert(s * height <= width * height) by (nonlinear_arith)
        requires
            s <= width,
            height >= 1,
    ;
    assert(s * height >= height) by (nonlinear_arith)
        requires
            s >= 1,
            height >= 1,
    ;
}

/// A map generator: dimensions, generator, bit boards and the final grid.
pub struct MapMaker {
    pub width: i32,
    pub height: i32,
    pub grid: Vec<Terrain>,
    pub rand: GMathUtl,
    pub m_lis_mine_dir: Vec<i32>,
    pub born_space: Vec<bool>,
    pub cache_list: Vec<i32>,
    pub cache_born_line: Vec<bool>,
    pub bb: Vec<Vec<u32>>,
}

impl MapMaker {
    /// Words per row of a bit board.
    pub open spec fn stride(&self) -> int {
        (self.width + 31) / 32
    }

    /// Number of cells.
    pub open spec fn cells(&self) -> int {
        self.width * self.height
    }

    /// Number of words of a bit board.
    pub open spec fn words(&self) -> int {
        words_of(self.width as int, self.height as int)
    }

    /// The bit boards as sequences of words.
    pub open spec fn layers(&self) -> Seq<Seq<u32>> {
        Seq::new(self.bb@.len(), |t: int| self.bb@[t]@)
    }

    /// No cell is held by two of the terrain layers 1 to 15.
    pub open spec fn exclusive(&self) -> bool {
        forall|w: int, t1: int, t2: int|
            0 <= w < self.words() && 1 <= t1 <= 15 && 1 <= t2 <= 15 && t1 != t2 ==> (
            #[trigger] self.bb@[t1]@[w] & #[trigger] self.bb@[t2]@[w]) == 0
    }

    /// The sizes of a generator's parts: 20 bit boards of one word per 32
    /// cells of each row, and one grid entry and two flags per cell.
    pub open spec fn shaped(&self) -> bool {
        &&& Self::valid_dims(self.width, self.height)
        &&& self.bb@.len() == 20
        &&& forall|t: int| 0 <= t < 20 ==> (#[trigger] self.bb@[t])@.len() == self.words()
        &&& self.grid@.len() == self.cells()
        &&& self.born_space@.len() == self.cells()
        &&& self.cache_born_line@.len() == self.cells()
    }

    /// The shape of a map generator: its dimensions leave room for every key
    /// computation, every bit board has one word per 32 cells of each row, the
    /// grid and flags have one entry per cell, the mine path holds valid keys,
    /// and the terrain layers are exclusive.
    pub closed spec fn wf(&self) -> bool {
        &&& Self::valid_dims(self.width, self.height)
        &&& self.bb@.len() == 20
        &&& forall|t: int| 0 <= t < 20 ==> (#[trigger] self.bb@[t])@.len() == self.words()
        &&& self.grid@.len() == self.cells()
        &&& self.born_space@.len() == self.cells()
        &&& self.cache_born_line@.len() == self.cells()
        &&& forall|i: int|
            0 <= i < self.m_lis_mine_dir@.len() ==> 0 < #[trigger] self.m_lis_mine_dir@[i] < self.cells()
        &&& self.exclusive()
    }

    /// The dimensions that a generator can have: at most 65536 on a side and
    /// room for every key computation in an `i32` (the game's arithmetic
    /// overflows beyond).
    pub open spec fn valid_dims(width: i32, height: i32) -> bool {
        1 <= width <= 65536 && 1 <= height <= 65536 && (width + 1) * (height + 1) <= i32::MAX
    }

    /// A generator for a `width` x `height` map seeded with `seed`: empty
    /// grid, no flags, all bit boards clear.
    pub fn new(seed: i32, width: i32, height: i32) -> (r: Self)
        requires
            Self::valid_dims(width, height),
        ensures
            r.wf(),
            r.shaped(),
            r.width == width,
            r.height == height,
            r.rand.sys_random@ == seeded_state(seed),
            r.m_lis_mine_dir@.len() == 0,
            r.layers() == zero_layers(width as int, height as int),
            forall|k: int| 0 <= k < r.cells() ==> #[trigger] r.grid@[k] == Terrain::Null,
            forall|k: int| 0 <= k < r.cells() ==> !#[trigger] r.born_space@[k],
            forall|k: int| 0 <= k < r.cells() ==> !#[trigger] r.cache_born_line@[k],
            forall|t: int, w: int| 0 <= t < 20 && 0 <= w < r.words() ==> #[trigger] r.bb@[t]@[w] == 0,
    {
        proof {
            lemma_dims(width as int, height as int);
            assert(0u32 & 0u32 == 0) by (bit_vector);
        }
        let grid_count = (width * height) as usize;
        let stride = ((width + 31) / 32) as usize;
        let bb_size = stride * height as usize;
        let mut grid: Vec<Terrain> = Vec::new();
        let mut born_space: Vec<bool> = Vec::new();
        let mut cache_born_line: Vec<bool> = Vec::new();
        let mut k: usize = 0;
        while k < grid_count
            invariant
                k <= grid_count,
                grid@.len() == k,
                born_space@.len() == k,
                cache_born_line@.len() == k,
                forall|i: int| 0 <= i < k ==> #[trigger] grid@[i] == Terrain::Null,
                forall|i: int| 0 <= i < k ==> !#[trigger] born_space@[i],
                forall|i: int| 0 <= i < k ==> !#[trigger] cache_born_line@[i],
            decreases grid_count - k,
        {
            grid.push(Terrain::Null);
            born_space.push(false);
            cache_born_line.push(false);
            k = k + 1;
        }
        let mut bb: Vec<Vec<u32>> = Vec::new();
        let mut t: usize = 0;
        while t < 20
            invariant
                t <= 20,
                bb@.len() == t,
                forall|i: int| 0 <= i < t ==> (#[trigger] bb@[i])@.len() == bb_size,
                forall|i: int, w: int| 0 <= i < t && 0 <= w < bb_size ==> #[trigger] bb@[i]@[w] == 0,
            decreases 20 - t,
        {
            let mut layer: Vec<u32> = Vec::new();
            let mut w: usize = 0;
            while w < bb_size
                invariant
                    w <= bb_size,
                    layer@.len() == w,
                    forall|i: int| 0 <= i < w ==> #[trigger] layer@[i] == 0,
                decreases bb_size - w,
            {
                layer.push(0);
                w = w + 1;
            }
            bb.push(layer);
            t = t + 1;
        }
        let r = Self {
            width,
            height,
            rand: GMathUtl::new(seed),
            grid,
            m_lis_mine_dir: Vec::new(),
            born_space,
            cache_list: Vec::new(),
            cache_born_line,
            bb,
        };
        proof {
            assert(r.words() == bb_size);
            let z = zero_layers(width as int, height as int);
            assert forall|t: int| 0 <= t < 20 implies #[trigger] r.layers()[t] == z[t] by {
                assert(r.layers()[t] =~= z[t]);
            }
            assert(r.layers() =~= z);
        }
        r
    }

    /// Reseeds the generator and clears the mine path, the bit boards, the
    /// grid and the flags.
    pub fn reset(&mut self, seed: i32)
        requires
            old(self).wf(),
        ensures
            final(self).wf(),
            final(self).shaped(),
            final(self).width == old(self).width,
            final(self).height == old(self).height,
            final(self).rand.sys_random@ == seeded_state(seed),
            final(self).m_lis_mine_dir@.len() == 0,
            final(self).layers() == zero_layers(final(self).width as int, final(self).height as int),
            forall|k: int| 0 <= k < final(self).cells() ==> #[trigger] final(self).grid@[k] == Terrain::Null,
            forall|k: int| 0 <= k < final(self).cells() ==> !#[trigger] final(self).born_space@[k],
            forall|k: int| 0 <= k < final(self).cells() ==> !#[trigger] final(self).cache_born_line@[k],
            forall|t: int, w: int|
                0 <= t < 20 && 0 <= w < final(self).words() ==> #[trigger] final(self).bb@[t]@[w] == 0,
    {
        self.rand = GMathUtl::new(seed);
        self.m_lis_mine_dir.clear();
        let words = self.bb[0].len();
        let mut t: usize = 0;
        while t < 20
            invariant
                t <= 20,
                words == self.words(),
                self.wf(),
                self.width == old(self).width,
                self.height == old(self).height,
                self.rand.sys_random@ == seeded_state(seed),
                self.m_lis_mine_dir@.len() == 0,
                self.grid == old(self).grid,
                self.born_space == old(self).born_space,
                self.cache_born_line == old(self).cache_born_line,
                forall|i: int, w: int| 0 <= i < t && 0 <= w < words ==> #[trigger] self.bb@[i]@[w] == 0,
            decreases 20 - t,
        {
            let mut w: usize = 0;
            while w < words
                invariant
                    w <= words,
                    t < 20,
                    words == self.words(),
                    self.wf(),
                    self.width == old(self).width,
                    self.height == old(self).height,
                    self.rand.sys_random@ == seeded_state(seed),
                    self.m_lis_mine_dir@.len() == 0,
                    self.grid == old(self).grid,
                    self.born_space == old(self).born_space,
                    self.cache_born_line == old(self).cache_born_line,
                    forall|i: int, v: int| 0 <= i < t && 0 <= v < words ==> #[trigger] self.bb@[i]@[v] == 0,
                    forall|v: int| 0 <= v < w ==> #[trigger] self.bb@[t as int]@[v] == 0,
                decreases words - w,
            {
                let ghost before = self.bb@;
                self.bb[t][w] = 0;
                proof {
                    assert forall|a: int, v: int|
                        0 <= v < self.words() && 1 <= a <= 15 implies #[trigger] self.bb@[a]@[v] & 0 == 0 by {
                        assert(self.bb@[a]@[v] & 0 == 0) by (bit_vector);
                    }
                    assert forall|v: int, t1: int, t2: int|
                        0 <= v < self.words() && 1 <= t1 <= 15 && 1 <= t2 <= 15 && t1 != t2 implies (
                        #[trigger] self.bb@[t1]@[v] & #[trigger] self.bb@[t2]@[v]) == 0 by {
                        let x1 = self.bb@[t1]@[v];
                        let x2 = self.bb@[t2]@[v];
                        if (t1 == t as int && v == w as int) {
                            assert(x1 == 0);
                            assert(0u32 & x2 == 0) by (bit_vector);
                        } else if (t2 == t as int && v == w as int) {
                            assert(x2 == 0);
                            assert(x1 & 0u32 == 0) by (bit_vector);
                        } else {
                            assert(x1 == before[t1]@[v]);
                            assert(x2 == before[t2]@[v]);
                        }
                    }
                }
                w = w + 1;
            }
            t = t + 1;
        }
        self.clear_grid();
        proof {
            let z = zero_layers(self.width as int, self.height as int);
            assert forall|t: int| 0 <= t < 20 implies #[trigger] self.layers()[t] == z[t] by {
                assert(self.layers()[t] =~= z[t]);
            }
            assert(self.layers() =~= z);
        }
    }

    /// Sets every grid cell to `Null` and every flag to false.
    fn clear_grid(&mut self)
        requires
            old(self).wf(),
        ensures
            final(self).wf(),
            final(self).width == old(self).width,
            final(self).height == old(self).height,
            final(self).bb == old(self).bb,
            final(self).rand == old(self).rand,
            final(self).m_lis_mine_dir == old(self).m_lis_mine_dir,
            forall|k: int| 0 <= k < final(self).cells() ==> #[trigger] final(self).grid@[k] == Terrain::Null,
            forall|k: int| 0 <= k < final(self).cells() ==> !#[trigger] final(self).born_space@[k],
            forall|k: int| 0 <= k < final(self).cells() ==> !#[trigger] final(self).cache_born_line@[k],
    {
        let n = self.grid.len();
        let mut k: usize = 0;
        while k < n
            invariant
                k <= n,
                n == self.cells(),
                self.wf(),
                self.width == old(self).width,
                self.height == old(self).height,
                self.bb == old(self).bb,
                self.rand == old(self).rand,
                self.m_lis_mine_dir == old(self).m_lis_mine_dir,
                forall|i: int| 0 <= i < k ==> #[trigger] self.grid@[i] == Terrain::Null,
                forall|i: int| 0 <= i < k ==> !#[trigger] self.born_space@[i],
                forall|i: int| 0 <= i < k ==> !#[trigger] self.cache_born_line@[i],
            decreases n - k,
        {
            self.grid.set(k, Terrain::Null);
            self.born_space.set(k, false);
            self.cache_born_line.set(k, false);
            k = k + 1;
        }
    }

    /// The key of cell `(x, y)`, or -1 outside the map.
    pub fn p2key_safe(&self, x: i32, y: i32) -> (r: i32)
        requires
            self.wf(),
        ensures
            r == if x < 0 || x >= self.width || y < 0 || y >= self.height {
                -1
            } else {
                y * self.width + x
            },
            r == -1 || 0 <= r < self.cells(),
    {
        proof {
            lemma_dims(self.width as int, self.height as int);
        }
        if x < 0 || x >= self.width || y < 0 || y >= self.height {
            return -1;
        }
        proof {
            assert(y * self.width + x < self.width * self.height) by (nonlinear_arith)
                requires
                    0 <= y < self.height,
                    0 <= x < self.width,
            ;
            assert(0 <= y * self.width) by (nonlinear_arith)
                requires
                    0 <= y,
                    0 <= self.width,
            ;
        }
        y * self.width + x
    }

    /// The cell `(key % width, key / width)` of a key (Rust's truncating
    /// division and remainder).
    pub fn key2p(&self, key: i32) -> (r: (i32, i32))
        requires
            self.wf(),
        ensures
            r.0 == rem_tz(key as int, self.width as int),
            r.1 == div_tz(key as int, self.width as int),
    {
        let q = key / self.width;
        let r = key % self.width;
        (r, q)
    }

    /// Whether `key` is a key of the map other than 0.
    pub fn is_valid_key(&self, key: i32) -> (r: bool)
        requires
            self.wf(),
        ensures
            r == (0 < key < self.cells()),
    {
        proof {
            lemma_dims(self.width as int, self.height as int);
        }
        key > 0 && key < self.width * self.height
    }

    /// The neighbour of `key` in direction `dir` (see [`grid_step`]), or -1.
    pub fn get_grid(&self, key: i32, dir: u8) -> (r: i32)
        requires
            self.wf(),
            key == -1 || 0 <= key < self.cells(),
        ensures
            r == grid_step(self.width as int, self.height as int, key as int, dir),
            r == -1 || 0 <= r < self.cells(),
        decreases dir,
    {
        proof {
            lemma_dims(self.width as int, self.height as int);
            lemma_div_tz_nonneg(self.width as int);
            reveal_with_fuel(grid_step, 2);
        }
        if key == -1 {
            return -1;
        }
        let size = self.width;
        let grid_count = size * self.height;
        if dir == 0 {
            let num = key + size;
            if num > 0 && num < grid_count {
                num
            } else {
                -1
            }
        } else if dir == 1 {
            let num = key - size;
            if num > 0 && num < grid_count {
                num
            } else {
                -1
            }
        } else if dir == 2 {
            let num = key - 1;
            if num >= 0 && num < grid_count && (key / size) == (num / size) {
                num
            } else {
                -1
            }
        } else if dir == 3 {
            let num = key + 1;
            if num >= 0 && num < grid_count && (key / size) == (num / size) {
                num
            } else {
                -1
            }
        } else if dir == 4 {
            let num = self.get_grid(key, 2);
            if num != -1 {
                self.get_grid(num, 1)
            } else {
                -1
            }
        } else if dir == 5 {
            let num = self.get_grid(key, 3);
            if num != -1 {
                self.get_grid(num, 1)
            } else {
                -1
            }
        } else if dir == 6 {
            let num = self.get_grid(key, 2);
            if num != -1 {
                self.get_grid(num, 0)
            } else {
                -1
            }
        } else if dir == 7 {
            let num = self.get_grid(key, 3);
            if num != -1 {
                self.get_grid(num, 0)
            } else {
                -1
            }
        } else {
            -1
        }
    }

    /// The existing neighbours of `key`, in the order 6, 4, 7, 5, 1, 2, 3, 0
    /// of [`grid_step`]'s directions, written to the front of `out_keys`;
    /// returns how many there are.
    fn get_cpu_neighbor(&self, key: i32, out_keys: &mut [i32; 8]) -> (count: usize)
        requires
            self.wf(),
            0 <= key < self.cells(),
        ensures
            count <= 8,
            count == neighbor_list(self.width as int, self.height as int, key as int, 8).len(),
            forall|i: int|
                0 <= i < count ==> #[trigger] final(out_keys)@[i] == neighbor_list(
                    self.width as int,
                    self.height as int,
                    key as int,
                    8,
                )[i],
            forall|i: int| 0 <= i < count ==> 0 <= #[trigger] final(out_keys)@[i] < self.cells(),
    {
        let dirs: [u8; 8] = [6, 4, 7, 5, 1, 2, 3, 0];
        let mut count: usize = 0;
        let mut d: usize = 0;
        while d < 8
            invariant
                d <= 8,
                self.wf(),
                0 <= key < self.cells(),
                dirs@ == seq![6u8, 4u8, 7u8, 5u8, 1u8, 2u8, 3u8, 0u8],
                count <= d,
                count == neighbor_list(self.width as int, self.height as int, key as int, d as int).len(),
                forall|i: int|
                    0 <= i < count ==> #[trigger] out_keys@[i] == neighbor_list(
                        self.width as int,
                        self.height as int,
                        key as int,
                        d as int,
                    )[i],
                forall|i: int| 0 <= i < count ==> 0 <= #[trigger] out_keys@[i] < self.cells(),
            decreases 8 - d,
        {
            let dir = dirs[d];
            assert(dir == neighbor_dir(d as int));
            let n = self.get_grid(key, dir);
            if n != -1 {
                out_keys[count] = n;
                count = count + 1;
            }
            d = d + 1;
        }
        count
    }
}

/// Layer `t` after `set_mask(target, word, mask)`: the target gains the bits,
/// the other terrain layers lose them.
pub open spec fn masked_word(old_word: u32, t: int, target: int, mask: u32) -> u32 {
    if t == target {
        old_word | mask
    } else {
        old_word & !mask
    }
}

/// The cells that a class admits in one word, before the row-end mask.
pub open spec fn ctype_base(bb: Seq<Seq<u32>>, w: int, ctype: CType) -> u32 {
    match ctype {
        CType::AllTrue => 0xFFFF_FFFFu32,
        CType::NoBorn => (bb[1][w] | bb[6][w]) & !(bb[16][w] | bb[17][w]),
        CType::CheckCon => bb[1][w] | bb[6][w] | bb[7][w],
        CType::CheckCon2 => !((bb[13][w] | bb[14][w] | bb[15][w] | bb[10][w] | bb[11][w]) | (bb[12][w]
            & !(bb[16][w] | bb[17][w]))),
    }
}

/// The cells that a class admits in one word: the base mask, cut at the right
/// edge of the map in the last word of a row.
pub open spec fn ctype_mask(bb: Seq<Seq<u32>>, width: int, w: int, ctype: CType) -> u32 {
    let stride = (width + 31) / 32;
    let rem = width % 32;
    let base = ctype_base(bb, w, ctype);
    if rem != 0 && w % stride == stride - 1 {
        base & (((1u32 << (rem as u32)) - 1) as u32)
    } else {
        base
    }
}

/// The words of a layer that `fill` sets: full words, and only the columns of
/// the map in the last word of a row.
pub open spec fn full_row_word(width: int, w: int) -> u32 {
    let stride = (width + 31) / 32;
    let rem = width % 32;
    if rem != 0 && w % stride == stride - 1 {
        ((1u32 << (rem as u32)) - 1) as u32
    } else {
        0xFFFF_FFFFu32
    }
}

/// A layer that holds a terrain kind: 1 to 15 but for the unused 8.
pub open spec fn terrain_layer(t: int) -> bool {
    1 <= t <= 15 && t != 8
}

/// A cell held by a terrain layer shows a terrain.
proof fn lemma_terrain_at_some(bb: Seq<Seq<u32>>, stride: int, x: int, y: int, t: int)
    requires
        terrain_layer(t),
        cell_bit(bb, stride, t, x, y),
    ensures
        terrain_at(bb, stride, x, y) != Terrain::Null,
{
}

/// A cell whose terrain layers agree on it shows the same terrain.
proof fn lemma_terrain_at_same(a: Seq<Seq<u32>>, b: Seq<Seq<u32>>, stride: int, x: int, y: int)
    requires
        forall|t: int| 1 <= t <= 15 ==> #[trigger] cell_bit(b, stride, t, x, y) == cell_bit(a, stride, t, x, y),
    ensures
        terrain_at(b, stride, x, y) == terrain_at(a, stride, x, y),
{
    assert(cell_bit(b, stride, 1, x, y) == cell_bit(a, stride, 1, x, y));
    assert(cell_bit(b, stride, 2, x, y) == cell_bit(a, stride, 2, x, y));
    assert(cell_bit(b, stride, 3, x, y) == cell_bit(a, stride, 3, x, y));
    assert(cell_bit(b, stride, 4, x, y) == cell_bit(a, stride, 4, x, y));
    assert(cell_bit(b, stride, 5, x, y) == cell_bit(a, stride, 5, x, y));
    assert(cell_bit(b, stride, 6, x, y) == cell_bit(a, stride, 6, x, y));
    assert(cell_bit(b, stride, 7, x, y) == cell_bit(a, stride, 7, x, y));
    assert(cell_bit(b, stride, 9, x, y) == cell_bit(a, stride, 9, x, y));
    assert(cell_bit(b, stride, 10, x, y) == cell_bit(a, stride, 10, x, y));
    assert(cell_bit(b, stride, 11, x, y) == cell_bit(a, stride, 11, x, y));
    assert(cell_bit(b, stride, 12, x, y) == cell_bit(a, stride, 12, x, y));
    assert(cell_bit(b, stride, 13, x, y) == cell_bit(a, stride, 13, x, y));
    assert(cell_bit(b, stride, 14, x, y) == cell_bit(a, stride, 14, x, y));
    assert(cell_bit(b, stride, 15, x, y) == cell_bit(a, stride, 15, x, y));
}

/// The bits that a mask update leaves alone, and the bit it sets.
proof fn lemma_mask_bits(o: u32, m: u32, b: u32)
    ensures
        m & b != 0 ==> (o | m) & b != 0,
        m & b == 0 ==> (o | m) & b == o & b,
        m & b == 0 ==> (o & !m) & b == o & b,
{
    assert(m & b != 0 ==> (o | m) & b != 0) by (bit_vector);
    assert(m & b == 0 ==> (o | m) & b == o & b) by (bit_vector);
    assert(m & b == 0 ==> (o & !m) & b == o & b) by (bit_vector);
}

/// Coverage carries over when the terrain layers change at most in word
/// `word`, there by a mask update towards a terrain layer.
proof fn lemma_covered_step(a: MapMaker, b: MapMaker, word: int, target: int, mask: u32)
    requires
        a.covered(),
        a.wf(),
        b.wf(),
        a.width == b.width,
        a.height == b.height,
        terrain_layer(target),
        forall|t: int, w: int|
            1 <= t <= 15 && 0 <= w < a.words() && w != word ==> #[trigger] b.bb@[t]@[w] == a.bb@[t]@[w],
        0 <= word < a.words() ==> forall|t: int|
            1 <= t <= 15 ==> #[trigger] b.bb@[t]@[word] == masked_word(a.bb@[t]@[word], t, target, mask),
    ensures
        b.covered(),
{
    let stride = a.stride();
    assert forall|y: int, x: int| 0 <= y < b.height && 0 <= x < b.width implies #[trigger] terrain_at(
        b.layers(),
        b.stride(),
        x,
        y,
    ) != Terrain::Null by {
        lemma_dims(a.width as int, a.height as int);
        lemma_cell_index(a.width as int, a.height as int, stride, x, y);
        let w = y * stride + x / 32;
        let bit = bit_of(x);
        assert(terrain_at(a.layers(), stride, x, y) != Terrain::Null);
        if w == word && mask & bit != 0 {
            lemma_mask_bits(a.bb@[target]@[w], mask, bit);
            assert(b.layers()[target] == b.bb@[target]@);
            assert(cell_bit(b.layers(), stride, target, x, y));
            lemma_terrain_at_some(b.layers(), stride, x, y, target);
        } else {
            assert forall|t: int| 1 <= t <= 15 implies #[trigger] cell_bit(b.layers(), stride, t, x, y) == cell_bit(
                a.layers(),
                stride,
                t,
                x,
                y,
            ) by {
                assert(b.layers()[t] == b.bb@[t]@);
                assert(a.layers()[t] == a.bb@[t]@);
                if w == word {
                    lemma_mask_bits(a.bb@[t]@[w], mask, bit);
                }
            }
            lemma_terrain_at_same(a.layers(), b.layers(), stride, x, y);
        }
    }
}

/// Every cell of the map has its bit in the full word of its row.
proof fn lemma_full_row_bit(width: int, height: int, x: int, y: int)
    requires
        1 <= width,
        1 <= height,
        (width + 1) * (height + 1) <= i32::MAX,
        0 <= x < width,
        0 <= y < height,
    ensures
        full_row_word(width, y * ((width + 31) / 32) + x / 32) & bit_of(x) != 0,
{
    let stride = (width + 31) / 32;
    let w = y * stride + x / 32;
    lemma_dims(width, height);
    assert(x / 32 < stride);
    lemma_mod_multiples_vanish(y, x / 32, stride);
    lemma_small_mod((x / 32) as nat, stride as nat);
    assert(w % stride == x / 32) by {
        assert(w == stride * y + x / 32) by {
            lemma_mul_is_commutative(y, stride);
        }
    }
    let b = (x % 32) as u32;
    let rem = width % 32;
    if rem != 0 && w % stride == stride - 1 {
        assert(x % 32 < rem);
        let r = rem as u32;
        assert(b < r && r < 32 ==> ((1u32 << r) - 1) as u32 & (1u32 << b) != 0) by (bit_vector);
    } else {
        assert(b < 32 ==> 0xFFFF_FFFFu32 & (1u32 << b) != 0) by (bit_vector);
    }
}

proof fn lemma_low_mask_ok(r: u32)
    requires
        1 <= r < 32,
    ensures
        (1u32 << r) >= 1,
{
    assert(1 <= r < 32 ==> (1u32 << r) >= 1) by (bit_vector);
}

proof fn lemma_mask_keeps_exclusive(a: u32, b: u32, m: u32)
    requires
        a & b == 0,
    ensures
        (a | m) & (b & !m) == 0,
        (a & !m) & (b | m) == 0,
        (a & !m) & (b & !m) == 0,
{
    assert((a | m) & (b & !m) == 0) by (bit_vector)
        requires
            a & b == 0,
    ;
    assert((a & !m) & (b | m) == 0) by (bit_vector)
        requires
            a & b == 0,
    ;
    assert((a & !m) & (b & !m) == 0) by (bit_vector)
        requires
            a & b == 0,
    ;
}

/// No cell lies in two of the terrain layers 1 to 15 of `l` (words below
/// `words`).
pub open spec fn terrain_exclusive(l: Seq<Seq<u32>>, words: int) -> bool {
    forall|t1: int, t2: int, w: int|
        1 <= t1 < t2 <= 15 && 0 <= w < words ==> #[trigger] l[t1][w] & #[trigger] l[t2][w] == 0
}

/// Giving the cells of `mask` in word `word` to layer `tgt` (what
/// `MapMaker::set_mask` does to the bit boards, see `set_bit_v`): that word
/// of `tgt` gains the cells, the same word of every other terrain layer
/// loses them, all else stays, and terrain layers that held no cell twice
/// still hold none twice.
pub proof fn lemma_set_bit_law(l: Seq<Seq<u32>>, tgt: int, word: int, mask: u32, words: int)
    requires
        l.len() == 20,
        forall|t: int| 0 <= t < 20 ==> (#[trigger] l[t]).len() == words,
        0 <= word < words,
        1 <= tgt <= 15,
        terrain_exclusive(l, words),
    ensures
        ({
            let r = set_bit_v(l, tgt, word, mask);
            &&& forall|t: int| 1 <= t <= 15 ==> #[trigger] r[t][word] == if t == tgt {
                l[t][word] | mask
            } else {
                l[t][word] & !mask
            }
            &&& forall|t: int, w: int|
                0 <= t < 20 && 0 <= w < words && (w != word || t == 0 || t >= 16) ==> #[trigger] r[t][w] == l[t][w]
            &&& terrain_exclusive(r, words)
        }),
{
    let r = set_bit_v(l, tgt, word, mask);
    assert forall|t1: int, t2: int, w: int| 1 <= t1 < t2 <= 15 && 0 <= w < words implies #[trigger] r[t1][w]
        & #[trigger] r[t2][w] == 0 by {
        assert(l[t1][w] & l[t2][w] == 0);
        lemma_mask_keeps_exclusive(l[t1][w], l[t2][w], mask);
    }
}

impl MapMaker {
    /// Gives the cells of `mask` in `word` to layer `t_target` and takes them
    /// from every other terrain layer (1 to 15).
    fn set_mask(&mut self, t_target: usize, word: usize, mask: u32)
        requires
            old(self).wf(),
            word < old(self).words(),
            t_target < 20,
        ensures
            final(self).wf(),
            final(self).width == old(self).width,
            final(self).height == old(self).height,
            final(self).grid == old(self).grid,
            final(self).born_space == old(self).born_space,
            final(self).cache_born_line == old(self).cache_born_line,
            final(self).rand == old(self).rand,
            final(self).m_lis_mine_dir == old(self).m_lis_mine_dir,
            forall|t: int|
                1 <= t <= 15 ==> #[trigger] final(self).bb@[t]@[word as int] == masked_word(
                    old(self).bb@[t]@[word as int],
                    t,
                    t_target as int,
                    mask,
                ),
            forall|t: int, w: int|
                0 <= t < 20 && 0 <= w < old(self).words() && (w != word || t == 0 || t >= 16)
                    ==> #[trigger] final(self).bb@[t]@[w] == old(self).bb@[t]@[w],
            old(self).covered() && terrain_layer(t_target as int) ==> final(self).covered(),
            final(self).exclusive(),
            final(self).layers() == set_bit_v(old(self).layers(), t_target as int, word as int, mask),
            layers_move(old(self).bb@, final(self).bb@, t_target as int),
            keeps_born_layers(old(self).bb@, final(self).bb@),
            forall|t: int| t == 0 || 16 <= t < 20 ==> #[trigger] final(self).bb@[t]@ == old(self).bb@[t]@,
    {
        let ghost before = self.bb@;
        let mut t: usize = 1;
        while t <= 15
            invariant
                1 <= t <= 16,
                word < self.words(),
                self.width == old(self).width,
                self.height == old(self).height,
                self.grid == old(self).grid,
                self.born_space == old(self).born_space,
                self.cache_born_line == old(self).cache_born_line,
                self.rand == old(self).rand,
                self.m_lis_mine_dir == old(self).m_lis_mine_dir,
                before == old(self).bb@,
                self.bb@.len() == 20,
                forall|i: int| 0 <= i < 20 ==> (#[trigger] self.bb@[i])@.len() == self.words(),
                forall|i: int|
                    1 <= i < t ==> #[trigger] self.bb@[i]@[word as int] == masked_word(
                        before[i]@[word as int],
                        i,
                        t_target as int,
                        mask,
                    ),
                forall|i: int, w: int|
                    0 <= i < 20 && 0 <= w < self.words() && (w != word || i == 0 || i >= t)
                        ==> #[trigger] self.bb@[i]@[w] == before[i]@[w],
            decreases 16 - t,
        {
            if t == t_target {
                self.bb[t][word] = self.bb[t][word] | mask;
            } else {
                self.bb[t][word] = self.bb[t][word] & !mask;
            }
            t = t + 1;
        }
        proof {
            assert(old(self).wf());
            assert forall|tt: int, w: int| 1 <= tt <= 15 && 0 <= w < before[tt]@.len() implies #[trigger] word_moves(
                before[tt]@[w],
                self.bb@[tt]@[w],
                tt,
                t_target as int,
            ) by {
                lemma_word_moves(before[tt]@[w], 0, 0, mask);
            }
            assert forall|w: int, t1: int, t2: int|
                0 <= w < self.words() && 1 <= t1 <= 15 && 1 <= t2 <= 15 && t1 != t2 implies (
                #[trigger] self.bb@[t1]@[w] & #[trigger] self.bb@[t2]@[w]) == 0 by {
                let a = before[t1]@[w];
                let b = before[t2]@[w];
                assert(a & b == 0);
                lemma_mask_keeps_exclusive(a, b, mask);
                if w != word {
                } else if t1 == t_target as int {
                } else if t2 == t_target as int {
                } else {
                }
            }
            if old(self).covered() && terrain_layer(t_target as int) {
                lemma_covered_step(*old(self), *self, word as int, t_target as int, mask);
            }
            assert forall|tt: int| tt == 0 || 16 <= tt < 20 implies #[trigger] self.bb@[tt]@ == before[tt]@ by {
                assert(self.bb@[tt]@ =~= before[tt]@);
            }
            let nl = set_bit_v(old(self).layers(), t_target as int, word as int, mask);
            assert forall|tt: int| 0 <= tt < 20 implies #[trigger] self.layers()[tt] == nl[tt] by {
                assert(self.layers()[tt] =~= nl[tt]);
            }
            assert(self.layers() =~= nl);
        }
    }

    /// The cells of word `w` that class `ctype` admits.
    fn get_ctype_mask(&self, w: usize, ctype: CType) -> (r: u32)
        requires
            self.wf(),
            w < self.words(),
        ensures
            r == ctype_mask(self.layers(), self.width as int, w as int, ctype),
    {
        let mut base: u32 = match ctype {
            CType::AllTrue => 0xFFFFFFFF,
            CType::NoBorn => {
                let fs = self.bb[T_SOIL][w] | self.bb[T_FERTILE_SOIL][w];
                let bp = self.bb[T_BORN_SPACE][w] | self.bb[T_BORN_LINE][w];
                fs & !bp
            },
            CType::CheckCon => { self.bb[T_SOIL][w] | self.bb[T_FERTILE_SOIL][w] | self.bb[T_LING_SOIL][w] },
            CType::CheckCon2 => {
                let bad = self.bb[T_IRON_ORE][w] | self.bb[T_COPPER_ORE][w] | self.bb[T_SILVER_ORE][w]
                    | self.bb[T_ROCK_BROWN][w] | self.bb[T_ROCK_GRAY][w];
                let marble = self.bb[T_ROCK_MARBLE][w];
                let bp = self.bb[T_BORN_SPACE][w] | self.bb[T_BORN_LINE][w];
                !(bad | (marble & !bp))
            },
        };
        let stride = ((self.width + 31) / 32) as usize;
        let rem = self.width % 32;
        if rem != 0 && (w % stride) == stride - 1 {
            proof {
                lemma_low_mask_ok(rem as u32);
            }
            base = base & ((1u32 << (rem as u32)) - 1);
        }
        base
    }

    /// Gives every cell of the map to layer `def` and clears the other
    /// terrain layers.
    fn fill(&mut self, def: Terrain)
        requires
            old(self).wf(),
        ensures
            final(self).wf(),
            final(self).width == old(self).width,
            final(self).height == old(self).height,
            final(self).rand == old(self).rand,
            final(self).m_lis_mine_dir == old(self).m_lis_mine_dir,
            forall|t: int, w: int|
                1 <= t <= 15 && 0 <= w < final(self).words() ==> #[trigger] final(self).bb@[t]@[w] == if t
                    == t_idx(def) {
                    full_row_word(final(self).width as int, w)
                } else {
                    0
                },
            forall|t: int, w: int|
                (t == 0 || 16 <= t < 20) && 0 <= w < final(self).words() ==> #[trigger] final(self).bb@[t]@[w]
                    == old(self).bb@[t]@[w],
            terrain_layer(t_idx(def)) ==> final(self).covered(),
    {
        let def_u = get_t_idx(def);
        let stride = ((self.width + 31) / 32) as usize;
        let rem = self.width % 32;
        let words = self.bb[0].len();
        let ghost before = self.bb@;
        proof {
            lemma_dims(self.width as int, self.height as int);
        }
        let mut t: usize = 1;
        while t <= 15
            invariant
                1 <= t <= 16,
                words == self.words(),
                stride as int == self.stride(),
                rem == self.width % 32,
                def_u == t_idx(def),
                self.width == old(self).width,
                self.height == old(self).height,
                Self::valid_dims(self.width, self.height),
                self.grid == old(self).grid,
                self.born_space == old(self).born_space,
                self.cache_born_line == old(self).cache_born_line,
                self.rand == old(self).rand,
                self.m_lis_mine_dir == old(self).m_lis_mine_dir,
                before == old(self).bb@,
                self.bb@.len() == 20,
                forall|i: int| 0 <= i < 20 ==> (#[trigger] self.bb@[i])@.len() == self.words(),
                forall|i: int, w: int|
                    1 <= i < t && 0 <= w < words ==> #[trigger] self.bb@[i]@[w] == if i == def_u {
                        full_row_word(self.width as int, w)
                    } else {
                        0
                    },
                forall|i: int, w: int|
                    0 <= i < 20 && 0 <= w < words && (i == 0 || i >= t) ==> #[trigger] self.bb@[i]@[w]
                        == before[i]@[w],
            decreases 16 - t,
        {
            let mut w: usize = 0;
            while w < words
                invariant
                    1 <= t <= 15,
                    w <= words,
                    words == self.words(),
                    stride as int == self.stride(),
                    rem == self.width % 32,
                    def_u == t_idx(def),
                    self.width == old(self).width,
                    self.height == old(self).height,
                    Self::valid_dims(self.width, self.height),
                    self.grid == old(self).grid,
                    self.born_space == old(self).born_space,
                    self.cache_born_line == old(self).cache_born_line,
                    self.rand == old(self).rand,
                    self.m_lis_mine_dir == old(self).m_lis_mine_dir,
                    before == old(self).bb@,
                    self.bb@.len() == 20,
                    forall|i: int| 0 <= i < 20 ==> (#[trigger] self.bb@[i])@.len() == self.words(),
                    forall|i: int, v: int|
                        1 <= i < t && 0 <= v < words ==> #[trigger] self.bb@[i]@[v] == if i == def_u {
                            full_row_word(self.width as int, v)
                        } else {
                            0
                        },
                    forall|v: int|
                        0 <= v < w ==> #[trigger] self.bb@[t as int]@[v] == if t == def_u {
                            full_row_word(self.width as int, v)
                        } else {
                            0
                        },
                    forall|i: int, v: int|
                        0 <= i < 20 && 0 <= v < words && (i == 0 || i > t || (i == t && v >= w))
                            ==> #[trigger] self.bb@[i]@[v] == before[i]@[v],
                decreases words - w,
            {
                if t == def_u {
                    if rem != 0 && (w % stride) == stride - 1 {
                        proof {
                            lemma_low_mask_ok(rem as u32);
                        }
                        self.bb[t][w] = (1u32 << (rem as u32)) - 1;
                    } else {
                        self.bb[t][w] = 0xFFFFFFFF;
                    }
                } else {
                    self.bb[t][w] = 0;
                }
                w = w + 1;
            }
            t = t + 1;
        }
        proof {
            assert forall|w: int, t1: int, t2: int|
                0 <= w < self.words() && 1 <= t1 <= 15 && 1 <= t2 <= 15 && t1 != t2 implies (
                #[trigger] self.bb@[t1]@[w] & #[trigger] self.bb@[t2]@[w]) == 0 by {
                let a = self.bb@[t1]@[w];
                let b = self.bb@[t2]@[w];
                if t1 == def_u {
                    assert(b == 0);
                    assert(a & 0u32 == 0) by (bit_vector);
                } else {
                    assert(a == 0);
                    assert(0u32 & b == 0) by (bit_vector);
                }
            }
            if terrain_layer(t_idx(def)) {
                assert forall|y: int, x: int| 0 <= y < self.height && 0 <= x < self.width implies #[trigger] terrain_at(
                    self.layers(),
                    self.stride(),
                    x,
                    y,
                ) != Terrain::Null by {
                    lemma_dims(self.width as int, self.height as int);
                    lemma_cell_index(self.width as int, self.height as int, self.stride(), x, y);
                    lemma_full_row_bit(self.width as int, self.height as int, x, y);
                    assert(self.layers()[def_u as int] == self.bb@[def_u as int]@);
                    assert(cell_bit(self.layers(), self.stride(), def_u as int, x, y));
                    lemma_terrain_at_some(self.layers(), self.stride(), x, y, def_u as int);
                }
            }
        }
    }

    /// Rebuilds the grid and the flags from the bit boards: each cell shows
    /// [`terrain_at`], and the flags mirror the birth layers.
    fn finalize_grid(&mut self)
        requires
            old(self).wf(),
        ensures
            final(self).wf(),
            final(self).width == old(self).width,
            final(self).height == old(self).height,
            final(self).bb == old(self).bb,
            final(self).rand == old(self).rand,
            final(self).m_lis_mine_dir == old(self).m_lis_mine_dir,
            final(self).shows_bit_boards(),
    {
        self.clear_grid();
        let stride = ((self.width + 31) / 32) as usize;
        let width = self.width as usize;
        let height = self.height as usize;
        proof {
            lemma_dims(self.width as int, self.height as int);
        }
        let mut y: usize = 0;
        while y < height
            invariant
                y <= height,
                self.wf(),
                stride as int == self.stride(),
                width == self.width,
                height == self.height,
                self.width == old(self).width,
                self.height == old(self).height,
                self.bb == old(self).bb,
                self.rand == old(self).rand,
                self.m_lis_mine_dir == old(self).m_lis_mine_dir,
                forall|yy: int, xx: int|
                    0 <= yy < y && 0 <= xx < width ==> #[trigger] self.cell_shown(xx, yy),
            decreases height - y,
        {
            let mut x: usize = 0;
            while x < width
                invariant
                    x <= width,
                    y < height,
                    self.wf(),
                    stride as int == self.stride(),
                    width == self.width,
                    height == self.height,
                    self.width == old(self).width,
                    self.height == old(self).height,
                    self.bb == old(self).bb,
                    self.rand == old(self).rand,
                    self.m_lis_mine_dir == old(self).m_lis_mine_dir,
                    forall|yy: int, xx: int|
                        0 <= yy < y && 0 <= xx < width ==> #[trigger] self.cell_shown(xx, yy),
                    forall|xx: int| 0 <= xx < x ==> #[trigger] self.cell_shown(xx, y as int),
                decreases width - x,
            {
                proof {
                    lemma_dims(self.width as int, self.height as int);
                    lemma_cell_index(width as int, height as int, stride as int, x as int, y as int);
                }
                let key = y * width + x;
                let w = y * stride + x / 32;
                let bit: u32 = 1u32 << ((x % 32) as u32);
                let t = if (self.bb[T_LING_SOIL][w] & bit) != 0 {
                    Terrain::LingSoil
                } else if (self.bb[T_STONE_LAND][w] & bit) != 0 {
                    Terrain::StoneLand
                } else if (self.bb[T_ROCK_BROWN][w] & bit) != 0 {
                    Terrain::RockBrown
                } else if (self.bb[T_ROCK_GRAY][w] & bit) != 0 {
                    Terrain::RockGray
                } else if (self.bb[T_ROCK_MARBLE][w] & bit) != 0 {
                    Terrain::RockMarble
                } else if (self.bb[T_IRON_ORE][w] & bit) != 0 {
                    Terrain::IronOre
                } else if (self.bb[T_COPPER_ORE][w] & bit) != 0 {
                    Terrain::CopperOre
                } else if (self.bb[T_SILVER_ORE][w] & bit) != 0 {
                    Terrain::SilverOre
                } else if (self.bb[T_MUD][w] & bit) != 0 {
                    Terrain::Mud
                } else if (self.bb[T_SHALLOW_WATER][w] & bit) != 0 {
                    Terrain::ShallowWater
                } else if (self.bb[T_DEPTH_WATER][w] & bit) != 0 {
                    Terrain::DepthWater
                } else if (self.bb[T_D_DEPTH_WATER][w] & bit) != 0 {
                    Terrain::DDepthWater
                } else if (self.bb[T_FERTILE_SOIL][w] & bit) != 0 {
                    Terrain::FertileSoil
                } else if (self.bb[T_SOIL][w] & bit) != 0 {
                    Terrain::Soil
                } else {
                    Terrain::Null
                };
                let born = (self.bb[T_BORN_SPACE][w] & bit) != 0;
                let line = (self.bb[T_BORN_LINE][w] & bit) != 0;
                let ghost before = *self;
                self.grid.set(key, t);
                self.born_space.set(key, born);
                self.cache_born_line.set(key, line);
                proof {
                    assert(self.layers() == before.layers());
                    assert forall|yy: int, xx: int|
                        0 <= yy < y && 0 <= xx < width implies #[trigger] self.cell_shown(xx, yy) by {
                        assert(before.cell_shown(xx, yy));
                        lemma_cell_index(width as int, height as int, stride as int, xx, yy);
                        lemma_key_distinct(width as int, xx, yy, x as int, y as int);
                    }
                    assert forall|xx: int| 0 <= xx < x + 1 implies #[trigger] self.cell_shown(xx, y as int) by {
                        if xx < x {
                            assert(before.cell_shown(xx, y as int));
                            lemma_cell_index(width as int, height as int, stride as int, xx, y as int);
                            lemma_key_distinct(width as int, xx, y as int, x as int, y as int);
                        }
                    }
                }
                x = x + 1;
            }
            y = y + 1;
        }
    }

    /// The grid and flags entry of cell `(x, y)` show the bit boards.
    pub open spec fn cell_shown(&self, x: int, y: int) -> bool {
        let key = y * self.width + x;
        &&& self.grid@[key] == terrain_at(self.layers(), self.stride(), x, y)
        &&& self.born_space@[key] == cell_bit(self.layers(), self.stride(), 16, x, y)
        &&& self.cache_born_line@[key] == cell_bit(self.layers(), self.stride(), 17, x, y)
    }

    /// Every cell of the grid and flags shows the bit boards.
    pub open spec fn shows_bit_boards(&self) -> bool {
        forall|y: int, x: int|
            0 <= y < self.height && 0 <= x < self.width ==> #[trigger] self.cell_shown(x, y)
    }

    /// Every cell of the map is held by a terrain layer, so that it shows a
    /// terrain (see [`terrain_at`]).
    pub open spec fn covered(&self) -> bool {
        forall|y: int, x: int|
            0 <= y < self.height && 0 <= x < self.width ==> #[trigger] terrain_at(self.layers(), self.stride(), x, y)
                != Terrain::Null
    }
}

/// The key and the word of a cell lie within the map.
proof fn lemma_cell_index(width: int, height: int, stride: int, x: int, y: int)
    requires
        1 <= width,
        1 <= height,
        stride == (width + 31) / 32,
        0 <= x < width,
        0 <= y < height,
    ensures
        0 <= y * width + x < width * height,
        0 <= y * stride + x / 32 < stride * height,
        y * width <= width * height,
{
    assert(y * width + x < width * height) by (nonlinear_arith)
        requires
            0 <= x < width,
            0 <= y < height,
    ;
    assert(0 <= y * width) by (nonlinear_arith)
        requires
            0 <= y,
            0 <= width,
    ;
    assert(y * width <= width * height) by (nonlinear_arith)
        requires
            0 <= y < height,
            0 <= width,
    ;
    assert(x / 32 < stride);
    assert(y * stride + x / 32 < stride * height) by (nonlinear_arith)
        requires
            0 <= x / 32 < stride,
            0 <= y < height,
    ;
    assert(0 <= y * stride) by (nonlinear_arith)
        requires
            0 <= y,
            0 <= stride,
    ;
}

/// Distinct cells have distinct keys.
proof fn lemma_key_distinct(width: int, x1: int, y1: int, x2: int, y2: int)
    requires
        0 <= x1 < width,
        0 <= x2 < width,
        (x1, y1) != (x2, y2),
    ensures
        y1 * width + x1 != y2 * width + x2,
{
    if y1 == y2 {
    } else if y1 < y2 {
        assert(y1 * width + width <= y2 * width) by (nonlinear_arith)
            requires
                y1 < y2,
                0 <= width,
        ;
    } else {
        assert(y2 * width + width <= y1 * width) by (nonlinear_arith)
            requires
                y2 < y1,
                0 <= width,
        ;
    }
}

/// Upper bound on the steps of one mine path. The game's loop walks right
/// with probability 9/10 and ends after about 1.25 map widths; this bound only
/// stops a walk that would otherwise overflow its coordinates.
pub const MINE_DIR_STEP_LIMIT: u32 = 0x400_0000;

/// The key of cell `(x, y)` on a `width` x `height` map, or -1 off the map.
pub open spec fn safe_key(x: int, y: int, width: int, height: int) -> int {
    if x < 0 || x >= width || y < 0 || y >= height {
        -1
    } else {
        y * width + x
    }
}

/// The key of the cell at `pos` along edge `side` of the map (0 the left
/// column, 1 the right column, 2 the top row, 3 the row `width - 1`), or -1
/// off the map.
pub open spec fn born_key(side: int, pos: int, width: int, height: int) -> int {
    if side == 0 {
        safe_key(0, pos, width, height)
    } else if side == 1 {
        safe_key(width - 1, pos, width, height)
    } else if side == 2 {
        safe_key(pos, 0, width, height)
    } else {
        safe_key(pos, width - 1, width, height)
    }
}

/// `layer` with the cell with key `k` set (its word found from the cell's row
/// and column, its bit from `k % 32`), or unchanged for `k < 0`.
pub open spec fn mark_key(layer: Seq<u32>, k: int, width: int, stride: int) -> Seq<u32> {
    if k >= 0 {
        let nw = (k / width) * stride + (k % width) / 32;
        layer.update(nw, layer[nw] | (1u32 << ((k % 32) as u32)))
    } else {
        layer
    }
}

/// One run of the birth line along edge `side` from `num2`, at its `j`-th
/// cell: a draw in `[5, 15)` that exceeds `j` marks the cell at
/// `num2 + j` and goes on; otherwise the run ends. The generator's state and
/// the layer afterwards.
pub open spec fn born_run(
    st: DotNetState,
    side: int,
    num2: int,
    j: nat,
    layer: Seq<u32>,
    width: int,
    height: int,
    stride: int,
) -> (DotNetState, Seq<u32>)
    decreases 15 - j,
{
    let (s1, lim) = range_draw(st, 5, 15);
    if j < lim && j < 15 {
        born_run(
            s1,
            side,
            num2,
            j + 1,
            mark_key(layer, born_key(side, num2 + j, width, height), width, stride),
            width,
            height,
            stride,
        )
    } else {
        (s1, layer)
    }
}

/// The runs of the birth line on the edges `side` to 3, each from a start
/// drawn in `[lo, hi)`.
pub open spec fn born_sides(
    st: DotNetState,
    side: nat,
    layer: Seq<u32>,
    lo: i32,
    hi: i32,
    width: int,
    height: int,
    stride: int,
) -> (DotNetState, Seq<u32>)
    decreases 4 - side,
{
    if side >= 4 {
        (st, layer)
    } else {
        let (s1, num2) = range_draw(st, lo, hi);
        let r = born_run(s1, side as int, num2, 0, layer, width, height, stride);
        born_sides(r.0, side + 1, r.1, lo, hi, width, height, stride)
    }
}

/// A mine path walked from column `i` and row `num` with generator state
/// `st`, after `steps` steps: while the column is left of the right edge
/// (and fewer than the step limit were taken), a draw below 10 in 100 steps
/// one column back, any other one column forward; the row then drifts by a
/// draw in `[-fy, fx]` (where the path began in the lower half, `num2` past
/// half the height) or `[-fx, fy]`; each cell reached that lies on the map
/// and is not the cell with key 0 joins the path. The generator's final
/// state and the cells, in order.
pub open spec fn mine_walk(
    st: DotNetState,
    i: int,
    num: int,
    steps: nat,
    width: int,
    height: int,
    fx: i32,
    fy: i32,
    num2: int,
) -> (DotNetState, Seq<i32>)
    decreases MINE_DIR_STEP_LIMIT - steps,
{
    if !(i < width && steps < MINE_DIR_STEP_LIMIT) {
        (st, Seq::empty())
    } else {
        let (s1, a) = range_draw(st, 0, 100);
        let i2 = if a < 10 { i - 1 } else { i + 1 };
        let (s2, d) = if num2 > height / 2 {
            range_draw(s1, (-fy) as i32, fx)
        } else {
            range_draw(s1, (-fx) as i32, fy)
        };
        let num3 = num + d;
        let key = safe_key(i2, num3, width, height);
        let rest = mine_walk(s2, i2, num3, steps + 1, width, height, fx, fy, num2);
        (rest.0, if 0 < key < width * height { seq![key as i32] + rest.1 } else { rest.1 })
    }
}

/// The cell of a key of the map.
proof fn lemma_key_cell(width: int, height: int, key: int)
    requires
        1 <= width,
        1 <= height,
        0 <= key < width * height,
    ensures
        0 <= key % width < width,
        0 <= key / width < height,
        key == (key / width) * width + key % width,
{
    lemma_fundamental_div_mod(key, width);
    lemma_mod_bound(key, width);
    lemma_div_pos_is_pos(key, width);
    if key / width >= height {
        lemma_mul_inequality(height, key / width, width);
        lemma_mul_is_commutative(key / width, width);
        lemma_mul_is_commutative(height, width);
    }
    lemma_mul_is_commutative(key / width, width);
}

/// A cell's key gives the cell back: for `(x, y)` on the map, `key2p` of
/// `p2key_safe(x, y)` is `(x, y)`.
pub proof fn lemma_key_round_trip(width: int, height: int, x: int, y: int)
    requires
        1 <= width,
        1 <= height,
        0 <= x < width,
        0 <= y < height,
    ensures
        0 <= y * width + x < width * height,
        rem_tz(y * width + x, width) == x,
        div_tz(y * width + x, width) == y,
{
    let stride = (width + 31) / 32;
    lemma_cell_index(width, height, stride, x, y);
    vstd::arithmetic::div_mod::lemma_fundamental_div_mod_converse(y * width + x, width, y, x);
}

/// A key of the map names a cell whose key it is: for `0 <= key < width *
/// height`, `key2p(key)` lies on the map and `p2key_safe` of it is `key`.
pub proof fn lemma_cell_round_trip(width: int, height: int, key: int)
    requires
        1 <= width,
        1 <= height,
        0 <= key < width * height,
    ensures
        0 <= rem_tz(key, width) < width,
        0 <= div_tz(key, width) < height,
        div_tz(key, width) * width + rem_tz(key, width) == key,
{
    lemma_key_cell(width, height, key);
}

impl MapMaker {
    /// Marks one random cell near the lower middle of the map (columns
    /// `[w/10*4, w/10*7]`, rows `[h/10*6, h/10*7]`) as `def`; returns its key,
    /// or -1 when the draw falls outside the map.
    fn born_space_random_fill(&mut self, def: Terrain) -> (key: i32)
        requires
            old(self).wf(),
        ensures
            old(self).covered() && terrain_layer(t_idx(def)) ==> final(self).covered(),
            final(self).wf(),
            final(self).width == old(self).width,
            final(self).height == old(self).height,
            final(self).m_lis_mine_dir == old(self).m_lis_mine_dir,
            key == -1 || 0 <= key < final(self).cells(),
            (final(self).rand.sys_random@, final(self).layers()) == born_fill_result(
                (old(self).rand.sys_random@, old(self).layers()),
                t_idx(def),
                old(self).width as int,
                old(self).height as int,
            ),
    {
        proof {
            lemma_dims(self.width as int, self.height as int);
        }
        let x = self.rand.random_range_int(self.width / 10 * 4, self.width / 10 * 7, RandomType::EmNone, "MakeMap");
        let y = self.rand.random_range_int(self.height / 10 * 6, self.height / 10 * 7, RandomType::EmNone, "MakeMap");
        let key = self.p2key_safe(x, y);
        if key >= 0 && key < self.width * self.height {
            let stride = ((self.width + 31) / 32) as usize;
            proof {
                lemma_cell_index(self.width as int, self.height as int, stride as int, x as int, y as int);
            }
            let nw = (y as usize) * stride + (x as usize) / 32;
            self.set_mask(get_t_idx(def), nw, 1u32 << ((x % 32) as u32));
        }
        key
    }

    /// Walks a mine path from the left edge to the right edge of the map: one
    /// step back with probability 1/10, else one step right, drifting up or
    /// down by up to `fx`/`fy` each step; every valid key passed is recorded.
    fn make_mine_dir(&mut self, fx: i32, fy: i32)
        requires
            old(self).wf(),
            0 <= fx <= 3,
            0 <= fy <= 3,
            old(self).m_lis_mine_dir@.len() <= 0x1800_0000,
        ensures
            final(self).wf(),
            final(self).width == old(self).width,
            final(self).height == old(self).height,
            final(self).m_lis_mine_dir@.len() <= old(self).m_lis_mine_dir@.len() + MINE_DIR_STEP_LIMIT,
            ({
                let (s0, n0) = range_draw(old(self).rand.sys_random@, 0, old(self).height);
                let s1 = range_draw(s0, 0, old(self).height).0;
                let walk = mine_walk(s1, 0, n0, 0, old(self).width as int, old(self).height as int, fx, fy, n0);
                &&& final(self).rand.sys_random@ == walk.0
                &&& final(self).m_lis_mine_dir@ == old(self).m_lis_mine_dir@ + walk.1
            }),
            final(self).bb == old(self).bb,
            final(self).grid == old(self).grid,
            final(self).born_space == old(self).born_space,
            final(self).cache_born_line == old(self).cache_born_line,
            final(self).cache_list == old(self).cache_list,
    {
        let mut i: i32 = 0;
        let mut num = self.rand.random_range_int(0, self.height, RandomType::EmNone, "MakeMineDir");
        let num2 = num;
        let _ = self.rand.random_range_int(0, self.height, RandomType::EmNone, "MakeMineDir");
        let mut steps: u32 = 0;
        let ghost total = mine_walk(
            self.rand.sys_random@,
            0,
            num2 as int,
            0,
            self.width as int,
            self.height as int,
            fx,
            fy,
            num2 as int,
        );
        while i < self.width && steps < MINE_DIR_STEP_LIMIT
            invariant
                ({
                    let cur = mine_walk(
                        self.rand.sys_random@,
                        i as int,
                        num as int,
                        steps as nat,
                        self.width as int,
                        self.height as int,
                        fx,
                        fy,
                        num2 as int,
                    );
                    &&& total.0 == cur.0
                    &&& old(self).m_lis_mine_dir@ + total.1 == self.m_lis_mine_dir@ + cur.1
                }),
                self.bb == old(self).bb,
                self.grid == old(self).grid,
                self.born_space == old(self).born_space,
                self.cache_born_line == old(self).cache_born_line,
                self.cache_list == old(self).cache_list,
                self.wf(),
                self.width == old(self).width,
                self.height == old(self).height,
                0 <= fx <= 3,
                0 <= fy <= 3,
                steps <= MINE_DIR_STEP_LIMIT,
                -(steps as int) <= i <= steps,
                -3 * (steps as int) <= num <= self.height + 3 * (steps as int),
                self.m_lis_mine_dir@.len() <= old(self).m_lis_mine_dir@.len() + steps,
                old(self).m_lis_mine_dir@.len() <= 0x1800_0000,
            decreases MINE_DIR_STEP_LIMIT - steps,
        {
            if self.rand.random_range_int(0, 100, RandomType::EmNone, "MakeMineDir") < 10 {
                i = i - 1;
            } else {
                i = i + 1;
            }
            if num2 > self.height / 2 {
                num = num + self.rand.random_range_int(-fy, fx, RandomType::EmNone, "MakeMineDir");
            } else {
                num = num + self.rand.random_range_int(-fx, fy, RandomType::EmNone, "MakeMineDir");
            }
            let key = self.p2key_safe(i, num);
            let ghost before = self.m_lis_mine_dir@;
            if self.is_valid_key(key) {
                self.m_lis_mine_dir.push(key);
                proof {
                    assert(before.push(key) + mine_walk(
                        self.rand.sys_random@,
                        i as int,
                        num as int,
                        (steps + 1) as nat,
                        self.width as int,
                        self.height as int,
                        fx,
                        fy,
                        num2 as int,
                    ).1 =~= before + (seq![key] + mine_walk(
                        self.rand.sys_random@,
                        i as int,
                        num as int,
                        (steps + 1) as nat,
                        self.width as int,
                        self.height as int,
                        fx,
                        fy,
                        num2 as int,
                    ).1));
                }
            }
            steps = steps + 1;
        }
        proof {
            assert(self.m_lis_mine_dir@ + Seq::<i32>::empty() =~= self.m_lis_mine_dir@);
        }
    }

    /// Sets the cells of `mask` in word `nw` to layer `def_u` where class
    /// `ctype` admits them.
    fn set_where_admitted(&mut self, def_u: usize, nw: usize, n_bit: u32, ctype: CType)
        requires
            old(self).wf(),
            nw < old(self).words(),
            def_u < 20,
        ensures
            old(self).covered() && terrain_layer(def_u as int) ==> final(self).covered(),
            final(self).wf(),
            layers_move(old(self).bb@, final(self).bb@, def_u as int),
            keeps_born_layers(old(self).bb@, final(self).bb@),
            final(self).width == old(self).width,
            final(self).height == old(self).height,
            final(self).rand == old(self).rand,
            final(self).m_lis_mine_dir == old(self).m_lis_mine_dir,
            final(self).layers() == mm_admit(old(self).layers(), def_u as int, nw as int, n_bit, ctype, old(self).width as int),
            ctype_mask(old(self).layers(), old(self).width as int, nw as int, ctype) & n_bit == 0 ==> *final(self)
                == *old(self),
            ctype_mask(old(self).layers(), old(self).width as int, nw as int, ctype) & n_bit != 0 ==> {
                &&& final(self).grid == old(self).grid
                &&& final(self).born_space == old(self).born_space
                &&& final(self).cache_born_line == old(self).cache_born_line
                &&& forall|t: int|
                    1 <= t <= 15 ==> #[trigger] final(self).bb@[t]@[nw as int] == masked_word(
                        old(self).bb@[t]@[nw as int],
                        t,
                        def_u as int,
                        n_bit,
                    )
                &&& forall|t: int, w: int|
                    0 <= t < 20 && 0 <= w < old(self).words() && (w != nw || t == 0 || t >= 16)
                        ==> #[trigger] final(self).bb@[t]@[w] == old(self).bb@[t]@[w]
            },
    {
        if (self.get_ctype_mask(nw, ctype) & n_bit) != 0 {
            self.set_mask(def_u, nw, n_bit);
        } else {
            proof {
                lemma_layers_move_none(old(self).bb@, self.bb@, def_u as int);
            }
        }
    }

    /// Draws `size` points along the mine paths (each moved to a random
    /// neighbour), marks them `def` where `ctype` admits them, and widens the
    /// result with [`Self::out_line`].
    #[verifier::spinoff_prover]
    #[verifier::rlimit(50)]
    fn random_line_from_mine_dir(&mut self, w: i32, size: i32, def: Terrain, ctype: CType)
        requires
            old(self).wf(),
            0 <= w <= 1024,
            old(self).m_lis_mine_dir@.len() <= 0x7000_0000,
        ensures
            old(self).covered() && terrain_layer(t_idx(def)) ==> final(self).covered(),
            final(self).wf(),
            layers_move(old(self).bb@, final(self).bb@, t_idx(def)),
            keeps_born_layers(old(self).bb@, final(self).bb@),
            final(self).width == old(self).width,
            final(self).height == old(self).height,
            final(self).m_lis_mine_dir == old(self).m_lis_mine_dir,
            (final(self).rand.sys_random@, final(self).layers()) == mm_line_result(
                old(self).rand.sys_random@,
                old(self).layers(),
                old(self).m_lis_mine_dir@,
                w as int,
                size,
                t_idx(def),
                ctype,
                old(self).width as int,
                old(self).height as int,
            ),
    {
        proof {
            reveal(mm_line_result);
        }
        proof {
            lemma_layers_move_none(old(self).bb@, self.bb@, t_idx(def));
        }
        if self.m_lis_mine_dir.len() == 0 {
            return;
        }
        let def_u = get_t_idx(def);
        let stride = ((self.width + 31) / 32) as usize;
        let len = self.m_lis_mine_dir.len();
        let mut num = self.rand.random_range_int(0, len as i32, RandomType::EmNone, "MakeMap") as usize;
        let ghost mine = self.m_lis_mine_dir@;
        let ghost pts = mm_line_points((self.rand.sys_random@, self.layers()), num as int, size as int, mine, def_u as int, ctype, self.width as int, self.height as int);
        let mut s: i32 = 0;
        while s < size
            invariant
                mm_line_points((self.rand.sys_random@, self.layers()), num as int, size - s, mine, def_u as int, ctype, self.width as int, self.height as int) == pts,
                mine == self.m_lis_mine_dir@,
                old(self).covered() && terrain_layer(t_idx(def)) ==> self.covered(),
                def_u == t_idx(def),
                self.wf(),
                layers_move(old(self).bb@, self.bb@, t_idx(def)),
                keeps_born_layers(old(self).bb@, self.bb@),
                old(self).wf(),
                self.width == old(self).width,
                self.height == old(self).height,
                self.m_lis_mine_dir == old(self).m_lis_mine_dir,
                len == self.m_lis_mine_dir@.len(),
                0 < len <= 0x7000_0000,
                def_u < 20,
                stride as int == self.stride(),
                num <= len + (s as int) + 1,
                s <= size || size < 0,
                0 <= s,
            decreases size - s,
        {
            proof {
                lemma_dims(self.width as int, self.height as int);
            }
            if num >= len {
                num = self.rand.random_range_int(0, len as i32, RandomType::EmNone, "MakeMap") as usize;
            }
            // A draw equal to the bound (only for a generator entry of i32::MAX)
            // would index one past the path; the last point is taken then.
            let idx = if num < len {
                num
            } else {
                len - 1
            };
            let mut key = self.m_lis_mine_dir[idx];
            num = num + 1;
            let mut v_keys = [0i32; 8];
            let n_count = self.get_cpu_neighbor(key, &mut v_keys);
            if n_count > 0 {
                let pick = self.rand.random_range_int(0, n_count as i32, RandomType::EmNone, "MakeMap") as usize;
                let pick = if pick < n_count {
                    pick
                } else {
                    n_count - 1
                };
                key = v_keys[pick];
            }
            if key >= 0 && key < self.width * self.height {
                proof {
                    lemma_dims(self.width as int, self.height as int);
                    lemma_key_cell(self.width as int, self.height as int, key as int);
                    lemma_cell_index(
                        self.width as int,
                        self.height as int,
                        stride as int,
                        (key % self.width) as int,
                        (key / self.width) as int,
                    );
                }
                let key_x = key % self.width;
                let key_y = key / self.width;
                let nw = (key_y as usize) * stride + (key_x as usize) / 32;
                let nbit = 1u32 << ((key_x % 32) as u32);
                let ghost pre = self.bb@;
                self.set_where_admitted(def_u, nw, nbit, ctype);
                proof {
                    lemma_layers_move_trans(old(self).bb@, pre, self.bb@, t_idx(def));
                }
            }
            s = s + 1;
        }
        let ghost pre = self.bb@;
        self.out_line(def, def, w, 4, 0, ctype);
        proof {
            lemma_layers_move_trans(old(self).bb@, pre, self.bb@, t_idx(def));
        }
    }

    /// Spreads layer `src` into `t_target`: for every cell of `src` (but the
    /// cell with key 0), from the last word to the first and the highest bit
    /// to the lowest, each cell of the `(2w+1) x (2w+1)` square around it, in
    /// spiral order, is taken with probability `(lv + 1) / 100` where `ctype`
    /// admits it. With `maxcount > 0` it stops after that many cells; callers
    /// pass 0, which never stops early.
    #[verifier::spinoff_prover]
    #[verifier::rlimit(40)]
    fn out_line(&mut self, src: Terrain, t_target: Terrain, w: i32, lv: i32, maxcount: i32, ctype: CType)
        requires
            old(self).wf(),
            0 <= w <= 1024,
        ensures
            old(self).covered() && terrain_layer(t_idx(t_target)) ==> final(self).covered(),
            final(self).wf(),
            layers_move(old(self).bb@, final(self).bb@, t_idx(t_target)),
            keeps_born_layers(old(self).bb@, final(self).bb@),
            final(self).bb@[T_TMP_1 as int]@ == old(self).bb@[t_idx(src)]@,
            (final(self).rand.sys_random@, final(self).layers()) == mm_out_line_result(
                old(self).rand.sys_random@,
                old(self).layers(),
                t_idx(src),
                t_idx(t_target),
                w as int,
                lv,
                maxcount,
                ctype,
                old(self).width as int,
                old(self).height as int,
            ),
            final(self).width == old(self).width,
            final(self).height == old(self).height,
            final(self).m_lis_mine_dir == old(self).m_lis_mine_dir,
    {
        proof {
            lemma_layers_move_none(old(self).bb@, self.bb@, t_idx(t_target));
        }
        let src_u = get_t_idx(src);
        let target_u = get_t_idx(t_target);
        let words = self.bb[0].len();
        proof {
            lemma_dims(self.width as int, self.height as int);
        }
        let mut k: usize = 0;
        while k < words
            invariant
                old(self).covered() && terrain_layer(t_idx(t_target)) ==> self.covered(),
                target_u == t_idx(t_target),
                k <= words,
                words == self.words(),
                src_u < 20,
                src_u == t_idx(src),
                self.bb@[T_TMP_1 as int]@.len() == words,
                forall|v: int| 0 <= v < k ==> #[trigger] self.bb@[T_TMP_1 as int]@[v] == old(self).bb@[src_u as int]@[v],
                forall|t: int| 0 <= t < 16 ==> #[trigger] self.bb@[t]@ == old(self).bb@[t]@,
                forall|t: int| 0 <= t < 20 && t != T_TMP_1 ==> #[trigger] self.bb@[t] == old(self).bb@[t],
                self.rand == old(self).rand,
                self.wf(),
                layers_move(old(self).bb@, self.bb@, t_idx(t_target)),
                keeps_born_layers(old(self).bb@, self.bb@),
                old(self).wf(),
                self.width == old(self).width,
                self.height == old(self).height,
                self.m_lis_mine_dir == old(self).m_lis_mine_dir,
            decreases words - k,
        {
            let v = self.bb[src_u][k];
            let ghost pre = self.bb@;
            self.write_scratch(T_TMP_1, k, v);
            proof {
                lemma_layers_move_none(pre, self.bb@, t_idx(t_target));
                lemma_layers_move_trans(old(self).bb@, pre, self.bb@, t_idx(t_target));
            }
            k = k + 1;
        }
        let ghost tmp = old(self).layers()[src_u as int];
        proof {
            reveal(mm_out_line_result);
            assert(self.bb@[T_TMP_1 as int]@ =~= old(self).bb@[src_u as int]@);
            assert forall|t: int| 0 <= t < 20 implies #[trigger] self.layers()[t] == old(self).layers().update(
                T_TMP_1 as int,
                tmp,
            )[t] by {
                if t != T_TMP_1 {
                    assert(self.bb@[t] == old(self).bb@[t]);
                }
            }
            assert(self.layers() =~= old(self).layers().update(T_TMP_1 as int, tmp));
            assert(0 <= (w * 2 + 1) * (w * 2 + 1) <= 2049 * 2049) by (nonlinear_arith)
                requires
                    0 <= w <= 1024,
            ;
        }
        let limit = ((w * 2 + 1) * (w * 2 + 1)) as usize;
        let around = get_base_around_50();
        let end = if limit < around.len() {
            limit
        } else {
            around.len()
        };
        let mut remaining = maxcount;
        let stride = ((self.width + 31) / 32) as usize;
        let ghost p: MOutParams = (t_idx(t_target), end as int, lv, maxcount, ctype, self.width as int, self.height as int);
        let ghost total = mm_out_words(
            (self.rand.sys_random@, self.layers(), remaining as int, false),
            words as int,
            tmp,
            p,
        );
        proof {
            reveal(mm_out_line_result);
            assert((total.0, total.1) == mm_out_line_result(
                old(self).rand.sys_random@,
                old(self).layers(),
                t_idx(src),
                t_idx(t_target),
                w as int,
                lv,
                maxcount,
                ctype,
                old(self).width as int,
                old(self).height as int,
            ));
        }
        let mut word = words;
        while word > 0
            invariant
                mm_out_words((self.rand.sys_random@, self.layers(), remaining as int, false), word as int, tmp, p) == total,
                p == (t_idx(t_target), end as int, lv, maxcount, ctype, self.width as int, self.height as int),
                (total.0, total.1) == mm_out_line_result(old(self).rand.sys_random@, old(self).layers(), t_idx(src), t_idx(t_target), w as int, lv, maxcount, ctype, old(self).width as int, old(self).height as int),
                offsets_view(around@) == spiral(10201),
                tmp == old(self).layers()[t_idx(src)],
                maxcount > 0 ==> remaining >= 1,
                old(self).covered() && terrain_layer(t_idx(t_target)) ==> self.covered(),
                target_u == t_idx(t_target),
                word <= words,
                words == self.words(),
                stride as int == self.stride(),
                end <= around@.len(),
                around@.len() == 10201,
                forall|i: int| 0 <= i < around@.len() ==> small_offset(#[trigger] around@[i]),
                target_u < 20,
                maxcount > 0 ==> remaining >= 1,
                self.wf(),
                layers_move(old(self).bb@, self.bb@, t_idx(t_target)),
                keeps_born_layers(old(self).bb@, self.bb@),
                self.bb@[T_TMP_1 as int]@ == old(self).bb@[t_idx(src)]@,
                old(self).wf(),
                self.width == old(self).width,
                self.height == old(self).height,
                self.m_lis_mine_dir == old(self).m_lis_mine_dir,
            decreases word,
        {
            word = word - 1;
            let mut mask = self.bb[T_TMP_1][word];
            if word == 0 {
                mask = mask & !1u32;
            }
            let mut b: u32 = 32;
            while b > 0
                invariant
                    mm_out_words(
                        mm_out_bits((self.rand.sys_random@, self.layers(), remaining as int, false), word as int, b as int, mask, p),
                        word as int,
                        tmp,
                        p,
                    ) == total,
                    mask == if word == 0 { tmp[0] & !1u32 } else { tmp[word as int] },
                    p == (t_idx(t_target), end as int, lv, maxcount, ctype, self.width as int, self.height as int),
                    (total.0, total.1) == mm_out_line_result(old(self).rand.sys_random@, old(self).layers(), t_idx(src), t_idx(t_target), w as int, lv, maxcount, ctype, old(self).width as int, old(self).height as int),
                    offsets_view(around@) == spiral(10201),
                    tmp == old(self).layers()[t_idx(src)],
                    old(self).covered() && terrain_layer(t_idx(t_target)) ==> self.covered(),
                    target_u == t_idx(t_target),
                    b <= 32,
                    word < words,
                    words == self.words(),
                    stride as int == self.stride(),
                    end <= around@.len(),
                    around@.len() == 10201,
                    forall|i: int| 0 <= i < around@.len() ==> small_offset(#[trigger] around@[i]),
                    target_u < 20,
                    maxcount > 0 ==> remaining >= 1,
                    self.wf(),
                    layers_move(old(self).bb@, self.bb@, t_idx(t_target)),
                    keeps_born_layers(old(self).bb@, self.bb@),
                    self.bb@[T_TMP_1 as int]@ == old(self).bb@[t_idx(src)]@,
                    old(self).wf(),
                    self.width == old(self).width,
                    self.height == old(self).height,
                    self.m_lis_mine_dir == old(self).m_lis_mine_dir,
                decreases b,
            {
                b = b - 1;
                if (mask >> b) & 1 == 1 {
                    proof {
                        lemma_dims(self.width as int, self.height as int);
                        lemma_word_cell(stride as int, self.height as int, word as int);
                    }
                    let cx = ((word % stride) * 32 + b as usize) as i32;
                    let cy = (word / stride) as i32;
                    if cx < self.width {
                        let mut i: usize = 0;
                        while i < end
                            invariant
                                mm_out_words(
                                    mm_out_bits(
                                        mm_out_offsets(
                                            (self.rand.sys_random@, self.layers(), remaining as int, false),
                                            cx as int,
                                            cy as int,
                                            i as int,
                                            p,
                                        ),
                                        word as int,
                                        b as int,
                                        mask,
                                        p,
                                    ),
                                    word as int,
                                    tmp,
                                    p,
                                ) == total,
                                cx as int == (word as int % (stride as int)) * 32 + b,
                                cy as int == word as int / (stride as int),
                                word < words,
                                b < 32,
                                mask == if word == 0 { tmp[0] & !1u32 } else { tmp[word as int] },
                                p == (t_idx(t_target), end as int, lv, maxcount, ctype, self.width as int, self.height as int),
                                (total.0, total.1) == mm_out_line_result(old(self).rand.sys_random@, old(self).layers(), t_idx(src), t_idx(t_target), w as int, lv, maxcount, ctype, old(self).width as int, old(self).height as int),
                                offsets_view(around@) == spiral(10201),
                                tmp == old(self).layers()[t_idx(src)],
                                old(self).covered() && terrain_layer(t_idx(t_target)) ==> self.covered(),
                                target_u == t_idx(t_target),
                                i <= end,
                                end <= around@.len(),
                                around@.len() == 10201,
                                forall|j: int| 0 <= j < around@.len() ==> small_offset(#[trigger] around@[j]),
                                0 <= cx < self.width,
                                0 <= cy < self.height,
                                stride as int == self.stride(),
                                target_u < 20,
                                maxcount > 0 ==> remaining >= 1,
                                self.wf(),
                                layers_move(old(self).bb@, self.bb@, t_idx(t_target)),
                                keeps_born_layers(old(self).bb@, self.bb@),
                                self.bb@[T_TMP_1 as int]@ == old(self).bb@[t_idx(src)]@,
                                old(self).wf(),
                                self.width == old(self).width,
                                self.height == old(self).height,
                                self.m_lis_mine_dir == old(self).m_lis_mine_dir,
                            decreases end - i,
                        {
                            let ghost st0: MOutState = (self.rand.sys_random@, self.layers(), remaining as int, false);
                            let (dx, dy) = around[i];
                            assert(small_offset(around@[i as int]));
                            assert(offsets_view(around@)[i as int] == (dx as int, dy as int));
                            let nx = cx + dx;
                            let ny = cy + dy;
                            if nx >= 0 && nx < self.width && ny >= 0 && ny < self.height {
                                if !(nx == 0 && ny == 0) {
                                    if self.rand.random_range_int(0, 100, RandomType::EmNone, "OutLine") <= lv {
                                        proof {
                                            lemma_dims(self.width as int, self.height as int);
                                            lemma_cell_index(
                                                self.width as int,
                                                self.height as int,
                                                stride as int,
                                                nx as int,
                                                ny as int,
                                            );
                                        }
                                        let nw = (ny as usize) * stride + (nx as usize) / 32;
                                        let n_bit = 1u32 << ((nx % 32) as u32);
                                        if (self.get_ctype_mask(nw, ctype) & n_bit) != 0 {
                                            let ghost pre = self.bb@;
                                            self.set_mask(target_u, nw, n_bit);
                                            proof {
                                                lemma_layers_move_trans(old(self).bb@, pre, self.bb@, t_idx(t_target));
                                            }
                                            if maxcount > 0 {
                                                remaining = remaining - 1;
                                                if remaining == 0 {
                                                    proof {
                                                        let done: MOutState = (self.rand.sys_random@, self.layers(), 0int, true);
                                                        assert(mm_out_offsets(st0, cx as int, cy as int, i as int, p) == done);
                                                        assert(mm_out_bits(done, word as int, b as int, mask, p) == done);
                                                        assert(mm_out_words(done, word as int, tmp, p) == done);
                                                    }
                                                    return;
                                                }
                                            }
                                        }
                                    }
                                }
                            }
                            i = i + 1;
                        }
                    }
                }
            }
        }
    }
}

/// The state of a widening pass of the map generator: the generator, the
/// layers, the takes still allowed, and whether the pass has stopped at its
/// limit.
pub type MOutState = (DotNetState, Seq<Seq<u32>>, int, bool);

/// The parameters of a widening pass: target layer, number of spiral
/// offsets, take level, take limit, class, width and height of the map.
pub type MOutParams = (int, int, i32, i32, CType, int, int);

/// The spiral offsets from the `i`-th on (before `p.1`) around the cell
/// `(cx, cy)`: each one on the map but the corner `(0, 0)` draws in
/// `[0, 100)`; a draw of at most the level takes the cell where the class
/// admits it; with a positive limit, the take that uses the last one stops
/// the whole pass.
pub open spec fn mm_out_offsets(st: MOutState, cx: int, cy: int, i: int, p: MOutParams) -> MOutState
    decreases p.1 - i,
{
    if st.3 || i < 0 || i >= p.1 {
        st
    } else {
        let off = spiral(10201)[i];
        let nx = cx + off.0;
        let ny = cy + off.1;
        if 0 <= nx < p.5 && 0 <= ny < p.6 && !(nx == 0 && ny == 0) {
            let (r1, v) = range_draw(st.0, 0, 100);
            if v <= p.2 {
                let nw = ny * ((p.5 + 31) / 32) + nx / 32;
                let bit = 1u32 << ((nx % 32) as u32);
                if ctype_mask(st.1, p.5, nw, p.4) & bit != 0 {
                    let l2 = set_bit_v(st.1, p.0, nw, bit);
                    if p.3 > 0 && st.2 - 1 == 0 {
                        (r1, l2, 0, true)
                    } else {
                        mm_out_offsets((r1, l2, if p.3 > 0 { st.2 - 1 } else { st.2 }, false), cx, cy, i + 1, p)
                    }
                } else {
                    mm_out_offsets((r1, st.1, st.2, false), cx, cy, i + 1, p)
                }
            } else {
                mm_out_offsets((r1, st.1, st.2, false), cx, cy, i + 1, p)
            }
        } else {
            mm_out_offsets(st, cx, cy, i + 1, p)
        }
    }
}

/// The cells of bits `b - 1` down to 0 of word `word` in `mask` that lie on
/// the map, each widened (see `mm_out_offsets`).
pub open spec fn mm_out_bits(st: MOutState, word: int, b: int, mask: u32, p: MOutParams) -> MOutState
    decreases b,
{
    if st.3 || b <= 0 {
        st
    } else {
        let stride = (p.5 + 31) / 32;
        let cx = (word % stride) * 32 + (b - 1);
        let cy = word / stride;
        let st1 = if (mask >> ((b - 1) as u32)) & 1u32 == 1u32 && cx < p.5 {
            mm_out_offsets(st, cx, cy, 0, p)
        } else {
            st
        };
        mm_out_bits(st1, word, b - 1, mask, p)
    }
}

/// The cells of the source words `word - 1` down to 0 (without the cell
/// `(0, 0)`), each widened.
pub open spec fn mm_out_words(st: MOutState, word: int, src: Seq<u32>, p: MOutParams) -> MOutState
    decreases word,
{
    if st.3 || word <= 0 {
        st
    } else {
        let w1 = word - 1;
        let mask = if w1 == 0 {
            src[0] & !1u32
        } else {
            src[w1]
        };
        mm_out_words(mm_out_bits(st, w1, 32, mask, p), w1, src, p)
    }
}

/// The generator's state and the layers after `MapMaker::out_line` on a map
/// of `width` by `height` cells.
#[verifier::opaque]
pub open spec fn mm_out_line_result(
    rng: DotNetState,
    l: Seq<Seq<u32>>,
    src: int,
    tgt: int,
    w: int,
    lv: i32,
    maxcount: i32,
    ctype: CType,
    width: int,
    height: int,
) -> (DotNetState, Seq<Seq<u32>>) {
    let l1 = l.update(T_TMP_1 as int, l[src]);
    let end = if (2 * w + 1) * (2 * w + 1) < 10201 { (2 * w + 1) * (2 * w + 1) } else { 10201 };
    let r = mm_out_words(
        (rng, l1, maxcount as int, false),
        l[0].len() as int,
        l[src],
        (tgt, end, lv, maxcount, ctype, width, height),
    );
    (r.0, r.1)
}

/// The cell of a word: its row is below the height and its first column
/// below the stride's width.
proof fn lemma_word_cell(stride: int, height: int, word: int)
    requires
        1 <= stride,
        1 <= height,
        0 <= word < stride * height,
    ensures
        0 <= word / stride < height,
        0 <= word % stride < stride,
{
    lemma_key_cell(stride, height, word);
}

/// The terrain layers (1 to 15) go from `a` to `b` by moves of cells into
/// layer `target`: it only gains cells, every other terrain layer only loses
/// cells.
pub open spec fn layers_move(a: Seq<Vec<u32>>, b: Seq<Vec<u32>>, target: int) -> bool {
    forall|t: int, w: int| 1 <= t <= 15 && 0 <= w < a[t]@.len() ==> #[trigger] word_moves(a[t]@[w], b[t]@[w], t, target)
}

/// Layer 0 and the birth layers (16 and 17) are the same in `a` and `b`.
pub open spec fn keeps_born_layers(a: Seq<Vec<u32>>, b: Seq<Vec<u32>>) -> bool {
    &&& a[0]@ == b[0]@
    &&& a[T_BORN_SPACE as int]@ == b[T_BORN_SPACE as int]@
    &&& a[T_BORN_LINE as int]@ == b[T_BORN_LINE as int]@
}

proof fn lemma_layers_move_trans(a: Seq<Vec<u32>>, b: Seq<Vec<u32>>, c: Seq<Vec<u32>>, target: int)
    requires
        layers_move(a, b, target),
        layers_move(b, c, target),
        forall|t: int| 1 <= t <= 15 ==> (#[trigger] a[t])@.len() == b[t]@.len(),
    ensures
        layers_move(a, c, target),
{
    assert forall|t: int, w: int| 1 <= t <= 15 && 0 <= w < a[t]@.len() implies #[trigger] word_moves(
        a[t]@[w],
        c[t]@[w],
        t,
        target,
    ) by {
        assert(word_moves(a[t]@[w], b[t]@[w], t, target));
        assert(word_moves(b[t]@[w], c[t]@[w], t, target));
        lemma_word_moves(a[t]@[w], b[t]@[w], c[t]@[w], 0);
        lemma_word_moves(c[t]@[w], b[t]@[w], a[t]@[w], 0);
    }
}

proof fn lemma_layers_move_none(a: Seq<Vec<u32>>, b: Seq<Vec<u32>>, target: int)
    requires
        forall|t: int| 1 <= t <= 15 ==> (#[trigger] a[t])@ == b[t]@,
    ensures
        layers_move(a, b, target),
{
    assert forall|t: int, w: int| 1 <= t <= 15 && 0 <= w < a[t]@.len() implies #[trigger] word_moves(
        a[t]@[w],
        b[t]@[w],
        t,
        target,
    ) by {
        assert(a[t]@ == b[t]@);
        lemma_word_moves(a[t]@[w], 0, 0, 0);
    }
}

/// A draw in `[0, 100)` from a generator in state `st`.
pub open spec fn percent_draw(st: DotNetState) -> int {
    let n = draw_int(st).1;
    if n <= 0 {
        0
    } else {
        sample_product(n as nat, 100) as int
    }
}

/// Bit `i` of `x`.
pub open spec fn bit_at(x: u32, i: u32) -> u32 {
    (x >> i) & 1u32
}

/// The 4-bit count at bit `i` of the bit planes `b0` (lowest) to `b3`.
pub open spec fn plane_count(b0: u32, b1: u32, b2: u32, b3: u32, i: u32) -> int {
    8 * bit_at(b3, i) + 4 * bit_at(b2, i) + 2 * bit_at(b1, i) + bit_at(b0, i)
}

/// The count at bit `i` is at most 8, as any count of eight neighbours is.
pub open spec fn count_at_most_8(b0: u32, b1: u32, b2: u32, b3: u32, i: u32) -> bool {
    bit_at(b3, i) == 0 || (bit_at(b2, i) == 0 && bit_at(b1, i) == 0 && bit_at(b0, i) == 0)
}

/// `c` lies in `[opt_min, opt_max]`, both bounds read as unsigned words.
pub open spec fn count_in(c: int, opt_min: i32, opt_max: i32) -> bool {
    (opt_min as u32) as int <= c <= (opt_max as u32) as int
}

proof fn lemma_count_2_4(b0: u32, b1: u32, b2: u32, b3: u32, i: u32)
    requires
        i < 32,
    ensures
        bit_at((!b3 & !b2 & b1) | (!b3 & b2 & !b1 & !b0), i) == if 2 <= plane_count(b0, b1, b2, b3, i) <= 4 {
            1u32
        } else {
            0u32
        },
{
    assert(((((!b3 & !b2 & b1) | (!b3 & b2 & !b1 & !b0)) >> i) & 1u32) == if 2 <= 8 * ((b3 >> i) & 1u32) + 4 * ((b2
        >> i) & 1u32) + 2 * ((b1 >> i) & 1u32) + ((b0 >> i) & 1u32) <= 4 {
        1u32
    } else {
        0u32
    }) by (bit_vector)
        requires
            i < 32,
    ;
}

proof fn lemma_count_2_6(b0: u32, b1: u32, b2: u32, b3: u32, i: u32)
    requires
        i < 32,
    ensures
        bit_at((!b3 & !b2 & b1) | (!b3 & b2 & !b1) | (!b3 & b2 & b1 & !b0), i) == if 2 <= plane_count(
            b0,
            b1,
            b2,
            b3,
            i,
        ) <= 6 {
            1u32
        } else {
            0u32
        },
{
    assert(((((!b3 & !b2 & b1) | (!b3 & b2 & !b1) | (!b3 & b2 & b1 & !b0)) >> i) & 1u32) == if 2 <= 8 * ((b3 >> i)
        & 1u32) + 4 * ((b2 >> i) & 1u32) + 2 * ((b1 >> i) & 1u32) + ((b0 >> i) & 1u32) <= 6 {
        1u32
    } else {
        0u32
    }) by (bit_vector)
        requires
            i < 32,
    ;
}

proof fn lemma_count_2_8(b0: u32, b1: u32, b2: u32, b3: u32, i: u32)
    requires
        i < 32,
        count_at_most_8(b0, b1, b2, b3, i),
    ensures
        bit_at(b3 | b2 | b1, i) == if 2 <= plane_count(b0, b1, b2, b3, i) <= 8 {
            1u32
        } else {
            0u32
        },
        plane_count(b0, b1, b2, b3, i) <= 8,
{
    assert(((((b3 | b2 | b1) >> i) & 1u32) == if 2 <= 8 * ((b3 >> i) & 1u32) + 4 * ((b2 >> i) & 1u32) + 2 * ((b1
        >> i) & 1u32) + ((b0 >> i) & 1u32) <= 8 {
        1u32
    } else {
        0u32
    }) && 8 * ((b3 >> i) & 1u32) + 4 * ((b2 >> i) & 1u32) + 2 * ((b1 >> i) & 1u32) + ((b0 >> i) & 1u32) <= 8)
        by (bit_vector)
        requires
            i < 32,
            ((b3 >> i) & 1u32) == 0 || (((b2 >> i) & 1u32) == 0 && ((b1 >> i) & 1u32) == 0 && ((b0 >> i) & 1u32)
                == 0),
    ;
}

/// The bit planes of the eight-input adder that counts neighbours: the
/// lowest plane first.
pub open spec fn adder_planes(ml: u32, mr: u32, ul: u32, uc: u32, ur: u32, dl: u32, dc: u32, dr: u32) -> (
    u32,
    u32,
    u32,
    u32,
) {
    let s0_0 = ml ^ mr;
    let c1_0 = ml & mr;
    let t1 = ul ^ uc;
    let s0_1 = t1 ^ ur;
    let c1_1 = (ul & uc) | (t1 & ur);
    let t2 = dl ^ dc;
    let s0_2 = t2 ^ dr;
    let c1_2 = (dl & dc) | (t2 & dr);
    let t3 = s0_0 ^ s0_1;
    let s0_01 = t3 ^ s0_2;
    let c1_01 = (s0_0 & s0_1) | (t3 & s0_2);
    let t4 = c1_0 ^ c1_1;
    let s1_0 = t4 ^ c1_2;
    let c2_0 = (c1_0 & c1_1) | (t4 & c1_2);
    let s1_1 = s1_0 ^ c1_01;
    let c2_1 = s1_0 & c1_01;
    let s2_0 = c2_0 ^ c2_1;
    let c3_0 = c2_0 & c2_1;
    (s0_01, s1_1, s2_0, c3_0)
}

proof fn lemma_adder(ml: u32, mr: u32, ul: u32, uc: u32, ur: u32, dl: u32, dc: u32, dr: u32, i: u32)
    requires
        i < 32,
    ensures
        ({
            let p = adder_planes(ml, mr, ul, uc, ur, dl, dc, dr);
            &&& plane_count(p.0, p.1, p.2, p.3, i) == bit_at(ml, i) + bit_at(mr, i) + bit_at(ul, i) + bit_at(uc, i)
                + bit_at(ur, i) + bit_at(dl, i) + bit_at(dc, i) + bit_at(dr, i)
            &&& count_at_most_8(p.0, p.1, p.2, p.3, i)
        }),
{
    let p = adder_planes(ml, mr, ul, uc, ur, dl, dc, dr);
    let (a, b, c, d) = p;
    assert(a == ((ml ^ mr) ^ ((ul ^ uc) ^ ur)) ^ ((dl ^ dc) ^ dr));
    assert({
        let s0_0 = ml ^ mr;
        let c1_0 = ml & mr;
        let t1 = ul ^ uc;
        let s0_1 = t1 ^ ur;
        let c1_1 = (ul & uc) | (t1 & ur);
        let t2 = dl ^ dc;
        let s0_2 = t2 ^ dr;
        let c1_2 = (dl & dc) | (t2 & dr);
        let t3 = s0_0 ^ s0_1;
        let s0_01 = t3 ^ s0_2;
        let c1_01 = (s0_0 & s0_1) | (t3 & s0_2);
        let t4 = c1_0 ^ c1_1;
        let s1_0 = t4 ^ c1_2;
        let c2_0 = (c1_0 & c1_1) | (t4 & c1_2);
        let s1_1 = s1_0 ^ c1_01;
        let c2_1 = s1_0 & c1_01;
        let s2_0 = c2_0 ^ c2_1;
        let c3_0 = c2_0 & c2_1;
        &&& 8 * ((c3_0 >> i) & 1u32) + 4 * ((s2_0 >> i) & 1u32) + 2 * ((s1_1 >> i) & 1u32) + ((s0_01 >> i) & 1u32)
            == ((ml >> i) & 1u32) + ((mr >> i) & 1u32) + ((ul >> i) & 1u32) + ((uc >> i) & 1u32) + ((ur >> i) & 1u32)
            + ((dl >> i) & 1u32) + ((dc >> i) & 1u32) + ((dr >> i) & 1u32)
        &&& (((c3_0 >> i) & 1u32) == 0 || (((s2_0 >> i) & 1u32) == 0 && ((s1_1 >> i) & 1u32) == 0 && ((s0_01 >> i)
            & 1u32) == 0))
    }) by (bit_vector)
        requires
            i < 32,
    ;
}

/// The number of neighbours in `layer` of the cell in bit `i` of word `w`
/// (`stride` words a row, `height` rows): the row's word shifted one cell
/// each way, and the rows above and below with their shifts. Cells beyond
/// the map's edge count as empty, and the cell with key 0 is not counted for
/// the cells of row 1.
pub open spec fn neighbour_count(layer: Seq<u32>, w: int, i: u32, stride: int, height: int) -> int {
    let y = w / stride;
    let xw = w % stride;
    let mid = row_triple(layer, y * stride, xw, false, stride);
    let up = if y > 0 {
        row_triple(layer, (y - 1) * stride, xw, y == 1, stride)
    } else {
        (0u32, 0u32, 0u32)
    };
    let dn = if y < height - 1 {
        row_triple(layer, (y + 1) * stride, xw, false, stride)
    } else {
        (0u32, 0u32, 0u32)
    };
    bit_at(mid.0, i) + bit_at(mid.2, i) + bit_at(up.0, i) + bit_at(up.1, i) + bit_at(up.2, i) + bit_at(dn.0, i)
        + bit_at(dn.1, i) + bit_at(dn.2, i)
}

/// Bit `i` of word `w` of what one round of smoothing adds to layer `def`:
/// the cell has between `opt_min` and `opt_max` neighbours in the layer and
/// class `ctype` admits it.
pub open spec fn smoothing_bit(
    bb: Seq<Seq<u32>>,
    def: int,
    width: int,
    height: int,
    w: int,
    i: u32,
    opt_min: i32,
    opt_max: i32,
    ctype: CType,
) -> u32 {
    (if count_in(neighbour_count(bb[def], w, i, (width + 31) / 32, height), opt_min, opt_max) {
        1u32
    } else {
        0u32
    }) & bit_at(ctype_mask(bb, width, w, ctype), i)
}

proof fn lemma_ctype_mask_frame(a: Seq<Seq<u32>>, b: Seq<Seq<u32>>, width: int, w: int, ctype: CType)
    requires
        forall|t: int| 0 <= t < 18 ==> #[trigger] a[t] == b[t],
    ensures
        ctype_mask(a, width, w, ctype) == ctype_mask(b, width, w, ctype),
{
    assert(a[1] == b[1] && a[6] == b[6] && a[7] == b[7] && a[10] == b[10] && a[11] == b[11] && a[12] == b[12]);
    assert(a[13] == b[13] && a[14] == b[14] && a[15] == b[15] && a[16] == b[16] && a[17] == b[17]);
}

proof fn lemma_bits_and(a: u32, b: u32, i: u32)
    requires
        i < 32,
    ensures
        bit_at(a & b, i) == bit_at(a, i) & bit_at(b, i),
        bit_at(0u32, i) == 0,
        bit_at(a, i) <= 1,
        bit_at(a, i) & 0u32 == 0,
        bit_at(a | (b & !a), i) == bit_at(a, i) | bit_at(b, i),
        b & !a == 0 ==> bit_at(a, i) == bit_at(a, i) | bit_at(b, i),
{
    assert(((a & b) >> i) & 1u32 == ((a >> i) & 1u32) & ((b >> i) & 1u32)) by (bit_vector)
        requires
            i < 32,
    ;
    assert((0u32 >> i) & 1u32 == 0 && (a >> i) & 1u32 <= 1 && ((a >> i) & 1u32) & 0u32 == 0) by (bit_vector)
        requires
            i < 32,
    ;
    assert(((a | (b & !a)) >> i) & 1u32 == ((a >> i) & 1u32) | ((b >> i) & 1u32)) by (bit_vector)
        requires
            i < 32,
    ;
    assert(b & !a == 0 ==> ((a >> i) & 1u32) == ((a >> i) & 1u32) | ((b >> i) & 1u32)) by (bit_vector)
        requires
            i < 32,
    ;
}

proof fn lemma_set_bit_at(m: u32, b: u32, j: u32)
    requires
        b < 32,
        j < 32,
    ensures
        bit_at(m | (1u32 << b), j) == if j == b {
            1u32
        } else {
            bit_at(m, j)
        },
{
    assert((((m | (1u32 << b)) >> j) & 1u32) == if j == b {
        1u32
    } else {
        (m >> j) & 1u32
    }) by (bit_vector)
        requires
            b < 32,
            j < 32,
    ;
}

/// Word `xw` of the row of `layer` that starts at word `offset` (stride
/// words a row), its first cell left out when `skip_first`, with its cells
/// shifted one place up and down, the neighbouring words' edge cells carried
/// in: `(shifted up, the word, shifted down)`.
pub open spec fn row_triple(layer: Seq<u32>, offset: int, xw: int, skip_first: bool, stride: int) -> (u32, u32, u32) {
    let c = if skip_first && xw == 0 {
        layer[offset + xw] & 0xFFFFFFFEu32
    } else {
        layer[offset + xw]
    };
    let prev: u32 = if xw > 0 {
        layer[offset + xw - 1]
    } else {
        0
    };
    let next: u32 = if xw < stride - 1 {
        layer[offset + xw + 1]
    } else {
        0
    };
    ((c << 1u32) | (prev >> 31u32), c, (c >> 1u32) | (next << 31u32))
}

impl MapMaker {
    /// The row of layer `def_u` that starts at word `offset`, around word
    /// `xw`: the word shifted by one cell each way (carrying the neighbouring
    /// words' edge bits) and the word itself. For the row above the second
    /// row, the cell with key 0 is left out.
    fn fetch_row(&self, def_u: usize, offset: usize, xw: usize, is_up: bool, y: usize, stride: usize) -> (r: (
        u32,
        u32,
        u32,
    ))
        requires
            self.wf(),
            def_u < 20,
            stride as int == self.stride(),
            xw < stride,
            offset + stride <= self.words(),
        ensures
            r == row_triple(self.layers()[def_u as int], offset as int, xw as int, is_up && y == 1, stride as int),
    {
        proof {
            lemma_dims(self.width as int, self.height as int);
        }
        let mut c = self.bb[def_u][offset + xw];
        if is_up && y == 1 && xw == 0 {
            c = c & 0xFFFFFFFE;
        }
        let c_prev = if xw > 0 {
            self.bb[def_u][offset + xw - 1]
        } else {
            0
        };
        let c_next = if xw < stride - 1 {
            self.bb[def_u][offset + xw + 1]
        } else {
            0
        };
        let l = (c << 1u32) | (c_prev >> 31u32);
        let r = (c >> 1u32) | (c_next << 31u32);
        (l, c, r)
    }

    /// The cells of one word whose number of neighbours in layer `def_u`
    /// (a 4-bit count given by its bit planes) lies in `[opt_min, opt_max]`.
    fn count_match(bit0: u32, bit1: u32, bit2: u32, bit3: u32, opt_min: i32, opt_max: i32) -> (r: u32)
        ensures
            forall|i: u32|
                i < 32 && count_at_most_8(bit0, bit1, bit2, bit3, i) ==> #[trigger] bit_at(r, i) == if count_in(
                    plane_count(bit0, bit1, bit2, bit3, i),
                    opt_min,
                    opt_max,
                ) {
                    1u32
                } else {
                    0u32
                },
    {
        if opt_min == 2 && opt_max == 4 {
            let r = (!bit3 & !bit2 & bit1) | (!bit3 & bit2 & !bit1 & !bit0);
            proof {
                assert forall|i: u32| i < 32 implies #[trigger] bit_at(r, i) == if count_in(
                    plane_count(bit0, bit1, bit2, bit3, i),
                    opt_min,
                    opt_max,
                ) {
                    1u32
                } else {
                    0u32
                } by {
                    lemma_count_2_4(bit0, bit1, bit2, bit3, i);
                }
            }
            r
        } else if opt_min == 2 && opt_max == 6 {
            let r = (!bit3 & !bit2 & bit1) | (!bit3 & bit2 & !bit1) | (!bit3 & bit2 & bit1 & !bit0);
            proof {
                assert forall|i: u32| i < 32 implies #[trigger] bit_at(r, i) == if count_in(
                    plane_count(bit0, bit1, bit2, bit3, i),
                    opt_min,
                    opt_max,
                ) {
                    1u32
                } else {
                    0u32
                } by {
                    lemma_count_2_6(bit0, bit1, bit2, bit3, i);
                }
            }
            r
        } else if opt_min == 2 && (opt_max == 8 || opt_max == 9) {
            let r = bit3 | bit2 | bit1;
            proof {
                assert forall|i: u32| i < 32 && count_at_most_8(bit0, bit1, bit2, bit3, i) implies #[trigger] bit_at(
                    r,
                    i,
                ) == if count_in(plane_count(bit0, bit1, bit2, bit3, i), opt_min, opt_max) {
                    1u32
                } else {
                    0u32
                } by {
                    lemma_count_2_8(bit0, bit1, bit2, bit3, i);
                }
            }
            r
        } else {
            let mut m: u32 = 0;
            let mut bit: u32 = 0;
            proof {
                assert forall|j: u32| 0 <= j < 32 implies #[trigger] bit_at(0u32, j) == 0 by {
                    assert((0u32 >> j) & 1u32 == 0) by (bit_vector);
                }
            }
            while bit < 32
                invariant
                    bit <= 32,
                    forall|j: u32|
                        j < bit ==> #[trigger] bit_at(m, j) == if count_in(
                            plane_count(bit0, bit1, bit2, bit3, j),
                            opt_min,
                            opt_max,
                        ) {
                            1u32
                        } else {
                            0u32
                        },
                    forall|j: u32| bit <= j < 32 ==> #[trigger] bit_at(m, j) == 0,
                decreases 32 - bit,
            {
                let b3 = (bit3 >> bit) & 1;
                let b2 = (bit2 >> bit) & 1;
                let b1 = (bit1 >> bit) & 1;
                let b0 = (bit0 >> bit) & 1;
                proof {
                    assert(b3 <= 1 && b2 <= 1 && b1 <= 1 && b0 <= 1) by (bit_vector)
                        requires
                            b3 == (bit3 >> bit) & 1,
                            b2 == (bit2 >> bit) & 1,
                            b1 == (bit1 >> bit) & 1,
                            b0 == (bit0 >> bit) & 1,
                    ;
                }
                let count = b3 * 8 + b2 * 4 + b1 * 2 + b0;
                assert(count == plane_count(bit0, bit1, bit2, bit3, bit));
                let ghost before = m;
                if count >= opt_min as u32 && count <= opt_max as u32 {
                    m = m | (1u32 << bit);
                    proof {
                        assert forall|j: u32| j < 32 implies #[trigger] bit_at(m, j) == if j == bit {
                            1u32
                        } else {
                            bit_at(before, j)
                        } by {
                            lemma_set_bit_at(before, bit, j);
                        }
                    }
                }
                bit = bit + 1;
            }
            m
        }
    }

    /// `maxcount` rounds of cellular smoothing of layer `def`: every cell that
    /// `ctype` admits and that has between `opt_min` and `opt_max` of its
    /// eight neighbours in the layer joins it.
    fn optimize(&mut self, def: Terrain, opt_min: i32, opt_max: i32, maxcount: i32, ctype: CType)
        requires
            old(self).wf(),
        ensures
            old(self).covered() && terrain_layer(t_idx(def)) ==> final(self).covered(),
            final(self).wf(),
            layers_move(old(self).bb@, final(self).bb@, t_idx(def)),
            keeps_born_layers(old(self).bb@, final(self).bb@),
            final(self).width == old(self).width,
            final(self).height == old(self).height,
            final(self).rand == old(self).rand,
            final(self).m_lis_mine_dir == old(self).m_lis_mine_dir,
            maxcount <= 0 ==> final(self).bb@ == old(self).bb@,
            maxcount == 1 && 1 <= t_idx(def) <= 15 ==> forall|w: int, i: u32|
                0 <= w < old(self).words() && i < 32 ==> #[trigger] bit_at(final(self).bb@[t_idx(def)]@[w], i) == bit_at(
                    old(self).bb@[t_idx(def)]@[w],
                    i,
                ) | smoothing_bit(
                    old(self).layers(),
                    t_idx(def),
                    old(self).width as int,
                    old(self).height as int,
                    w,
                    i,
                    opt_min,
                    opt_max,
                    ctype,
                ),
            maxcount == 1 && 1 <= t_idx(def) <= 15 ==> final(self).layers() == optimize_layers(
                old(self).layers(),
                t_idx(def),
                old(self).width as int,
                old(self).height as int,
                opt_min,
                opt_max,
                ctype,
            ),
    {
        proof {
            lemma_layers_move_none(old(self).bb@, self.bb@, t_idx(def));
        }
        let def_u = get_t_idx(def);
        let stride = ((self.width + 31) / 32) as usize;
        let height = self.height as usize;
        let total_words = self.bb[0].len();
        proof {
            lemma_dims(self.width as int, self.height as int);
        }
        let mut pass: i32 = 0;
        while pass < maxcount
            invariant
                old(self).covered() && terrain_layer(t_idx(def)) ==> self.covered(),
                def_u == t_idx(def),
                self.wf(),
                layers_move(old(self).bb@, self.bb@, t_idx(def)),
                keeps_born_layers(old(self).bb@, self.bb@),
                old(self).wf(),
                self.width == old(self).width,
                self.height == old(self).height,
                self.rand == old(self).rand,
                self.m_lis_mine_dir == old(self).m_lis_mine_dir,
                def_u < 20,
                stride as int == self.stride(),
                height == self.height,
                total_words == self.words(),
                total_words == stride * height,
                0 <= pass,
                maxcount <= 0 ==> pass == 0,
                pass == 0 ==> self.bb@ == old(self).bb@,
                pass >= 1 && maxcount == 1 && 1 <= def_u <= 15 ==> forall|v: int, i: u32|
                    0 <= v < total_words && i < 32 ==> #[trigger] bit_at(self.bb@[def_u as int]@[v], i) == bit_at(
                        old(self).bb@[def_u as int]@[v],
                        i,
                    ) | smoothing_bit(
                        old(self).layers(),
                        def_u as int,
                        self.width as int,
                        self.height as int,
                        v,
                        i,
                        opt_min,
                        opt_max,
                        ctype,
                    ),
                pass >= 1 && maxcount == 1 && 1 <= def_u <= 15 ==> self.layers() == optimize_layers(
                    old(self).layers(),
                    def_u as int,
                    self.width as int,
                    self.height as int,
                    opt_min,
                    opt_max,
                    ctype,
                ),
            decreases maxcount - pass,
        {
            let ghost start = self.bb@;
            let ghost sl = self.layers();
            let mut w: usize = 0;
            while w < total_words
                invariant
                    old(self).covered() && terrain_layer(t_idx(def)) ==> self.covered(),
                    def_u == t_idx(def),
                    w <= total_words,
                    self.wf(),
                    layers_move(old(self).bb@, self.bb@, t_idx(def)),
                    keeps_born_layers(old(self).bb@, self.bb@),
                    old(self).wf(),
                    self.width == old(self).width,
                    self.height == old(self).height,
                    self.rand == old(self).rand,
                    self.m_lis_mine_dir == old(self).m_lis_mine_dir,
                    total_words == self.words(),
                    sl == Seq::new(start.len(), |t: int| start[t]@),
                    start.len() == 20,
                    forall|t: int| 0 <= t < 20 ==> (#[trigger] start[t])@.len() == total_words,
                    pass == 0 ==> start == old(self).bb@,
                    0 <= pass < maxcount,
                    def_u < 20,
                    forall|t: int| 0 <= t < 20 && t != T_TMP_2 ==> #[trigger] self.bb@[t] == start[t],
                    forall|v: int| 0 <= v < w ==> #[trigger] self.bb@[T_TMP_2 as int]@[v] == ctype_mask(
                        sl,
                        self.width as int,
                        v,
                        ctype,
                    ),
                decreases total_words - w,
            {
                let v = self.get_ctype_mask(w, ctype);
                proof {
                    assert forall|t: int| 0 <= t < 18 implies #[trigger] self.layers()[t] == sl[t] by {
                        assert(self.bb@[t] == start[t]);
                    }
                    lemma_ctype_mask_frame(self.layers(), sl, self.width as int, w as int, ctype);
                }
                let ghost pre = self.bb@;
                self.write_scratch(T_TMP_2, w, v);
                proof {
                    lemma_layers_move_none(pre, self.bb@, t_idx(def));
                    lemma_layers_move_trans(old(self).bb@, pre, self.bb@, t_idx(def));
                }
                w = w + 1;
            }
            let ghost after_a = self.bb@;
            let mut y: usize = 0;
            while y < height
                invariant
                    old(self).covered() && terrain_layer(t_idx(def)) ==> self.covered(),
                    def_u == t_idx(def),
                    y <= height,
                    self.wf(),
                    layers_move(old(self).bb@, self.bb@, t_idx(def)),
                    keeps_born_layers(old(self).bb@, self.bb@),
                    old(self).wf(),
                    self.width == old(self).width,
                    self.height == old(self).height,
                    self.rand == old(self).rand,
                    self.m_lis_mine_dir == old(self).m_lis_mine_dir,
                    def_u < 20,
                    stride as int == self.stride(),
                    height == self.height,
                    total_words == self.words(),
                    total_words == stride * height,
                    sl == Seq::new(start.len(), |t: int| start[t]@),
                    start.len() == 20,
                    forall|t: int| 0 <= t < 20 ==> (#[trigger] start[t])@.len() == total_words,
                    pass == 0 ==> start == old(self).bb@,
                    0 <= pass < maxcount,
                    forall|t: int| 0 <= t < 20 && t != T_TMP_2 ==> #[trigger] after_a[t] == start[t],
                    forall|t: int| 0 <= t < 20 && t != T_TMP_1 ==> #[trigger] self.bb@[t] == after_a[t],
                    forall|v: int| 0 <= v < total_words ==> #[trigger] after_a[T_TMP_2 as int]@[v] == ctype_mask(
                        sl,
                        self.width as int,
                        v,
                        ctype,
                    ),
                    forall|v: int, i: u32| 0 <= v < y * stride && i < 32 ==> #[trigger] bit_at(self.bb@[T_TMP_1 as int]@[v], i) == smoothing_bit(sl, def_u as int, self.width as int, self.height as int, v, i, opt_min, opt_max, ctype),
                decreases height - y,
            {
                proof {
                    lemma_row_offsets(stride as int, height as int, y as int);
                }
                let row_offset = y * stride;
                let up_offset = if y > 0 {
                    (y - 1) * stride
                } else {
                    row_offset
                };
                let dn_offset = if y < height - 1 {
                    (y + 1) * stride
                } else {
                    row_offset
                };
                let mut xw: usize = 0;
                while xw < stride
                    invariant
                        old(self).covered() && terrain_layer(t_idx(def)) ==> self.covered(),
                        def_u == t_idx(def),
                        xw <= stride,
                        y < height,
                        self.wf(),
                        layers_move(old(self).bb@, self.bb@, t_idx(def)),
                        keeps_born_layers(old(self).bb@, self.bb@),
                        old(self).wf(),
                        self.width == old(self).width,
                        self.height == old(self).height,
                        self.rand == old(self).rand,
                        self.m_lis_mine_dir == old(self).m_lis_mine_dir,
                        def_u < 20,
                        stride as int == self.stride(),
                        height == self.height,
                        total_words == self.words(),
                        total_words == stride * height,
                        row_offset == y * stride,
                        row_offset + stride <= total_words,
                        up_offset + stride <= total_words,
                        dn_offset + stride <= total_words,
                        y > 0 ==> up_offset == (y - 1) * stride,
                        y < height - 1 ==> dn_offset == (y + 1) * stride,
                        sl == Seq::new(start.len(), |t: int| start[t]@),
                        start.len() == 20,
                        forall|t: int| 0 <= t < 20 ==> (#[trigger] start[t])@.len() == total_words,
                        pass == 0 ==> start == old(self).bb@,
                        0 <= pass < maxcount,
                        forall|t: int| 0 <= t < 20 && t != T_TMP_2 ==> #[trigger] after_a[t] == start[t],
                        forall|t: int| 0 <= t < 20 && t != T_TMP_1 ==> #[trigger] self.bb@[t] == after_a[t],
                        forall|v: int| 0 <= v < total_words ==> #[trigger] after_a[T_TMP_2 as int]@[v] == ctype_mask(
                            sl,
                            self.width as int,
                            v,
                            ctype,
                        ),
                        forall|v: int, i: u32| 0 <= v < row_offset + xw && i < 32 ==> #[trigger] bit_at(self.bb@[T_TMP_1 as int]@[v], i) == smoothing_bit(sl, def_u as int, self.width as int, self.height as int, v, i, opt_min, opt_max, ctype),
                    decreases stride - xw,
                {
                    let w = row_offset + xw;
                    let valid_mask = self.bb[T_TMP_2][w];
                    if valid_mask == 0 {
                        let ghost pre = self.bb@;
                        self.write_scratch(T_TMP_1, w, 0);
                        proof {
                            lemma_layers_move_none(pre, self.bb@, t_idx(def));
                            lemma_layers_move_trans(old(self).bb@, pre, self.bb@, t_idx(def));
                            assert((1u32 & 0u32) == 0 && (0u32 & 0u32) == 0) by (bit_vector);
                            assert forall|v: int, i: u32| 0 <= v < row_offset + xw + 1 && i < 32 implies #[trigger] bit_at(
                                self.bb@[T_TMP_1 as int]@[v],
                                i,
                            ) == smoothing_bit(sl, def_u as int, self.width as int, self.height as int, v, i, opt_min, opt_max, ctype) by {
                                lemma_bits_and(0, 0, i);
                                if v == w {
                                    assert(ctype_mask(sl, self.width as int, v, ctype) == 0);
                                } else {
                                    assert(self.bb@[T_TMP_1 as int]@[v] == pre[T_TMP_1 as int]@[v]);
                                }
                            }
                        }
                    } else {
                        let (mid_l, _mid_c, mid_r) = self.fetch_row(def_u, row_offset, xw, false, y, stride);
                        let (up_l, up_c, up_r) = if y > 0 {
                            self.fetch_row(def_u, up_offset, xw, true, y, stride)
                        } else {
                            (0, 0, 0)
                        };
                        let (dn_l, dn_c, dn_r) = if y < height - 1 {
                            self.fetch_row(def_u, dn_offset, xw, false, y, stride)
                        } else {
                            (0, 0, 0)
                        };
                        // half adder on the middle row, full adders on the others
                        let s0_0 = mid_l ^ mid_r;
                        let c1_0 = mid_l & mid_r;
                        let t1 = up_l ^ up_c;
                        let s0_1 = t1 ^ up_r;
                        let c1_1 = (up_l & up_c) | (t1 & up_r);
                        let t2 = dn_l ^ dn_c;
                        let s0_2 = t2 ^ dn_r;
                        let c1_2 = (dn_l & dn_c) | (t2 & dn_r);
                        let t3 = s0_0 ^ s0_1;
                        let s0_01 = t3 ^ s0_2;
                        let c1_01 = (s0_0 & s0_1) | (t3 & s0_2);
                        let t4 = c1_0 ^ c1_1;
                        let s1_0 = t4 ^ c1_2;
                        let c2_0 = (c1_0 & c1_1) | (t4 & c1_2);
                        let s1_1 = s1_0 ^ c1_01;
                        let c2_1 = s1_0 & c1_01;
                        let s2_0 = c2_0 ^ c2_1;
                        let c3_0 = c2_0 & c2_1;
                        let match_mask = Self::count_match(s0_01, s1_1, s2_0, c3_0, opt_min, opt_max);
                        proof {
                            assert((s0_01, s1_1, s2_0, c3_0) == adder_planes(
                                mid_l,
                                mid_r,
                                up_l,
                                up_c,
                                up_r,
                                dn_l,
                                dn_c,
                                dn_r,
                            ));
                            lemma_fundamental_div_mod_converse(w as int, stride as int, y as int, xw as int);
                            assert(self.layers()[def_u as int] == sl[def_u as int]) by {
                                assert(self.bb@[def_u as int] == start[def_u as int]);
                            }
                        }
                        let ghost pre = self.bb@;
                        self.write_scratch(T_TMP_1, w, match_mask & valid_mask);
                        proof {
                            lemma_layers_move_none(pre, self.bb@, t_idx(def));
                            lemma_layers_move_trans(old(self).bb@, pre, self.bb@, t_idx(def));
                            assert forall|v: int, i: u32| 0 <= v < row_offset + xw + 1 && i < 32 implies #[trigger] bit_at(
                                self.bb@[T_TMP_1 as int]@[v],
                                i,
                            ) == smoothing_bit(sl, def_u as int, self.width as int, self.height as int, v, i, opt_min, opt_max, ctype) by {
                                if v == w {
                                    lemma_adder(mid_l, mid_r, up_l, up_c, up_r, dn_l, dn_c, dn_r, i);
                                    lemma_bits_and(match_mask, valid_mask, i);
                                } else {
                                    assert(self.bb@[T_TMP_1 as int]@[v] == pre[T_TMP_1 as int]@[v]);
                                }
                            }
                        }
                    }
                    xw = xw + 1;
                }
                proof {
                    assert((y + 1) * stride == y * stride + stride) by (nonlinear_arith);
                }
                y = y + 1;
            }
            let ghost after_b = self.bb@;
            proof {
                assert forall|v: int| 0 <= v < total_words implies #[trigger] after_b[T_TMP_1 as int]@[v] == smooth_word(
                    sl,
                    def_u as int,
                    self.width as int,
                    self.height as int,
                    v,
                    opt_min,
                    opt_max,
                    ctype,
                ) by {
                    lemma_word_of_bits(
                        after_b[T_TMP_1 as int]@[v],
                        |i: u32| smoothing_bit(sl, def_u as int, self.width as int, self.height as int, v, i, opt_min, opt_max, ctype),
                    );
                }
            }
            let mut w2: usize = 0;
            while w2 < total_words
                invariant
                    old(self).covered() && terrain_layer(t_idx(def)) ==> self.covered(),
                    def_u == t_idx(def),
                    w2 <= total_words,
                    self.wf(),
                    layers_move(old(self).bb@, self.bb@, t_idx(def)),
                    keeps_born_layers(old(self).bb@, self.bb@),
                    old(self).wf(),
                    self.width == old(self).width,
                    self.height == old(self).height,
                    self.rand == old(self).rand,
                    self.m_lis_mine_dir == old(self).m_lis_mine_dir,
                    def_u < 20,
                    total_words == self.words(),
                    sl == Seq::new(start.len(), |t: int| start[t]@),
                    start.len() == 20,
                    forall|t: int| 0 <= t < 20 ==> (#[trigger] start[t])@.len() == total_words,
                    pass == 0 ==> start == old(self).bb@,
                    0 <= pass < maxcount,
                    after_b[def_u as int] == start[def_u as int],
                    forall|v: int, i: u32| 0 <= v < total_words && i < 32 ==> #[trigger] bit_at(after_b[T_TMP_1 as int]@[v], i) == smoothing_bit(sl, def_u as int, self.width as int, self.height as int, v, i, opt_min, opt_max, ctype),
                    forall|t: int, v: int|
                        0 <= t < 20 && (t == 0 || t >= 16) && 0 <= v < total_words ==> #[trigger] self.bb@[t]@[v] == after_b[t]@[v],
                    1 <= def_u <= 15 ==> forall|v: int| w2 <= v < total_words ==> #[trigger] self.bb@[def_u as int]@[v] == after_b[def_u as int]@[v],
                    1 <= def_u <= 15 ==> forall|v: int, i: u32| 0 <= v < w2 && i < 32 ==> #[trigger] bit_at(self.bb@[def_u as int]@[v], i) == bit_at(start[def_u as int]@[v], i) | smoothing_bit(sl, def_u as int, self.width as int, self.height as int, v, i, opt_min, opt_max, ctype),
                    forall|t: int| 0 <= t < 20 && t != T_TMP_1 && t != T_TMP_2 ==> #[trigger] after_b[t] == start[t],
                    forall|v: int| 0 <= v < total_words ==> #[trigger] after_b[T_TMP_2 as int]@[v] == ctype_mask(sl, self.width as int, v, ctype),
                    forall|v: int| 0 <= v < total_words ==> #[trigger] after_b[T_TMP_1 as int]@[v] == smooth_word(sl, def_u as int, self.width as int, self.height as int, v, opt_min, opt_max, ctype),
                    after_b.len() == 20,
                    forall|t: int| 0 <= t < 20 ==> (#[trigger] after_b[t])@.len() == total_words,
                    1 <= def_u <= 15 ==> forall|t: int, v: int| 1 <= t <= 15 && 0 <= v < w2 ==> #[trigger] self.bb@[t]@[v] == optimize_word(sl, def_u as int, self.width as int, self.height as int, opt_min, opt_max, ctype, t, v),
                    forall|t: int, v: int| 1 <= t <= 15 && w2 <= v < total_words ==> #[trigger] self.bb@[t]@[v] == start[t]@[v],
                decreases total_words - w2,
            {
                let diff = self.bb[T_TMP_1][w2] & !self.bb[def_u][w2];
                let ghost pre = self.bb@;
                if diff != 0 {
                    self.set_mask(def_u, w2, diff);
                    proof {
                        lemma_layers_move_trans(old(self).bb@, pre, self.bb@, t_idx(def));
                    }
                }
                proof {
                    assert(pre[T_TMP_1 as int]@[w2 as int] == after_b[T_TMP_1 as int]@[w2 as int]);
                    if 1 <= def_u <= 15 {
                        assert(pre[def_u as int]@[w2 as int] == start[def_u as int]@[w2 as int]);
                        assert(sl[def_u as int][w2 as int] == start[def_u as int]@[w2 as int]);
                        assert forall|t: int, v: int| 1 <= t <= 15 && 0 <= v < w2 + 1 implies #[trigger] self.bb@[t]@[v]
                            == optimize_word(sl, def_u as int, self.width as int, self.height as int, opt_min, opt_max, ctype, t, v) by {
                            if v == w2 {
                                assert(pre[t]@[v] == start[t]@[v]);
                                assert(sl[t][v] == start[t]@[v]);
                            }
                        }
                        assert forall|v: int, i: u32| 0 <= v < w2 + 1 && i < 32 implies #[trigger] bit_at(self.bb@[def_u as int]@[v], i)
                            == bit_at(start[def_u as int]@[v], i) | smoothing_bit(sl, def_u as int, self.width as int, self.height as int, v, i, opt_min, opt_max, ctype) by {
                            if v == w2 {
                                let a = pre[def_u as int]@[v];
                                let t = pre[T_TMP_1 as int]@[v];
                                assert(t == after_b[T_TMP_1 as int]@[v]);
                                assert(a == start[def_u as int]@[v]);
                                lemma_bits_and(a, t, i);
                            }
                        }
                    }
                }
                w2 = w2 + 1;
            }
            proof {
                if maxcount == 1 && 1 <= def_u <= 15 {
                    let ol = optimize_layers(sl, def_u as int, self.width as int, self.height as int, opt_min, opt_max, ctype);
                    assert forall|t: int| 0 <= t < 20 implies #[trigger] self.layers()[t] == ol[t] by {
                        if t == 0 || t == T_BORN_SPACE || t == T_BORN_LINE {
                            assert forall|v: int| 0 <= v < total_words implies self.layers()[t][v] == ol[t][v] by {
                                assert(self.bb@[t]@[v] == after_b[t]@[v]);
                            }
                        }
                        if t == T_TMP_1 || t == T_TMP_2 {
                            assert forall|v: int| 0 <= v < total_words implies self.layers()[t][v] == ol[t][v] by {
                                assert(self.bb@[t]@[v] == after_b[t]@[v]);
                            }
                        }
                        assert(self.layers()[t] =~= ol[t]);
                    }
                    assert(self.layers() =~= ol);
                    assert(sl == old(self).layers());
                }
            }
            pass = pass + 1;
        }
    }

    /// Writes a word of a scratch layer (16 to 19), which the terrain layers
    /// do not share.
    fn write_scratch(&mut self, t: usize, w: usize, v: u32)
        requires
            old(self).wf(),
            16 <= t < 20,
            w < old(self).words(),
        ensures
            final(self).wf(),
            final(self).width == old(self).width,
            final(self).height == old(self).height,
            final(self).rand == old(self).rand,
            final(self).m_lis_mine_dir == old(self).m_lis_mine_dir,
            final(self).grid == old(self).grid,
            final(self).born_space == old(self).born_space,
            final(self).cache_born_line == old(self).cache_born_line,
            final(self).bb@[t as int]@ == old(self).bb@[t as int]@.update(w as int, v),
            forall|i: int| 0 <= i < 20 && i != t ==> #[trigger] final(self).bb@[i] == old(self).bb@[i],
            old(self).covered() ==> final(self).covered(),
    {
        let ghost before = self.bb@;
        self.bb[t][w] = v;
        proof {
            assert forall|ww: int, t1: int, t2: int|
                0 <= ww < self.words() && 1 <= t1 <= 15 && 1 <= t2 <= 15 && t1 != t2 implies (
                #[trigger] self.bb@[t1]@[ww] & #[trigger] self.bb@[t2]@[ww]) == 0 by {
                assert(self.bb@[t1] == before[t1]);
                assert(self.bb@[t2] == before[t2]);
            }
            if old(self).covered() {
                lemma_covered_step(*old(self), *self, -1, 1, 0);
            }
        }
    }

    /// One expansion of the cell in bit `b` of word `w` (when it is a cell of
    /// the map): with probability `(expand_lv + 1) / 100` every neighbour that
    /// `ectype` admits joins layer `def_u`.
    #[verifier::spinoff_prover]
    #[verifier::rlimit(50)]
    fn expand_cell(&mut self, def_u: usize, w: usize, b: u32, expand_lv: i32, ectype: CType)
        requires
            old(self).wf(),
            def_u < 20,
            w < old(self).words(),
            b < 32,
        ensures
            old(self).covered() && terrain_layer(def_u as int) ==> final(self).covered(),
            final(self).wf(),
            layers_move(old(self).bb@, final(self).bb@, def_u as int),
            keeps_born_layers(old(self).bb@, final(self).bb@),
            final(self).width == old(self).width,
            final(self).height == old(self).height,
            final(self).m_lis_mine_dir == old(self).m_lis_mine_dir,
            (final(self).rand.sys_random@, final(self).layers()) == mm_expand_cell(
                (old(self).rand.sys_random@, old(self).layers()),
                w as int,
                b as int,
                def_u as int,
                expand_lv,
                ectype,
                old(self).width as int,
                old(self).height as int,
            ),
            (w as int % old(self).stride()) * 32 + b >= old(self).width ==> *final(self) == *old(self),
            (w as int % old(self).stride()) * 32 + b < old(self).width ==> {
                &&& final(self).rand.sys_random@ == draw_int(old(self).rand.sys_random@).0
                &&& percent_draw(old(self).rand.sys_random@) > expand_lv ==> {
                    &&& final(self).bb == old(self).bb
                    &&& final(self).grid == old(self).grid
                    &&& final(self).born_space == old(self).born_space
                    &&& final(self).cache_born_line == old(self).cache_born_line
                    &&& final(self).cache_list == old(self).cache_list
                }
            },
    {
        proof {
            lemma_layers_move_none(old(self).bb@, self.bb@, def_u as int);
        }
        let stride = ((self.width + 31) / 32) as usize;
        proof {
            lemma_dims(self.width as int, self.height as int);
            lemma_word_cell(stride as int, self.height as int, w as int);
        }
        let cx = ((w % stride) * 32 + b as usize) as i32;
        if cx < self.width {
            let cy = (w / stride) as i32;
            proof {
                lemma_cell_index(self.width as int, self.height as int, stride as int, cx as int, cy as int);
            }
            let key = cy * self.width + cx;
            if self.rand.random_range_int(0, 100, RandomType::EmNone, "MakeMap") <= expand_lv {
                let mut n_keys = [0i32; 8];
                let count = self.get_cpu_neighbor(key, &mut n_keys);
                let ghost ns = neighbor_list(self.width as int, self.height as int, key as int, 8);
                let ghost total = mm_spread(self.layers(), def_u as int, ns, 0, ectype, self.width as int);
                let mut d: usize = 0;
                while d < count
                    invariant
                        mm_spread(self.layers(), def_u as int, ns, d as int, ectype, self.width as int) == total,
                        count == ns.len(),
                        forall|i: int| 0 <= i < count ==> #[trigger] n_keys@[i] == ns[i],
                        self.rand.sys_random@ == draw_int(old(self).rand.sys_random@).0,
                        old(self).covered() && terrain_layer(def_u as int) ==> self.covered(),
                        d <= count,
                        count <= 8,
                        forall|i: int| 0 <= i < count ==> 0 <= #[trigger] n_keys@[i] < self.cells(),
                        stride as int == self.stride(),
                        def_u < 20,
                        self.wf(),
                        layers_move(old(self).bb@, self.bb@, def_u as int),
                        keeps_born_layers(old(self).bb@, self.bb@),
                        old(self).wf(),
                        self.width == old(self).width,
                        self.height == old(self).height,
                        self.m_lis_mine_dir == old(self).m_lis_mine_dir,
                    decreases count - d,
                {
                    let nk = n_keys[d];
                    proof {
                        lemma_dims(self.width as int, self.height as int);
                        lemma_key_cell(self.width as int, self.height as int, nk as int);
                        lemma_cell_index(
                            self.width as int,
                            self.height as int,
                            stride as int,
                            (nk % self.width) as int,
                            (nk / self.width) as int,
                        );
                    }
                    let nx = (nk % self.width) as usize;
                    let ny = (nk / self.width) as usize;
                    let nw = ny * stride + nx / 32;
                    let n_bit = 1u32 << ((nx % 32) as u32);
                    let ghost pre = self.bb@;
                    self.set_where_admitted(def_u, nw, n_bit, ectype);
                    proof {
                        lemma_layers_move_trans(old(self).bb@, pre, self.bb@, def_u as int);
                    }
                    d = d + 1;
                }
            }
        }
    }

    /// Seeds layer `def` with `max(1, rcount)` random cells that `ctype`
    /// admits, then grows it `ecount` times, alternately scanning forwards
    /// and backwards, each cell spreading to its neighbours that `ectype`
    /// admits with probability `(expand_lv + 1) / 100`; finally, when
    /// `opt_lv > 0`, one round of [`Self::optimize`] with bounds
    /// `(opt_lv, opt_count)`.
    #[verifier::spinoff_prover]
    #[verifier::rlimit(50)]
    fn random_and_expand(
        &mut self,
        def: Terrain,
        rcount: i32,
        ecount: i32,
        expand_lv: i32,
        opt_lv: i32,
        opt_count: i32,
        ctype: CType,
        ectype: CType,
    )
        requires
            old(self).wf(),
        ensures
            old(self).covered() && terrain_layer(t_idx(def)) ==> final(self).covered(),
            final(self).wf(),
            layers_move(old(self).bb@, final(self).bb@, t_idx(def)),
            keeps_born_layers(old(self).bb@, final(self).bb@),
            final(self).width == old(self).width,
            final(self).height == old(self).height,
            final(self).m_lis_mine_dir == old(self).m_lis_mine_dir,
            opt_lv <= 0 || terrain_layer(t_idx(def)) ==> (final(self).rand.sys_random@, final(self).layers())
                == mm_random_and_expand_result(
                old(self).rand.sys_random@,
                old(self).layers(),
                t_idx(def),
                rcount,
                ecount,
                expand_lv,
                opt_lv,
                opt_count,
                ctype,
                ectype,
                old(self).width as int,
                old(self).height as int,
            ),
    {
        proof {
            lemma_layers_move_none(old(self).bb@, self.bb@, t_idx(def));
        }
        let def_u = get_t_idx(def);
        let rc = if rcount > 1 {
            rcount
        } else {
            1
        };
        let stride = ((self.width + 31) / 32) as usize;
        let total_words = self.bb[0].len();
        let ghost s1 = mm_seed_draws((self.rand.sys_random@, self.layers()), rc as int, def_u as int, ctype, self.width as int, self.height as int);
        let mut k: i32 = 0;
        while k < rc
            invariant
                mm_seed_draws((self.rand.sys_random@, self.layers()), rc - k, def_u as int, ctype, self.width as int, self.height as int) == s1,
                old(self).covered() && terrain_layer(t_idx(def)) ==> self.covered(),
                def_u == t_idx(def),
                self.wf(),
                layers_move(old(self).bb@, self.bb@, t_idx(def)),
                keeps_born_layers(old(self).bb@, self.bb@),
                old(self).wf(),
                self.width == old(self).width,
                self.height == old(self).height,
                self.m_lis_mine_dir == old(self).m_lis_mine_dir,
                def_u < 20,
                stride as int == self.stride(),
            decreases rc - k,
        {
            let x = self.rand.random_range_int(0, self.width, RandomType::EmNone, "MakeMap");
            let y = self.rand.random_range_int(0, self.height, RandomType::EmNone, "MakeMap");
            let key = self.p2key_safe(x, y);
            proof {
                lemma_dims(self.width as int, self.height as int);
            }
            if key >= 0 && key < self.width * self.height {
                proof {
                    lemma_cell_index(self.width as int, self.height as int, stride as int, x as int, y as int);
                }
                let nw = (y as usize) * stride + (x as usize) / 32;
                let nbit = 1u32 << ((x % 32) as u32);
                let ghost pre = self.bb@;
                self.set_where_admitted(def_u, nw, nbit, ctype);
                proof {
                    lemma_layers_move_trans(old(self).bb@, pre, self.bb@, t_idx(def));
                }
            }
            k = k + 1;
        }
        let ghost s2 = mm_expand_passes(s1, ecount as int, true, total_words as int, def_u as int, expand_lv, ectype, self.width as int, self.height as int);
        let mut flag = true;
        let mut e: i32 = 0;
        while e < ecount
            invariant
                mm_expand_passes(
                    (self.rand.sys_random@, self.layers()),
                    ecount - e,
                    flag,
                    total_words as int,
                    def_u as int,
                    expand_lv,
                    ectype,
                    self.width as int, self.height as int,
                ) == s2,
                old(self).covered() && terrain_layer(t_idx(def)) ==> self.covered(),
                def_u == t_idx(def),
                self.wf(),
                layers_move(old(self).bb@, self.bb@, t_idx(def)),
                keeps_born_layers(old(self).bb@, self.bb@),
                old(self).wf(),
                self.width == old(self).width,
                self.height == old(self).height,
                self.m_lis_mine_dir == old(self).m_lis_mine_dir,
                def_u < 20,
                total_words == self.words(),
            decreases ecount - e,
        {
            let ghost pass = if flag {
                mm_fwd_words((self.rand.sys_random@, self.layers()), 0, total_words as int, def_u as int, expand_lv, ectype, self.width as int, self.height as int)
            } else {
                mm_bwd_words((self.rand.sys_random@, self.layers()), total_words as int, def_u as int, expand_lv, ectype, self.width as int, self.height as int)
            };
            if flag {
                let mut w: usize = 0;
                while w < total_words
                    invariant
                        mm_fwd_words((self.rand.sys_random@, self.layers()), w as int, total_words as int, def_u as int, expand_lv, ectype, self.width as int, self.height as int) == pass,
                        old(self).covered() && terrain_layer(t_idx(def)) ==> self.covered(),
                        def_u == t_idx(def),
                        w <= total_words,
                        self.wf(),
                        layers_move(old(self).bb@, self.bb@, t_idx(def)),
                        keeps_born_layers(old(self).bb@, self.bb@),
                        old(self).wf(),
                        self.width == old(self).width,
                        self.height == old(self).height,
                        self.m_lis_mine_dir == old(self).m_lis_mine_dir,
                        def_u < 20,
                        total_words == self.words(),
                    decreases total_words - w,
                {
                    let mask = self.bb[def_u][w];
                    let mut b: u32 = 0;
                    while b < 32
                        invariant
                            mm_fwd_words(
                                mm_fwd_bits((self.rand.sys_random@, self.layers()), w as int, b as int, mask, def_u as int, expand_lv, ectype, self.width as int, self.height as int),
                                w + 1,
                                total_words as int,
                                def_u as int,
                                expand_lv,
                                ectype,
                                self.width as int, self.height as int,
                            ) == pass,
                            old(self).covered() && terrain_layer(t_idx(def)) ==> self.covered(),
                            def_u == t_idx(def),
                            b <= 32,
                            w < total_words,
                            self.wf(),
                            layers_move(old(self).bb@, self.bb@, t_idx(def)),
                            keeps_born_layers(old(self).bb@, self.bb@),
                            old(self).wf(),
                            self.width == old(self).width,
                            self.height == old(self).height,
                            self.m_lis_mine_dir == old(self).m_lis_mine_dir,
                            def_u < 20,
                            total_words == self.words(),
                        decreases 32 - b,
                    {
                        if (mask >> b) & 1 == 1 {
                            let ghost pre = self.bb@;
                            self.expand_cell(def_u, w, b, expand_lv, ectype);
                            proof {
                                lemma_layers_move_trans(old(self).bb@, pre, self.bb@, t_idx(def));
                            }
                        }
                        b = b + 1;
                    }
                    w = w + 1;
                }
            } else {
                let mut w: usize = total_words;
                while w > 0
                    invariant
                        mm_bwd_words((self.rand.sys_random@, self.layers()), w as int, def_u as int, expand_lv, ectype, self.width as int, self.height as int) == pass,
                        old(self).covered() && terrain_layer(t_idx(def)) ==> self.covered(),
                        def_u == t_idx(def),
                        w <= total_words,
                        self.wf(),
                        layers_move(old(self).bb@, self.bb@, t_idx(def)),
                        keeps_born_layers(old(self).bb@, self.bb@),
                        old(self).wf(),
                        self.width == old(self).width,
                        self.height == old(self).height,
                        self.m_lis_mine_dir == old(self).m_lis_mine_dir,
                        def_u < 20,
                        total_words == self.words(),
                    decreases w,
                {
                    w = w - 1;
                    let mask = self.bb[def_u][w];
                    let mut b: u32 = 32;
                    while b > 0
                        invariant
                            mm_bwd_words(
                                mm_bwd_bits((self.rand.sys_random@, self.layers()), w as int, b as int, mask, def_u as int, expand_lv, ectype, self.width as int, self.height as int),
                                w as int,
                                def_u as int,
                                expand_lv,
                                ectype,
                                self.width as int, self.height as int,
                            ) == pass,
                            old(self).covered() && terrain_layer(t_idx(def)) ==> self.covered(),
                            def_u == t_idx(def),
                            b <= 32,
                            w < total_words,
                            self.wf(),
                            layers_move(old(self).bb@, self.bb@, t_idx(def)),
                            keeps_born_layers(old(self).bb@, self.bb@),
                            old(self).wf(),
                            self.width == old(self).width,
                            self.height == old(self).height,
                            self.m_lis_mine_dir == old(self).m_lis_mine_dir,
                            def_u < 20,
                            total_words == self.words(),
                        decreases b,
                    {
                        b = b - 1;
                        if (mask >> b) & 1 == 1 {
                            let ghost pre = self.bb@;
                            self.expand_cell(def_u, w, b, expand_lv, ectype);
                            proof {
                                lemma_layers_move_trans(old(self).bb@, pre, self.bb@, t_idx(def));
                            }
                        }
                    }
                }
            }
            flag = !flag;
            e = e + 1;
        }
        proof {
            reveal(mm_random_and_expand_result);
        }
        if opt_lv > 0 {
            let ghost pre = self.bb@;
            self.optimize(def, opt_lv, opt_count, 1, ectype);
            proof {
                lemma_layers_move_trans(old(self).bb@, pre, self.bb@, t_idx(def));
            }
        }
    }
}

/// The rows above and below a row start inside the bit board.
proof fn lemma_row_offsets(stride: int, height: int, y: int)
    requires
        1 <= stride,
        0 <= y < height,
    ensures
        0 <= y * stride,
        y * stride + stride <= stride * height,
        y > 0 ==> (y - 1) * stride + stride <= stride * height && 0 <= (y - 1) * stride,
        y < height - 1 ==> (y + 1) * stride + stride <= stride * height && 0 <= (y + 1) * stride,
{
    assert(y * stride + stride <= stride * height) by (nonlinear_arith)
        requires
            1 <= stride,
            0 <= y < height,
    ;
    assert(0 <= y * stride) by (nonlinear_arith)
        requires
            1 <= stride,
            0 <= y,
    ;
    if y > 0 {
        assert((y - 1) * stride + stride <= stride * height) by (nonlinear_arith)
            requires
                1 <= stride,
                1 <= y < height,
        ;
        assert(0 <= (y - 1) * stride) by (nonlinear_arith)
            requires
                1 <= stride,
                1 <= y,
        ;
    }
    if y < height - 1 {
        assert((y + 1) * stride + stride <= stride * height) by (nonlinear_arith)
            requires
                1 <= stride,
                0 <= y < height - 1,
        ;
        assert(0 <= (y + 1) * stride) by (nonlinear_arith)
            requires
                1 <= stride,
                0 <= y,
        ;
    }
}

impl MapMaker {
    /// Marks the birth line: four runs of 5 to 14 cells on the map's edges
    /// (left, right, top, bottom), starting between 0.3 and 0.6 of the width.
    fn mark_born_lines(&mut self, size_scale: i32)
        requires
            old(self).wf(),
        ensures
            old(self).covered() ==> final(self).covered(),
            final(self).wf(),
            final(self).width == old(self).width,
            final(self).height == old(self).height,
            final(self).m_lis_mine_dir == old(self).m_lis_mine_dir,
            ({
                let res = born_sides(
                    old(self).rand.sys_random@,
                    0,
                    Seq::new(old(self).words() as nat, |i: int| 0u32),
                    f32_product(old(self).width as nat, 5033165, 24) as i32,
                    f32_product(old(self).width as nat, 5033165, 23) as i32,
                    old(self).width as int,
                    old(self).height as int,
                    old(self).stride(),
                );
                &&& final(self).rand.sys_random@ == res.0
                &&& final(self).bb@[T_BORN_LINE as int]@ == res.1
            }),
            forall|t: int| 0 <= t < 20 && t != T_BORN_LINE ==> #[trigger] final(self).bb@[t] == old(self).bb@[t],
            final(self).grid == old(self).grid,
            final(self).born_space == old(self).born_space,
            final(self).cache_born_line == old(self).cache_born_line,
    {
        let stride = ((self.width + 31) / 32) as usize;
        let words = self.bb[0].len();
        let mut w: usize = 0;
        while w < words
            invariant
                old(self).covered() ==> self.covered(),
                w <= words,
                words == self.words(),
                self.wf(),
                self.width == old(self).width,
                self.height == old(self).height,
                self.m_lis_mine_dir == old(self).m_lis_mine_dir,
                self.rand == old(self).rand,
                forall|t: int| 0 <= t < 20 && t != T_BORN_LINE ==> #[trigger] self.bb@[t] == old(self).bb@[t],
                self.grid == old(self).grid,
                self.born_space == old(self).born_space,
                self.cache_born_line == old(self).cache_born_line,
                forall|v: int| 0 <= v < w ==> #[trigger] self.bb@[T_BORN_LINE as int]@[v] == 0,
            decreases words - w,
        {
            self.write_scratch(T_BORN_LINE, w, 0);
            w = w + 1;
        }
        proof {
            assert(self.bb@[T_BORN_LINE as int]@ =~= Seq::new(old(self).words() as nat, |i: int| 0u32));
        }
        // (width as f32 * 0.3) as i32 and (width as f32 * 0.6) as i32
        let lo = f32_scale(self.width as u32, 5033165, 24) as i32;
        let hi = f32_scale(self.width as u32, 5033165, 23) as i32;
        proof {
            lemma_f32_scale_small(self.width as nat);
        }
        let ghost total = born_sides(
            self.rand.sys_random@,
            0,
            self.bb@[T_BORN_LINE as int]@,
            lo,
            hi,
            self.width as int,
            self.height as int,
            stride as int,
        );
        let mut i: i32 = 0;
        while i < 4
            invariant
                old(self).covered() ==> self.covered(),
                0 <= i <= 4,
                0 <= lo <= self.width,
                0 <= hi <= self.width,
                stride as int == self.stride(),
                self.wf(),
                self.width == old(self).width,
                self.height == old(self).height,
                self.m_lis_mine_dir == old(self).m_lis_mine_dir,
                born_sides(
                    self.rand.sys_random@,
                    i as nat,
                    self.bb@[T_BORN_LINE as int]@,
                    lo,
                    hi,
                    self.width as int,
                    self.height as int,
                    stride as int,
                ) == total,
                forall|t: int| 0 <= t < 20 && t != T_BORN_LINE ==> #[trigger] self.bb@[t] == old(self).bb@[t],
                self.grid == old(self).grid,
                self.born_space == old(self).born_space,
                self.cache_born_line == old(self).cache_born_line,
            decreases 4 - i,
        {
            let num2 = self.rand.random_range_int(lo, hi, RandomType::EmNone, "MakeMap");
            let mut j: i32 = 0;
            while j < self.rand.random_range_int(5, 15, RandomType::EmNone, "MakeMap")
                invariant
                    old(self).covered() ==> self.covered(),
                    0 <= i < 4,
                    0 <= j <= 15,
                    0 <= num2 <= self.width,
                    stride as int == self.stride(),
                    self.wf(),
                    self.width == old(self).width,
                    self.height == old(self).height,
                    self.m_lis_mine_dir == old(self).m_lis_mine_dir,
                    ({
                        let r = born_run(
                            self.rand.sys_random@,
                            i as int,
                            num2 as int,
                            j as nat,
                            self.bb@[T_BORN_LINE as int]@,
                            self.width as int,
                            self.height as int,
                            stride as int,
                        );
                        born_sides(r.0, (i + 1) as nat, r.1, lo, hi, self.width as int, self.height as int, stride as int)
                            == total
                    }),
                    forall|t: int| 0 <= t < 20 && t != T_BORN_LINE ==> #[trigger] self.bb@[t] == old(self).bb@[t],
                    self.grid == old(self).grid,
                    self.born_space == old(self).born_space,
                    self.cache_born_line == old(self).cache_born_line,
                decreases 15 - j,
            {
                let k = if i == 0 {
                    self.p2key_safe(0, num2 + j)
                } else if i == 1 {
                    self.p2key_safe(self.width - 1, num2 + j)
                } else if i == 2 {
                    self.p2key_safe(num2 + j, 0)
                } else {
                    self.p2key_safe(num2 + j, self.width - 1)
                };
                assert(k == born_key(i as int, (num2 + j) as int, self.width as int, self.height as int));
                if k >= 0 {
                    proof {
                        lemma_dims(self.width as int, self.height as int);
                        lemma_key_cell(self.width as int, self.height as int, k as int);
                        lemma_cell_index(
                            self.width as int,
                            self.height as int,
                            stride as int,
                            (k % self.width) as int,
                            (k / self.width) as int,
                        );
                    }
                    let nw = ((k / self.width) as usize) * stride + ((k % self.width) as usize) / 32;
                    let v = self.bb[T_BORN_LINE][nw] | (1u32 << ((k % 32) as u32));
                    self.write_scratch(T_BORN_LINE, nw, v);
                }
                j = j + 1;
            }
            i = i + 1;
        }
    }

    /// The first part of the map: three mine paths, soil everywhere, the
    /// fertile birth area (copied into the birth space, with soil under it)
    /// and the birth line.
    #[verifier::spinoff_prover]
    #[verifier::rlimit(60)]
    fn make_base(&mut self, size_scale: i32)
        requires
            old(self).wf(),
            old(self).m_lis_mine_dir@.len() <= 0x1000_0000,
            size_scale as int == size_scale_of(old(self).width as int),
        ensures
            final(self).wf(),
            final(self).covered(),
            final(self).width == old(self).width,
            final(self).height == old(self).height,
            final(self).m_lis_mine_dir@.len() <= 0x1C00_0000,
            ({
                let r = mm_base_result(
                    old(self).rand.sys_random@,
                    old(self).layers(),
                    old(self).m_lis_mine_dir@,
                    old(self).width as int,
                    old(self).height as int,
                );
                &&& final(self).rand.sys_random@ == r.0
                &&& final(self).layers() == r.1
                &&& final(self).m_lis_mine_dir@ == r.2
            }),
    {
        let total_words = self.bb[0].len();
        let ghost wd = self.width as int;
        let ghost ht = self.height as int;
        proof {
            lemma_dims(self.width as int, self.height as int);
            reveal(mm_base_result);
        }
        self.make_mine_dir(2, 3);
        self.make_mine_dir(2, 3);
        self.make_mine_dir(2, 3);
        let ghost l0 = self.layers();
        self.fill(Terrain::Soil);
        proof {
            let fl = fill_layers(l0, T_SOIL as int, wd);
            assert forall|t: int| 0 <= t < 20 implies #[trigger] self.layers()[t] == fl[t] by {
                assert(self.layers()[t] =~= fl[t]);
            }
            assert(self.layers() =~= fl);
        }
        let _borncenter = self.born_space_random_fill(Terrain::FertileSoil);
        self.out_line(Terrain::FertileSoil, Terrain::FertileSoil, 2, 100, 0, CType::AllTrue);
        self.out_line(Terrain::FertileSoil, Terrain::FertileSoil, 5, 20, 0, CType::AllTrue);
        self.optimize(Terrain::FertileSoil, 2, 4, 1, CType::AllTrue);
        let ghost l3 = self.layers();
        let ghost rand3 = self.rand;
        let ghost mine3 = self.m_lis_mine_dir;
        let mut w: usize = 0;
        while w < total_words
            invariant
                self.covered(),
                w <= total_words,
                total_words == self.words(),
                self.wf(),
                self.width == old(self).width,
                self.height == old(self).height,
                self.m_lis_mine_dir@.len() <= 0x1C00_0000,
                forall|t: int| 0 <= t < 20 && t != T_BORN_SPACE ==> #[trigger] self.layers()[t] == l3[t],
                forall|v: int| 0 <= v < w ==> #[trigger] self.layers()[T_BORN_SPACE as int][v] == fertile_word(l3, v),
                forall|v: int| w <= v < total_words ==> #[trigger] self.layers()[T_BORN_SPACE as int][v] == l3[T_BORN_SPACE as int][v],
                l3.len() == 20,
                l3[T_BORN_SPACE as int].len() == total_words,
                self.rand == rand3,
                self.m_lis_mine_dir == mine3,
            decreases total_words - w,
        {
            let mut m = self.bb[T_FERTILE_SOIL][w];
            if w == 0 {
                m = m & !1u32;
            }
            let ghost pb = self.bb@;
            let ghost pl = self.layers();
            proof {
                assert(pl[T_FERTILE_SOIL as int] == l3[T_FERTILE_SOIL as int]);
                assert(m == fertile_word(l3, w as int));
            }
            self.write_scratch(T_BORN_SPACE, w, m);
            proof {
                assert forall|t: int| 0 <= t < 20 && t != T_BORN_SPACE implies #[trigger] self.layers()[t] == l3[t] by {
                    assert(pl[t] == l3[t]);
                    assert(self.bb@[t] == pb[t]);
                }
                assert forall|v: int| 0 <= v < w + 1 implies #[trigger] self.layers()[T_BORN_SPACE as int][v] == fertile_word(l3, v) by {
                    if v < w {
                        assert(pl[T_BORN_SPACE as int][v] == fertile_word(l3, v));
                    }
                }
                assert forall|v: int| w + 1 <= v < total_words implies #[trigger] self.layers()[T_BORN_SPACE as int][v] == l3[T_BORN_SPACE as int][v] by {
                    assert(pl[T_BORN_SPACE as int][v] == l3[T_BORN_SPACE as int][v]);
                }
            }
            w = w + 1;
        }
        proof {
            let bl = born_copy_layers(l3);
            assert forall|t: int| 0 <= t < 20 implies #[trigger] self.layers()[t] == bl[t] by {
                assert(self.layers()[t] =~= bl[t]);
            }
            assert(self.layers() =~= bl);
        }
        self.out_line(Terrain::FertileSoil, Terrain::FertileSoil, 2, 100, 0, CType::AllTrue);
        let ghost l4 = self.layers();
        let ghost rand4 = self.rand;
        let ghost mine4 = self.m_lis_mine_dir;
        let mut w: usize = 0;
        while w < total_words
            invariant
                self.covered(),
                w <= total_words,
                total_words == self.words(),
                self.wf(),
                self.width == old(self).width,
                self.height == old(self).height,
                self.m_lis_mine_dir@.len() <= 0x1C00_0000,
                self.layers() == soil_fold(l4, w as int),
                self.rand == rand4,
                self.m_lis_mine_dir == mine4,
                forall|t: int, v: int| 0 <= t < 20 && w <= v < total_words ==> #[trigger] self.layers()[t][v] == l4[t][v],
            decreases total_words - w,
        {
            let mut m = self.bb[T_FERTILE_SOIL][w];
            if w == 0 {
                m = m & !1u32;
            }
            proof {
                assert(m == fertile_word(l4, w as int));
            }
            if m != 0 {
                self.set_mask(T_SOIL, w, m);
            }
            w = w + 1;
        }
        let ghost l5 = self.layers();
        self.mark_born_lines(size_scale);
        proof {
            let nl = l5.update(T_BORN_LINE as int, self.layers()[T_BORN_LINE as int]);
            assert forall|t: int| 0 <= t < 20 implies #[trigger] self.layers()[t] == nl[t] by {
                assert(self.layers()[t] =~= nl[t]);
            }
            assert(self.layers() =~= nl);
        }
    }

    /// The second part of the map: fertile soil and deep water grown, then
    /// water, shallow water and mud around them.
    #[verifier::spinoff_prover]
    #[verifier::rlimit(60)]
    fn make_water(&mut self, size_scale: i32)
        requires
            old(self).wf(),
            old(self).covered(),
            1 <= size_scale <= 1024,
        ensures
            final(self).wf(),
            final(self).covered(),
            final(self).width == old(self).width,
            final(self).height == old(self).height,
            final(self).m_lis_mine_dir == old(self).m_lis_mine_dir,
            (final(self).rand.sys_random@, final(self).layers()) == mm_water_result(
                (old(self).rand.sys_random@, old(self).layers()),
                size_scale as int,
                old(self).width as int,
                old(self).height as int,
            ),
    {
        proof {
            reveal(mm_water_result);
        }
        self.random_and_expand(Terrain::FertileSoil, 20, 4, 30, 5, 3, CType::AllTrue, CType::AllTrue);
        self.random_and_expand(
            Terrain::DDepthWater,
            size_scale - 1,
            2 * size_scale - 1,
            13 + 6 * size_scale,
            5,
            3,
            CType::NoBorn,
            CType::NoBorn,
        );
        self.out_line(Terrain::DDepthWater, Terrain::DepthWater, 1, 100, 0, CType::CheckCon);
        self.out_line(Terrain::DepthWater, Terrain::DepthWater, 1, 10 + 6 * size_scale, 0, CType::NoBorn);
        self.out_line(Terrain::DepthWater, Terrain::ShallowWater, 4, 50 + 12 * size_scale, 0, CType::CheckCon);
        self.optimize(Terrain::ShallowWater, 2, 6, 1, CType::CheckCon);
        self.random_and_expand(Terrain::ShallowWater, 3, 3, 20, 5, 3, CType::NoBorn, CType::NoBorn);
        self.out_line(Terrain::ShallowWater, Terrain::Mud, 4, 90, 0, CType::CheckCon);
    }

    /// The last part of the map: ore lines along the mine paths, rocks,
    /// stone land and spirit soil.
    #[verifier::spinoff_prover]
    #[verifier::rlimit(60)]
    fn make_stone(&mut self, size_scale: i32)
        requires
            old(self).wf(),
            old(self).covered(),
            1 <= size_scale <= 1024,
            old(self).m_lis_mine_dir@.len() <= 0x7000_0000,
        ensures
            final(self).wf(),
            final(self).covered(),
            final(self).width == old(self).width,
            final(self).height == old(self).height,
            final(self).m_lis_mine_dir == old(self).m_lis_mine_dir,
            (final(self).rand.sys_random@, final(self).layers()) == mm_stone_result(
                (old(self).rand.sys_random@, old(self).layers()),
                size_scale as int,
                old(self).m_lis_mine_dir@,
                old(self).width as int,
                old(self).height as int,
            ),
    {
        proof {
            reveal(mm_stone_result);
        }
        self.place_ore_lines(size_scale);
        self.grow_rocks(size_scale);
        self.optimize(Terrain::RockBrown, 2, 9, 1, CType::NoBorn);
        self.out_line(Terrain::RockBrown, Terrain::StoneLand, 1, 30, 0, CType::CheckCon2);
        self.out_line(Terrain::IronOre, Terrain::StoneLand, 1, 30, 0, CType::CheckCon2);
        self.out_line(Terrain::SilverOre, Terrain::StoneLand, 1, 30, 0, CType::CheckCon2);
        self.out_line(Terrain::CopperOre, Terrain::StoneLand, 1, 30, 0, CType::CheckCon2);
        self.out_line(Terrain::RockBrown, Terrain::StoneLand, 1, 30, 0, CType::CheckCon2);
        self.out_line(Terrain::StoneLand, Terrain::StoneLand, 1, 5, 0, CType::CheckCon);
        self.optimize(Terrain::StoneLand, 2, 9, 1, CType::CheckCon);
        self.random_and_expand(Terrain::LingSoil, size_scale, 6, 33, 5, 3, CType::CheckCon, CType::CheckCon);
    }

    /// Generates the map of the current seed: mine paths, fertile birth
    /// area, birth line, water, mud, ore veins, rock, stone land and spirit
    /// soil, in the game's order, then rebuilds the grid from the bit boards.
    /// Every cell ends in exactly one terrain layer, so no cell of the grid is
    /// left `Null`.
    pub fn make_map(&mut self)
        requires
            old(self).wf(),
            old(self).m_lis_mine_dir@.len() <= 0x1000_0000,
        ensures
            final(self).wf(),
            final(self).shaped(),
            final(self).width == old(self).width,
            final(self).height == old(self).height,
            final(self).shows_bit_boards(),
            final(self).covered(),
            final(self).exclusive(),
            forall|k: int| 0 <= k < final(self).cells() ==> #[trigger] final(self).grid@[k] != Terrain::Null,
            ({
                let r = make_map_result(
                    old(self).rand.sys_random@,
                    old(self).layers(),
                    old(self).m_lis_mine_dir@,
                    old(self).width as int,
                    old(self).height as int,
                );
                &&& final(self).rand.sys_random@ == r.0
                &&& final(self).layers() == r.1
                &&& final(self).m_lis_mine_dir@ == r.2
            }),
            forall|k: int|
                0 <= k < final(self).cells() ==> {
                    let x = k % final(self).width as int;
                    let y = k / final(self).width as int;
                    &&& #[trigger] final(self).grid@[k] == terrain_at(final(self).layers(), final(self).stride(), x, y)
                    &&& final(self).born_space@[k] == cell_bit(final(self).layers(), final(self).stride(), 16, x, y)
                    &&& final(self).cache_born_line@[k] == cell_bit(final(self).layers(), final(self).stride(), 17, x, y)
                },
            final(self).grid@ == grid_of(final(self).layers(), final(self).width as int, final(self).height as int),
    {
        let size_scale = if self.width / 64 > 1 {
            self.width / 64
        } else {
            1
        };
        proof {
            lemma_dims(self.width as int, self.height as int);
            assert(size_scale as int == size_scale_of(self.width as int));
        }
        self.make_base(size_scale);
        let ghost mine = self.m_lis_mine_dir@;
        self.make_water(size_scale);
        self.make_stone(size_scale);
        self.finalize_grid();
        proof {
            assert forall|k: int| 0 <= k < self.cells() implies {
                let x = k % self.width as int;
                let y = k / self.width as int;
                &&& #[trigger] self.grid@[k] == terrain_at(self.layers(), self.stride(), x, y)
                &&& self.born_space@[k] == cell_bit(self.layers(), self.stride(), 16, x, y)
                &&& self.cache_born_line@[k] == cell_bit(self.layers(), self.stride(), 17, x, y)
                &&& self.grid@[k] != Terrain::Null
            } by {
                lemma_dims(self.width as int, self.height as int);
                lemma_key_cell(self.width as int, self.height as int, k);
                let x = k % self.width as int;
                let y = k / self.width as int;
                assert(self.cell_shown(x, y));
                assert(y * self.width + x == k) by {
                    lemma_mul_is_commutative(y, self.width as int);
                }
            }
            assert(self.grid@ =~= grid_of(self.layers(), self.width as int, self.height as int));
        }
    }

    /// Equal seeds and dimensions give equal maps: from the state that `new`
    /// and `reset` leave (a freshly seeded generator, empty bit boards, no
    /// mine path), `make_map` yields the map of the seed, whatever the
    /// generator held before.
    pub proof fn lemma_fresh_map(m: MapMaker, seed: i32)
        requires
            m.rand.sys_random@ == seeded_state(seed),
            m.layers() == zero_layers(m.width as int, m.height as int),
            m.m_lis_mine_dir@.len() == 0,
        ensures
            make_map_result(m.rand.sys_random@, m.layers(), m.m_lis_mine_dir@, m.width as int, m.height as int).1
                == seed_map(seed, m.width as int, m.height as int),
    {
        assert(m.m_lis_mine_dir@ =~= Seq::<i32>::empty());
    }

    /// Ore veins along the mine paths: iron lines, copper and silver lines,
    /// and grey rock or marble lines.
    #[verifier::spinoff_prover]
    #[verifier::rlimit(50)]
    fn place_ore_lines(&mut self, size_scale: i32)
        requires
            old(self).wf(),
            1 <= size_scale <= 1024,
            old(self).m_lis_mine_dir@.len() <= 0x7000_0000,
        ensures
            old(self).covered() ==> final(self).covered(),
            final(self).wf(),
            final(self).width == old(self).width,
            final(self).height == old(self).height,
            final(self).m_lis_mine_dir == old(self).m_lis_mine_dir,
            (final(self).rand.sys_random@, final(self).layers()) == mm_ore_lines_result(
                (old(self).rand.sys_random@, old(self).layers()),
                size_scale,
                old(self).m_lis_mine_dir@,
                old(self).width as int,
                old(self).height as int,
            ),
    {
        let ghost mine = self.m_lis_mine_dir@;
        let ghost wd = self.width as int;
        let ghost ht = self.height as int;
        let ghost s1 = mm_iron_lines((self.rand.sys_random@, self.layers()), 0, size_scale, mine, wd, ht);
        proof {
            reveal(mm_ore_lines_result);
        }
        let mut idx1: i32 = 0;
        loop
            invariant_except_break
                mm_iron_lines((self.rand.sys_random@, self.layers()), idx1 as int, size_scale, mine, wd, ht) == s1,
            invariant
                old(self).covered() ==> self.covered(),
                0 <= idx1 <= size_scale + 2,
                1 <= size_scale <= 1024,
                self.wf(),
                self.width == old(self).width,
                self.height == old(self).height,
                wd == self.width,
                ht == self.height,
                mine == self.m_lis_mine_dir@,
                self.m_lis_mine_dir == old(self).m_lis_mine_dir,
                old(self).m_lis_mine_dir@.len() <= 0x7000_0000,
            ensures
                (self.rand.sys_random@, self.layers()) == s1,
            decreases size_scale + 2 - idx1,
        {
            let v = self.rand.random_range_int(size_scale, size_scale + 2, RandomType::EmNone, "MakeMap");
            if !(idx1 < v) {
                break;
            }
            let w = self.rand.random_range_int(0, size_scale, RandomType::EmNone, "MakeMap");
            let size = self.rand.random_range_int(5 + size_scale, 10 + size_scale, RandomType::EmNone, "MakeMap");
            self.random_line_from_mine_dir(w, size, Terrain::IronOre, CType::NoBorn);
            idx1 = idx1 + 1;
        }
        let mut kind: i32 = 0;
        while kind < 2
            invariant
                old(self).covered() ==> self.covered(),
                0 <= kind <= 2,
                1 <= size_scale <= 1024,
                self.wf(),
                self.width == old(self).width,
                self.height == old(self).height,
                wd == self.width,
                ht == self.height,
                mine == self.m_lis_mine_dir@,
                self.m_lis_mine_dir == old(self).m_lis_mine_dir,
                old(self).m_lis_mine_dir@.len() <= 0x7000_0000,
                kind == 0 ==> (self.rand.sys_random@, self.layers()) == s1,
                kind == 1 ==> (self.rand.sys_random@, self.layers()) == mm_ore_lines(s1, 0, T_COPPER_ORE as int, size_scale, mine, wd, ht),
                kind == 2 ==> (self.rand.sys_random@, self.layers()) == mm_ore_lines(
                    mm_ore_lines(s1, 0, T_COPPER_ORE as int, size_scale, mine, wd, ht),
                    0,
                    T_SILVER_ORE as int,
                    size_scale,
                    mine,
                    wd,
                    ht,
                ),
            decreases 2 - kind,
        {
            let t = if kind == 0 {
                Terrain::CopperOre
            } else {
                Terrain::SilverOre
            };
            let ghost total = mm_ore_lines((self.rand.sys_random@, self.layers()), 0, t_idx(t), size_scale, mine, wd, ht);
            let mut idx: i32 = 0;
            while idx < 1 + size_scale
                invariant
                    mm_ore_lines((self.rand.sys_random@, self.layers()), idx as int, t_idx(t), size_scale, mine, wd, ht) == total,
                    old(self).covered() ==> self.covered(),
                    terrain_layer(t_idx(t)),
                    0 <= idx <= 1 + size_scale,
                    1 <= size_scale <= 1024,
                    self.wf(),
                    self.width == old(self).width,
                    self.height == old(self).height,
                    wd == self.width,
                    ht == self.height,
                    mine == self.m_lis_mine_dir@,
                    self.m_lis_mine_dir == old(self).m_lis_mine_dir,
                    old(self).m_lis_mine_dir@.len() <= 0x7000_0000,
                decreases 1 + size_scale - idx,
            {
                let w = self.rand.random_range_int(0, 1, RandomType::EmNone, "MakeMap");
                let size = self.rand.random_range_int(3 + size_scale, 5 + size_scale, RandomType::EmNone, "MakeMap");
                self.random_line_from_mine_dir(w, size, t, CType::NoBorn);
                idx = idx + 1;
            }
            kind = kind + 1;
        }
        let ghost s3 = (self.rand.sys_random@, self.layers());
        let ghost s4 = mm_rock_lines(s3, 0, mine, wd, ht);
        let mut idx4: i32 = 0;
        loop
            invariant_except_break
                mm_rock_lines((self.rand.sys_random@, self.layers()), idx4 as int, mine, wd, ht) == s4,
            invariant
                old(self).covered() ==> self.covered(),
                0 <= idx4 <= 3,
                self.wf(),
                self.width == old(self).width,
                self.height == old(self).height,
                wd == self.width,
                ht == self.height,
                mine == self.m_lis_mine_dir@,
                self.m_lis_mine_dir == old(self).m_lis_mine_dir,
                old(self).m_lis_mine_dir@.len() <= 0x7000_0000,
            ensures
                (self.rand.sys_random@, self.layers()) == s4,
            decreases 3 - idx4,
        {
            let v = self.rand.random_range_int(1, 3, RandomType::EmNone, "MakeMap");
            if !(idx4 < v) {
                break;
            }
            let w = self.rand.random_range_int(0, 1, RandomType::EmNone, "MakeMap");
            let size = self.rand.random_range_int(8, 16, RandomType::EmNone, "MakeMap");
            let stone_t = if self.rand.random_range_int(1, 3, RandomType::EmNone, "MakeMap") == 1 {
                Terrain::RockGray
            } else {
                Terrain::RockMarble
            };
            self.random_line_from_mine_dir(w, size, stone_t, CType::NoBorn);
            idx4 = idx4 + 1;
        }
    }

    /// Grey rock and marble patches, ore patches, brown rock, and the rings
    /// of brown rock around rocks and ores.
    #[verifier::spinoff_prover]
    #[verifier::rlimit(60)]
    fn grow_rocks(&mut self, size_scale: i32)
        requires
            old(self).wf(),
            1 <= size_scale <= 1024,
        ensures
            old(self).covered() ==> final(self).covered(),
            final(self).wf(),
            final(self).width == old(self).width,
            final(self).height == old(self).height,
            final(self).m_lis_mine_dir == old(self).m_lis_mine_dir,
            (final(self).rand.sys_random@, final(self).layers()) == mm_grow_rocks_result(
                (old(self).rand.sys_random@, old(self).layers()),
                size_scale,
                old(self).width as int,
                old(self).height as int,
            ),
    {
        let ghost wd = self.width as int;
        let ghost ht = self.height as int;
        let ghost s1 = mm_rock_growth((self.rand.sys_random@, self.layers()), 1, size_scale, wd, ht);
        proof {
            reveal(mm_grow_rocks_result);
        }
        let mut m: i32 = 1;
        loop
            invariant_except_break
                mm_rock_growth((self.rand.sys_random@, self.layers()), m as int, size_scale, wd, ht) == s1,
            invariant
                old(self).covered() ==> self.covered(),
                1 <= m <= 3,
                1 <= size_scale <= 1024,
                self.wf(),
                self.width == old(self).width,
                self.height == old(self).height,
                wd == self.width,
                ht == self.height,
                self.m_lis_mine_dir == old(self).m_lis_mine_dir,
            ensures
                (self.rand.sys_random@, self.layers()) == s1,
            decreases 3 - m,
        {
            let v = self.rand.random_range_int(1, 3, RandomType::EmNone, "MakeMap");
            if !(m < v) {
                break;
            }
            let stone_t = if m == 1 {
                Terrain::RockGray
            } else {
                Terrain::RockMarble
            };
            let random_count = self.rand.random_range_int(0, 3, RandomType::EmNone, "MakeMap");
            self.random_and_expand(stone_t, random_count, 3, 15 + 3 * size_scale, 0, 3, CType::NoBorn, CType::NoBorn);
            m = m + 1;
        }
        let ores = [Terrain::IronOre, Terrain::CopperOre, Terrain::SilverOre];
        let mut o: usize = 0;
        while o < 3
            invariant
                old(self).covered() ==> self.covered(),
                ores@ == seq![Terrain::IronOre, Terrain::CopperOre, Terrain::SilverOre],
                o <= 3,
                1 <= size_scale <= 1024,
                self.wf(),
                self.width == old(self).width,
                self.height == old(self).height,
                wd == self.width,
                ht == self.height,
                self.m_lis_mine_dir == old(self).m_lis_mine_dir,
                o == 0 ==> (self.rand.sys_random@, self.layers()) == s1,
                o == 1 ==> (self.rand.sys_random@, self.layers()) == mm_ore_growth(s1, T_IRON_ORE as int, size_scale, wd, ht),
                o == 2 ==> (self.rand.sys_random@, self.layers()) == mm_ore_growth(
                    mm_ore_growth(s1, T_IRON_ORE as int, size_scale, wd, ht),
                    T_COPPER_ORE as int,
                    size_scale,
                    wd,
                    ht,
                ),
                o == 3 ==> (self.rand.sys_random@, self.layers()) == mm_ore_growth(
                    mm_ore_growth(mm_ore_growth(s1, T_IRON_ORE as int, size_scale, wd, ht), T_COPPER_ORE as int, size_scale, wd, ht),
                    T_SILVER_ORE as int,
                    size_scale,
                    wd,
                    ht,
                ),
            decreases 3 - o,
        {
            let a0 = self.rand.random_range_int(0, size_scale + 1, RandomType::EmNone, "MakeMap");
            let a1 = self.rand.random_range_int(1, size_scale + 1, RandomType::EmNone, "MakeMap");
            let a2 = self.rand.random_range_int(1, 4, RandomType::EmNone, "MakeMap");
            assert(0 < size_scale * a2 <= 4096) by (nonlinear_arith)
                requires
                    1 <= size_scale <= 1024,
                    1 <= a2 <= 4,
            ;
            self.random_and_expand(ores[o], a0, a1, 13 + size_scale * a2, 0, 3, CType::NoBorn, CType::NoBorn);
            o = o + 1;
        }
        let rb_rand_1 = self.rand.random_range_int(2, size_scale + 1, RandomType::EmNone, "MakeMap");
        self.random_and_expand(
            Terrain::RockBrown,
            rb_rand_1,
            size_scale + 1,
            13 + size_scale * 4,
            0,
            3,
            CType::NoBorn,
            CType::NoBorn,
        );
        self.out_line(Terrain::RockGray, Terrain::RockBrown, 1, 50 + 12 * size_scale, 0, CType::NoBorn);
        self.out_line(Terrain::RockMarble, Terrain::RockBrown, 1, 50 + 12 * size_scale, 0, CType::NoBorn);
        self.out_line(Terrain::IronOre, Terrain::RockBrown, 1, 50 + 12 * size_scale, 0, CType::NoBorn);
        self.out_line(Terrain::CopperOre, Terrain::RockBrown, 1, 50 + 12 * size_scale, 0, CType::NoBorn);
        self.out_line(Terrain::SilverOre, Terrain::RockBrown, 1, 50 + 12 * size_scale, 0, CType::NoBorn);
        let ghost s5 = (self.rand.sys_random@, self.layers());
        let mut o: usize = 0;
        while o < 3
            invariant
                mm_ore_rings((self.rand.sys_random@, self.layers()), o as int, size_scale, wd, ht) == mm_ore_rings(s5, 0, size_scale, wd, ht),
                ores@ == seq![Terrain::IronOre, Terrain::CopperOre, Terrain::SilverOre],
                old(self).covered() ==> self.covered(),
                o <= 3,
                1 <= size_scale <= 1024,
                self.wf(),
                self.width == old(self).width,
                self.height == old(self).height,
                wd == self.width,
                ht == self.height,
                self.m_lis_mine_dir == old(self).m_lis_mine_dir,
            decreases 3 - o,
        {
            let out_w = self.rand.random_range_int(1, 2, RandomType::EmNone, "MakeMap");
            self.out_line(ores[o], Terrain::RockBrown, out_w, 8 + 8 * size_scale, 0, CType::NoBorn);
            o = o + 1;
        }
        let ghost s6 = (self.rand.sys_random@, self.layers());
        let rocks = [Terrain::RockBrown, Terrain::RockGray, Terrain::RockMarble];
        let mut j: usize = 0;
        while j < 3
            invariant
                mm_rock_rings((self.rand.sys_random@, self.layers()), j as int, size_scale, wd, ht) == mm_rock_rings(s6, 0, size_scale, wd, ht),
                rocks@ == seq![Terrain::RockBrown, Terrain::RockGray, Terrain::RockMarble],
                old(self).covered() ==> self.covered(),
                j <= 3,
                1 <= size_scale <= 1024,
                self.wf(),
                self.width == old(self).width,
                self.height == old(self).height,
                wd == self.width,
                ht == self.height,
                self.m_lis_mine_dir == old(self).m_lis_mine_dir,
            decreases 3 - j,
        {
            let out_rand = self.rand.random_range_int(1, size_scale, RandomType::EmNone, "MakeMap");
            self.out_line(rocks[j], Terrain::RockBrown, out_rand, 8 + 8 * size_scale, 0, CType::NoBorn);
            j = j + 1;
        }
    }
}

/// `0.3` and `0.6` of a width stay within the width.
proof fn lemma_f32_scale_small(x: nat)
    requires
        x <= 0x1_0000,
    ensures
        f32_product(x, 5033165, 24) <= x,
        f32_product(x, 5033165, 23) <= x,
{
    lemma2_to64();
    lemma_pow2_adds(24, 0);
    // x * 5033165 <= (x * 2^23) and 2^23 * x has at most 24 significant bits
    assert(x * 5033165 <= x * 0x80_0000) by (nonlinear_arith);
    assert(x * 5033165 <= x * 0x100_0000) by (nonlinear_arith);
    lemma_round_le_representable(x * 5033165, false, 24, x, 23);
    lemma_round_le_representable(x * 5033165, false, 24, x, 24);
    let a = round_sig(x * 5033165, false, 24);
    lemma_div_is_ordered((a.0 * pow2(a.1)) as int, (x * pow2(23)) as int, pow2(23) as int);
    lemma_div_multiples_vanish(x as int, pow2(23) as int);
    lemma_mul_is_commutative(x as int, pow2(23) as int);
    lemma_div_is_ordered((a.0 * pow2(a.1)) as int, (x * pow2(24)) as int, pow2(24) as int);
    lemma_div_multiples_vanish(x as int, pow2(24) as int);
    lemma_mul_is_commutative(x as int, pow2(24) as int);
}

/// For a positive width, `div_tz` and `rem_tz` of a non-negative key are
/// Euclidean division and remainder.
proof fn lemma_div_tz_nonneg(width: int)
    requires
        width >= 1,
    ensures
        forall|k: int| k >= 0 ==> #[trigger] div_tz(k, width) == k / width,
{
}

} // verus!
