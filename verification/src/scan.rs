//! Scanning seeds: the configuration of a scan, the test of one seed, and the
//! ranking of the seeds found.
use vstd::prelude::*;
use crate::map_maker::{MapMaker, Terrain};
use crate::map_steps::{seed_grid, seed_map};
use crate::text::{chars_of, is_white_space, parse_i32, parsed_i32, unicode_white_space, ws_trail};
use crate::lang::{all_lines, lines_of};

verus! {

/// The two tabs of the front end.
#[derive(PartialEq, Eq, Clone, Copy, Debug, Structural)]
pub enum AppTab {
    MapScanner,
    NpcScanner,
}

impl Default for AppTab {
    fn default() -> (r: Self)
        ensures
            r == AppTab::MapScanner,
    {
        AppTab::MapScanner
    }
}

/// The engines that can scan a range of seeds.
#[derive(PartialEq, Eq, Clone, Copy, Debug, Structural)]
pub enum ComputeMode {
    CpuRayon,
    AmdGpuArchitecture,
    HeterogeneousPipeline,
}

impl Default for ComputeMode {
    fn default() -> (r: Self)
        ensures
            r == ComputeMode::HeterogeneousPipeline,
    {
        ComputeMode::HeterogeneousPipeline
    }
}

/// What a scan looks for: maps of `map_size` squared cells with at least
/// `threshold` cells of spirit soil.
pub struct ScanConfig {
    pub map_size: i32,
    pub threshold: usize,
}

/// The single entry point that dispatches a scan to the engine of `mode`.
pub struct EngineScanner {
    pub mode: ComputeMode,
}

impl EngineScanner {
    /// A scanner that uses the engine `mode`.
    pub fn new(mode: ComputeMode) -> (r: Self)
        ensures
            r.mode == mode,
    {
        Self { mode }
    }
}

/// The number of spirit-soil cells among the first `n` cells.
pub open spec fn ling_count(g: Seq<Terrain>, n: int) -> nat
    decreases n,
{
    if n <= 0 {
        0
    } else {
        ling_count(g, n - 1) + if g[n - 1] == Terrain::LingSoil { 1nat } else { 0nat }
    }
}

/// The spirit-soil count of the first `n` cells is the number of them that
/// are `LingSoil`, whatever the other terrains.
pub proof fn lemma_ling_count_is_count(g: Seq<Terrain>, n: int)
    requires
        0 <= n <= g.len(),
    ensures
        ling_count(g, n) == g.take(n).filter(|t: Terrain| t == Terrain::LingSoil).len(),
    decreases n,
{
    let p = |t: Terrain| t == Terrain::LingSoil;
    if n == 0 {
        assert(g.take(0).filter(p) =~= Seq::<Terrain>::empty());
    } else {
        lemma_ling_count_is_count(g, n - 1);
        assert(g.take(n) =~= g.take(n - 1).push(g[n - 1]));
        g.take(n - 1).lemma_filter_push(g[n - 1], p);
    }
}

proof fn lemma_ling_count_le(g: Seq<Terrain>, n: int)
    requires
        0 <= n,
    ensures
        ling_count(g, n) <= n,
    decreases n,
{
    if n > 0 {
        lemma_ling_count_le(g, n - 1);
    }
}

/// The number of spirit-soil cells of a grid.
pub fn count_ling_soil(grid: &Vec<Terrain>) -> (r: usize)
    ensures
        r == ling_count(grid@, grid@.len() as int),
{
    let mut c: usize = 0;
    let mut i: usize = 0;
    while i < grid.len()
        invariant
            i <= grid@.len(),
            c == ling_count(grid@, i as int),
        decreases grid@.len() - i,
    {
        proof {
            lemma_ling_count_le(grid@, i as int);
        }
        if grid[i] == Terrain::LingSoil {
            c = c + 1;
        }
        i = i + 1;
    }
    c
}

/// Generates the map of `seed` with the generator `m` and reports the seed
/// with its number of spirit-soil cells when that number reaches
/// `threshold`. Whatever `m` held before, the grid is the map of `seed`.
pub fn evaluate_seed(m: &mut MapMaker, seed: i32, threshold: usize) -> (r: Option<(i32, usize)>)
    requires
        old(m).wf(),
    ensures
        final(m).wf(),
        final(m).width == old(m).width,
        final(m).height == old(m).height,
        final(m).shows_bit_boards(),
        final(m).layers() == seed_map(seed, old(m).width as int, old(m).height as int),
        final(m).grid@ == seed_grid(seed, old(m).width as int, old(m).height as int),
        ({
            let g = seed_grid(seed, old(m).width as int, old(m).height as int);
            let c = ling_count(g, g.len() as int);
            r == if c >= threshold { Some((seed, c as usize)) } else { None::<(i32, usize)> }
        }),
{
    m.reset(seed);
    proof {
        MapMaker::lemma_fresh_map(*m, seed);
    }
    m.make_map();
    let c = count_ling_soil(&m.grid);
    if c >= threshold {
        Some((seed, c))
    } else {
        None
    }
}

/// Sorted by count, largest first.
pub open spec fn by_count_desc(s: Seq<(i32, usize)>) -> bool {
    forall|a: int, b: int| 0 <= a < b < s.len() ==> #[trigger] s[a].1 >= #[trigger] s[b].1
}

/// Whether a hit has count `c`.
pub open spec fn count_is(c: usize) -> spec_fn((i32, usize)) -> bool {
    |p: (i32, usize)| p.1 == c
}

/// The hits of count `c`, in their order.
pub open spec fn of_count(s: Seq<(i32, usize)>, c: usize) -> Seq<(i32, usize)> {
    s.filter(count_is(c))
}

/// Inserting `x` at `pos` of a list whose entries from `pos` on all count
/// less than `x` appends `x` to the hits of its count and leaves the others.
proof fn lemma_insert_of_count(before: Seq<(i32, usize)>, pos: int, x: (i32, usize), c: usize)
    requires
        0 <= pos <= before.len(),
        forall|q: int| pos <= q < before.len() ==> #[trigger] before[q].1 < x.1,
    ensures
        of_count(before.insert(pos, x), c) == if x.1 == c {
            of_count(before, c).push(x)
        } else {
            of_count(before, c)
        },
{
    let pred = count_is(c);
    let s1 = before.subrange(0, pos);
    let s2 = before.subrange(pos, before.len() as int);
    assert(before.insert(pos, x) =~= s1 + seq![x] + s2);
    assert(before =~= s1 + s2);
    Seq::filter_distributes_over_add(s1 + seq![x], s2, pred);
    Seq::filter_distributes_over_add(s1, seq![x], pred);
    Seq::filter_distributes_over_add(s1, s2, pred);
    assert(seq![x] =~= Seq::<(i32, usize)>::empty().push(x));
    Seq::<(i32, usize)>::empty().lemma_filter_push(x, pred);
    assert(Seq::<(i32, usize)>::empty().filter(pred) =~= Seq::<(i32, usize)>::empty()) by {
        reveal(Seq::filter);
    }
    if x.1 == c {
        assert(s2.all(|p: (i32, usize)| !pred(p)));
        s2.lemma_all_neg_filter_empty(pred);
        assert(s2.filter(pred) =~= Seq::<(i32, usize)>::empty());
        assert(s1.filter(pred) + seq![x] + s2.filter(pred) =~= (s1.filter(pred) + s2.filter(pred)).push(x));
    } else {
        assert(s1.filter(pred) + Seq::<(i32, usize)>::empty() + s2.filter(pred) =~= s1.filter(pred) + s2.filter(pred));
    }
}

/// The hits ordered by count, largest first; hits of equal count keep
/// their order.
pub fn rank_by_count(hits: Vec<(i32, usize)>) -> (r: Vec<(i32, usize)>)
    ensures
        r@.to_multiset() == hits@.to_multiset(),
        by_count_desc(r@),
        forall|c: usize| #[trigger] of_count(r@, c) == of_count(hits@, c),
{
    broadcast use vstd::seq_lib::group_to_multiset_ensures;
    let mut res: Vec<(i32, usize)> = Vec::new();
    let mut i: usize = 0;
    proof {
        assert(hits@.take(0) =~= Seq::<(i32, usize)>::empty());
    }
    while i < hits.len()
        invariant
            i <= hits@.len(),
            res@.to_multiset() == hits@.take(i as int).to_multiset(),
            by_count_desc(res@),
            forall|c: usize| #[trigger] of_count(res@, c) == of_count(hits@.take(i as int), c),
        decreases hits@.len() - i,
    {
        let x = hits[i];
        let mut pos: usize = 0;
        while pos < res.len() && res[pos].1 >= x.1
            invariant
                pos <= res@.len(),
                forall|q: int| 0 <= q < pos ==> res@[q].1 >= x.1,
            decreases res@.len() - pos,
        {
            pos = pos + 1;
        }
        let ghost before = res@;
        res.insert(pos, x);
        proof {
            assert forall|q: int| pos <= q < before.len() implies #[trigger] before[q].1 < x.1 by {
                if pos < before.len() {
                    assert(before[pos as int].1 < x.1);
                    if q > pos {
                        assert(before[pos as int].1 >= before[q].1);
                    }
                }
            }
            assert forall|c: usize| #[trigger] of_count(res@, c) == of_count(hits@.take(i + 1), c) by {
                lemma_insert_of_count(before, pos as int, x, c);
                assert(hits@.take(i + 1) =~= hits@.take(i as int).push(x));
                hits@.take(i as int).lemma_filter_push(x, count_is(c));
            }
            assert(res@ == before.insert(pos as int, x));
            vstd::seq_lib::to_multiset_insert(before, pos as int, x);
            assert(hits@.take(i + 1) =~= hits@.take(i as int).push(x));
            vstd::seq_lib::to_multiset_build(hits@.take(i as int), x);
            assert forall|a: int, b: int| 0 <= a < b < res@.len() implies #[trigger] res@[a].1 >= #[trigger] res@[b].1 by {
                if b < pos {
                    assert(res@[a] == before[a] && res@[b] == before[b]);
                } else if b == pos {
                    assert(res@[a] == before[a]);
                } else if a < pos {
                    assert(res@[a] == before[a] && res@[b] == before[b - 1]);
                    if pos < before.len() {
                        assert(before[pos as int].1 < x.1);
                        assert(before[a].1 >= before[b - 1].1);
                    }
                } else if a == pos {
                    assert(res@[b] == before[b - 1]);
                    assert(before[pos as int].1 < x.1);
                    if b - 1 > pos {
                        assert(before[pos as int].1 >= before[b - 1].1);
                    }
                } else {
                    assert(res@[a] == before[a - 1] && res@[b] == before[b - 1]);
                }
            }
        }
        i = i + 1;
    }
    proof {
        assert(hits@.take(hits@.len() as int) =~= hits@);
    }
    res
}

/// The start of the run of characters other than white space that ends at
/// `j`.
pub open spec fn word_start(s: Seq<char>, j: int) -> int
    decreases j,
{
    if 0 < j && !unicode_white_space(s[j - 1]) {
        word_start(s, j - 1)
    } else {
        j
    }
}

/// The last white-space-separated word of a line, if it has one.
pub open spec fn last_word(line: Seq<char>) -> Option<Seq<char>> {
    let e = ws_trail(line, 0, line.len() as int);
    if e <= 0 {
        None
    } else {
        Some(line.subrange(word_start(line, e), e))
    }
}

/// The seeds of a seed-list file's lines: each line whose last word reads
/// as an `i32` gives that number; other lines give nothing.
pub open spec fn listed_seeds(lines: Seq<Seq<char>>) -> Seq<i32>
    decreases lines.len(),
{
    if lines.len() == 0 {
        Seq::empty()
    } else {
        let prev = listed_seeds(lines.drop_last());
        match last_word(lines.last()) {
            Some(w) => match parsed_i32(w) {
                Some(v) => prev.push(v),
                None => prev,
            },
            None => prev,
        }
    }
}

/// The last word of a line (see `last_word`), as characters.
fn last_word_of(line: &Vec<char>) -> (r: Option<Vec<char>>)
    ensures
        match last_word(line@) {
            Some(w) => r is Some && r->0@ == w,
            None => r is None,
        },
{
    let mut e: usize = line.len();
    while e > 0 && is_white_space(line[e - 1])
        invariant
            e <= line@.len(),
            ws_trail(line@, 0, line@.len() as int) == ws_trail(line@, 0, e as int),
        decreases e,
    {
        e = e - 1;
    }
    if e == 0 {
        return None;
    }
    let mut b: usize = e;
    while b > 0 && !is_white_space(line[b - 1])
        invariant
            b <= e <= line@.len(),
            word_start(line@, e as int) == word_start(line@, b as int),
        decreases b,
    {
        b = b - 1;
    }
    let mut w: Vec<char> = Vec::new();
    let mut i: usize = b;
    while i < e
        invariant
            b <= i <= e <= line@.len(),
            w@ == line@.subrange(b as int, i as int),
        decreases e - i,
    {
        w.push(line[i]);
        i = i + 1;
        proof {
            assert(w@ =~= line@.subrange(b as int, i as int));
        }
    }
    Some(w)
}

/// The seeds of a seed-list file (see `listed_seeds`), its lines cut at
/// `\n`.
pub fn parse_seed_list(content: &str) -> (r: Vec<i32>)
    ensures
        r@ == listed_seeds(all_lines(content@)),
{
    let s = chars_of(content);
    let lines = lines_of(&s);
    let ghost ls = all_lines(s@);
    let mut out: Vec<i32> = Vec::new();
    let mut k: usize = 0;
    proof {
        assert(ls.take(0) =~= Seq::<Seq<char>>::empty());
    }
    while k < lines.len()
        invariant
            k <= lines@.len(),
            lines@.map_values(|w: Vec<char>| w@) == ls,
            out@ == listed_seeds(ls.take(k as int)),
        decreases lines@.len() - k,
    {
        proof {
            assert(lines@.map_values(|w: Vec<char>| w@)[k as int] == lines@[k as int]@);
            assert(ls.take(k + 1).drop_last() =~= ls.take(k as int));
            assert(ls.take(k + 1).last() == ls[k as int]);
        }
        match last_word_of(&lines[k]) {
            Some(w) => {
                match parse_i32(w.as_slice()) {
                    Some(v) => out.push(v),
                    None => {},
                }
            },
            None => {},
        }
        k = k + 1;
    }
    proof {
        assert(lines@.map_values(|w: Vec<char>| w@).len() == lines@.len());
        assert(ls.take(ls.len() as int) =~= ls);
    }
    out
}

} // verus!
