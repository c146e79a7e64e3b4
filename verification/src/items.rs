//! Drawing item names by label: the game's two generators seen through the
//! one operation that the pickers need, and the pickers themselves.
use vstd::prelude::*;
use crate::rng::{DotNetRandom, DotNetState, GRandom, canonical, draw_int, grandom_interval, grandom_pick, lcg_next, mbig, next_slot, table_shape, wrap_i32};
use crate::sampling::{lemma_ratio_scaled_bounds, lemma_sample_product_bounds};
use crate::sampling::sample_product;
use crate::things::{ThingDefData, ThingDefView, ThingTables, def_view, lists_view, opt_view, strings_view};
use crate::npc_tables::{first_key, lemma_first_key_bound};
use crate::text::str_eq;
use crate::npc::SpellDefData;

verus! {

/// A generator that the pickers draw integers from: `next_int(min, max)`
/// draws from `[min, max)`.
pub trait RngState: Sized {
    /// The generator's state as a value.
    type V;

    /// The state of this generator.
    spec fn state(&self) -> Self::V;

    /// The states from which draws keep their range.
    spec fn ready(v: Self::V) -> bool;

    /// The state after a draw between `min` and `max`, and the number drawn.
    spec fn int_draw(v: Self::V, min: i32, max: i32) -> (Self::V, i32);

    /// A draw from a ready state leaves it ready and, between `0 <= min <
    /// max`, falls in `[min, max)`.
    proof fn lemma_draw(v: Self::V, min: i32, max: i32)
        requires
            Self::ready(v),
        ensures
            Self::ready(Self::int_draw(v, min, max).0),
            0 <= min < max ==> min <= Self::int_draw(v, min, max).1 < max,
    ;

    /// Whether this generator's state is one from which draws keep their
    /// range.
    fn is_ready(&self) -> (r: bool)
        ensures
            r == Self::ready(self.state()),
    ;

    /// One draw between `min` and `max`.
    fn next_int(&mut self, min: i32, max: i32) -> (r: i32)
        requires
            Self::ready(old(self).state()),
        ensures
            (final(self).state(), r) == Self::int_draw(old(self).state(), min, max),
            Self::ready(final(self).state()),
            0 <= min < max ==> min <= r < max,
    ;
}

impl RngState for GRandom {
    type V = u32;

    open spec fn state(&self) -> u32 {
        self.seed
    }

    open spec fn ready(v: u32) -> bool {
        true
    }

    /// One step of the engine generator, picked from `[min, max - 1]`.
    open spec fn int_draw(v: u32, min: i32, max: i32) -> (u32, i32) {
        let s = lcg_next(v);
        let (lo, hi) = grandom_interval(min, max);
        (s, grandom_pick(s, lo, hi) as i32)
    }

    proof fn lemma_draw(v: u32, min: i32, max: i32) {
        let s = lcg_next(v);
        let (lo, hi) = grandom_interval(min, max);
        if 0 <= min < max {
            let span = wrap_i32(wrap_i32(hi - lo) + 1);
            assert(span == hi - lo + 1);
            lemma_ratio_scaled_bounds(s, span as i32);
        }
    }

    fn is_ready(&self) -> (r: bool) {
        true
    }

    fn next_int(&mut self, min: i32, max: i32) -> (r: i32) {
        self.rand_range(min, max)
    }
}

impl RngState for DotNetRandom {
    type V = DotNetState;

    open spec fn state(&self) -> DotNetState {
        self@
    }

    /// The cursors lie in the table and the table holds the values that .NET
    /// keeps in it.
    open spec fn ready(v: DotNetState) -> bool {
        table_shape(v) && canonical(v)
    }

    /// `Next(min, max)`: no draw when the bounds are at most one apart.
    open spec fn int_draw(v: DotNetState, min: i32, max: i32) -> (DotNetState, i32) {
        let lo: int = if min > max { max as int } else { min as int };
        let hi: int = if min > max { min as int } else { max as int };
        if hi - lo <= 1 {
            (v, lo as i32)
        } else {
            let (st, n) = draw_int(v);
            (st, (lo + (if n <= 0 { 0 } else { sample_product(n as nat, (hi - lo) as nat) })) as i32)
        }
    }

    proof fn lemma_draw(v: DotNetState, min: i32, max: i32) {
        let lo: int = if min > max { max as int } else { min as int };
        let hi: int = if min > max { min as int } else { max as int };
        if hi - lo > 1 {
            let (st, n) = draw_int(v);
            let i = next_slot(v.0);
            let j = next_slot(v.1);
            assert(0 <= v.2[i] < mbig());
            assert(0 <= v.2[j] < mbig());
            assert(0 <= n < mbig());
            assert(canonical(st)) by {
                assert forall|k: int| 1 <= k < 56 implies 0 <= #[trigger] st.2[k] < mbig() by {
                    if k != i {
                        assert(st.2[k] == v.2[k]);
                    }
                }
            }
            if n > 0 {
                lemma_sample_product_bounds(n as nat, (hi - lo) as nat);
            }
        }
    }

    fn is_ready(&self) -> (r: bool) {
        self.is_canonical()
    }

    fn next_int(&mut self, min: i32, max: i32) -> (r: i32) {
        self.next_range(min, max)
    }
}

/// The list of a label, if the label has one (the first entry of it).
pub open spec fn label_list(lists: Seq<(String, Vec<String>)>, label: Seq<char>) -> Option<Seq<Seq<char>>> {
    match first_key(lists_view(lists), label, 0) {
        Some(i) => Some(lists_view(lists)[i].1),
        None => None,
    }
}

/// The definitions as names and values.
pub open spec fn defs_view(defs: Seq<(String, ThingDefData)>) -> Seq<(Seq<char>, ThingDefView)> {
    defs.map_values(|p: (String, ThingDefData)| (p.0@, def_view(p.1)))
}

/// The definition of a name, if there is one (the first of that name).
pub open spec fn def_named(defs: Seq<(String, ThingDefData)>, name: Seq<char>) -> Option<ThingDefView> {
    match first_key(defs_view(defs), name, 0) {
        Some(i) => Some(defs_view(defs)[i].1),
        None => None,
    }
}

/// A definition that a draw between `minr` and `maxr` may give: its rate
/// lies between them and, for items, it is not marked not-random.
pub open spec fn fits(d: Option<ThingDefView>, minr: i32, maxr: i32, items: bool) -> bool {
    match d {
        Some(d) => d.rate <= maxr && d.rate >= minr && (!items || d.not_random == 0),
        None => false,
    }
}

/// Position `start + k` of a list of `n`, wrapped round once.
pub open spec fn cyclic(start: int, k: int, n: int) -> int {
    if start + k >= n {
        start + k - n
    } else {
        start + k
    }
}

/// The first position that fits when the list is walked from `start`,
/// cyclically, beginning with the `k`-th step.
pub open spec fn first_fit(
    names: Seq<Seq<char>>,
    defs: Seq<(String, ThingDefData)>,
    minr: i32,
    maxr: i32,
    items: bool,
    start: int,
    k: int,
) -> Option<int>
    decreases names.len() - k,
{
    if k < 0 || k >= names.len() {
        None
    } else {
        let i = cyclic(start, k, names.len() as int);
        if fits(def_named(defs, names[i]), minr, maxr, items) {
            Some(i)
        } else {
            first_fit(names, defs, minr, maxr, items, start, k + 1)
        }
    }
}

/// A definition fits a draw between rates `minr` and `maxr` exactly when
/// it exists and its rate lies between them (both included); item draws
/// further skip definitions marked not-random, material draws do not.
pub proof fn lemma_fits(d: Option<ThingDefView>, minr: i32, maxr: i32, items: bool)
    ensures
        fits(d, minr, maxr, items) <==> (d matches Some(v) && minr <= v.rate && v.rate <= maxr && (items ==> v.not_random
            == 0)),
        fits(d, minr, maxr, false) <==> (d matches Some(v) && minr <= v.rate && v.rate <= maxr),
{
}

/// Position `start + j` of a list of `n`, taken round.
pub open spec fn walk_pos(start: int, j: int, n: int) -> int {
    (start + j) % n
}

/// The walk of a draw: from the `k`-th step on, the first position (walking
/// from `start`, cyclically) whose definition fits is found, and none before
/// it fits; nothing is found only when no position from the `k`-th step on
/// fits.
pub proof fn lemma_first_fit(
    names: Seq<Seq<char>>,
    defs: Seq<(String, ThingDefData)>,
    minr: i32,
    maxr: i32,
    items: bool,
    start: int,
    k: int,
)
    requires
        0 <= start < names.len(),
        0 <= k,
    ensures
        match first_fit(names, defs, minr, maxr, items, start, k) {
            Some(i) => {
                &&& 0 <= i < names.len()
                &&& fits(def_named(defs, names[i]), minr, maxr, items)
                &&& exists|j: int|
                    k <= j < names.len() && i == #[trigger] walk_pos(start, j, names.len() as int) && forall|q: int|
                        k <= q < j ==> !#[trigger] fits(
                            def_named(defs, names[walk_pos(start, q, names.len() as int)]),
                            minr,
                            maxr,
                            items,
                        )
            },
            None => forall|q: int|
                k <= q < names.len() ==> !#[trigger] fits(
                    def_named(defs, names[walk_pos(start, q, names.len() as int)]),
                    minr,
                    maxr,
                    items,
                ),
        },
    decreases names.len() - k,
{
    let n = names.len() as int;
    if k < n {
        let i = cyclic(start, k, n);
        assert(i == walk_pos(start, k, n)) by {
            if start + k >= n {
                assert((start + k) % n == start + k - n) by {
                    vstd::arithmetic::div_mod::lemma_fundamental_div_mod_converse(start + k, n, 1, start + k - n);
                }
            } else {
                vstd::arithmetic::div_mod::lemma_small_mod((start + k) as nat, n as nat);
            }
        }
        if !fits(def_named(defs, names[i]), minr, maxr, items) {
            lemma_first_fit(names, defs, minr, maxr, items, start, k + 1);
            match first_fit(names, defs, minr, maxr, items, start, k + 1) {
                Some(i2) => {
                    let j = choose|j: int|
                        k + 1 <= j < names.len() && i2 == #[trigger] walk_pos(start, j, names.len() as int) && forall|q: int|
                            k + 1 <= q < j ==> !#[trigger] fits(
                                def_named(defs, names[walk_pos(start, q, names.len() as int)]),
                                minr,
                                maxr,
                                items,
                            );
                    assert(forall|q: int| k <= q < j ==> !#[trigger] fits(
                        def_named(defs, names[walk_pos(start, q, names.len() as int)]),
                        minr,
                        maxr,
                        items,
                    ));
                },
                None => {},
            }
        } else {
            assert(forall|q: int| k <= q < k ==> !#[trigger] fits(
                def_named(defs, names[walk_pos(start, q, names.len() as int)]),
                minr,
                maxr,
                items,
            ));
        }
    }
}

/// A draw from the list of `label` in `lists`, from generator state `st`:
/// the new state and the name drawn. No list, or an empty one, gives
/// nothing and draws nothing. The full range of rates (at most 0 up to at
/// least 12) takes a uniform pick. Otherwise a starting position is drawn
/// and the list walked from it, cyclically, to the first name that fits;
/// when none does, a uniform pick is drawn.
pub open spec fn label_pick<R: RngState>(
    lists: Seq<(String, Vec<String>)>,
    defs: Seq<(String, ThingDefData)>,
    label: Seq<char>,
    minr: i32,
    maxr: i32,
    items: bool,
    st: R::V,
) -> (R::V, Option<Seq<char>>) {
    match label_list(lists, label) {
        None => (st, None),
        Some(list) => {
            let n = list.len() as int;
            if n == 0 {
                (st, None)
            } else if minr <= 0 && maxr >= 12 {
                let (s1, r) = R::int_draw(st, 0, n as i32);
                (s1, Some(list[r as int]))
            } else {
                let (s1, r) = R::int_draw(st, 1, (n + 1) as i32);
                match first_fit(list, defs, minr, maxr, items, r - 1, 0) {
                    Some(i) => (s1, Some(list[i])),
                    None => {
                        let (s2, r2) = R::int_draw(s1, 0, n as i32);
                        (s2, Some(list[r2 as int]))
                    },
                }
            }
        },
    }
}

/// Every list is shorter than `i32::MAX`, so that its length and one more
/// are `i32` bounds.
pub open spec fn lists_fit(lists: Seq<(String, Vec<String>)>) -> bool {
    forall|g: int| 0 <= g < lists.len() ==> (#[trigger] lists[g]).1@.len() < i32::MAX
}

/// The list of `label` (see `label_list`).
fn find_list<'a>(lists: &'a Vec<(String, Vec<String>)>, label: &str) -> (r: Option<&'a Vec<String>>)
    ensures
        match label_list(lists@, label@) {
            Some(l) => r is Some && strings_view(r->0@) == l && exists|g: int|
                0 <= g < lists@.len() && lists@[g].1 == *r->0,
            None => r is None,
        },
{
    let ghost v = lists_view(lists@);
    let mut i: usize = 0;
    while i < lists.len()
        invariant
            i <= lists@.len(),
            v == lists_view(lists@),
            first_key(v, label@, 0) == first_key(v, label@, i as int),
        decreases lists@.len() - i,
    {
        if str_eq(lists[i].0.as_str(), label) {
            proof {
                assert(v[i as int].0 == lists@[i as int].0@);
            }
            return Some(&lists[i].1);
        }
        proof {
            assert(v[i as int].0 == lists@[i as int].0@);
        }
        i = i + 1;
    }
    None
}

/// The definition of `name` (see `def_named`).
fn find_def<'a>(defs: &'a Vec<(String, ThingDefData)>, name: &String) -> (r: Option<&'a ThingDefData>)
    ensures
        match def_named(defs@, name@) {
            Some(d) => r is Some && def_view(*r->0) == d,
            None => r is None,
        },
{
    let ghost v = defs_view(defs@);
    let mut i: usize = 0;
    while i < defs.len()
        invariant
            i <= defs@.len(),
            v == defs_view(defs@),
            first_key(v, name@, 0) == first_key(v, name@, i as int),
        decreases defs@.len() - i,
    {
        if str_eq(defs[i].0.as_str(), name.as_str()) {
            proof {
                assert(v[i as int].0 == defs@[i as int].0@);
            }
            return Some(&defs[i].1);
        }
        proof {
            assert(v[i as int].0 == defs@[i as int].0@);
        }
        i = i + 1;
    }
    None
}

/// Whether `d` fits (see `fits`).
fn def_fits(d: Option<&ThingDefData>, minr: i32, maxr: i32, items: bool) -> (r: bool)
    ensures
        r == fits(
            match d {
                Some(x) => Some(def_view(*x)),
                None => None,
            },
            minr,
            maxr,
            items,
        ),
{
    match d {
        Some(x) => x.rate <= maxr && x.rate >= minr && (!items || x.not_random == 0),
        None => false,
    }
}

/// A draw from the list of `label` (see `label_pick`).
fn pick_from_label<R: RngState>(
    lists: &Vec<(String, Vec<String>)>,
    defs: &Vec<(String, ThingDefData)>,
    label: &str,
    minr: i32,
    maxr: i32,
    items: bool,
    rng: &mut R,
) -> (r: Option<String>)
    requires
        R::ready(old(rng).state()),
        lists_fit(lists@),
    ensures
        R::ready(final(rng).state()),
        (final(rng).state(), opt_view(r)) == label_pick::<R>(lists@, defs@, label@, minr, maxr, items, old(rng).state()),
{
    let list = match find_list(lists, label) {
        Some(l) => l,
        None => {
            return None;
        },
    };
    let ghost names = strings_view(list@);
    let n = list.len();
    if n == 0 {
        return None;
    }
    assert(list@.len() < i32::MAX);
    let ni = n as i32;
    if minr <= 0 && maxr >= 12 {
        let r = rng.next_int(0, ni);
        return Some(list[r as usize].clone());
    }
    let ghost st0 = rng.state();
    let r = rng.next_int(1, ni + 1);
    let ghost st1 = rng.state();
    let ghost start: int = r - 1;
    let mut idx: usize = (r as usize) - 1;
    let mut k: usize = 0;
    while k < n
        invariant
            n == list@.len(),
            names == strings_view(list@),
            label_list(lists@, label@) == Some(names),
            R::ready(rng.state()),
            rng.state() == st1,
            (st1, r) == R::int_draw(st0, 1, (n + 1) as i32),
            st0 == old(rng).state(),
            !(minr <= 0 && maxr >= 12),
            start == r - 1,
            0 <= start < n,
            k <= n,
            idx == cyclic(start, k as int, n as int),
            first_fit(names, defs@, minr, maxr, items, start, 0) == first_fit(names, defs@, minr, maxr, items, start, k as int),
        decreases n - k,
    {
        let d = find_def(defs, &list[idx]);
        if def_fits(d, minr, maxr, items) {
            return Some(list[idx].clone());
        }
        idx = if idx + 1 == n {
            0
        } else {
            idx + 1
        };
        k = k + 1;
    }
    let r2 = rng.next_int(0, ni);
    Some(list[r2 as usize].clone())
}

/// Draws the name of an item of label `lable` whose rate lies between
/// `minr` and `maxr` (see `label_pick`, over the item lists).
pub fn random_item_defname<R: RngState>(d: &ThingTables, lable: &str, minr: i32, maxr: i32, rng: &mut R) -> (r: Option<String>)
    requires
        R::ready(old(rng).state()),
        lists_fit(d.map_lable2item@),
    ensures
        R::ready(final(rng).state()),
        (final(rng).state(), opt_view(r)) == label_pick::<R>(
            d.map_lable2item@,
            d.thing_defs@,
            lable@,
            minr,
            maxr,
            true,
            old(rng).state(),
        ),
{
    pick_from_label(&d.map_lable2item, &d.thing_defs, lable, minr, maxr, true, rng)
}

/// Draws the name of a material of category `category` whose rate lies
/// between `minrate` and `maxrate` (see `label_pick`, over the material
/// lists; materials marked not-random may be drawn).
pub fn random_stuff_item_defname<R: RngState>(
    d: &ThingTables,
    category: &str,
    minrate: i32,
    maxrate: i32,
    rng: &mut R,
) -> (r: Option<String>)
    requires
        R::ready(old(rng).state()),
        lists_fit(d.map_lable2stuff@),
    ensures
        R::ready(final(rng).state()),
        (final(rng).state(), opt_view(r)) == label_pick::<R>(
            d.map_lable2stuff@,
            d.thing_defs@,
            category@,
            minrate,
            maxrate,
            false,
            old(rng).state(),
        ),
{
    pick_from_label(&d.map_lable2stuff, &d.thing_defs, category, minrate, maxrate, false, rng)
}

/// The value whose single-precision bits are `b` is a NaN.
pub open spec fn f32_is_nan(b: u32) -> bool {
    (b % 0x8000_0000) > 0x7f80_0000
}

/// The value whose single-precision bits are `b` is at least `4.0`: a
/// positive number from `4.0` (bits `0x4080_0000`) up to infinity, as
/// positive values order like their bits.
pub open spec fn f32_at_least_4(b: u32) -> bool {
    0x4080_0000 <= b <= 0x7f80_0000
}

/// The value whose single-precision bits are `b` is at most `-6.0`: a
/// negative number from `-6.0` (bits `0xc0c0_0000`) down to minus infinity,
/// as negative values order inversely to their bits.
pub open spec fn f32_at_most_minus_6(b: u32) -> bool {
    0xc0c0_0000 <= b <= 0xff80_0000
}

/// A garment that a draw in season `season` may give: not marked not-random
/// or other-world, and, by season, warm enough for summer (`1`: the upper
/// temperature bonus at least `4.0`), for winter (`3`: the lower one at most
/// `-6.0`), or else moderate (neither).
pub open spec fn cloth_fits(d: Option<ThingDefView>, season: i32) -> bool {
    match d {
        Some(d) => {
            &&& d.not_random <= 0
            &&& d.other_world <= 0
            &&& if season == 1 {
                f32_at_least_4(d.temp_max_add)
            } else if season == 3 {
                f32_at_most_minus_6(d.temp_min_add)
            } else {
                !f32_is_nan(d.temp_max_add) && !f32_at_least_4(d.temp_max_add) && !f32_is_nan(d.temp_min_add)
                    && !f32_at_most_minus_6(d.temp_min_add)
            }
        },
        None => false,
    }
}

/// Seasons and garments: summer (`1`) takes garments whose upper temperature
/// bonus is at least `4.0` (bits `0x4080_0000` to `0x7f80_0000`), winter
/// (`3`) those whose lower bonus is at most `-6.0` (bits `0xc0c0_0000` to
/// `0xff80_0000`), and every other season (spring `0`, autumn `2`, ...) the
/// same moderate garments, which are neither; garments marked not-random or
/// other-world, and missing ones, fit no season.
pub proof fn lemma_season_fit(d: Option<ThingDefView>, season: i32)
    ensures
        season != 1 && season != 3 ==> cloth_fits(d, season) == cloth_fits(d, 0),
        cloth_fits(d, 2) == cloth_fits(d, 0),
        cloth_fits(d, 0) ==> !cloth_fits(d, 1) && !cloth_fits(d, 3),
        cloth_fits(d, 1) <==> (d matches Some(v) && v.not_random <= 0 && v.other_world <= 0 && 0x4080_0000u32
            <= v.temp_max_add <= 0x7f80_0000u32),
        cloth_fits(d, 3) <==> (d matches Some(v) && v.not_random <= 0 && v.other_world <= 0 && 0xc0c0_0000u32
            <= v.temp_min_add <= 0xff80_0000u32),
        cloth_fits(d, 0) <==> (d matches Some(v) && v.not_random <= 0 && v.other_world <= 0 && !(0x4080_0000u32
            <= v.temp_max_add <= 0x7f80_0000u32) && !(0xc0c0_0000u32 <= v.temp_min_add <= 0xff80_0000u32)
            && v.temp_max_add % 0x8000_0000 <= 0x7f80_0000 && v.temp_min_add % 0x8000_0000 <= 0x7f80_0000),
{
}

/// The positions, in order, among the first `n` names that fit season
/// `season`.
pub open spec fn season_positions(
    names: Seq<Seq<char>>,
    defs: Seq<(String, ThingDefData)>,
    season: i32,
    n: int,
) -> Seq<int>
    decreases n,
{
    if n <= 0 {
        Seq::empty()
    } else {
        let prev = season_positions(names, defs, season, n - 1);
        if cloth_fits(def_named(defs, names[n - 1]), season) {
            prev.push(n - 1)
        } else {
            prev
        }
    }
}

/// A draw of a garment of label `label` for season `season`: no list, or an
/// empty one, gives nothing and draws nothing; when no garment fits, a
/// uniform pick from the whole list is drawn; otherwise a uniform pick from
/// the garments that fit.
pub open spec fn cloth_pick<R: RngState>(
    lists: Seq<(String, Vec<String>)>,
    defs: Seq<(String, ThingDefData)>,
    label: Seq<char>,
    season: i32,
    st: R::V,
) -> (R::V, Option<Seq<char>>) {
    match label_list(lists, label) {
        None => (st, None),
        Some(list) => {
            let n = list.len() as int;
            let f = season_positions(list, defs, season, n);
            if n == 0 {
                (st, None)
            } else if f.len() == 0 {
                let (s1, r) = R::int_draw(st, 0, n as i32);
                (s1, Some(list[r as int]))
            } else {
                let (s1, r) = R::int_draw(st, 1, (f.len() + 1) as i32);
                (s1, Some(list[f[r - 1]]))
            }
        },
    }
}

/// Whether `d` fits season `season` (see `cloth_fits`).
fn def_fits_season(d: Option<&ThingDefData>, season: i32) -> (r: bool)
    ensures
        r == cloth_fits(
            match d {
                Some(x) => Some(def_view(*x)),
                None => None,
            },
            season,
        ),
{
    match d {
        Some(x) => {
            if x.not_random > 0 || x.other_world > 0 {
                return false;
            }
            let hi = x.temp_max_add;
            let lo = x.temp_min_add;
            let hi_nan = (hi % 0x8000_0000) > 0x7f80_0000;
            let lo_nan = (lo % 0x8000_0000) > 0x7f80_0000;
            let warm = 0x4080_0000 <= hi && hi <= 0x7f80_0000;
            let cold = 0xc0c0_0000 <= lo && lo <= 0xff80_0000;
            if season == 1 {
                warm
            } else if season == 3 {
                cold
            } else {
                !hi_nan && !warm && !lo_nan && !cold
            }
        },
        None => false,
    }
}

/// Draws the name of a garment of label `lable` for season `season` (see
/// `cloth_pick`, over the item lists).
pub fn random_cloth_defname<R: RngState>(d: &ThingTables, lable: &str, season: i32, rng: &mut R) -> (r: Option<String>)
    requires
        R::ready(old(rng).state()),
        lists_fit(d.map_lable2item@),
    ensures
        R::ready(final(rng).state()),
        (final(rng).state(), opt_view(r)) == cloth_pick::<R>(
            d.map_lable2item@,
            d.thing_defs@,
            lable@,
            season,
            old(rng).state(),
        ),
{
    let list = match find_list(&d.map_lable2item, lable) {
        Some(l) => l,
        None => {
            return None;
        },
    };
    let ghost names = strings_view(list@);
    let n = list.len();
    if n == 0 {
        return None;
    }
    assert(list@.len() < i32::MAX);
    let mut filtered: Vec<usize> = Vec::new();
    let mut i: usize = 0;
    while i < n
        invariant
            i <= n,
            n == list@.len(),
            names == strings_view(list@),
            filtered@.len() == season_positions(names, d.thing_defs@, season, i as int).len(),
            forall|q: int| 0 <= q < filtered@.len() ==>
                (#[trigger] filtered@[q]) as int == season_positions(names, d.thing_defs@, season, i as int)[q],
            filtered@.len() <= i,
            forall|q: int| 0 <= q < filtered@.len() ==> (#[trigger] filtered@[q]) < i,
        decreases n - i,
    {
        let fit = def_fits_season(find_def(&d.thing_defs, &list[i]), season);
        if fit {
            filtered.push(i);
        }
        i = i + 1;
    }
    if filtered.len() == 0 {
        let r = rng.next_int(0, n as i32);
        return Some(list[r as usize].clone());
    }
    let r = rng.next_int(1, (filtered.len() as i32) + 1);
    let pos = filtered[(r as usize) - 1];
    Some(list[pos].clone())
}

/// The first spell with a template when the list is walked from `start`,
/// cyclically, beginning with the `k`-th step.
pub open spec fn first_template(spells: Seq<SpellDefData>, start: int, k: int) -> Option<int>
    decreases spells.len() - k,
{
    if k < 0 || k >= spells.len() {
        None
    } else {
        let i = cyclic(start, k, spells.len() as int);
        if spells[i].has_template {
            Some(i)
        } else {
            first_template(spells, start, k + 1)
        }
    }
}

/// The walk of a spell draw: from the `k`-th step on, the first position
/// (walking from `start`, cyclically) whose spell has a template is found,
/// and no spell before it has one; nothing is found only when no spell from
/// the `k`-th step on has one.
pub proof fn lemma_first_template(spells: Seq<SpellDefData>, start: int, k: int)
    requires
        0 <= start < spells.len(),
        0 <= k,
    ensures
        match first_template(spells, start, k) {
            Some(i) => {
                &&& 0 <= i < spells.len()
                &&& spells[i].has_template
                &&& exists|j: int|
                    k <= j < spells.len() && i == #[trigger] walk_pos(start, j, spells.len() as int) && forall|q: int|
                        k <= q < j ==> !spells[#[trigger] walk_pos(start, q, spells.len() as int)].has_template
            },
            None => forall|q: int|
                k <= q < spells.len() ==> !spells[#[trigger] walk_pos(start, q, spells.len() as int)].has_template,
        },
    decreases spells.len() - k,
{
    let n = spells.len() as int;
    if k < n {
        let i = cyclic(start, k, n);
        assert(i == walk_pos(start, k, n)) by {
            if start + k >= n {
                assert((start + k) % n == start + k - n) by {
                    vstd::arithmetic::div_mod::lemma_fundamental_div_mod_converse(start + k, n, 1, start + k - n);
                }
            } else {
                vstd::arithmetic::div_mod::lemma_small_mod((start + k) as nat, n as nat);
            }
        }
        if !spells[i].has_template {
            lemma_first_template(spells, start, k + 1);
            match first_template(spells, start, k + 1) {
                Some(i2) => {
                    let j = choose|j: int|
                        k + 1 <= j < spells.len() && i2 == #[trigger] walk_pos(start, j, spells.len() as int) && forall|q: int|
                            k + 1 <= q < j ==> !spells[#[trigger] walk_pos(start, q, spells.len() as int)].has_template;
                    assert(forall|q: int| k <= q < j ==> !spells[#[trigger] walk_pos(start, q, spells.len() as int)].has_template);
                },
                None => {},
            }
        } else {
            assert(forall|q: int| k <= q < k ==> !spells[#[trigger] walk_pos(start, q, spells.len() as int)].has_template);
        }
    }
}

/// A draw of a spell name: none from an empty list (nothing drawn);
/// otherwise a starting position is drawn and the list walked from it,
/// cyclically, to the first spell with a template; the empty name when
/// none has one.
pub open spec fn spell_pick<R: RngState>(spells: Seq<SpellDefData>, st: R::V) -> (R::V, Seq<char>) {
    let n = spells.len() as int;
    if n == 0 {
        (st, Seq::empty())
    } else {
        let (s1, r) = R::int_draw(st, 1, (n + 1) as i32);
        match first_template(spells, r - 1, 0) {
            Some(i) => (s1, spells[i].name@),
            None => (s1, Seq::empty()),
        }
    }
}

/// Draws the name of a spell that has a template (see `spell_pick`).
pub fn pull_random_spell<R: RngState>(spells: &Vec<SpellDefData>, rng_sys: &mut R) -> (r: String)
    requires
        R::ready(old(rng_sys).state()),
        spells@.len() < i32::MAX,
    ensures
        R::ready(final(rng_sys).state()),
        (final(rng_sys).state(), r@) == spell_pick::<R>(spells@, old(rng_sys).state()),
{
    let n = spells.len();
    if n == 0 {
        return String::new();
    }
    let ghost st0 = rng_sys.state();
    let r = rng_sys.next_int(1, (n as i32) + 1);
    let ghost start: int = r - 1;
    let mut idx: usize = (r as usize) - 1;
    let mut k: usize = 0;
    while k < n
        invariant
            n == spells@.len(),
            R::ready(rng_sys.state()),
            (rng_sys.state(), r) == R::int_draw(st0, 1, (n + 1) as i32),
            st0 == old(rng_sys).state(),
            start == r - 1,
            0 <= start < n,
            k <= n,
            idx == cyclic(start, k as int, n as int),
            first_template(spells@, start, 0) == first_template(spells@, start, k as int),
        decreases n - k,
    {
        if spells[idx].has_template {
            return spells[idx].name.clone();
        }
        idx = if idx + 1 == n {
            0
        } else {
            idx + 1
        };
        k = k + 1;
    }
    String::new()
}

proof fn lemma_first_fit_bound(
    names: Seq<Seq<char>>,
    defs: Seq<(String, ThingDefData)>,
    minr: i32,
    maxr: i32,
    items: bool,
    start: int,
    k: int,
)
    requires
        0 <= start < names.len(),
        0 <= k,
    ensures
        match first_fit(names, defs, minr, maxr, items, start, k) {
            Some(i) => 0 <= i < names.len(),
            None => true,
        },
    decreases names.len() - k,
{
    if k < names.len() {
        let i = cyclic(start, k, names.len() as int);
        if !fits(def_named(defs, names[i]), minr, maxr, items) {
            lemma_first_fit_bound(names, defs, minr, maxr, items, start, k + 1);
        }
    }
}

proof fn lemma_label_list_fits(lists: Seq<(String, Vec<String>)>, label: Seq<char>)
    requires
        lists_fit(lists),
    ensures
        match label_list(lists, label) {
            Some(l) => l.len() < i32::MAX,
            None => true,
        },
{
    lemma_first_key_bound(lists_view(lists), label, 0);
    match first_key(lists_view(lists), label, 0) {
        Some(g) => {
            assert(lists[g].1@.len() < i32::MAX);
            assert(lists_view(lists)[g].1.len() == lists[g].1@.len());
        },
        None => {},
    }
}

/// A draw by label never leaves its list: it gives a name of the label's
/// list, and nothing only when the label has no list or an empty one; the
/// generator stays ready.
pub proof fn lemma_label_pick_in_list<R: RngState>(
    lists: Seq<(String, Vec<String>)>,
    defs: Seq<(String, ThingDefData)>,
    label: Seq<char>,
    minr: i32,
    maxr: i32,
    items: bool,
    st: R::V,
)
    requires
        R::ready(st),
        lists_fit(lists),
    ensures
        R::ready(label_pick::<R>(lists, defs, label, minr, maxr, items, st).0),
        match label_pick::<R>(lists, defs, label, minr, maxr, items, st).1 {
            Some(name) => label_list(lists, label) matches Some(l) && l.contains(name),
            None => label_list(lists, label) matches Some(l) ==> l.len() == 0,
        },
{
    lemma_label_list_fits(lists, label);
    match label_list(lists, label) {
        None => {},
        Some(list) => {
            let n = list.len() as int;
            if n > 0 {
                if minr <= 0 && maxr >= 12 {
                    R::lemma_draw(st, 0, n as i32);
                    let r = R::int_draw(st, 0, n as i32).1;
                    assert(list.contains(list[r as int]));
                } else {
                    R::lemma_draw(st, 1, (n + 1) as i32);
                    let (s1, r) = R::int_draw(st, 1, (n + 1) as i32);
                    lemma_first_fit_bound(list, defs, minr, maxr, items, r - 1, 0);
                    match first_fit(list, defs, minr, maxr, items, r - 1, 0) {
                        Some(i) => {
                            assert(list.contains(list[i]));
                        },
                        None => {
                            R::lemma_draw(s1, 0, n as i32);
                            let r2 = R::int_draw(s1, 0, n as i32).1;
                            assert(list.contains(list[r2 as int]));
                        },
                    }
                }
            }
        },
    }
}

proof fn lemma_season_positions_bound(
    names: Seq<Seq<char>>,
    defs: Seq<(String, ThingDefData)>,
    season: i32,
    n: int,
)
    requires
        0 <= n <= names.len(),
    ensures
        season_positions(names, defs, season, n).len() <= n,
        forall|q: int|
            0 <= q < season_positions(names, defs, season, n).len() ==> 0 <= #[trigger] season_positions(
                names,
                defs,
                season,
                n,
            )[q] < n,
    decreases n,
{
    if n > 0 {
        lemma_season_positions_bound(names, defs, season, n - 1);
    }
}

/// A garment draw never leaves its list: it gives a name of the label's
/// list, and nothing only when the label has no list or an empty one; the
/// generator stays ready.
pub proof fn lemma_cloth_pick_in_list<R: RngState>(
    lists: Seq<(String, Vec<String>)>,
    defs: Seq<(String, ThingDefData)>,
    label: Seq<char>,
    season: i32,
    st: R::V,
)
    requires
        R::ready(st),
        lists_fit(lists),
    ensures
        R::ready(cloth_pick::<R>(lists, defs, label, season, st).0),
        match cloth_pick::<R>(lists, defs, label, season, st).1 {
            Some(name) => label_list(lists, label) matches Some(l) && l.contains(name),
            None => label_list(lists, label) matches Some(l) ==> l.len() == 0,
        },
{
    lemma_label_list_fits(lists, label);
    match label_list(lists, label) {
        None => {},
        Some(list) => {
            let n = list.len() as int;
            let f = season_positions(list, defs, season, n);
            if n > 0 {
                lemma_season_positions_bound(list, defs, season, n);
                if f.len() == 0 {
                    R::lemma_draw(st, 0, n as i32);
                    let r = R::int_draw(st, 0, n as i32).1;
                    assert(list.contains(list[r as int]));
                } else {
                    R::lemma_draw(st, 1, (f.len() + 1) as i32);
                    let r = R::int_draw(st, 1, (f.len() + 1) as i32).1;
                    assert(0 <= f[r - 1] < n);
                    assert(list.contains(list[f[r - 1]]));
                }
            }
        },
    }
}

proof fn lemma_first_template_bound(spells: Seq<SpellDefData>, start: int, k: int)
    requires
        0 <= start < spells.len(),
        0 <= k,
    ensures
        match first_template(spells, start, k) {
            Some(i) => 0 <= i < spells.len() && spells[i].has_template,
            None => true,
        },
    decreases spells.len() - k,
{
    if k < spells.len() {
        let i = cyclic(start, k, spells.len() as int);
        if !spells[i].has_template {
            lemma_first_template_bound(spells, start, k + 1);
        }
    }
}

/// A spell draw gives the name of a spell that has a template, or the empty
/// name; the generator stays ready.
pub proof fn lemma_spell_pick_has_template<R: RngState>(spells: Seq<SpellDefData>, st: R::V)
    requires
        R::ready(st),
        spells.len() < i32::MAX,
    ensures
        R::ready(spell_pick::<R>(spells, st).0),
        spell_pick::<R>(spells, st).1.len() == 0 || exists|i: int|
            0 <= i < spells.len() && spells[i].has_template && #[trigger] spells[i].name@ == spell_pick::<R>(
                spells,
                st,
            ).1,
{
    let n = spells.len() as int;
    if n > 0 {
        R::lemma_draw(st, 1, (n + 1) as i32);
        let r = R::int_draw(st, 1, (n + 1) as i32).1;
        lemma_first_template_bound(spells, r - 1, 0);
    }
}

} // verus!
