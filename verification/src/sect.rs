//! The item and spell names that sect elders can carry, read from the
//! game's definition files by a light text scan: each `ThingDef` or
//! `SpellDef` block is cut out of the text and its name and a few fields are
//! picked from it.
use vstd::prelude::*;
use crate::dict::{CsDict, dict_insert, insert_entries};
use crate::text::{chars_of, eq_ascii_ci, str_eq, string_from_chars, trim_chars, trim_ws};

verus! {

/// `p` occurs in `s` at `i`.
pub open spec fn matches_at(s: Seq<char>, p: Seq<char>, i: int) -> bool {
    &&& 0 <= i
    &&& i + p.len() <= s.len()
    &&& s.subrange(i, i + p.len()) == p
}

/// The first position, from `i` on, where `p` occurs in `s` (`str::find`).
pub open spec fn find_from(s: Seq<char>, p: Seq<char>, i: int) -> Option<int>
    decreases s.len() - i,
{
    if i < 0 || i + p.len() > s.len() {
        None
    } else if matches_at(s, p, i) {
        Some(i)
    } else if i >= s.len() {
        None
    } else {
        find_from(s, p, i + 1)
    }
}

/// A found position lies at or after the start and the pattern fits there.
pub proof fn lemma_find_from(s: Seq<char>, p: Seq<char>, i: int)
    requires
        0 <= i,
    ensures
        match find_from(s, p, i) {
            Some(j) => i <= j && matches_at(s, p, j),
            None => true,
        },
    decreases s.len() - i,
{
    if i + p.len() <= s.len() && !matches_at(s, p, i) && i < s.len() {
        lemma_find_from(s, p, i + 1);
    }
}

/// Where `p` occurs first in `s` from `from` on.
pub fn find_chars(s: &[char], p: &[char], from: usize) -> (r: Option<usize>)
    ensures
        match r {
            Some(j) => find_from(s@, p@, from as int) == Some(j as int),
            None => find_from(s@, p@, from as int) is None,
        },
{
    if from > s.len() || s.len() - from < p.len() {
        return None;
    }
    let n = s.len();
    let last = n - p.len();
    let mut i: usize = from;
    loop
        invariant
            from <= i <= last,
            n == s@.len(),
            last + p@.len() == s@.len(),
            find_from(s@, p@, from as int) == find_from(s@, p@, i as int),
        decreases last - i,
    {
        let mut k: usize = 0;
        let mut ok = true;
        while k < p.len()
            invariant
                k <= p@.len(),
                n == s@.len(),
                i + p@.len() <= s@.len(),
                ok ==> forall|q: int| 0 <= q < k ==> s@[i + q] == p@[q],
                !ok ==> !matches_at(s@, p@, i as int),
            decreases p@.len() - k,
        {
            assert(i + k < n);
            if s[i + k] != p[k] {
                proof {
                    assert(s@.subrange(i as int, i + p@.len())[k as int] != p@[k as int]);
                }
                ok = false;
            }
            k = k + 1;
        }
        if ok {
            proof {
                assert(s@.subrange(i as int, i + p@.len()) =~= p@);
            }
            return Some(i);
        }
        if i == last {
            proof {
                assert(find_from(s@, p@, i + 1) is None);
            }
            return None;
        }
        i = i + 1;
    }
}

/// The pattern `<tag`.
pub open spec fn open_pattern(tag: Seq<char>) -> Seq<char> {
    seq!['<'] + tag
}

/// The pattern `</tag>`.
pub open spec fn close_pattern(tag: Seq<char>) -> Seq<char> {
    seq!['<', '/'] + tag + seq!['>']
}

/// The blocks from position `pos` on: from each `open` to the first `close`
/// after it, both included; the scan stops at an `open` with no `close`.
pub open spec fn blocks_from(x: Seq<char>, open: Seq<char>, close: Seq<char>, pos: int) -> Seq<(int, int)>
    decreases x.len() - pos,
{
    if pos < 0 || close.len() == 0 {
        Seq::empty()
    } else {
        match find_from(x, open, pos) {
            Some(s) => match find_from(x, close, s) {
                Some(e) => {
                    proof {
                        lemma_find_from(x, open, pos);
                        lemma_find_from(x, close, s);
                    }
                    seq![(s, e + close.len())] + blocks_from(x, open, close, e + close.len())
                },
                None => Seq::empty(),
            },
            None => Seq::empty(),
        }
    }
}

/// The blocks of `tag` in the text (`<tag` to `</tag>`), as text.
pub open spec fn blocks_of(x: Seq<char>, tag: Seq<char>) -> Seq<Seq<char>> {
    blocks_from(x, open_pattern(tag), close_pattern(tag), 0).map_values(|r: (int, int)| x.subrange(r.0, r.1))
}

fn pattern_of(prefix: &[char], tag: &str, suffix: &[char]) -> (r: Vec<char>)
    ensures
        r@ == prefix@ + tag@ + suffix@,
{
    let t = chars_of(tag);
    let mut r: Vec<char> = Vec::new();
    let mut i: usize = 0;
    while i < prefix.len()
        invariant
            i <= prefix@.len(),
            r@ == prefix@.take(i as int),
        decreases prefix@.len() - i,
    {
        r.push(prefix[i]);
        i = i + 1;
        proof {
            assert(r@ =~= prefix@.take(i as int));
        }
    }
    let mut j: usize = 0;
    while j < t.len()
        invariant
            j <= t@.len(),
            r@ == prefix@ + t@.take(j as int),
        decreases t@.len() - j,
    {
        r.push(t[j]);
        j = j + 1;
        proof {
            assert(r@ =~= prefix@ + t@.take(j as int));
        }
    }
    let mut k: usize = 0;
    while k < suffix.len()
        invariant
            k <= suffix@.len(),
            r@ == prefix@ + t@ + suffix@.take(k as int),
        decreases suffix@.len() - k,
    {
        r.push(suffix[k]);
        k = k + 1;
        proof {
            assert(r@ =~= prefix@ + t@ + suffix@.take(k as int));
        }
    }
    proof {
        assert(prefix@.take(prefix@.len() as int) =~= prefix@);
        assert(t@.take(t@.len() as int) =~= t@);
        assert(suffix@.take(suffix@.len() as int) =~= suffix@);
        assert(r@ =~= prefix@ + tag@ + suffix@);
    }
    r
}

fn sub_chars(s: &[char], a: usize, b: usize) -> (r: Vec<char>)
    requires
        a <= b <= s@.len(),
    ensures
        r@ == s@.subrange(a as int, b as int),
{
    let mut r: Vec<char> = Vec::new();
    let mut i: usize = a;
    while i < b
        invariant
            a <= i <= b <= s@.len(),
            r@ == s@.subrange(a as int, i as int),
        decreases b - i,
    {
        r.push(s[i]);
        i = i + 1;
        proof {
            assert(r@ =~= s@.subrange(a as int, i as int));
        }
    }
    r
}

/// The `tag` blocks of the text (see `blocks_of`).
pub fn extract_blocks(xml: &Vec<char>, tag: &str) -> (r: Vec<Vec<char>>)
    ensures
        r@.len() == blocks_of(xml@, tag@).len(),
        forall|i: int| 0 <= i < r@.len() ==> (#[trigger] r@[i])@ == blocks_of(xml@, tag@)[i],
{
    let lt: [char; 1] = ['<'];
    let lt_slash: [char; 2] = ['<', '/'];
    let gt: [char; 1] = ['>'];
    let none: [char; 0] = [];
    let open = pattern_of(lt.as_slice(), tag, none.as_slice());
    let close = pattern_of(lt_slash.as_slice(), tag, gt.as_slice());
    proof {
        assert(open@ =~= open_pattern(tag@));
        assert(close@ =~= close_pattern(tag@));
    }
    let ghost all = blocks_from(xml@, open@, close@, 0);
    let n = xml.len();
    let mut blocks: Vec<Vec<char>> = Vec::new();
    let mut pos: usize = 0;
    loop
        invariant
            pos <= xml@.len(),
            n == xml@.len(),
            open@ == open_pattern(tag@),
            close@ == close_pattern(tag@),
            all == blocks_from(xml@, open@, close@, 0),
            all == ({
                let done = blocks@.len() as int;
                all.take(done) + blocks_from(xml@, open@, close@, pos as int)
            }),
            blocks@.len() <= all.len(),
            forall|i: int| 0 <= i < blocks@.len() ==> (#[trigger] blocks@[i])@ == xml@.subrange(all[i].0, all[i].1),
        ensures
            blocks_from(xml@, open@, close@, pos as int) == Seq::<(int, int)>::empty(),
        decreases xml@.len() - pos,
    {
        let ghost done = blocks@.len() as int;
        match find_chars(xml.as_slice(), open.as_slice(), pos) {
            Some(s) => {
                proof {
                    lemma_find_from(xml@, open@, pos as int);
                }
                match find_chars(xml.as_slice(), close.as_slice(), s) {
                    Some(e) => {
                        proof {
                            lemma_find_from(xml@, close@, s as int);
                        }
                        let end = e + close.len();
                        let b = sub_chars(xml.as_slice(), s, end);
                        proof {
                            let rest = blocks_from(xml@, open@, close@, end as int);
                            assert(blocks_from(xml@, open@, close@, pos as int) == seq![(s as int, end as int)] + rest);
                            assert(all.take(done) + (seq![(s as int, end as int)] + rest) =~= all.take(done + 1) + rest) by {
                                assert(all == all.take(done) + (seq![(s as int, end as int)] + rest));
                                assert(all[done] == (s as int, end as int));
                                assert(all.take(done + 1) =~= all.take(done).push((s as int, end as int)));
                            }
                        }
                        blocks.push(b);
                        pos = end;
                    },
                    None => {
                        break;
                    },
                }
            },
            None => {
                break;
            },
        }
    }
    proof {
        assert(all.take(blocks@.len() as int) + Seq::<(int, int)>::empty() =~= all.take(blocks@.len() as int));
        assert(all.take(blocks@.len() as int) =~= all);
    }
    blocks
}

/// The text of the first `<tag>...</tag>` element of a block, trimmed.
pub open spec fn node_text(b: Seq<char>, tag: Seq<char>) -> Option<Seq<char>> {
    let open = seq!['<'] + tag + seq!['>'];
    match find_from(b, open, 0) {
        Some(st) => {
            let rest = b.skip(st + open.len());
            match find_from(rest, close_pattern(tag), 0) {
                Some(e) => Some(trim_ws(rest.take(e))),
                None => None,
            }
        },
        None => None,
    }
}

/// The name of a block: the value of its first `Name="..."`, else the
/// trimmed text of its first `<defName>`, else empty.
pub open spec fn block_name(b: Seq<char>) -> Seq<char> {
    let attr = seq!['N', 'a', 'm', 'e', '=', '"'];
    let quote = seq!['"'];
    let from_attr = match find_from(b, attr, 0) {
        Some(st) => {
            let rest = b.skip(st + 6);
            match find_from(rest, quote, 0) {
                Some(e) => Some(rest.take(e)),
                None => None,
            }
        },
        None => None,
    };
    match from_attr {
        Some(v) => v,
        None => match node_text(b, seq!['d', 'e', 'f', 'N', 'a', 'm', 'e']) {
            Some(v) => v,
            None => Seq::empty(),
        },
    }
}

/// The trimmed text of the first `<tag>` element of a block.
pub fn get_node_text(block: &Vec<char>, tag: &str) -> (r: Option<Vec<char>>)
    ensures
        match r {
            Some(v) => node_text(block@, tag@) == Some(v@),
            None => node_text(block@, tag@) is None,
        },
{
    let lt: [char; 1] = ['<'];
    let lt_slash: [char; 2] = ['<', '/'];
    let gt: [char; 1] = ['>'];
    let open = pattern_of(lt.as_slice(), tag, gt.as_slice());
    let close = pattern_of(lt_slash.as_slice(), tag, gt.as_slice());
    proof {
        assert(open@ =~= seq!['<'] + tag@ + seq!['>']);
        assert(close@ =~= close_pattern(tag@));
    }
    match find_chars(block.as_slice(), open.as_slice(), 0) {
        Some(st) => {
            proof {
                lemma_find_from(block@, open@, 0);
            }
            let n = block.len();
            assert(st + open@.len() <= n);
            let rest = sub_chars(block.as_slice(), st + open.len(), n);
            proof {
                assert(rest@ =~= block@.skip(st + open@.len()));
            }
            match find_chars(rest.as_slice(), close.as_slice(), 0) {
                Some(e) => {
                    proof {
                        lemma_find_from(rest@, close@, 0);
                    }
                    let inner = sub_chars(rest.as_slice(), 0, e);
                    proof {
                        assert(inner@ =~= rest@.take(e as int));
                    }
                    Some(trim_chars(inner.as_slice()))
                },
                None => None,
            }
        },
        None => None,
    }
}

/// The name of a block (see `block_name`).
pub fn get_name(block: &Vec<char>) -> (r: Vec<char>)
    ensures
        r@ == block_name(block@),
{
    let attr: [char; 6] = ['N', 'a', 'm', 'e', '=', '"'];
    let quote: [char; 1] = ['"'];
    proof {
        assert(attr@ =~= seq!['N', 'a', 'm', 'e', '=', '"']);
        assert(quote@ =~= seq!['"']);
    }
    match find_chars(block.as_slice(), attr.as_slice(), 0) {
        Some(st) => {
            proof {
                lemma_find_from(block@, attr@, 0);
            }
            let n = block.len();
            assert(st + 6 <= n);
            let rest = sub_chars(block.as_slice(), st + 6, n);
            proof {
                assert(rest@ =~= block@.skip(st + 6));
            }
            match find_chars(rest.as_slice(), quote.as_slice(), 0) {
                Some(e) => {
                    proof {
                        lemma_find_from(rest@, quote@, 0);
                    }
                    let v = sub_chars(rest.as_slice(), 0, e);
                    proof {
                        assert(v@ =~= rest@.take(e as int));
                    }
                    return v;
                },
                None => {},
            }
        },
        None => {},
    }
    proof {
        reveal_strlit("defName");
        assert("defName"@ =~= seq!['d', 'e', 'f', 'N', 'a', 'm', 'e']);
    }
    match get_node_text(block, "defName") {
        Some(v) => v,
        None => Vec::new(),
    }
}

/// An item definition as values: shown name, item type, equipment type,
/// and whether it can be a material.
pub type ItemView = (Seq<char>, Seq<char>, Seq<char>, bool);

/// An item definition's values.
pub open spec fn item_view(v: (String, String, String, bool)) -> ItemView {
    (v.0@, v.1@, v.2@, v.3)
}

/// The text, or a default.
pub open spec fn text_or(o: Option<Seq<char>>, d: Seq<char>) -> Seq<char> {
    match o {
        Some(v) => v,
        None => d,
    }
}

/// The item definition that a `ThingDef` block gives: its shown name (the
/// block's name when it has none), item and equipment types, and whether it
/// is a material: `IsStuff` true (in any ASCII case) or `1`, item type
/// `Material` or `Stuff`, or a `<StuffDef>` inside.
pub open spec fn item_record(b: Seq<char>) -> ItemView {
    let name = block_name(b);
    let item_type = text_or(node_text(b, "ItemType"@), Seq::empty());
    let is_stuff_text = text_or(node_text(b, "IsStuff"@), Seq::empty());
    (
        text_or(node_text(b, "ThingName"@), name),
        item_type,
        text_or(node_text(b, "EquipType"@), Seq::empty()),
        eq_ascii_ci(is_stuff_text, "true"@) || is_stuff_text == "1"@ || item_type == "Material"@ || item_type
            == "Stuff"@ || find_from(b, "<StuffDef>"@, 0) is Some,
    )
}

/// What a `ThingDef` block gives: its `ThingName` (else the block's name),
/// its `ItemType` and `EquipType` (empty when missing), and it is a material
/// when its item type is `Material` or `Stuff`, when `IsStuff` is `1`, or
/// when it holds a `<StuffDef>`; with none of these nor `IsStuff` true (in
/// any ASCII case) it is not one.
pub proof fn lemma_item_record(b: Seq<char>)
    ensures
        item_record(b).0 == (match node_text(b, "ThingName"@) {
            Some(v) => v,
            None => block_name(b),
        }),
        item_record(b).1 == (match node_text(b, "ItemType"@) {
            Some(v) => v,
            None => Seq::<char>::empty(),
        }),
        item_record(b).2 == (match node_text(b, "EquipType"@) {
            Some(v) => v,
            None => Seq::<char>::empty(),
        }),
        node_text(b, "ItemType"@) == Some("Material"@) ==> item_record(b).3,
        node_text(b, "ItemType"@) == Some("Stuff"@) ==> item_record(b).3,
        node_text(b, "IsStuff"@) == Some("1"@) ==> item_record(b).3,
        find_from(b, "<StuffDef>"@, 0) is Some ==> item_record(b).3,
        item_record(b).3 ==> (item_record(b).1 == "Material"@ || item_record(b).1 == "Stuff"@ || find_from(
            b,
            "<StuffDef>"@,
            0,
        ) is Some || (node_text(b, "IsStuff"@) matches Some(v) && (v == "1"@ || eq_ascii_ci(v, "true"@)))),
{
    reveal_strlit("1");
    reveal_strlit("true");
    assert(Seq::<char>::empty() != "1"@);
    assert(!eq_ascii_ci(Seq::<char>::empty(), "true"@));
}

/// The shown name of a `SpellDef` block: `SpellName`, else `ThingName`, else
/// the block's name.
pub open spec fn spell_record(b: Seq<char>) -> Seq<char> {
    match node_text(b, "SpellName"@) {
        Some(v) => v,
        None => text_or(node_text(b, "ThingName"@), block_name(b)),
    }
}

/// The named item definitions among the first `n` blocks.
pub open spec fn item_entries(blocks: Seq<Seq<char>>, n: int) -> Seq<(Seq<char>, ItemView)>
    decreases n,
{
    if n <= 0 {
        Seq::empty()
    } else if block_name(blocks[n - 1]).len() > 0 {
        item_entries(blocks, n - 1).push((block_name(blocks[n - 1]), item_record(blocks[n - 1])))
    } else {
        item_entries(blocks, n - 1)
    }
}

/// The named spell definitions among the first `n` blocks.
pub open spec fn spell_entries(blocks: Seq<Seq<char>>, n: int) -> Seq<(Seq<char>, Seq<char>)>
    decreases n,
{
    if n <= 0 {
        Seq::empty()
    } else if block_name(blocks[n - 1]).len() > 0 {
        spell_entries(blocks, n - 1).push((block_name(blocks[n - 1]), spell_record(blocks[n - 1])))
    } else {
        spell_entries(blocks, n - 1)
    }
}

/// The item and spell definitions read so far, keyed by name in
/// first-seen order.
pub struct SectDefs {
    pub items: CsDict<(String, String, String, bool)>,
    pub spells: CsDict<String>,
}

/// The items of a dictionary as values.
pub open spec fn items_table(d: CsDict<(String, String, String, bool)>) -> (Seq<Seq<char>>, Seq<ItemView>) {
    (d.keys_view(), d.values_view().map_values(|v: (String, String, String, bool)| item_view(v)))
}

/// The spells of a dictionary as values.
pub open spec fn spells_table(d: CsDict<String>) -> (Seq<Seq<char>>, Seq<Seq<char>>) {
    (d.keys_view(), d.values_view().map_values(|v: String| v@))
}

fn text_or_else(o: Option<Vec<char>>, d: &Vec<char>) -> (r: Vec<char>)
    ensures
        r@ == text_or(match o { Some(v) => Some(v@), None => None }, d@),
{
    match o {
        Some(v) => v,
        None => {
            let mut c: Vec<char> = Vec::new();
            let mut i: usize = 0;
            while i < d.len()
                invariant
                    i <= d@.len(),
                    c@ == d@.take(i as int),
                decreases d@.len() - i,
            {
                c.push(d[i]);
                i = i + 1;
                proof {
                    assert(c@ =~= d@.take(i as int));
                }
            }
            proof {
                assert(d@.take(d@.len() as int) =~= d@);
            }
            c
        },
    }
}

impl SectDefs {
    /// No definitions yet.
    pub fn new() -> (r: SectDefs)
        ensures
            r.items.wf(),
            r.spells.wf(),
            items_table(r.items) == (Seq::<Seq<char>>::empty(), Seq::<ItemView>::empty()),
            spells_table(r.spells) == (Seq::<Seq<char>>::empty(), Seq::<Seq<char>>::empty()),
    {
        let r = SectDefs { items: CsDict::new(), spells: CsDict::new() };
        proof {
            assert(items_table(r.items).1 =~= Seq::<ItemView>::empty());
            assert(spells_table(r.spells).1 =~= Seq::<Seq<char>>::empty());
        }
        r
    }

    /// Reads one definition file: its `ThingDef` blocks, then its
    /// `SpellDef` blocks, each named one entered under its name.
    pub fn add_file(&mut self, content: &str)
        requires
            old(self).items.wf(),
            old(self).spells.wf(),
        ensures
            final(self).items.wf(),
            final(self).spells.wf(),
            ({
                let x = content@;
                let tb = blocks_of(x, "ThingDef"@);
                let sb = blocks_of(x, "SpellDef"@);
                &&& items_table(final(self).items) == insert_entries(items_table(old(self).items), item_entries(tb, tb.len() as int))
                &&& spells_table(final(self).spells) == insert_entries(spells_table(old(self).spells), spell_entries(sb, sb.len() as int))
            }),
    {
        let x = chars_of(content);
        let things = extract_blocks(&x, "ThingDef");
        let ghost tb = blocks_of(x@, "ThingDef"@);
        let ghost t0 = items_table(self.items);
        let mut i: usize = 0;
        while i < things.len()
            invariant
                i <= things@.len(),
                things@.len() == tb.len(),
                forall|q: int| 0 <= q < things@.len() ==> (#[trigger] things@[q])@ == tb[q],
                self.items.wf(),
                self.spells.wf(),
                spells_table(self.spells) == spells_table(old(self).spells),
                items_table(self.items) == insert_entries(t0, item_entries(tb, i as int)),
            decreases things@.len() - i,
        {
            let block = &things[i];
            let name = get_name(block);
            if name.len() > 0 {
                let thing_name = text_or_else(get_node_text(block, "ThingName"), &name);
                let empty: Vec<char> = Vec::new();
                let item_type = text_or_else(get_node_text(block, "ItemType"), &empty);
                let equip_type = text_or_else(get_node_text(block, "EquipType"), &empty);
                let is_stuff_text = text_or_else(get_node_text(block, "IsStuff"), &empty);
                let ist = string_from_chars(is_stuff_text.as_slice());
                let it = string_from_chars(item_type.as_slice());
                let marker: [char; 10] = ['<', 'S', 't', 'u', 'f', 'f', 'D', 'e', 'f', '>'];
                proof {
                    reveal_strlit("<StuffDef>");
                    assert(marker@ =~= "<StuffDef>"@);
                }
                let is_stuff = crate::text::eq_ignore_ascii_case(ist.as_str(), "true") || str_eq(ist.as_str(), "1")
                    || str_eq(it.as_str(), "Material") || str_eq(it.as_str(), "Stuff") || find_chars(
                    block.as_slice(),
                    marker.as_slice(),
                    0,
                ).is_some();
                let value = (string_from_chars(thing_name.as_slice()), it, string_from_chars(equip_type.as_slice()), is_stuff);
                let key = string_from_chars(name.as_slice());
                let ghost gv = value;
                let ghost d0 = self.items;
                proof {
                    d0.lemma_keys_distinct();
                }
                self.items.insert(key, value);
                proof {
                    assert(item_view(gv) == item_record(tb[i as int]));
                    let before = insert_entries(t0, item_entries(tb, i as int));
                    crate::dict::lemma_dict_insert_map(
                        (d0.keys_view(), d0.values_view()),
                        name@,
                        gv,
                        |v: (String, String, String, bool)| item_view(v),
                    );
                    assert(items_table(self.items).1 =~= dict_insert(before, name@, item_view(gv)).1);
                    assert(items_table(self.items) == dict_insert(before, name@, item_view(gv)));
                    let es = item_entries(tb, i + 1);
                    assert(es.drop_last() == item_entries(tb, i as int));
                }
            } else {
                proof {
                    assert(item_entries(tb, i + 1) == item_entries(tb, i as int));
                }
            }
            i = i + 1;
        }
        let spells = extract_blocks(&x, "SpellDef");
        let ghost sb = blocks_of(x@, "SpellDef"@);
        let ghost s0 = spells_table(self.spells);
        let mut j: usize = 0;
        while j < spells.len()
            invariant
                j <= spells@.len(),
                spells@.len() == sb.len(),
                forall|q: int| 0 <= q < spells@.len() ==> (#[trigger] spells@[q])@ == sb[q],
                self.spells.wf(),
                self.items.wf(),
                items_table(self.items) == insert_entries(items_table(old(self).items), item_entries(tb, tb.len() as int)),
                spells_table(self.spells) == insert_entries(s0, spell_entries(sb, j as int)),
            decreases spells@.len() - j,
        {
            let block = &spells[j];
            let name = get_name(block);
            if name.len() > 0 {
                let shown = match get_node_text(block, "SpellName") {
                    Some(v) => v,
                    None => text_or_else(get_node_text(block, "ThingName"), &name),
                };
                let value = string_from_chars(shown.as_slice());
                let key = string_from_chars(name.as_slice());
                let ghost gv = value;
                let ghost d0 = self.spells;
                proof {
                    d0.lemma_keys_distinct();
                }
                self.spells.insert(key, value);
                proof {
                    assert(gv@ == spell_record(sb[j as int]));
                    let before = insert_entries(s0, spell_entries(sb, j as int));
                    crate::dict::lemma_dict_insert_map((d0.keys_view(), d0.values_view()), name@, gv, |v: String| v@);
                    assert(spells_table(self.spells).1 =~= dict_insert(before, name@, gv@).1);
                    assert(spells_table(self.spells) == dict_insert(before, name@, gv@));
                    let es = spell_entries(sb, j + 1);
                    assert(es.drop_last() == spell_entries(sb, j as int));
                }
            } else {
                proof {
                    assert(spell_entries(sb, j + 1) == spell_entries(sb, j as int));
                }
            }
            j = j + 1;
        }
    }
}

/// Whether an item belongs to a category: 0 clothes (equipment type
/// `Clothes`), 1 trousers (`Pants` or `Trousers`), 2 weapons (`Weapon`, or
/// item type `Fabao`), 3 materials.
pub open spec fn in_category(v: ItemView, cat: int) -> bool {
    if cat == 0 {
        v.2 == "Clothes"@
    } else if cat == 1 {
        v.2 == "Pants"@ || v.2 == "Trousers"@
    } else if cat == 2 {
        v.2 == "Weapon"@ || v.1 == "Fabao"@
    } else {
        v.3
    }
}

/// The shown names of the first `n` items that belong to a category.
pub open spec fn picked(items: Seq<ItemView>, cat: int, n: int) -> Seq<Seq<char>>
    decreases n,
{
    if n <= 0 {
        Seq::empty()
    } else if in_category(items[n - 1], cat) {
        picked(items, cat, n - 1).push(items[n - 1].0)
    } else {
        picked(items, cat, n - 1)
    }
}

/// The shown names of the items of the first `n` that satisfy `p`, in
/// file order.
pub open spec fn names_where(items: Seq<ItemView>, n: int, p: spec_fn(ItemView) -> bool) -> Seq<Seq<char>> {
    items.take(n).filter(p).map_values(|v: ItemView| v.0)
}

proof fn lemma_names_where_step(items: Seq<ItemView>, n: int, p: spec_fn(ItemView) -> bool)
    requires
        0 < n <= items.len(),
    ensures
        names_where(items, n, p) == if p(items[n - 1]) {
            names_where(items, n - 1, p).push(items[n - 1].0)
        } else {
            names_where(items, n - 1, p)
        },
{
    assert(items.take(n) =~= items.take(n - 1).push(items[n - 1]));
    items.take(n - 1).lemma_filter_push(items[n - 1], p);
    let f = |v: ItemView| v.0;
    if p(items[n - 1]) {
        assert(items.take(n - 1).filter(p).push(items[n - 1]).map_values(f) =~= items.take(n - 1).filter(p).map_values(f).push(
            items[n - 1].0,
        ));
    }
}

/// The four lists of the sect-elder data, item by item in file order: the
/// clothes are the items of equipment type `Clothes`, the trousers those of
/// type `Pants` or `Trousers`, the weapons those of equipment type `Weapon`
/// or item type `Fabao`, and the materials those marked as materials.
pub proof fn lemma_category_lists(items: Seq<ItemView>, n: int)
    requires
        0 <= n <= items.len(),
    ensures
        picked(items, 0, n) == names_where(items, n, |v: ItemView| v.2 == "Clothes"@),
        picked(items, 1, n) == names_where(items, n, |v: ItemView| v.2 == "Pants"@ || v.2 == "Trousers"@),
        picked(items, 2, n) == names_where(items, n, |v: ItemView| v.2 == "Weapon"@ || v.1 == "Fabao"@),
        picked(items, 3, n) == names_where(items, n, |v: ItemView| v.3),
    decreases n,
{
    let p0 = |v: ItemView| v.2 == "Clothes"@;
    let p1 = |v: ItemView| v.2 == "Pants"@ || v.2 == "Trousers"@;
    let p2 = |v: ItemView| v.2 == "Weapon"@ || v.1 == "Fabao"@;
    let p3 = |v: ItemView| v.3;
    if n == 0 {
        assert(names_where(items, 0, p0) =~= Seq::<Seq<char>>::empty());
        assert(names_where(items, 0, p1) =~= Seq::<Seq<char>>::empty());
        assert(names_where(items, 0, p2) =~= Seq::<Seq<char>>::empty());
        assert(names_where(items, 0, p3) =~= Seq::<Seq<char>>::empty());
    } else {
        lemma_category_lists(items, n - 1);
        lemma_names_where_step(items, n, p0);
        lemma_names_where_step(items, n, p1);
        lemma_names_where_step(items, n, p2);
        lemma_names_where_step(items, n, p3);
    }
}

/// The sect-elder data lists every item of equipment type `Weapon` and
/// every `Fabao` among the weapons, and only those, in file order; the
/// clothes, trousers and materials likewise (see `lemma_category_lists`).
pub proof fn lemma_game_data_lists(items: Seq<ItemView>, spells: Seq<Seq<char>>, d: GameData)
    requires
        game_data_of(items, spells, d),
    ensures
        texts(d.clothes@) == names_where(items, items.len() as int, |v: ItemView| v.2 == "Clothes"@),
        texts(d.pants@) == names_where(items, items.len() as int, |v: ItemView| v.2 == "Pants"@ || v.2 == "Trousers"@),
        texts(d.weapons@) == names_where(items, items.len() as int, |v: ItemView| v.2 == "Weapon"@ || v.1 == "Fabao"@),
        texts(d.stuffs@) == names_where(items, items.len() as int, |v: ItemView| v.3),
        forall|i: int|
            0 <= i < items.len() && (#[trigger] items[i]).2 == "Weapon"@ ==> texts(d.weapons@).contains(items[i].0),
{
    lemma_category_lists(items, items.len() as int);
    assert forall|i: int| 0 <= i < items.len() && (#[trigger] items[i]).2 == "Weapon"@ implies texts(d.weapons@).contains(
        items[i].0,
    ) by {
        let p2 = |v: ItemView| v.2 == "Weapon"@ || v.1 == "Fabao"@;
        lemma_weapon_listed(items, items.len() as int, i, p2);
    }
}

proof fn lemma_weapon_listed(items: Seq<ItemView>, n: int, i: int, p: spec_fn(ItemView) -> bool)
    requires
        0 <= i < n <= items.len(),
        p(items[i]),
    ensures
        names_where(items, n, p).contains(items[i].0),
    decreases n,
{
    lemma_names_where_step(items, n, p);
    if i < n - 1 {
        lemma_weapon_listed(items, n - 1, i, p);
        let prev = names_where(items, n - 1, p);
        let j = choose|j: int| 0 <= j < prev.len() && prev[j] == items[i].0;
        if p(items[n - 1]) {
            assert(prev.push(items[n - 1].0)[j] == items[i].0);
        }
    } else {
        let prev = names_where(items, n - 1, p);
        assert(prev.push(items[n - 1].0)[prev.len() as int] == items[i].0);
    }
}

/// The names that a sect elder's belongings are drawn from.
pub struct GameData {
    pub clothes: Vec<String>,
    pub pants: Vec<String>,
    pub weapons: Vec<String>,
    pub stuffs: Vec<String>,
    pub spells: Vec<String>,
    pub loaded: bool,
}

/// A list of strings as texts.
pub open spec fn texts(v: Seq<String>) -> Seq<Seq<char>> {
    v.map_values(|s: String| s@)
}

/// The game data of a set of definitions: the items of each category, in
/// order, the spells, and whether any clothes were found.
pub open spec fn game_data_of(items: Seq<ItemView>, spells: Seq<Seq<char>>, d: GameData) -> bool {
    &&& texts(d.clothes@) == picked(items, 0, items.len() as int)
    &&& texts(d.pants@) == picked(items, 1, items.len() as int)
    &&& texts(d.weapons@) == picked(items, 2, items.len() as int)
    &&& texts(d.stuffs@) == picked(items, 3, items.len() as int)
    &&& texts(d.spells@) == spells
    &&& d.loaded == (picked(items, 0, items.len() as int).len() > 0)
}

fn push_if(list: &mut Vec<String>, name: &String, cond: bool, items: Ghost<Seq<ItemView>>, cat: Ghost<int>, n: Ghost<int>)
    requires
        0 <= n@ < items@.len(),
        texts(old(list)@) == picked(items@, cat@, n@),
        cond == in_category(items@[n@], cat@),
        name@ == items@[n@].0,
    ensures
        texts(final(list)@) == picked(items@, cat@, n@ + 1),
{
    if cond {
        list.push(name.clone());
        proof {
            assert(texts(list@) =~= texts(old(list)@).push(name@));
        }
    }
}

impl GameData {
    /// Nothing loaded.
    pub fn new() -> (r: GameData)
        ensures
            r.clothes@.len() == 0,
            r.pants@.len() == 0,
            r.weapons@.len() == 0,
            r.stuffs@.len() == 0,
            r.spells@.len() == 0,
            !r.loaded,
    {
        GameData {
            clothes: Vec::new(),
            pants: Vec::new(),
            weapons: Vec::new(),
            stuffs: Vec::new(),
            spells: Vec::new(),
            loaded: false,
        }
    }

    /// The game data of the definitions read (see `game_data_of`).
    pub fn from_defs(defs: SectDefs) -> (r: GameData)
        requires
            defs.items.wf(),
            defs.spells.wf(),
        ensures
            game_data_of(items_table(defs.items).1, spells_table(defs.spells).1, r),
    {
        let ghost items = items_table(defs.items).1;
        proof {
            defs.items.lemma_keys_distinct();
            defs.spells.lemma_keys_distinct();
        }
        let mut data = GameData::new();
        let n = defs.items.len();
        let mut i: usize = 0;
        proof {
            assert(texts(data.clothes@) =~= Seq::<Seq<char>>::empty());
            assert(texts(data.pants@) =~= Seq::<Seq<char>>::empty());
            assert(texts(data.weapons@) =~= Seq::<Seq<char>>::empty());
            assert(texts(data.stuffs@) =~= Seq::<Seq<char>>::empty());
        }
        while i < n
            invariant
                i <= n,
                n == items.len(),
                defs.items.wf(),
                items == items_table(defs.items).1,
                texts(data.clothes@) == picked(items, 0, i as int),
                texts(data.pants@) == picked(items, 1, i as int),
                texts(data.weapons@) == picked(items, 2, i as int),
                texts(data.stuffs@) == picked(items, 3, i as int),
            decreases n - i,
        {
            let v = defs.items.value_at(i);
            proof {
                assert(item_view(*v) == items[i as int]);
            }
            let is_clothes = str_eq(v.2.as_str(), "Clothes");
            let is_pants = str_eq(v.2.as_str(), "Pants") || str_eq(v.2.as_str(), "Trousers");
            let is_weapon = str_eq(v.2.as_str(), "Weapon") || str_eq(v.1.as_str(), "Fabao");
            push_if(&mut data.clothes, &v.0, is_clothes, Ghost(items), Ghost(0), Ghost(i as int));
            push_if(&mut data.pants, &v.0, is_pants, Ghost(items), Ghost(1), Ghost(i as int));
            push_if(&mut data.weapons, &v.0, is_weapon, Ghost(items), Ghost(2), Ghost(i as int));
            push_if(&mut data.stuffs, &v.0, v.3, Ghost(items), Ghost(3), Ghost(i as int));
            i = i + 1;
        }
        let spells = defs.spells.into_values();
        proof {
            assert(texts(spells@) =~= spells_table(defs.spells).1);
        }
        data.spells = spells;
        data.loaded = data.clothes.len() > 0;
        proof {
            assert(picked(items, 0, n as int).len() == data.clothes@.len());
        }
        data
    }
}

/// The definitions of several files read in turn.
pub open spec fn defs_after_files(files: Seq<Seq<char>>) -> ((Seq<Seq<char>>, Seq<ItemView>), (Seq<Seq<char>>, Seq<Seq<char>>))
    decreases files.len(),
{
    if files.len() == 0 {
        ((Seq::empty(), Seq::empty()), (Seq::empty(), Seq::empty()))
    } else {
        let prev = defs_after_files(files.drop_last());
        let x = files.last();
        let tb = blocks_of(x, "ThingDef"@);
        let sb = blocks_of(x, "SpellDef"@);
        (
            insert_entries(prev.0, item_entries(tb, tb.len() as int)),
            insert_entries(prev.1, spell_entries(sb, sb.len() as int)),
        )
    }
}

/// The game data of the definition files' texts, read in the given order.
pub fn load_game_data(contents: &Vec<String>) -> (r: GameData)
    ensures
        game_data_of(defs_after_files(texts(contents@)).0.1, defs_after_files(texts(contents@)).1.1, r),
{
    let mut defs = SectDefs::new();
    let mut i: usize = 0;
    proof {
        assert(texts(contents@).take(0) =~= Seq::<Seq<char>>::empty());
    }
    while i < contents.len()
        invariant
            i <= contents@.len(),
            defs.items.wf(),
            defs.spells.wf(),
            items_table(defs.items) == defs_after_files(texts(contents@).take(i as int)).0,
            spells_table(defs.spells) == defs_after_files(texts(contents@).take(i as int)).1,
        decreases contents@.len() - i,
    {
        defs.add_file(contents[i].as_str());
        proof {
            let f = texts(contents@);
            assert(f.take(i + 1).drop_last() =~= f.take(i as int));
            assert(f.take(i + 1).last() == contents@[i as int]@);
        }
        i = i + 1;
    }
    proof {
        assert(texts(contents@).take(contents@.len() as int) =~= texts(contents@));
    }
    GameData::from_defs(defs)
}

} // verus!
