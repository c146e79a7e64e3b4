//! The item definitions of the game's data files: each definition element
//! is read into a record, records take what they leave open from their
//! parent, and the items are listed by label for the random item draws.
use vstd::prelude::*;
use vstd::string::StringExecFns;
use crate::dict::{CsDict, dict_insert, insert_entries};
use crate::npc_tables::{find_tagged, derefs, first_key, first_tagged, forest_order, keys_distinct, lemma_set_keeps_keys_distinct, lemma_first_key_bound, lemma_first_key_same, or_else, or_empty, parse_or};
use crate::text::{chars_of, eq_ascii_ci, eq_ignore_ascii_case, lex_le, parse_i32, sort_strings, str_eq, string_from_chars, trim_chars, trim_ws};
use crate::xml::{XmlElement, lemma_same_value, list_sources, same_element, value_of};

verus! {

/// An item definition as read from its element, before inheritance. The
/// temperature bonuses are kept as text; their numbers come separately.
pub struct ThingRecord {
    pub name: String,
    pub parent: String,
    pub rate: i32,
    pub not_random: i32,
    pub item_kind: String,
    pub label: String,
    pub has_be_made: bool,
    pub is_stuff: bool,
    pub stuff_categories: Vec<String>,
    pub element_kind: i32,
    pub fabao_suffix_len: usize,
    pub temp_max_text: Option<String>,
    pub temp_min_text: Option<String>,
    pub other_world: i32,
}

/// A record as values.
pub struct ThingRecordView {
    pub name: Seq<char>,
    pub parent: Seq<char>,
    pub rate: i32,
    pub not_random: i32,
    pub item_kind: Seq<char>,
    pub label: Seq<char>,
    pub has_be_made: bool,
    pub is_stuff: bool,
    pub stuff_categories: Seq<Seq<char>>,
    pub element_kind: i32,
    pub fabao_suffix_len: int,
    pub temp_max_text: Option<Seq<char>>,
    pub temp_min_text: Option<Seq<char>>,
    pub other_world: i32,
}

/// Texts of a list of strings.
pub open spec fn strings_view(v: Seq<String>) -> Seq<Seq<char>> {
    v.map_values(|s: String| s@)
}

/// The text of an optional string.
pub open spec fn opt_view(o: Option<String>) -> Option<Seq<char>> {
    match o {
        Some(s) => Some(s@),
        None => None,
    }
}

/// A record's values.
pub open spec fn record_view(r: ThingRecord) -> ThingRecordView {
    ThingRecordView {
        name: r.name@,
        parent: r.parent@,
        rate: r.rate,
        not_random: r.not_random,
        item_kind: r.item_kind@,
        label: r.label@,
        has_be_made: r.has_be_made,
        is_stuff: r.is_stuff,
        stuff_categories: strings_view(r.stuff_categories@),
        element_kind: r.element_kind,
        fabao_suffix_len: r.fabao_suffix_len as int,
        temp_max_text: opt_view(r.temp_max_text),
        temp_min_text: opt_view(r.temp_min_text),
        other_world: r.other_world,
    }
}

/// The element code of a five-phases name: `Jin` 1, `Mu` 2, `Shui` 3,
/// `Huo` 4, `Tu` 5, anything else 0.
pub open spec fn element_code(s: Seq<char>) -> i32 {
    if s == "Jin"@ {
        1
    } else if s == "Mu"@ {
        2
    } else if s == "Shui"@ {
        3
    } else if s == "Huo"@ {
        4
    } else if s == "Tu"@ {
        5
    } else {
        0
    }
}

/// The element kinds of materials: metal (`Jin`) 1, wood (`Mu`) 2, water
/// (`Shui`) 3, fire (`Huo`) 4, earth (`Tu`) 5; the five codes are distinct,
/// and any other text is 0.
pub proof fn lemma_element_codes(s: Seq<char>)
    ensures
        element_code("Jin"@) == 1,
        element_code("Mu"@) == 2,
        element_code("Shui"@) == 3,
        element_code("Huo"@) == 4,
        element_code("Tu"@) == 5,
        s != "Jin"@ && s != "Mu"@ && s != "Shui"@ && s != "Huo"@ && s != "Tu"@ ==> element_code(s) == 0,
        1 <= element_code(s) <= 5 || element_code(s) == 0,
{
    reveal_strlit("Jin");
    reveal_strlit("Mu");
    reveal_strlit("Shui");
    reveal_strlit("Huo");
    reveal_strlit("Tu");
    assert("Shui"@ != "Jin"@ && "Shui"@ != "Mu"@) by {
        assert("Shui"@.len() == 4);
    }
    assert("Huo"@ != "Jin"@ && "Huo"@ != "Mu"@ && "Huo"@ != "Shui"@) by {
        assert("Huo"@[0] != "Jin"@[0]);
        assert("Huo"@.len() == 3);
    }
    assert("Tu"@ != "Jin"@ && "Tu"@ != "Mu"@ && "Tu"@ != "Shui"@ && "Tu"@ != "Huo"@) by {
        assert("Tu"@[0] != "Mu"@[0]);
        assert("Tu"@.len() == 2);
    }
    assert("Mu"@ != "Jin"@) by {
        assert("Mu"@.len() == 2);
    }
}

/// A number attribute, or 0.
pub open spec fn num_or_zero(e: XmlElement, key: Seq<char>) -> i32 {
    match value_of(e, key) {
        Some(s) => parse_or(s, 0),
        None => 0,
    }
}

/// The number of comma-separated parts of a text.
pub open spec fn comma_parts(s: Seq<char>, n: int) -> int
    decreases n,
{
    if n <= 0 {
        1
    } else {
        comma_parts(s, n - 1) + if s[n - 1] == ',' { 1int } else { 0int }
    }
}

/// The category names among the first `n` entries of a `StuffCategories`
/// list: each entry's `name` value, else its text, when not empty.
pub open spec fn categories_of(list: Seq<XmlElement>, n: int) -> Seq<Seq<char>>
    decreases n,
{
    if n <= 0 {
        Seq::empty()
    } else {
        let prev = categories_of(list, n - 1);
        let c = list[n - 1];
        let v = match value_of(c, "name"@) {
            Some(x) => x,
            None => c.text@,
        };
        if v.len() > 0 {
            prev.push(v)
        } else {
            prev
        }
    }
}

/// The record that a definition element gives.
pub open spec fn thing_record_of(b: XmlElement) -> ThingRecordView {
    let ek0 = element_code(or_empty(value_of(b, "ElementKind"@)));
    let base = ThingRecordView {
        name: or_empty(value_of(b, "Name"@)),
        parent: or_empty(value_of(b, "Parent"@)),
        rate: num_or_zero(b, "Rate"@),
        not_random: 0,
        item_kind: Seq::empty(),
        label: Seq::empty(),
        has_be_made: false,
        is_stuff: false,
        stuff_categories: Seq::empty(),
        element_kind: ek0,
        fabao_suffix_len: 1,
        temp_max_text: None,
        temp_min_text: None,
        other_world: num_or_zero(b, "OtherWorld"@),
    };
    match first_tagged(b.children@, "Item"@, 0) {
        None => base,
        Some(j) => {
            let it = b.children@[j];
            let equip = first_tagged(it.children@, "Equip"@, 0);
            let mat = first_tagged(it.children@, "BeMaterial"@, 0);
            let made = first_tagged(it.children@, "BeMade"@, 0);
            let suffix = or_empty(value_of(it, "FabaoSuffix"@));
            ThingRecordView {
                label: or_empty(value_of(it, "Lable"@)),
                not_random: num_or_zero(it, "NotRandom"@),
                item_kind: or_empty(value_of(it, "Kind"@)),
                temp_max_text: match equip {
                    Some(q) => value_of(it.children@[q], "TemperatureMaxAdd"@),
                    None => None,
                },
                temp_min_text: match equip {
                    Some(q) => value_of(it.children@[q], "TemperatureMinAdd"@),
                    None => None,
                },
                is_stuff: mat is Some,
                element_kind: match mat {
                    Some(q) => {
                        let c = element_code(or_empty(value_of(it.children@[q], "ElementKind"@)));
                        if c != 0 { c } else { ek0 }
                    },
                    None => ek0,
                },
                has_be_made: made is Some,
                stuff_categories: match made {
                    Some(q) => {
                        let m = it.children@[q];
                        let l = list_sources(m.children@, "StuffCategories"@, m.children@.len() as int);
                        categories_of(l, l.len() as int)
                    },
                    None => Seq::empty(),
                },
                fabao_suffix_len: if suffix.len() > 0 { capped(comma_parts(suffix, suffix.len() as int)) } else { 1 },
                ..base
            }
        },
    }
}

fn num_value(e: &XmlElement, key: &str) -> (r: i32)
    ensures
        r == num_or_zero(*e, key@),
{
    match e.get_val(key) {
        Some(s) => {
            let c = chars_of(s.as_str());
            match parse_i32(c.as_slice()) {
                Some(v) => v,
                None => 0,
            }
        },
        None => 0,
    }
}

fn text_value(e: &XmlElement, key: &str) -> (r: String)
    ensures
        r@ == or_empty(value_of(*e, key@)),
{
    match e.get_val(key) {
        Some(v) => v,
        None => String::new(),
    }
}

fn element_code_of(s: &String) -> (r: i32)
    ensures
        r == element_code(s@),
{
    if str_eq(s.as_str(), "Jin") {
        1
    } else if str_eq(s.as_str(), "Mu") {
        2
    } else if str_eq(s.as_str(), "Shui") {
        3
    } else if str_eq(s.as_str(), "Huo") {
        4
    } else if str_eq(s.as_str(), "Tu") {
        5
    } else {
        0
    }
}


/// A count that stops at the largest `usize`.
pub open spec fn capped(n: int) -> int {
    if n > usize::MAX { usize::MAX as int } else { n }
}

fn count_parts(s: &Vec<char>) -> (r: usize)
    ensures
        r == capped(comma_parts(s@, s@.len() as int)),
{
    let mut c: usize = 1;
    let mut i: usize = 0;
    while i < s.len()
        invariant
            i <= s@.len(),
            c == capped(comma_parts(s@, i as int)),
            comma_parts(s@, i as int) >= 1,
        decreases s@.len() - i,
    {
        if s[i] == ',' && c < usize::MAX {
            c = c + 1;
        }
        i = i + 1;
    }
    c
}

fn categories(made: &XmlElement) -> (r: Vec<String>)
    ensures
        ({
            let l = list_sources(made.children@, "StuffCategories"@, made.children@.len() as int);
            strings_view(r@) == categories_of(l, l.len() as int)
        }),
{
    let list = made.get_list("StuffCategories");
    let ghost l = list_sources(made.children@, "StuffCategories"@, made.children@.len() as int);
    let mut out: Vec<String> = Vec::new();
    let mut i: usize = 0;
    while i < list.len()
        invariant
            i <= list@.len(),
            list@.len() == l.len(),
            forall|q: int| 0 <= q < list@.len() ==> #[trigger] same_element(list@[q], l[q]),
            strings_view(out@) == categories_of(l, i as int),
        decreases list@.len() - i,
    {
        let c = &list[i];
        proof {
            assert(same_element(list@[i as int], l[i as int]));
            lemma_same_value(list@[i as int], l[i as int], "name"@);
        }
        let v = match c.get_val("name") {
            Some(x) => x,
            None => c.text.clone(),
        };
        if v.unicode_len() > 0 {
            let ghost before = out@;
            out.push(v);
            proof {
                assert(strings_view(out@) =~= strings_view(before).push(v@));
            }
        }
        i = i + 1;
    }
    out
}

/// The record that a definition element gives (see `thing_record_of`).
pub fn thing_record(b: &XmlElement) -> (r: ThingRecord)
    ensures
        record_view(r) == thing_record_of(*b),
{
    let ek_text = text_value(b, "ElementKind");
    let ek0 = element_code_of(&ek_text);
    let name = text_value(b, "Name");
    let parent = text_value(b, "Parent");
    let rate = num_value(b, "Rate");
    let other_world = num_value(b, "OtherWorld");
    match find_tagged(&b.children, "Item") {
        None => {
            let r = ThingRecord {
                name,
                parent,
                rate,
                not_random: 0,
                item_kind: String::new(),
                label: String::new(),
                has_be_made: false,
                is_stuff: false,
                stuff_categories: Vec::new(),
                element_kind: ek0,
                fabao_suffix_len: 1,
                temp_max_text: None,
                temp_min_text: None,
                other_world,
            };
            proof {
                assert(strings_view(r.stuff_categories@) =~= Seq::<Seq<char>>::empty());
            }
            r
        },
        Some(j) => {
            let it = &b.children[j];
            let label = text_value(it, "Lable");
            let not_random = num_value(it, "NotRandom");
            let item_kind = text_value(it, "Kind");
            let (temp_max_text, temp_min_text) = match find_tagged(&it.children, "Equip") {
                Some(q) => (it.children[q].get_val("TemperatureMaxAdd"), it.children[q].get_val("TemperatureMinAdd")),
                None => (None, None),
            };
            let (is_stuff, element_kind) = match find_tagged(&it.children, "BeMaterial") {
                Some(q) => {
                    let t = text_value(&it.children[q], "ElementKind");
                    let c = element_code_of(&t);
                    (true, if c != 0 { c } else { ek0 })
                },
                None => (false, ek0),
            };
            let (has_be_made, stuff_categories) = match find_tagged(&it.children, "BeMade") {
                Some(q) => (true, categories(&it.children[q])),
                None => (false, Vec::new()),
            };
            let suffix = text_value(it, "FabaoSuffix");
            let suffix_chars = chars_of(suffix.as_str());
            let fabao_suffix_len = if suffix_chars.len() > 0 {
                count_parts(&suffix_chars)
            } else {
                1
            };
            let r = ThingRecord {
                name,
                parent,
                rate,
                not_random,
                item_kind,
                label,
                has_be_made,
                is_stuff,
                stuff_categories,
                element_kind,
                fabao_suffix_len,
                temp_max_text,
                temp_min_text,
                other_world,
            };
            proof {
                if !has_be_made {
                    assert(strings_view(r.stuff_categories@) =~= Seq::<Seq<char>>::empty());
                }
                let want = thing_record_of(*b);
                let got = record_view(r);
                assert(got.temp_max_text == want.temp_max_text);
                assert(got.temp_min_text == want.temp_min_text);
                assert(got.stuff_categories == want.stuff_categories);
                assert(got.element_kind == want.element_kind);
                assert(got.fabao_suffix_len == want.fabao_suffix_len);
            }
            r
        },
    }
}

/// The tags of definition elements: `ThingDef`, `Thing` or `li`, in any
/// ASCII case.
pub open spec fn is_thing_tag(t: Seq<char>) -> bool {
    ||| eq_ascii_ci(t, "ThingDef"@)
    ||| eq_ascii_ci(t, "Thing"@)
    ||| eq_ascii_ci(t, "li"@)
}

/// The shown name that a definition element gives for the translation
/// table: its `ThingName` (else `DisplayName`) trimmed, when not empty and
/// not the name itself.
pub open spec fn thing_translation(b: XmlElement) -> Option<Seq<char>> {
    let name = or_empty(value_of(b, "Name"@));
    match or_else(value_of(b, "ThingName"@), value_of(b, "DisplayName"@)) {
        Some(d) => {
            let t = trim_ws(d);
            if t.len() > 0 && t != name {
                Some(t)
            } else {
                None
            }
        },
        None => None,
    }
}

/// A definition element defines an item: its `Type` (else `ThingType`,
/// else `Item`) is `Item` up to ASCII case.
pub open spec fn is_item_def(b: XmlElement) -> bool {
    eq_ascii_ci(
        match or_else(value_of(b, "Type"@), value_of(b, "ThingType"@)) {
            Some(v) => v,
            None => "Item"@,
        },
        "Item"@,
    )
}

/// A named definition element.
pub open spec fn is_named_thing(b: XmlElement) -> bool {
    is_thing_tag(b.tag@) && or_empty(value_of(b, "Name"@)).len() > 0
}

/// The translations that visited elements give, in order.
pub open spec fn thing_translation_entries(blocks: Seq<XmlElement>) -> Seq<(Seq<char>, Seq<char>)>
    decreases blocks.len(),
{
    if blocks.len() == 0 {
        Seq::empty()
    } else {
        let prev = thing_translation_entries(blocks.drop_last());
        let b = blocks.last();
        if is_named_thing(b) && thing_translation(b) is Some {
            prev.push((or_empty(value_of(b, "Name"@)), thing_translation(b)->0))
        } else {
            prev
        }
    }
}

/// The item records that visited elements give, in order.
pub open spec fn thing_def_entries(blocks: Seq<XmlElement>) -> Seq<(Seq<char>, ThingRecordView)>
    decreases blocks.len(),
{
    if blocks.len() == 0 {
        Seq::empty()
    } else {
        let prev = thing_def_entries(blocks.drop_last());
        let b = blocks.last();
        if is_named_thing(b) && is_item_def(b) {
            prev.push((or_empty(value_of(b, "Name"@)), thing_record_of(b)))
        } else {
            prev
        }
    }
}

/// The records of a dictionary as values.
pub open spec fn records_table(d: CsDict<ThingRecord>) -> (Seq<Seq<char>>, Seq<ThingRecordView>) {
    (d.keys_view(), d.values_view().map_values(|r: ThingRecord| record_view(r)))
}

/// The translations of a dictionary as texts.
pub open spec fn texts_table(d: CsDict<String>) -> (Seq<Seq<char>>, Seq<Seq<char>>) {
    (d.keys_view(), d.values_view().map_values(|s: String| s@))
}

/// Reads the definition elements among `blocks` (in visiting order): item
/// records go to `defs`, shown names to `translations`.
pub fn collect_things(blocks: &Vec<&XmlElement>, defs: &mut CsDict<ThingRecord>, translations: &mut CsDict<String>)
    requires
        old(defs).wf(),
        old(translations).wf(),
    ensures
        final(defs).wf(),
        final(translations).wf(),
        records_table(*final(defs)) == insert_entries(records_table(*old(defs)), thing_def_entries(derefs(blocks@))),
        texts_table(*final(translations)) == insert_entries(
            texts_table(*old(translations)),
            thing_translation_entries(derefs(blocks@)),
        ),
{
    let ghost bs = derefs(blocks@);
    let ghost d0 = records_table(*defs);
    let ghost t0 = texts_table(*translations);
    let mut i: usize = 0;
    proof {
        assert(bs.take(0) =~= Seq::<XmlElement>::empty());
    }
    while i < blocks.len()
        invariant
            i <= blocks@.len(),
            bs == derefs(blocks@),
            defs.wf(),
            translations.wf(),
            records_table(*defs) == insert_entries(d0, thing_def_entries(bs.take(i as int))),
            texts_table(*translations) == insert_entries(t0, thing_translation_entries(bs.take(i as int))),
        decreases blocks@.len() - i,
    {
        let b: &XmlElement = blocks[i];
        let ghost dprev = thing_def_entries(bs.take(i as int));
        let ghost tprev = thing_translation_entries(bs.take(i as int));
        proof {
            assert(bs.take(i + 1).drop_last() =~= bs.take(i as int));
            assert(bs.take(i + 1).last() == *b);
            reveal_strlit("Item");
        }
        let is_tag = eq_ignore_ascii_case(b.tag.as_str(), "ThingDef") || eq_ignore_ascii_case(b.tag.as_str(), "Thing")
            || eq_ignore_ascii_case(b.tag.as_str(), "li");
        let name = text_value(b, "Name");
        proof {
            assert(is_tag == is_thing_tag(b.tag@));
            assert((is_tag && name@.len() > 0) == is_named_thing(*b));
        }
        if is_tag && name.unicode_len() > 0 {
            let disp = match b.get_val("ThingName") {
                Some(v) => Some(v),
                None => b.get_val("DisplayName"),
            };
            proof {
                assert(opt_view(disp) == or_else(value_of(*b, "ThingName"@), value_of(*b, "DisplayName"@)));
            }
            let mut added = false;
            match disp {
                Some(d) => {
                    let dc = chars_of(d.as_str());
                    let tc = trim_chars(dc.as_slice());
                    let t = string_from_chars(tc.as_slice());
                    if tc.len() > 0 && !str_eq(t.as_str(), name.as_str()) {
                        let ghost g0 = *translations;
                        let ghost gt = t;
                        translations.insert(name.clone(), t);
                        proof {
                            CsDict::<String>::lemma_insert_mapped(g0, *translations, name@, gt, |s: String| s@);
                            assert(thing_translation(*b) == Some(gt@));
                            let es = thing_translation_entries(bs.take(i + 1));
                            assert(es == tprev.push((name@, gt@)));
                            assert(es.drop_last() =~= tprev);
                        }
                        added = true;
                    } else {
                        proof {
                            assert(thing_translation(*b) is None);
                        }
                    }
                },
                None => {
                    proof {
                        assert(thing_translation(*b) is None);
                    }
                },
            }
            proof {
                if !added {
                    assert(thing_translation_entries(bs.take(i + 1)) == tprev);
                }
            }
            let kind = match b.get_val("Type") {
                Some(v) => v,
                None => match b.get_val("ThingType") {
                    Some(v) => v,
                    None => String::from_str("Item"),
                },
            };
            if eq_ignore_ascii_case(kind.as_str(), "Item") {
                proof {
                    assert(is_item_def(*b));
                }
                let rec = thing_record(b);
                let ghost g0 = *defs;
                let ghost gr = rec;
                defs.insert(name.clone(), rec);
                proof {
                    CsDict::<ThingRecord>::lemma_insert_mapped(g0, *defs, name@, gr, |r: ThingRecord| record_view(r));
                    let es = thing_def_entries(bs.take(i + 1));
                    assert(es == dprev.push((name@, thing_record_of(*b))));
                    assert(es.drop_last() =~= dprev);
                }
            } else {
                proof {
                    assert(!is_item_def(*b));
                    assert(thing_def_entries(bs.take(i + 1)) == dprev);
                }
            }
        } else {
            proof {
                assert(thing_def_entries(bs.take(i + 1)) == dprev);
                assert(thing_translation_entries(bs.take(i + 1)) == tprev);
            }
        }
        i = i + 1;
    }
    proof {
        assert(bs.take(blocks@.len() as int) =~= bs);
    }
}

/// A resolved item definition. The temperature bonuses are the bits of
/// their single-precision values.
pub struct ThingDefData {
    pub name: String,
    pub rate: i32,
    pub not_random: i32,
    pub item_kind: String,
    pub label: String,
    pub has_be_made: bool,
    pub is_stuff: bool,
    pub stuff_categories: Vec<String>,
    pub element_kind: i32,
    pub fabao_suffix_len: usize,
    pub temp_max_add: u32,
    pub temp_min_add: u32,
    pub other_world: i32,
}

/// A resolved definition as values.
pub struct ThingDefView {
    pub name: Seq<char>,
    pub rate: i32,
    pub not_random: i32,
    pub item_kind: Seq<char>,
    pub label: Seq<char>,
    pub has_be_made: bool,
    pub is_stuff: bool,
    pub stuff_categories: Seq<Seq<char>>,
    pub element_kind: i32,
    pub fabao_suffix_len: int,
    pub temp_max_add: u32,
    pub temp_min_add: u32,
    pub other_world: i32,
}

/// A resolved definition's values.
pub open spec fn def_view(d: ThingDefData) -> ThingDefView {
    ThingDefView {
        name: d.name@,
        rate: d.rate,
        not_random: d.not_random,
        item_kind: d.item_kind@,
        label: d.label@,
        has_be_made: d.has_be_made,
        is_stuff: d.is_stuff,
        stuff_categories: strings_view(d.stuff_categories@),
        element_kind: d.element_kind,
        fabao_suffix_len: d.fabao_suffix_len as int,
        temp_max_add: d.temp_max_add,
        temp_min_add: d.temp_min_add,
        other_world: d.other_world,
    }
}

/// The bits of a single-precision zero (either sign).
pub open spec fn f32_zero(b: u32) -> bool {
    b == 0 || b == 0x8000_0000
}

/// A record with its temperature bonuses, as a definition.
pub open spec fn base_def(d: ThingRecordView, t: (u32, u32)) -> ThingDefView {
    ThingDefView {
        name: d.name,
        rate: d.rate,
        not_random: d.not_random,
        item_kind: d.item_kind,
        label: d.label,
        has_be_made: d.has_be_made,
        is_stuff: d.is_stuff,
        stuff_categories: d.stuff_categories,
        element_kind: d.element_kind,
        fabao_suffix_len: d.fabao_suffix_len,
        temp_max_add: t.0,
        temp_min_add: t.1,
        other_world: d.other_world,
    }
}

/// What a definition takes from its parent: label, kind, rate, element and
/// other-world flag where its own are empty or 0; the made-from categories
/// when only the parent can be made; the material flag; and both
/// temperature bonuses when its own are both zero.
pub open spec fn inherit_thing(r: ThingDefView, p: ThingDefView) -> ThingDefView {
    let take_made = !r.has_be_made && p.has_be_made;
    let take_temp = f32_zero(r.temp_max_add) && f32_zero(r.temp_min_add);
    ThingDefView {
        label: if r.label.len() == 0 { p.label } else { r.label },
        item_kind: if r.item_kind.len() == 0 { p.item_kind } else { r.item_kind },
        rate: if r.rate == 0 { p.rate } else { r.rate },
        element_kind: if r.element_kind == 0 { p.element_kind } else { r.element_kind },
        has_be_made: r.has_be_made || p.has_be_made,
        stuff_categories: if take_made { p.stuff_categories } else { r.stuff_categories },
        is_stuff: r.is_stuff || p.is_stuff,
        temp_max_add: if take_temp { p.temp_max_add } else { r.temp_max_add },
        temp_min_add: if take_temp { p.temp_min_add } else { r.temp_min_add },
        other_world: if r.other_world == 0 { p.other_world } else { r.other_world },
        ..r
    }
}

/// The position of a key, if it is there.
pub open spec fn key_pos(keys: Seq<Seq<char>>, k: Seq<char>) -> Option<int> {
    if exists|i: int| 0 <= i < keys.len() && #[trigger] keys[i] == k {
        Some(choose|i: int| 0 <= i < keys.len() && #[trigger] keys[i] == k)
    } else {
        None
    }
}

/// Definition `i` resolved: it inherits once from the definition its
/// parent names, if that one is there; an empty label becomes `None`.
pub open spec fn resolved_thing(t: (Seq<Seq<char>>, Seq<ThingRecordView>), temps: Seq<(u32, u32)>, i: int) -> ThingDefView {
    let d = t.1[i];
    let r0 = base_def(d, temps[i]);
    let r1 = if d.parent.len() > 0 {
        match key_pos(t.0, d.parent) {
            Some(p) => inherit_thing(r0, base_def(t.1[p], temps[p])),
            None => r0,
        }
    } else {
        r0
    };
    if r1.label.len() == 0 {
        ThingDefView { label: "None"@, ..r1 }
    } else {
        r1
    }
}

/// The name ends with `Base`.
pub open spec fn ends_with_base(name: Seq<char>) -> bool {
    name.len() >= 4 && name.subrange(name.len() - 4, name.len() as int) == seq!['B', 'a', 's', 'e']
}

/// A resolved definition that random draws may give: labelled, not marked
/// not-random (1 or 2), and not a base definition.
pub open spec fn drawable(d: ThingDefView, name: Seq<char>) -> bool {
    d.label != "None"@ && d.not_random != 1 && d.not_random != 2 && !ends_with_base(name)
}

/// A drawable definition is listed as an item unless it is equipment that
/// cannot be made, and as a material when it is one.
pub open spec fn listed(d: ThingDefView, name: Seq<char>, stuff: bool) -> bool {
    drawable(d, name) && if stuff {
        d.is_stuff
    } else {
        !eq_ascii_ci(d.item_kind, "Equipment"@) || d.has_be_made
    }
}

/// Which definitions the label lists take: never a base definition (a name
/// ending in `Base`), an unlabelled one (label `None`) or one marked
/// not-random (1 or 2); among the rest, the material lists take exactly the
/// materials, and the item lists every definition but equipment that cannot
/// be made.
pub proof fn lemma_listed_rules(d: ThingDefView, name: Seq<char>, stuff: bool)
    ensures
        name.len() >= 4 && name.subrange(name.len() - 4, name.len() as int) == "Base"@ ==> !listed(d, name, stuff),
        d.label == "None"@ ==> !listed(d, name, stuff),
        d.not_random == 1 || d.not_random == 2 ==> !listed(d, name, stuff),
        drawable(d, name) ==> (listed(d, name, true) <==> d.is_stuff),
        drawable(d, name) ==> (listed(d, name, false) <==> (!eq_ascii_ci(d.item_kind, "Equipment"@) || d.has_be_made)),
        drawable(d, name) <==> (d.label != "None"@ && d.not_random != 1 && d.not_random != 2 && !(name.len() >= 4
            && name.subrange(name.len() - 4, name.len() as int) == "Base"@)),
{
    reveal_strlit("Base");
    assert("Base"@ =~= seq!['B', 'a', 's', 'e']);
}

/// A name added to the list of a label (a new label goes to the end).
pub open spec fn label_push(l: Seq<(Seq<char>, Seq<Seq<char>>)>, k: Seq<char>, x: Seq<char>) -> Seq<(Seq<char>, Seq<Seq<char>>)> {
    match first_key(l, k, 0) {
        Some(i) => l.update(i, (k, l[i].1.push(x))),
        None => l.push((k, seq![x])),
    }
}

/// The names listed under each label among the first `n` definitions, in
/// definition order.
pub open spec fn label_lists(t: (Seq<Seq<char>>, Seq<ThingRecordView>), temps: Seq<(u32, u32)>, n: int, stuff: bool) -> Seq<(Seq<char>, Seq<Seq<char>>)>
    decreases n,
{
    if n <= 0 {
        Seq::empty()
    } else {
        let prev = label_lists(t, temps, n - 1, stuff);
        let d = resolved_thing(t, temps, n - 1);
        if listed(d, t.0[n - 1], stuff) {
            label_push(prev, d.label, t.0[n - 1])
        } else {
            prev
        }
    }
}

/// The labels of the label lists are pairwise distinct: each label is
/// listed once, its names gathered under it.
pub proof fn lemma_label_lists_distinct(t: (Seq<Seq<char>>, Seq<ThingRecordView>), temps: Seq<(u32, u32)>, n: int, stuff: bool)
    ensures
        keys_distinct(label_lists(t, temps, n, stuff)),
    decreases n,
{
    if n > 0 {
        lemma_label_lists_distinct(t, temps, n - 1, stuff);
        let prev = label_lists(t, temps, n - 1, stuff);
        let d = resolved_thing(t, temps, n - 1);
        if listed(d, t.0[n - 1], stuff) {
            let x = t.0[n - 1];
            let v = match first_key(prev, d.label, 0) {
                Some(i) => prev[i].1.push(x),
                None => seq![x],
            };
            lemma_first_key_bound(prev, d.label, 0);
            let r = label_push(prev, d.label, x);
            assert(r == (match first_key(prev, d.label, 0) {
                Some(i) => prev.update(i, (d.label, v)),
                None => prev.push((d.label, v)),
            }));
            lemma_set_keeps_keys_distinct(prev, d.label, v, r);
        }
    }
}

/// The item tables: every definition resolved, under its name, and the
/// names drawable by label, as items and as materials, each list sorted.
pub struct ThingTables {
    pub thing_defs: Vec<(String, ThingDefData)>,
    pub map_lable2item: Vec<(String, Vec<String>)>,
    pub map_lable2stuff: Vec<(String, Vec<String>)>,
}

/// A label map as values.
pub open spec fn lists_view(l: Seq<(String, Vec<String>)>) -> Seq<(Seq<char>, Seq<Seq<char>>)> {
    l.map_values(|p: (String, Vec<String>)| (p.0@, strings_view(p.1@)))
}

/// A label map after each list is sorted: the same labels, each list
/// holding the same names in order.
pub open spec fn sorted_lists(out: Seq<(String, Vec<String>)>, l: Seq<(Seq<char>, Seq<Seq<char>>)>) -> bool {
    &&& out.len() == l.len()
    &&& forall|g: int| 0 <= g < l.len() ==> {
        &&& (#[trigger] out[g]).0@ == l[g].0
        &&& strings_view(out[g].1@).to_multiset() == l[g].1.to_multiset()
        &&& forall|a: int, b: int| 0 <= a < b < out[g].1@.len() ==> lex_le(#[trigger] out[g].1@[a]@, #[trigger] out[g].1@[b]@)
    }
}

fn clone_strings(v: &Vec<String>) -> (r: Vec<String>)
    ensures
        strings_view(r@) == strings_view(v@),
{
    let mut r: Vec<String> = Vec::new();
    let mut i: usize = 0;
    while i < v.len()
        invariant
            i <= v@.len(),
            strings_view(r@) == strings_view(v@.take(i as int)),
        decreases v@.len() - i,
    {
        let ghost before = r@;
        r.push(v[i].clone());
        proof {
            assert(strings_view(r@) =~= strings_view(before).push(v@[i as int]@));
            assert(v@.take(i + 1) =~= v@.take(i as int).push(v@[i as int]));
            assert(strings_view(v@.take(i + 1)) =~= strings_view(v@.take(i as int)).push(v@[i as int]@));
        }
        i = i + 1;
    }
    proof {
        assert(v@.take(v@.len() as int) =~= v@);
    }
    r
}

fn base_of(d: &ThingRecord, t: (u32, u32)) -> (r: ThingDefData)
    ensures
        def_view(r) == base_def(record_view(*d), t),
{
    ThingDefData {
        name: d.name.clone(),
        rate: d.rate,
        not_random: d.not_random,
        item_kind: d.item_kind.clone(),
        label: d.label.clone(),
        has_be_made: d.has_be_made,
        is_stuff: d.is_stuff,
        stuff_categories: clone_strings(&d.stuff_categories),
        element_kind: d.element_kind,
        fabao_suffix_len: d.fabao_suffix_len,
        temp_max_add: t.0,
        temp_min_add: t.1,
        other_world: d.other_world,
    }
}

fn is_f32_zero(b: u32) -> (r: bool)
    ensures
        r == f32_zero(b),
{
    b == 0 || b == 0x8000_0000
}

fn inherit(r: ThingDefData, p: ThingDefData) -> (out: ThingDefData)
    ensures
        def_view(out) == inherit_thing(def_view(r), def_view(p)),
{
    let take_made = !r.has_be_made && p.has_be_made;
    let take_temp = is_f32_zero(r.temp_max_add) && is_f32_zero(r.temp_min_add);
    let out = ThingDefData {
        name: r.name,
        not_random: r.not_random,
        fabao_suffix_len: r.fabao_suffix_len,
        label: if r.label.unicode_len() == 0 { p.label } else { r.label },
        item_kind: if r.item_kind.unicode_len() == 0 { p.item_kind } else { r.item_kind },
        rate: if r.rate == 0 { p.rate } else { r.rate },
        element_kind: if r.element_kind == 0 { p.element_kind } else { r.element_kind },
        has_be_made: r.has_be_made || p.has_be_made,
        stuff_categories: if take_made { p.stuff_categories } else { r.stuff_categories },
        is_stuff: r.is_stuff || p.is_stuff,
        temp_max_add: if take_temp { p.temp_max_add } else { r.temp_max_add },
        temp_min_add: if take_temp { p.temp_min_add } else { r.temp_min_add },
        other_world: if r.other_world == 0 { p.other_world } else { r.other_world },
    };
    out
}

fn name_ends_with_base(name: &String) -> (r: bool)
    ensures
        r == ends_with_base(name@),
{
    let c = chars_of(name.as_str());
    let n = c.len();
    if n < 4 {
        return false;
    }
    let r = c[n - 4] == 'B' && c[n - 3] == 'a' && c[n - 2] == 's' && c[n - 1] == 'e';
    proof {
        let tail = name@.subrange(n - 4, n as int);
        if r {
            assert(tail =~= seq!['B', 'a', 's', 'e']);
        } else {
            assert(tail != seq!['B', 'a', 's', 'e']) by {
                if tail == seq!['B', 'a', 's', 'e'] {
                    assert(tail[0] == c@[n - 4]);
                    assert(tail[1] == c@[n - 3]);
                    assert(tail[2] == c@[n - 2]);
                    assert(tail[3] == c@[n - 1]);
                }
            }
        }
    }
    r
}

fn find_label(l: &Vec<(String, Vec<String>)>, k: &String) -> (r: Option<usize>)
    ensures
        match r {
            Some(i) => first_key(lists_view(l@), k@, 0) == Some(i as int) && i < l@.len(),
            None => first_key(lists_view(l@), k@, 0) is None,
        },
{
    let mut i: usize = 0;
    while i < l.len()
        invariant
            i <= l@.len(),
            first_key(lists_view(l@), k@, 0) == first_key(lists_view(l@), k@, i as int),
        decreases l@.len() - i,
    {
        if l[i].0 == *k {
            return Some(i);
        }
        i = i + 1;
    }
    None
}

fn push_label(l: &mut Vec<(String, Vec<String>)>, k: &String, x: &String)
    ensures
        lists_view(final(l)@) == label_push(lists_view(old(l)@), k@, x@),
{
    match find_label(l, k) {
        Some(i) => {
            let mut entry = l.remove(i);
            entry.1.push(x.clone());
            let ghost e = entry;
            l.insert(i, entry);
            proof {
                lemma_first_key_bound(lists_view(old(l)@), k@, 0);
                assert(strings_view(e.1@) =~= strings_view(old(l)@[i as int].1@).push(x@));
                assert(lists_view(l@) =~= lists_view(old(l)@).update(i as int, (k@, lists_view(old(l)@)[i as int].1.push(x@))));
            }
        },
        None => {
            let mut v: Vec<String> = Vec::new();
            v.push(x.clone());
            l.push((k.clone(), v));
            proof {
                assert(strings_view(v@) =~= seq![x@]);
                assert(lists_view(l@) =~= lists_view(old(l)@).push((k@, seq![x@])));
            }
        },
    }
}

fn sort_lists(l: Vec<(String, Vec<String>)>) -> (r: Vec<(String, Vec<String>)>)
    ensures
        sorted_lists(r@, lists_view(l@)),
{
    let mut out: Vec<(String, Vec<String>)> = Vec::new();
    let mut g: usize = 0;
    while g < l.len()
        invariant
            g <= l@.len(),
            out@.len() == g,
            forall|q: int| 0 <= q < g ==> {
                &&& (#[trigger] out@[q]).0@ == lists_view(l@)[q].0
                &&& strings_view(out@[q].1@).to_multiset() == lists_view(l@)[q].1.to_multiset()
                &&& forall|a: int, b: int| 0 <= a < b < out@[q].1@.len() ==> lex_le(#[trigger] out@[q].1@[a]@, #[trigger] out@[q].1@[b]@)
            },
        decreases l@.len() - g,
    {
        let k = l[g].0.clone();
        let v = clone_strings(&l[g].1);
        let sorted = sort_strings(v);
        proof {
            assert(strings_view(v@) == strings_view(l@[g as int].1@));
        }
        out.push((k, sorted));
        g = g + 1;
    }
    out
}

/// Resolves the definitions of `defs`, whose temperature bonuses (as
/// single-precision bits) are `temps`, one pair per definition in order, and
/// builds the label lists (see `resolved_thing` and `label_lists`).
pub fn resolve_things(defs: &CsDict<ThingRecord>, temps: &Vec<(u32, u32)>) -> (r: ThingTables)
    requires
        defs.wf(),
        temps@.len() == defs.values_view().len(),
    ensures
        ({
            let t = records_table(*defs);
            let n = t.1.len() as int;
            &&& r.thing_defs@.len() == n
            &&& forall|i: int| 0 <= i < n ==> {
                &&& (#[trigger] r.thing_defs@[i]).0@ == t.0[i]
                &&& def_view(r.thing_defs@[i].1) == resolved_thing(t, temps@, i)
            }
            &&& sorted_lists(r.map_lable2item@, label_lists(t, temps@, n, false))
            &&& sorted_lists(r.map_lable2stuff@, label_lists(t, temps@, n, true))
        }),
        forall|a: int, b: int|
            0 <= a < b < r.map_lable2item@.len() ==> (#[trigger] r.map_lable2item@[a]).0@ != (#[trigger] r.map_lable2item@[b]).0@,
        forall|a: int, b: int|
            0 <= a < b < r.map_lable2stuff@.len() ==> (#[trigger] r.map_lable2stuff@[a]).0@ != (#[trigger] r.map_lable2stuff@[b]).0@,
{
    let ghost t = records_table(*defs);
    proof {
        defs.lemma_keys_distinct();
    }
    let n = defs.len();
    let mut thing_defs: Vec<(String, ThingDefData)> = Vec::new();
    let mut items: Vec<(String, Vec<String>)> = Vec::new();
    let mut stuffs: Vec<(String, Vec<String>)> = Vec::new();
    let mut i: usize = 0;
    proof {
        assert(lists_view(items@) =~= Seq::<(Seq<char>, Seq<Seq<char>>)>::empty());
        assert(lists_view(stuffs@) =~= Seq::<(Seq<char>, Seq<Seq<char>>)>::empty());
    }
    while i < n
        invariant
            i <= n,
            n == t.1.len(),
            n == t.0.len(),
            n == temps@.len(),
            defs.wf(),
            t == records_table(*defs),
            thing_defs@.len() == i,
            forall|q: int| 0 <= q < i ==> {
                &&& (#[trigger] thing_defs@[q]).0@ == t.0[q]
                &&& def_view(thing_defs@[q].1) == resolved_thing(t, temps@, q)
            },
            lists_view(items@) == label_lists(t, temps@, i as int, false),
            lists_view(stuffs@) == label_lists(t, temps@, i as int, true),
        decreases n - i,
    {
        let d = defs.value_at(i);
        let key = defs.key_at(i);
        proof {
            assert(record_view(*d) == t.1[i as int]);
        }
        let r0 = base_of(d, temps[i]);
        let mut r1 = r0;
        if d.parent.unicode_len() > 0 {
            match defs.find(&d.parent) {
                Some(p) => {
                    proof {
                        let c = choose|q: int| 0 <= q < t.0.len() && #[trigger] t.0[q] == d.parent@;
                        assert(t.0[p as int] == d.parent@);
                        assert(c == p);
                    }
                    let pv = defs.value_at(p);
                    proof {
                        assert(record_view(*pv) == t.1[p as int]);
                    }
                    let pd = base_of(pv, temps[p]);
                    r1 = inherit(r1, pd);
                },
                None => {
                    proof {
                        assert(key_pos(t.0, d.parent@) is None);
                    }
                },
            }
        }
        if r1.label.unicode_len() == 0 {
            r1.label = String::from_str("None");
        }
        let ghost rv = def_view(r1);
        proof {
            assert(rv == resolved_thing(t, temps@, i as int));
        }
        let not_none = !str_eq(r1.label.as_str(), "None");
        let draw = not_none && r1.not_random != 1 && r1.not_random != 2 && !name_ends_with_base(key);
        proof {
            assert(draw == drawable(rv, t.0[i as int]));
        }
        if draw {
            if !eq_ignore_ascii_case(r1.item_kind.as_str(), "Equipment") || r1.has_be_made {
                push_label(&mut items, &r1.label, key);
            }
            if r1.is_stuff {
                push_label(&mut stuffs, &r1.label, key);
            }
        }
        thing_defs.push((key.clone(), r1));
        i = i + 1;
    }
    let map_lable2item = sort_lists(items);
    let map_lable2stuff = sort_lists(stuffs);
    proof {
        let n = t.1.len() as int;
        lemma_label_lists_distinct(t, temps@, n, false);
        lemma_label_lists_distinct(t, temps@, n, true);
        let li = label_lists(t, temps@, n, false);
        let ls = label_lists(t, temps@, n, true);
        assert forall|a: int, b: int| 0 <= a < b < map_lable2item@.len() implies (#[trigger] map_lable2item@[a]).0@
            != (#[trigger] map_lable2item@[b]).0@ by {
            assert(li[a].0 != li[b].0);
        }
        assert forall|a: int, b: int| 0 <= a < b < map_lable2stuff@.len() implies (#[trigger] map_lable2stuff@[a]).0@
            != (#[trigger] map_lable2stuff@[b]).0@ by {
            assert(ls[a].0 != ls[b].0);
        }
    }
    ThingTables { thing_defs, map_lable2item, map_lable2stuff }
}

} // verus!
