//! The wandering-NPC templates of the game's data files: each template
//! element is read into a definition, definitions inherit what they leave
//! open from their parents, and the templates of each school get their
//! location seeds.
use vstd::prelude::*;
use crate::dict::CsDict;
use crate::npc::{DropItemData, JianghuNpcDef};
use crate::text::{chars_of, eq_ascii_ci, eq_ignore_ascii_case, parse_i32, parsed_i32, str_eq};
use crate::xml::{XmlElement, lemma_same_value, list_sources, same_element, value_of};

verus! {

/// An NPC template as read from its element, before inheritance.
#[derive(Clone, Debug)]
pub struct TempNpcDef {
    pub name: String,
    pub parent: String,
    pub last_name: String,
    pub first_name: String,
    pub title: String,
    pub school: i32,
    pub sex: i32,
    pub gong_level: i32,
    pub carry: Option<Vec<DropItemData>>,
    pub is_abstract: bool,
}

/// A carried item as values: thing type, thing definition, stuff.
pub type DropView = (i32, Seq<char>, Seq<char>);

/// A template as values.
pub struct NpcTemplateView {
    pub name: Seq<char>,
    pub parent: Seq<char>,
    pub last_name: Seq<char>,
    pub first_name: Seq<char>,
    pub title: Seq<char>,
    pub school: i32,
    pub sex: i32,
    pub gong_level: i32,
    pub carry: Option<Seq<DropView>>,
    pub is_abstract: bool,
}

/// A carried item's values.
pub open spec fn drop_view(d: DropItemData) -> DropView {
    (d.thing_type, d.thing_def@, d.stuff@)
}

/// A list of carried items as values.
pub open spec fn drops_view(v: Seq<DropItemData>) -> Seq<DropView> {
    v.map_values(|d: DropItemData| drop_view(d))
}

/// A template's values.
pub open spec fn template_view(d: TempNpcDef) -> NpcTemplateView {
    NpcTemplateView {
        name: d.name@,
        parent: d.parent@,
        last_name: d.last_name@,
        first_name: d.first_name@,
        title: d.title@,
        school: d.school,
        sex: d.sex,
        gong_level: d.gong_level,
        carry: match d.carry {
            Some(v) => Some(drops_view(v@)),
            None => None,
        },
        is_abstract: d.is_abstract,
    }
}

/// The value, or the empty text.
pub open spec fn or_empty(o: Option<Seq<char>>) -> Seq<char> {
    match o {
        Some(v) => v,
        None => Seq::empty(),
    }
}

/// The first value, else the second.
pub open spec fn or_else(a: Option<Seq<char>>, b: Option<Seq<char>>) -> Option<Seq<char>> {
    match a {
        Some(v) => Some(v),
        None => b,
    }
}

/// A parsed number, or a default.
pub open spec fn parse_or(s: Seq<char>, d: i32) -> i32 {
    match parsed_i32(s) {
        Some(v) => v,
        None => d,
    }
}

/// The sex code: `Male` or `1` is 1, `Female` or `2` is 2, nothing is -1,
/// anything else 0.
pub open spec fn sex_code(s: Seq<char>) -> i32 {
    if s == "Male"@ || s == "1"@ {
        1
    } else if s == "Female"@ || s == "2"@ {
        2
    } else if s.len() == 0 {
        -1i32
    } else {
        0
    }
}

/// The sex of a template: `Male` or `1` is 1, `Female` or `2` is 2, no
/// value is -1, anything else 0.
pub proof fn lemma_sex_codes(s: Seq<char>)
    ensures
        sex_code("Male"@) == 1,
        sex_code("1"@) == 1,
        sex_code("Female"@) == 2,
        sex_code("2"@) == 2,
        sex_code(Seq::<char>::empty()) == -1,
        s != "Male"@ && s != "1"@ && s != "Female"@ && s != "2"@ && s.len() > 0 ==> sex_code(s) == 0,
{
    reveal_strlit("Male");
    reveal_strlit("1");
    reveal_strlit("Female");
    reveal_strlit("2");
    assert("Female"@ != "Male"@ && "Female"@ != "1"@) by {
        assert("Female"@.len() == 6);
    }
    assert("2"@ != "Male"@ && "2"@ != "1"@) by {
        assert("2"@[0] != "1"@[0]);
        assert("2"@.len() == 1);
    }
}

/// The cultivation level: `None` 0, `Qi` 1, `Dan1` 2, `Dan2` 3, `God` 4,
/// `God2` 5, else the number written, else 0.
pub open spec fn gong_code(s: Seq<char>) -> i32 {
    if s == "None"@ {
        0
    } else if s == "Qi"@ {
        1
    } else if s == "Dan1"@ {
        2
    } else if s == "Dan2"@ {
        3
    } else if s == "God"@ {
        4
    } else if s == "God2"@ {
        5
    } else {
        parse_or(s, 0)
    }
}

/// The cultivation levels in order: `None` 0, `Qi` 1, `Dan1` 2, `Dan2` 3,
/// `God` 4, `God2` 5; each level name has its own code, one above the
/// level before it.
pub proof fn lemma_gong_codes()
    ensures
        gong_code("None"@) == 0,
        gong_code("Qi"@) == gong_code("None"@) + 1,
        gong_code("Dan1"@) == gong_code("Qi"@) + 1,
        gong_code("Dan2"@) == gong_code("Dan1"@) + 1,
        gong_code("God"@) == gong_code("Dan2"@) + 1,
        gong_code("God2"@) == gong_code("God"@) + 1,
        gong_code("Dan2"@) == 3,
{
    reveal_strlit("None");
    reveal_strlit("Qi");
    reveal_strlit("Dan1");
    reveal_strlit("Dan2");
    reveal_strlit("God");
    reveal_strlit("God2");
    assert("Qi"@ != "None"@) by {
        assert("Qi"@.len() == 2);
    }
    assert("Dan1"@ != "None"@ && "Dan1"@ != "Qi"@) by {
        assert("Dan1"@[0] != "None"@[0]);
        assert("Dan1"@.len() == 4);
    }
    assert("Dan2"@ != "None"@ && "Dan2"@ != "Qi"@ && "Dan2"@ != "Dan1"@) by {
        assert("Dan2"@[0] != "None"@[0]);
        assert("Dan2"@[3] != "Dan1"@[3]);
        assert("Dan2"@.len() == 4);
    }
    assert("God"@ != "None"@ && "God"@ != "Qi"@ && "God"@ != "Dan1"@ && "God"@ != "Dan2"@) by {
        assert("God"@.len() == 3);
    }
    assert("God2"@ != "None"@ && "God2"@ != "Qi"@ && "God2"@ != "Dan1"@ && "God2"@ != "Dan2"@ && "God2"@ != "God"@) by {
        assert("God2"@[0] != "None"@[0]);
        assert("God2"@[0] != "Dan1"@[0]);
        assert("God2"@[0] != "Dan2"@[0]);
        assert("God2"@.len() == 4);
    }
}

/// The thing type of a carried item: `Item`, `0` or nothing is 0,
/// `Esoterica` or `1` is 1, else the number written, else 0.
pub open spec fn thing_type_code(s: Seq<char>) -> i32 {
    if s == "Item"@ || s == "0"@ || s.len() == 0 {
        0
    } else if s == "Esoterica"@ || s == "1"@ {
        1
    } else {
        parse_or(s, 0)
    }
}

/// The thing type of a carried item: `Item`, `0` and no value are 0,
/// `Esoterica` and `1` are 1.
pub proof fn lemma_thing_type_codes()
    ensures
        thing_type_code("Item"@) == 0,
        thing_type_code("0"@) == 0,
        thing_type_code(Seq::<char>::empty()) == 0,
        thing_type_code("Esoterica"@) == 1,
        thing_type_code("1"@) == 1,
{
    reveal_strlit("Item");
    reveal_strlit("0");
    reveal_strlit("Esoterica");
    reveal_strlit("1");
    assert("Esoterica"@ != "Item"@ && "Esoterica"@ != "0"@) by {
        assert("Esoterica"@.len() == 9);
    }
    assert("1"@ != "Item"@ && "1"@ != "0"@) by {
        assert("1"@[0] != "0"@[0]);
        assert("1"@.len() == 1);
    }
}

/// The carried item that a list entry describes.
pub open spec fn drop_of(li: XmlElement) -> DropView {
    (
        thing_type_code(or_empty(value_of(li, "ThingType"@))),
        or_empty(value_of(li, "ThingDef"@)),
        or_empty(value_of(li, "Stuff"@)),
    )
}

/// An entry is kept when it names a thing or is an esoteric text.
pub open spec fn keeps_drop(d: DropView) -> bool {
    d.1.len() > 0 || d.0 == 1
}

/// The carried items that the first `n` list entries describe.
pub open spec fn drops_of(list: Seq<XmlElement>, n: int) -> Seq<DropView>
    decreases n,
{
    if n <= 0 {
        Seq::empty()
    } else if keeps_drop(drop_of(list[n - 1])) {
        drops_of(list, n - 1).push(drop_of(list[n - 1]))
    } else {
        drops_of(list, n - 1)
    }
}

/// The index of the first child, from `i` on, whose tag matches `tag` up to
/// ASCII case.
pub open spec fn first_tagged(children: Seq<XmlElement>, tag: Seq<char>, i: int) -> Option<int>
    decreases children.len() - i,
{
    if i < 0 || i >= children.len() {
        None
    } else if eq_ascii_ci(children[i].tag@, tag) {
        Some(i)
    } else {
        first_tagged(children, tag, i + 1)
    }
}

/// The carried items of a template: those of the `li` list of its first
/// `Carry` child; none at all when it has no such child.
pub open spec fn carry_of(b: XmlElement) -> Option<Seq<DropView>> {
    match first_tagged(b.children@, "Carry"@, 0) {
        Some(j) => {
            let c = b.children@[j];
            let l = list_sources(c.children@, "li"@, c.children@.len() as int);
            Some(drops_of(l, l.len() as int))
        },
        None => None,
    }
}

/// The template that an element describes (its name may be empty).
pub open spec fn template_of(b: XmlElement) -> NpcTemplateView {
    NpcTemplateView {
        name: or_empty(value_of(b, "Name"@)),
        parent: or_empty(or_else(value_of(b, "ParentName"@), value_of(b, "Parent"@))),
        last_name: or_empty(value_of(b, "LastName"@)),
        first_name: or_empty(or_else(value_of(b, "FristName"@), value_of(b, "FirstName"@))),
        title: or_empty(or_else(value_of(b, "Title"@), value_of(b, "Titles"@))),
        school: match value_of(b, "School"@) {
            Some(s) => parse_or(s, -1i32),
            None => -1i32,
        },
        sex: sex_code(or_empty(value_of(b, "Sex"@))),
        gong_level: gong_code(or_empty(value_of(b, "GongLevel"@))),
        carry: carry_of(b),
        is_abstract: match value_of(b, "Abstract"@) {
            Some(s) => eq_ascii_ci(s, "true"@) || s == "1"@,
            None => false,
        },
    }
}

fn val_or_empty(e: &XmlElement, key: &str) -> (r: String)
    ensures
        r@ == or_empty(value_of(*e, key@)),
{
    match e.get_val(key) {
        Some(v) => v,
        None => String::new(),
    }
}

fn val_either(e: &XmlElement, a: &str, b: &str) -> (r: String)
    ensures
        r@ == or_empty(or_else(value_of(*e, a@), value_of(*e, b@))),
{
    match e.get_val(a) {
        Some(v) => v,
        None => val_or_empty(e, b),
    }
}

fn parse_or_default(s: &String, d: i32) -> (r: i32)
    ensures
        r == parse_or(s@, d),
{
    let c = chars_of(s.as_str());
    match parse_i32(c.as_slice()) {
        Some(v) => v,
        None => d,
    }
}

fn sex_code_of(s: &String) -> (r: i32)
    ensures
        r == sex_code(s@),
{
    if str_eq(s.as_str(), "Male") || str_eq(s.as_str(), "1") {
        1
    } else if str_eq(s.as_str(), "Female") || str_eq(s.as_str(), "2") {
        2
    } else if s.unicode_len() == 0 {
        -1
    } else {
        0
    }
}

fn gong_code_of(s: &String) -> (r: i32)
    ensures
        r == gong_code(s@),
{
    if str_eq(s.as_str(), "None") {
        0
    } else if str_eq(s.as_str(), "Qi") {
        1
    } else if str_eq(s.as_str(), "Dan1") {
        2
    } else if str_eq(s.as_str(), "Dan2") {
        3
    } else if str_eq(s.as_str(), "God") {
        4
    } else if str_eq(s.as_str(), "God2") {
        5
    } else {
        parse_or_default(s, 0)
    }
}

fn thing_type_of(s: &String) -> (r: i32)
    ensures
        r == thing_type_code(s@),
{
    if str_eq(s.as_str(), "Item") || str_eq(s.as_str(), "0") || s.unicode_len() == 0 {
        0
    } else if str_eq(s.as_str(), "Esoterica") || str_eq(s.as_str(), "1") {
        1
    } else {
        parse_or_default(s, 0)
    }
}

/// The carried items of a `Carry` element (see `carry_of`).
fn carry_items(carry: &XmlElement) -> (r: Vec<DropItemData>)
    ensures
        ({
            let l = list_sources(carry.children@, "li"@, carry.children@.len() as int);
            drops_view(r@) == drops_of(l, l.len() as int)
        }),
{
    let list = carry.get_list("li");
    let ghost l = list_sources(carry.children@, "li"@, carry.children@.len() as int);
    let mut items: Vec<DropItemData> = Vec::new();
    let mut i: usize = 0;
    while i < list.len()
        invariant
            i <= list@.len(),
            list@.len() == l.len(),
            forall|q: int| 0 <= q < list@.len() ==> #[trigger] same_element(list@[q], l[q]),
            drops_view(items@) == drops_of(l, i as int),
        decreases list@.len() - i,
    {
        let li = &list[i];
        let tt = val_or_empty(li, "ThingType");
        let thing_type = thing_type_of(&tt);
        let thing_def = val_or_empty(li, "ThingDef");
        let stuff = val_or_empty(li, "Stuff");
        proof {
            assert(same_element(list@[i as int], l[i as int]));
            lemma_same_value(list@[i as int], l[i as int], "ThingType"@);
            lemma_same_value(list@[i as int], l[i as int], "ThingDef"@);
            lemma_same_value(list@[i as int], l[i as int], "Stuff"@);
        }
        if thing_def.unicode_len() > 0 || thing_type == 1 {
            let ghost before = items@;
            items.push(DropItemData { thing_type, thing_def, stuff });
            proof {
                assert(drops_view(items@) =~= drops_view(before).push(drop_of(l[i as int])));
            }
        }
        i = i + 1;
    }
    items
}

/// The index of the first child with the given tag, up to ASCII case.
pub fn find_tagged(children: &Vec<XmlElement>, tag: &str) -> (r: Option<usize>)
    ensures
        match r {
            Some(j) => first_tagged(children@, tag@, 0) == Some(j as int) && j < children@.len(),
            None => first_tagged(children@, tag@, 0) is None,
        },
{
    let mut i: usize = 0;
    while i < children.len()
        invariant
            i <= children@.len(),
            first_tagged(children@, tag@, 0) == first_tagged(children@, tag@, i as int),
        decreases children@.len() - i,
    {
        if eq_ignore_ascii_case(children[i].tag.as_str(), tag) {
            return Some(i);
        }
        i = i + 1;
    }
    None
}

/// The template that an element describes, or `None` when it has no name.
pub fn npc_template(block: &XmlElement) -> (r: Option<TempNpcDef>)
    ensures
        match r {
            Some(d) => template_view(d) == template_of(*block) && d.name@.len() > 0,
            None => template_of(*block).name.len() == 0,
        },
{
    let name = val_or_empty(block, "Name");
    if name.unicode_len() == 0 {
        return None;
    }
    let is_abstract = match block.get_val("Abstract") {
        Some(s) => eq_ignore_ascii_case(s.as_str(), "true") || str_eq(s.as_str(), "1"),
        None => false,
    };
    let parent = val_either(block, "ParentName", "Parent");
    let last_name = val_or_empty(block, "LastName");
    let first_name = val_either(block, "FristName", "FirstName");
    let title = val_either(block, "Title", "Titles");
    let school = match block.get_val("School") {
        Some(s) => parse_or_default(&s, -1),
        None => -1,
    };
    let sex_text = val_or_empty(block, "Sex");
    let sex = sex_code_of(&sex_text);
    let gong_text = val_or_empty(block, "GongLevel");
    let gong_level = gong_code_of(&gong_text);
    let carry = match find_tagged(&block.children, "Carry") {
        Some(j) => Some(carry_items(&block.children[j])),
        None => None,
    };
    let d = TempNpcDef {
        name,
        parent,
        last_name,
        first_name,
        title,
        school,
        sex,
        gong_level,
        carry,
        is_abstract,
    };
    proof {
        assert(template_view(d) == template_of(*block));
    }
    Some(d)
}

/// The tags of template elements: `JianghuNpcDef`, `JianghuNpc`, `li` or
/// `Def`, in any ASCII case.
pub open spec fn is_npc_tag(t: Seq<char>) -> bool {
    ||| eq_ascii_ci(t, "JianghuNpcDef"@)
    ||| eq_ascii_ci(t, "JianghuNpc"@)
    ||| eq_ascii_ci(t, "li"@)
    ||| eq_ascii_ci(t, "Def"@)
}

/// The order in which the loader visits a tree: the element, then the
/// subtrees of its children from the last child to the first.
pub open spec fn visit_order(e: XmlElement) -> Seq<XmlElement>
    decreases e, e.children@.len() + 1,
{
    seq![e] + visit_between(e, e.children@.len() as int, 0)
}

/// The subtrees of children `hi - 1` down to `lo`, in that order.
pub open spec fn visit_between(e: XmlElement, hi: int, lo: int) -> Seq<XmlElement>
    decreases e, hi - lo,
{
    if lo < 0 || hi <= lo || hi > e.children@.len() {
        Seq::empty()
    } else {
        visit_order(e.children@[hi - 1]) + visit_between(e, hi - 1, lo)
    }
}

/// The trees of a list, each visited in turn.
pub open spec fn forest_order(rs: Seq<XmlElement>) -> Seq<XmlElement>
    decreases rs.len(),
{
    if rs.len() == 0 {
        Seq::empty()
    } else {
        forest_order(rs.drop_last()) + visit_order(rs.last())
    }
}

/// The templates among visited elements, in visiting order.
pub open spec fn npc_entries(blocks: Seq<XmlElement>) -> Seq<NpcTemplateView>
    decreases blocks.len(),
{
    if blocks.len() == 0 {
        Seq::empty()
    } else {
        let prev = npc_entries(blocks.drop_last());
        let b = blocks.last();
        if is_npc_tag(b.tag@) && template_of(b).name.len() > 0 {
            prev.push(template_of(b))
        } else {
            prev
        }
    }
}

/// Template names in first-seen order, each with its latest template.
pub type TemplateTable = (Seq<Seq<char>>, Seq<NpcTemplateView>);

/// A template added to a table: one of a name already there replaces the
/// earlier one in place; a new name goes to the end.
pub open spec fn table_insert(t: TemplateTable, v: NpcTemplateView) -> TemplateTable {
    if exists|i: int| 0 <= i < t.0.len() && #[trigger] t.0[i] == v.name {
        let i = choose|i: int| 0 <= i < t.0.len() && #[trigger] t.0[i] == v.name;
        (t.0, t.1.update(i, v))
    } else {
        (t.0.push(v.name), t.1.push(v))
    }
}

/// Templates added one after another.
pub open spec fn table_insert_all(t: TemplateTable, es: Seq<NpcTemplateView>) -> TemplateTable
    decreases es.len(),
{
    if es.len() == 0 {
        t
    } else {
        table_insert(table_insert_all(t, es.drop_last()), es.last())
    }
}

/// The table that a dictionary of templates holds.
pub open spec fn table_of(d: CsDict<TempNpcDef>) -> TemplateTable {
    (d.keys_view(), d.values_view().map_values(|v: TempNpcDef| template_view(v)))
}

proof fn lemma_entries_append(a: Seq<XmlElement>, b: Seq<XmlElement>)
    ensures
        npc_entries(a + b) == npc_entries(a) + npc_entries(b),
    decreases b.len(),
{
    if b.len() == 0 {
        assert(a + b =~= a);
        assert(npc_entries(b) =~= Seq::<NpcTemplateView>::empty());
        assert(npc_entries(a) + npc_entries(b) =~= npc_entries(a));
    } else {
        assert((a + b).drop_last() =~= a + b.drop_last());
        assert((a + b).last() == b.last());
        lemma_entries_append(a, b.drop_last());
        let x = npc_entries(a);
        let y = npc_entries(b.drop_last());
        if is_npc_tag(b.last().tag@) && template_of(b.last()).name.len() > 0 {
            assert((x + y).push(template_of(b.last())) =~= x + y.push(template_of(b.last())));
        }
    }
}

proof fn lemma_insert_all_append(t: TemplateTable, x: Seq<NpcTemplateView>, y: Seq<NpcTemplateView>)
    ensures
        table_insert_all(t, x + y) == table_insert_all(table_insert_all(t, x), y),
    decreases y.len(),
{
    if y.len() == 0 {
        assert(x + y =~= x);
    } else {
        assert((x + y).drop_last() =~= x + y.drop_last());
        assert((x + y).last() == y.last());
        lemma_insert_all_append(t, x, y.drop_last());
    }
}

proof fn lemma_visit_step(e: XmlElement, hi: int, lo: int)
    requires
        0 < lo <= hi <= e.children@.len(),
    ensures
        visit_between(e, hi, lo - 1) == visit_between(e, hi, lo) + visit_order(e.children@[lo - 1]),
    decreases hi - lo,
{
    if hi == lo {
        assert(visit_between(e, lo - 1, lo - 1) =~= Seq::<XmlElement>::empty());
        assert(visit_between(e, hi, lo) =~= Seq::<XmlElement>::empty());
        assert(visit_between(e, hi, lo - 1) =~= visit_order(e.children@[lo - 1]));
    } else {
        lemma_visit_step(e, hi - 1, lo);
        assert(visit_between(e, hi, lo - 1) =~= visit_order(e.children@[hi - 1]) + visit_between(e, hi - 1, lo - 1));
        assert(visit_between(e, hi, lo) =~= visit_order(e.children@[hi - 1]) + visit_between(e, hi - 1, lo));
    }
}

/// References as the elements they point to.
pub open spec fn derefs(v: Seq<&XmlElement>) -> Seq<XmlElement> {
    v.map_values(|e: &XmlElement| *e)
}

/// Appends the elements of a tree to `out`, in the loader's visiting order.
pub fn push_visit_order<'a>(node: &'a XmlElement, out: &mut Vec<&'a XmlElement>)
    ensures
        derefs(final(out)@) == derefs(old(out)@) + visit_order(*node),
    decreases node,
{
    let ghost o0 = derefs(out@);
    out.push(node);
    proof {
        assert(derefs(out@) =~= o0.push(*node));
        assert(visit_between(*node, node.children@.len() as int, node.children@.len() as int) =~= Seq::<XmlElement>::empty());
        assert(o0.push(*node) =~= o0 + (seq![*node] + visit_between(*node, node.children@.len() as int, node.children@.len() as int)));
    }
    let n = node.children.len();
    let mut i: usize = n;
    while i > 0
        invariant
            i <= n,
            n == node.children@.len(),
            derefs(out@) == o0 + (seq![*node] + visit_between(*node, n as int, i as int)),
        decreases i,
    {
        push_visit_order(&node.children[i - 1], out);
        proof {
            lemma_visit_step(*node, n as int, i as int);
            assert(o0 + (seq![*node] + visit_between(*node, n as int, i - 1)) =~= (o0 + (seq![*node] + visit_between(*node, n as int, i as int))) + visit_order(node.children@[i - 1]));
        }
        i = i - 1;
    }
}

/// The elements of trees, each tree in turn, in the loader's visiting order.
pub fn visit_blocks<'a>(roots: &'a Vec<XmlElement>) -> (r: Vec<&'a XmlElement>)
    ensures
        derefs(r@) == forest_order(roots@),
{
    let mut out: Vec<&'a XmlElement> = Vec::new();
    let mut i: usize = 0;
    proof {
        assert(derefs(out@) =~= Seq::<XmlElement>::empty());
        assert(roots@.take(0) =~= Seq::<XmlElement>::empty());
    }
    while i < roots.len()
        invariant
            i <= roots@.len(),
            derefs(out@) == forest_order(roots@.take(i as int)),
        decreases roots@.len() - i,
    {
        push_visit_order(&roots[i], &mut out);
        proof {
            assert(roots@.take(i + 1).drop_last() =~= roots@.take(i as int));
            assert(roots@.take(i + 1).last() == roots@[i as int]);
        }
        i = i + 1;
    }
    proof {
        assert(roots@.take(roots@.len() as int) =~= roots@);
    }
    out
}

/// Adds the templates of a tree to `defs`, in the loader's visiting order.
pub fn collect_npc_templates(node: &XmlElement, defs: &mut CsDict<TempNpcDef>)
    requires
        old(defs).wf(),
    ensures
        final(defs).wf(),
        table_of(*final(defs)) == table_insert_all(table_of(*old(defs)), npc_entries(visit_order(*node))),
    decreases node,
{
    let ghost t0 = table_of(*defs);
    if eq_ignore_ascii_case(node.tag.as_str(), "JianghuNpcDef") || eq_ignore_ascii_case(node.tag.as_str(), "JianghuNpc")
        || eq_ignore_ascii_case(node.tag.as_str(), "li") || eq_ignore_ascii_case(node.tag.as_str(), "Def") {
        match npc_template(node) {
            Some(d) => {
                let k = d.name.clone();
                let ghost gd = d;
                defs.insert(k, d);
                proof {
                    let v = template_view(gd);
                    old(defs).lemma_keys_distinct();
                    assert(t0.0 == old(defs).keys_view());
                    if exists|q: int| 0 <= q < t0.0.len() && #[trigger] t0.0[q] == v.name {
                        let c = choose|q: int| 0 <= q < t0.0.len() && #[trigger] t0.0[q] == v.name;
                        let c2 = old(defs).index_of(v.name)->0;
                        old(defs).lemma_keys_distinct();
                        assert(old(defs).keys_view()[c2] == v.name);
                        assert(c == c2);
                        assert(table_of(*defs).1 =~= t0.1.update(c, v));
                    } else {
                        assert(old(defs).index_of(v.name) is None);
                        assert(table_of(*defs).1 =~= t0.1.push(v));
                    }
                    assert(table_of(*defs).0 == table_insert(t0, v).0);
                    assert(table_of(*defs).1 == table_insert(t0, v).1);
                    assert(table_of(*defs) == table_insert(t0, template_of(*node)));
                }
            },
            None => {},
        }
    }
    proof {
        let head = seq![*node];
        assert(head.drop_last() =~= Seq::<XmlElement>::empty());
        assert(head.last() == *node);
        assert(npc_entries(Seq::<XmlElement>::empty()) =~= Seq::<NpcTemplateView>::empty());
        let es = npc_entries(head);
        if is_npc_tag(node.tag@) && template_of(*node).name.len() > 0 {
            assert(es =~= seq![template_of(*node)]);
            assert(es.drop_last() =~= Seq::<NpcTemplateView>::empty());
            assert(table_insert_all(t0, es.drop_last()) == t0);
            assert(table_insert_all(t0, es) == table_insert(t0, template_of(*node)));
        } else {
            assert(es =~= Seq::<NpcTemplateView>::empty());
        }
        assert(table_of(*defs) == table_insert_all(t0, npc_entries(head)));
        assert(visit_between(*node, node.children@.len() as int, node.children@.len() as int) =~= Seq::<XmlElement>::empty());
        assert(head + visit_between(*node, node.children@.len() as int, node.children@.len() as int) =~= head);
    }
    let n = node.children.len();
    let mut i: usize = n;
    while i > 0
        invariant
            i <= n,
            n == node.children@.len(),
            defs.wf(),
            table_of(*defs) == table_insert_all(t0, npc_entries(seq![*node] + visit_between(*node, n as int, i as int))),
        decreases i,
    {
        let ghost before = table_of(*defs);
        collect_npc_templates(&node.children[i - 1], defs);
        proof {
            let head = seq![*node];
            let done = visit_between(*node, n as int, i as int);
            let c = visit_order(node.children@[i - 1]);
            lemma_visit_step(*node, n as int, i as int);
            assert(head + visit_between(*node, n as int, i - 1) =~= (head + done) + c);
            lemma_entries_append(head + done, c);
            lemma_insert_all_append(t0, npc_entries(head + done), npc_entries(c));
        }
        i = i - 1;
    }
}

/// Adds the templates of each tree of `roots`, in order.
pub fn collect_npc_roots(roots: &Vec<XmlElement>, defs: &mut CsDict<TempNpcDef>)
    requires
        old(defs).wf(),
    ensures
        final(defs).wf(),
        table_of(*final(defs)) == table_insert_all(table_of(*old(defs)), npc_entries(forest_order(roots@))),
{
    let ghost t0 = table_of(*defs);
    let mut i: usize = 0;
    proof {
        assert(roots@.take(0) =~= Seq::<XmlElement>::empty());
    }
    while i < roots.len()
        invariant
            i <= roots@.len(),
            defs.wf(),
            table_of(*defs) == table_insert_all(t0, npc_entries(forest_order(roots@.take(i as int)))),
        decreases roots@.len() - i,
    {
        collect_npc_templates(&roots[i], defs);
        proof {
            let pre = roots@.take(i as int);
            assert(roots@.take(i + 1).drop_last() =~= pre);
            assert(roots@.take(i + 1).last() == roots@[i as int]);
            lemma_entries_append(forest_order(pre), visit_order(roots@[i as int]));
            lemma_insert_all_append(t0, npc_entries(forest_order(pre)), npc_entries(visit_order(roots@[i as int])));
        }
        i = i + 1;
    }
    proof {
        assert(roots@.take(roots@.len() as int) =~= roots@);
    }
}

/// What a template may take from its ancestors.
pub struct Inherited {
    pub carry: Option<Seq<DropView>>,
    pub school: i32,
    pub sex: i32,
    pub gong_level: i32,
    pub title: Seq<char>,
}

/// A template's own values of what it may inherit.
pub open spec fn own_fields(d: NpcTemplateView) -> Inherited {
    Inherited { carry: d.carry, school: d.school, sex: d.sex, gong_level: d.gong_level, title: d.title }
}

/// The fields still open (no carried items, school or sex -1, level 0, no
/// title) taken from the parent `p`.
pub open spec fn inherit_from(r: Inherited, p: NpcTemplateView) -> Inherited {
    Inherited {
        carry: if r.carry is None { p.carry } else { r.carry },
        school: if r.school == -1 { p.school } else { r.school },
        sex: if r.sex == -1 { p.sex } else { r.sex },
        gong_level: if r.gong_level == 0 { p.gong_level } else { r.gong_level },
        title: if r.title.len() == 0 { p.title } else { r.title },
    }
}

/// The position of `name` in the table, if it is there.
pub open spec fn table_index(t: TemplateTable, name: Seq<char>) -> Option<int> {
    if exists|i: int| 0 <= i < t.0.len() && #[trigger] t.0[i] == name {
        Some(choose|i: int| 0 <= i < t.0.len() && #[trigger] t.0[i] == name)
    } else {
        None
    }
}

/// Inheritance along the chain of parents from `parent`, for at most
/// `10 - depth` more steps; it stops at an empty or unknown parent name.
pub open spec fn resolve_chain(t: TemplateTable, r: Inherited, parent: Seq<char>, depth: int) -> Inherited
    decreases 10 - depth,
{
    if parent.len() == 0 || depth >= 10 {
        r
    } else {
        match table_index(t, parent) {
            Some(j) => resolve_chain(t, inherit_from(r, t.1[j]), t.1[j].parent, depth + 1),
            None => r,
        }
    }
}

/// A resolved template as values.
pub struct NpcDefView {
    pub name: Seq<char>,
    pub last_name: Seq<char>,
    pub first_name: Seq<char>,
    pub title: Seq<char>,
    pub school: i32,
    pub sex: i32,
    pub gong_level: i32,
    pub carry: Seq<DropView>,
}

/// A resolved template's values.
pub open spec fn npc_def_view(d: JianghuNpcDef) -> NpcDefView {
    NpcDefView {
        name: d.name@,
        last_name: d.last_name@,
        first_name: d.first_name@,
        title: d.title@,
        school: d.school,
        sex: d.sex,
        gong_level: d.gong_level,
        carry: drops_view(d.carry@),
    }
}

/// Template `i` after inheritance: school and sex still open become 0, a
/// carry list still open becomes empty.
pub open spec fn resolved_def(t: TemplateTable, i: int) -> NpcDefView {
    let d = t.1[i];
    let r = resolve_chain(t, own_fields(d), d.parent, 0);
    NpcDefView {
        name: d.name,
        last_name: d.last_name,
        first_name: d.first_name,
        title: r.title,
        school: if r.school == -1 { 0 } else { r.school },
        sex: if r.sex == -1 { 0 } else { r.sex },
        gong_level: r.gong_level,
        carry: match r.carry {
            Some(c) => c,
            None => Seq::empty(),
        },
    }
}

/// The templates of a table, as owned values, to resolve against.
struct Inheriting {
    carry: Option<Vec<DropItemData>>,
    school: i32,
    sex: i32,
    gong_level: i32,
    title: String,
}

spec fn inheriting_view(r: Inheriting) -> Inherited {
    Inherited {
        carry: match r.carry {
            Some(v) => Some(drops_view(v@)),
            None => None,
        },
        school: r.school,
        sex: r.sex,
        gong_level: r.gong_level,
        title: r.title@,
    }
}

fn clone_drops(v: &Vec<DropItemData>) -> (r: Vec<DropItemData>)
    ensures
        drops_view(r@) == drops_view(v@),
{
    let mut r: Vec<DropItemData> = Vec::new();
    let mut i: usize = 0;
    while i < v.len()
        invariant
            i <= v@.len(),
            drops_view(r@) == drops_view(v@.take(i as int)),
        decreases v@.len() - i,
    {
        let d = &v[i];
        let ghost before = r@;
        let x = DropItemData { thing_type: d.thing_type, thing_def: d.thing_def.clone(), stuff: d.stuff.clone() };
        proof {
            assert(drop_view(x) == drop_view(v@[i as int]));
        }
        r.push(x);
        proof {
            assert(v@.take(i + 1) =~= v@.take(i as int).push(v@[i as int]));
            assert(drops_view(r@) =~= drops_view(before).push(drop_view(x)));
            assert(drops_view(v@.take(i + 1)) =~= drops_view(v@.take(i as int)).push(drop_view(v@[i as int])));
        }
        i = i + 1;
    }
    proof {
        assert(v@.take(v@.len() as int) =~= v@);
    }
    r
}

fn clone_carry(c: &Option<Vec<DropItemData>>) -> (r: Option<Vec<DropItemData>>)
    ensures
        match (r, *c) {
            (Some(a), Some(b)) => drops_view(a@) == drops_view(b@),
            (None, None) => true,
            _ => false,
        },
{
    match c {
        Some(v) => Some(clone_drops(v)),
        None => None,
    }
}

/// Template `i` of `defs` after inheritance (see `resolved_def`).
pub fn resolve_npc_def(defs: &CsDict<TempNpcDef>, i: usize) -> (r: JianghuNpcDef)
    requires
        defs.wf(),
        i < defs.values_view().len(),
    ensures
        npc_def_view(r) == resolved_def(table_of(*defs), i as int),
{
    let ghost t = table_of(*defs);
    proof {
        defs.lemma_keys_distinct();
    }
    let def = defs.value_at(i);
    let mut r = Inheriting {
        carry: clone_carry(&def.carry),
        school: def.school,
        sex: def.sex,
        gong_level: def.gong_level,
        title: def.title.clone(),
    };
    let mut curr_parent = def.parent.clone();
    let mut depth: usize = 0;
    proof {
        assert(inheriting_view(r) == own_fields(t.1[i as int]));
    }
    while curr_parent.unicode_len() > 0 && depth < 10
        invariant
            defs.wf(),
            t == table_of(*defs),
            depth <= 10,
            t.0.len() == t.1.len(),
            i < t.1.len(),
            resolve_chain(t, inheriting_view(r), curr_parent@, depth as int)
                == resolve_chain(t, own_fields(t.1[i as int]), t.1[i as int].parent, 0),
        ensures
            inheriting_view(r) == resolve_chain(t, own_fields(t.1[i as int]), t.1[i as int].parent, 0),
        decreases 10 - depth,
    {
        match defs.find(&curr_parent) {
            Some(j) => {
                let p = defs.value_at(j);
                proof {
                    let jj = table_index(t, curr_parent@)->0;
                    assert(t.0[j as int] == curr_parent@);
                    assert(jj == j as int);
                }
                if r.carry.is_none() {
                    r.carry = clone_carry(&p.carry);
                }
                if r.school == -1 {
                    r.school = p.school;
                }
                if r.sex == -1 {
                    r.sex = p.sex;
                }
                if r.gong_level == 0 {
                    r.gong_level = p.gong_level;
                }
                if r.title.unicode_len() == 0 {
                    r.title = p.title.clone();
                }
                curr_parent = p.parent.clone();
            },
            None => {
                proof {
                    assert(table_index(t, curr_parent@) is None);
                }
                break;
            },
        }
        depth = depth + 1;
    }
    proof {
        assert(t.1[i as int] == template_view(defs.values_view()[i as int]));
    }
    let carry = match r.carry {
        Some(c) => c,
        None => Vec::new(),
    };
    let out = JianghuNpcDef {
        name: def.name.clone(),
        last_name: def.last_name.clone(),
        first_name: def.first_name.clone(),
        title: r.title,
        school: if r.school == -1 { 0 } else { r.school },
        sex: if r.sex == -1 { 0 } else { r.sex },
        gong_level: r.gong_level,
        carry,
    };
    proof {
        let want = resolved_def(t, i as int);
        let v = npc_def_view(out);
        assert(v.name == want.name);
        assert(v.last_name == want.last_name);
        assert(v.first_name == want.first_name);
        assert(v.title == want.title);
        assert(v.school == want.school);
        assert(v.sex == want.sex);
        assert(v.gong_level == want.gong_level);
        assert(v.carry == want.carry);
    }
    out
}

/// The first position, from `i` on, whose key is `k`.
pub open spec fn first_key<K, V>(l: Seq<(K, V)>, k: K, i: int) -> Option<int>
    decreases l.len() - i,
{
    if i < 0 || i >= l.len() {
        None
    } else if l[i].0 == k {
        Some(i)
    } else {
        first_key(l, k, i + 1)
    }
}

/// No key occurs twice in the association list.
pub open spec fn keys_distinct<K, V>(l: Seq<(K, V)>) -> bool {
    forall|a: int, b: int| #![trigger l[a], l[b]] 0 <= a < b < l.len() ==> l[a].0 != l[b].0
}

/// A key that `first_key` does not find from `i` on is absent from there on.
pub proof fn lemma_first_key_none<K, V>(l: Seq<(K, V)>, k: K, i: int)
    requires
        0 <= i,
        first_key(l, k, i) is None,
    ensures
        forall|q: int| i <= q < l.len() ==> (#[trigger] l[q]).0 != k,
    decreases l.len() - i,
{
    if i < l.len() {
        lemma_first_key_none(l, k, i + 1);
    }
}

/// Setting a key of an association list keeps its keys distinct, and the
/// key is then present.
pub proof fn lemma_set_keeps_keys_distinct<K, V>(l: Seq<(K, V)>, k: K, v: V, r: Seq<(K, V)>)
    requires
        keys_distinct(l),
        r == (match first_key(l, k, 0) {
            Some(i) => l.update(i, (k, v)),
            None => l.push((k, v)),
        }),
    ensures
        keys_distinct(r),
        exists|q: int| 0 <= q < r.len() && (#[trigger] r[q]).0 == k,
{
    lemma_first_key_bound(l, k, 0);
    match first_key(l, k, 0) {
        Some(i) => {
            assert(r[i].0 == k);
        },
        None => {
            lemma_first_key_none(l, k, 0);
            assert(r[l.len() as int].0 == k);
        },
    }
}

/// Setting a key of an association list keeps its keys distinct.
pub proof fn lemma_assoc_set_distinct<K, V>(l: Seq<(K, V)>, k: K, v: V)
    requires
        keys_distinct(l),
    ensures
        keys_distinct(assoc_set(l, k, v)),
{
    lemma_set_keeps_keys_distinct(l, k, v, assoc_set(l, k, v));
}

/// An association list with `k` set to `v`: the first entry of that key
/// takes the value, else the pair goes to the end (a map insertion).
pub open spec fn assoc_set<K, V>(l: Seq<(K, V)>, k: K, v: V) -> Seq<(K, V)> {
    match first_key(l, k, 0) {
        Some(i) => l.update(i, (k, v)),
        None => l.push((k, v)),
    }
}

/// The non-abstract templates among the first `n`, grouped by their
/// resolved school: schools in first-seen order, template positions in
/// table order.
pub open spec fn school_groups(t: TemplateTable, n: int) -> Seq<(i32, Seq<int>)>
    decreases n,
{
    if n <= 0 {
        Seq::empty()
    } else {
        let g = school_groups(t, n - 1);
        if t.1[n - 1].is_abstract {
            g
        } else {
            let s = resolved_def(t, n - 1).school;
            match first_key(g, s, 0) {
                Some(i) => g.update(i, (s, g[i].1.push(n - 1))),
                None => g.push((s, seq![n - 1])),
            }
        }
    }
}

/// The (school, template position) pairs that receive location seeds:
/// schools `from` to 13 in turn, each with its templates in group order.
pub open spec fn location_visits(g: Seq<(i32, Seq<int>)>, from: int) -> Seq<(i32, int)>
    decreases 14 - from,
{
    if from > 13 {
        Seq::empty()
    } else {
        let here = match first_key(g, from as i32, 0) {
            Some(i) => g[i].1.map_values(|idx: int| (from as i32, idx)),
            None => Seq::empty(),
        };
        here + location_visits(g, from + 1)
    }
}

/// Counters per (school, level) key and the location map, as they stand.
pub type LocationState = (Seq<(i32, i32)>, Seq<(i32, Seq<char>)>);

/// One template receiving its location seed: with key `school * 100 +
/// level` its counter goes up by one, and the seed `school * 100000 +
/// level * 10000 + counter` maps to its name (all in wrapping `i32`
/// arithmetic, as an optimized build computes them).
pub open spec fn location_step(t: TemplateTable, st: LocationState, v: (i32, int)) -> LocationState {
    let d = resolved_def(t, v.1);
    if d.school > 0 {
        let key = vstd::wrapping::i32_specs::wrapping_add((v.0 * 100) as i32, d.gong_level);
        let count = match first_key(st.0, key, 0) {
            Some(i) => st.0[i].1,
            None => 0i32,
        };
        let num2 = vstd::wrapping::i32_specs::wrapping_add(count, 1);
        let seed = vstd::wrapping::i32_specs::wrapping_add(
            vstd::wrapping::i32_specs::wrapping_add(
                (v.0 * 100000) as i32,
                vstd::wrapping::i32_specs::wrapping_mul(d.gong_level, 10000),
            ),
            num2,
        );
        (assoc_set(st.0, key, num2), assoc_set(st.1, seed, t.0[v.1]))
    } else {
        st
    }
}

/// The state after the first `n` visits.
pub open spec fn locations_after(t: TemplateTable, vs: Seq<(i32, int)>, n: int) -> LocationState
    decreases n,
{
    if n <= 0 {
        (Seq::empty(), Seq::empty())
    } else {
        location_step(t, locations_after(t, vs, n - 1), vs[n - 1])
    }
}

/// Each school has one group.
pub proof fn lemma_school_groups_distinct(t: TemplateTable, n: int)
    ensures
        keys_distinct(school_groups(t, n)),
    decreases n,
{
    if n > 0 {
        lemma_school_groups_distinct(t, n - 1);
        let g = school_groups(t, n - 1);
        if !t.1[n - 1].is_abstract {
            let s = resolved_def(t, n - 1).school;
            lemma_first_key_bound(g, s, 0);
            let v = match first_key(g, s, 0) {
                Some(i) => g[i].1.push(n - 1),
                None => seq![n - 1],
            };
            lemma_set_keeps_keys_distinct(g, s, v, school_groups(t, n));
        }
    }
}

/// The counters and the location map hold each key once.
pub proof fn lemma_locations_distinct(t: TemplateTable, vs: Seq<(i32, int)>, n: int)
    ensures
        keys_distinct(locations_after(t, vs, n).0),
        keys_distinct(locations_after(t, vs, n).1),
    decreases n,
{
    if n > 0 {
        lemma_locations_distinct(t, vs, n - 1);
        let st = locations_after(t, vs, n - 1);
        let v = vs[n - 1];
        let d = resolved_def(t, v.1);
        if d.school > 0 {
            let key = vstd::wrapping::i32_specs::wrapping_add((v.0 * 100) as i32, d.gong_level);
            let count = match first_key(st.0, key, 0) {
                Some(i) => st.0[i].1,
                None => 0i32,
            };
            let num2 = vstd::wrapping::i32_specs::wrapping_add(count, 1);
            let seed = vstd::wrapping::i32_specs::wrapping_add(
                vstd::wrapping::i32_specs::wrapping_add(
                    (v.0 * 100000) as i32,
                    vstd::wrapping::i32_specs::wrapping_mul(d.gong_level, 10000),
                ),
                num2,
            );
            lemma_assoc_set_distinct(st.0, key, num2);
            lemma_assoc_set_distinct(st.1, seed, t.0[v.1]);
        }
    }
}

/// In the NPC tables each school is listed once and each location seed
/// maps to one template.
pub proof fn lemma_npc_tables_unique(r: NpcTables, t: TemplateTable)
    requires
        tables_match(r, t),
    ensures
        forall|a: int, b: int|
            0 <= a < b < r.school_to_names@.len() ==> (#[trigger] r.school_to_names@[a]).0 != (#[trigger] r.school_to_names@[b]).0,
        forall|a: int, b: int|
            0 <= a < b < r.location_to_template@.len() ==> (#[trigger] r.location_to_template@[a]).0
                != (#[trigger] r.location_to_template@[b]).0,
{
    let g = school_groups(t, t.1.len() as int);
    let vs = location_visits(g, 1);
    lemma_school_groups_distinct(t, t.1.len() as int);
    lemma_locations_distinct(t, vs, vs.len() as int);
    let loc = locations_after(t, vs, vs.len() as int).1;
    assert forall|a: int, b: int| 0 <= a < b < r.school_to_names@.len() implies (#[trigger] r.school_to_names@[a]).0
        != (#[trigger] r.school_to_names@[b]).0 by {
        assert(g[a].0 != g[b].0);
    }
    assert forall|a: int, b: int| 0 <= a < b < r.location_to_template@.len() implies (#[trigger] r.location_to_template@[a]).0
        != (#[trigger] r.location_to_template@[b]).0 by {
        assert(loc[a].0 != loc[b].0);
    }
}

/// The tables the NPC generator reads: every template after inheritance,
/// in first-seen order; the names of the non-abstract ones by school; and
/// the template of each location seed.
pub struct NpcTables {
    pub jh_npcs_global: Vec<JianghuNpcDef>,
    pub school_to_names: Vec<(i32, Vec<String>)>,
    pub location_to_template: Vec<(i32, String)>,
}

/// The names of a list of strings.
pub open spec fn names_view(v: Seq<String>) -> Seq<Seq<char>> {
    v.map_values(|s: String| s@)
}

fn find_key_i32<V>(l: &Vec<(i32, V)>, k: i32) -> (r: Option<usize>)
    ensures
        match r {
            Some(i) => first_key(l@, k, 0) == Some(i as int) && i < l@.len(),
            None => first_key(l@, k, 0) is None,
        },
{
    let mut i: usize = 0;
    while i < l.len()
        invariant
            i <= l@.len(),
            first_key(l@, k, 0) == first_key(l@, k, i as int),
        decreases l@.len() - i,
    {
        if l[i].0 == k {
            return Some(i);
        }
        i = i + 1;
    }
    None
}

/// A key found in an association list is there, at or after the start.
pub proof fn lemma_first_key_bound<K, V>(l: Seq<(K, V)>, k: K, i: int)
    requires
        0 <= i,
    ensures
        match first_key(l, k, i) {
            Some(j) => i <= j < l.len() && l[j].0 == k,
            None => true,
        },
    decreases l.len() - i,
{
    if i < l.len() && l[i].0 != k {
        lemma_first_key_bound(l, k, i + 1);
    }
}


/// Every key of the table is the name of its template.
pub open spec fn names_match(t: TemplateTable) -> bool {
    &&& t.0.len() == t.1.len()
    &&& forall|i: int| 0 <= i < t.0.len() ==> #[trigger] t.0[i] == t.1[i].name
}

proof fn lemma_insert_names(t: TemplateTable, v: NpcTemplateView)
    requires
        names_match(t),
    ensures
        names_match(table_insert(t, v)),
{
    if exists|i: int| 0 <= i < t.0.len() && #[trigger] t.0[i] == v.name {
        let c = choose|i: int| 0 <= i < t.0.len() && #[trigger] t.0[i] == v.name;
        let r = table_insert(t, v);
        assert forall|i: int| 0 <= i < r.0.len() implies #[trigger] r.0[i] == r.1[i].name by {
            if i != c {
                assert(r.1[i] == t.1[i]);
            }
        }
    } else {
        let r = table_insert(t, v);
        assert forall|i: int| 0 <= i < r.0.len() implies #[trigger] r.0[i] == r.1[i].name by {
            if i < t.0.len() {
                assert(r.1[i] == t.1[i]);
            }
        }
    }
}

/// Adding templates keeps every key the name of its template.
pub proof fn lemma_insert_all_names(t: TemplateTable, es: Seq<NpcTemplateView>)
    requires
        names_match(t),
    ensures
        names_match(table_insert_all(t, es)),
    decreases es.len(),
{
    if es.len() > 0 {
        lemma_insert_all_names(t, es.drop_last());
        lemma_insert_names(table_insert_all(t, es.drop_last()), es.last());
    }
}

/// Whether every key of `defs` is the name of its template (see
/// `names_match`).
pub fn keys_are_names(defs: &CsDict<TempNpcDef>) -> (r: bool)
    requires
        defs.wf(),
    ensures
        r == names_match(table_of(*defs)),
{
    proof {
        defs.lemma_keys_distinct();
    }
    let n = defs.len();
    let mut i: usize = 0;
    while i < n
        invariant
            i <= n,
            n == table_of(*defs).0.len(),
            n == table_of(*defs).1.len(),
            defs.wf(),
            forall|q: int| 0 <= q < i ==> #[trigger] table_of(*defs).0[q] == table_of(*defs).1[q].name,
        decreases n - i,
    {
        if !(*defs.key_at(i) == defs.value_at(i).name) {
            return false;
        }
        i = i + 1;
    }
    true
}

/// Two association lists with the same keys find a key at the same place.
pub proof fn lemma_first_key_same<K, A, B>(a: Seq<(K, A)>, b: Seq<(K, B)>, k: K, i: int)
    requires
        a.len() == b.len(),
        forall|q: int| 0 <= q < a.len() ==> (#[trigger] a[q]).0 == b[q].0,
    ensures
        first_key(a, k, i) == first_key(b, k, i),
    decreases a.len() - i,
{
    if 0 <= i < a.len() {
        assert(a[i].0 == b[i].0);
        lemma_first_key_same(a, b, k, i + 1);
    }
}

/// The location map as values.
pub open spec fn locs_view(l: Seq<(i32, String)>) -> Seq<(i32, Seq<char>)> {
    l.map_values(|p: (i32, String)| (p.0, p.1@))
}

fn set_counter(l: &mut Vec<(i32, i32)>, k: i32, v: i32)
    ensures
        final(l)@ == assoc_set(old(l)@, k, v),
{
    match find_key_i32(l, k) {
        Some(i) => {
            l.set(i, (k, v));
        },
        None => {
            l.push((k, v));
        },
    }
}

fn set_location(l: &mut Vec<(i32, String)>, k: i32, v: String)
    ensures
        locs_view(final(l)@) == assoc_set(locs_view(old(l)@), k, v@),
{
    proof {
        lemma_first_key_same(l@, locs_view(l@), k, 0);
    }
    match find_key_i32(l, k) {
        Some(i) => {
            l.set(i, (k, v));
            proof {
                assert(locs_view(l@) =~= locs_view(old(l)@).update(i as int, (k, v@)));
            }
        },
        None => {
            l.push((k, v));
            proof {
                assert(locs_view(l@) =~= locs_view(old(l)@).push((k, v@)));
            }
        },
    }
}

proof fn lemma_visits_at(g: Seq<(i32, Seq<int>)>, from: int, k: int, b: int)
    requires
        1 <= from <= 13,
        first_key(g, from as i32, 0) == Some(k),
        0 <= b < g[k].1.len(),
    ensures
        location_visits(g, from)[b] == (from as i32, g[k].1[b]),
        g[k].1.len() <= location_visits(g, from).len(),
{
    let here = g[k].1.map_values(|idx: int| (from as i32, idx));
    assert(location_visits(g, from) == here + location_visits(g, from + 1));
}

proof fn lemma_visits_skip(g: Seq<(i32, Seq<int>)>, from: int, k: int)
    requires
        1 <= from <= 13,
        first_key(g, from as i32, 0) == Some(k),
    ensures
        location_visits(g, from).skip(g[k].1.len() as int) == location_visits(g, from + 1),
        location_visits(g, from).len() == g[k].1.len() + location_visits(g, from + 1).len(),
{
    let here = g[k].1.map_values(|idx: int| (from as i32, idx));
    assert(location_visits(g, from) == here + location_visits(g, from + 1));
    assert((here + location_visits(g, from + 1)).skip(here.len() as int) =~= location_visits(g, from + 1));
}

proof fn lemma_visits_skip_none(g: Seq<(i32, Seq<int>)>, from: int)
    requires
        1 <= from <= 13,
        first_key(g, from as i32, 0) is None,
    ensures
        location_visits(g, from) == location_visits(g, from + 1),
{
    assert(location_visits(g, from) =~= Seq::<(i32, int)>::empty() + location_visits(g, from + 1));
}

proof fn lemma_groups_bound(t: TemplateTable, m: int)
    requires
        0 <= m,
    ensures
        forall|q: int, w: int|
            0 <= q < school_groups(t, m).len() && 0 <= w < school_groups(t, m)[q].1.len()
                ==> 0 <= #[trigger] school_groups(t, m)[q].1[w] < m,
    decreases m,
{
    if m > 0 {
        lemma_groups_bound(t, m - 1);
        let g = school_groups(t, m - 1);
        if !t.1[m - 1].is_abstract {
            let s = resolved_def(t, m - 1).school;
            lemma_first_key_bound(g, s, 0);
            let g1 = school_groups(t, m);
            assert forall|q: int, w: int| 0 <= q < g1.len() && 0 <= w < g1[q].1.len() implies 0 <= #[trigger] g1[q].1[w] < m by {
                match first_key(g, s, 0) {
                    Some(i) => {
                        if q == i {
                            if w < g[i].1.len() {
                                assert(g1[q].1[w] == g[i].1[w]);
                            }
                        } else {
                            assert(g1[q] == g[q]);
                        }
                    },
                    None => {
                        if q < g.len() {
                            assert(g1[q] == g[q]);
                        }
                    },
                }
            }
        }
    }
}

/// The tables built from a template table: each template resolved, the
/// school groups (see `school_groups`) with names for positions, and the
/// location map (see `locations_after`).
pub open spec fn tables_match(r: NpcTables, t: TemplateTable) -> bool {
    let g = school_groups(t, t.1.len() as int);
    let loc = locations_after(t, location_visits(g, 1), location_visits(g, 1).len() as int).1;
    &&& r.jh_npcs_global@.len() == t.1.len()
    &&& forall|i: int| 0 <= i < t.1.len() ==> #[trigger] npc_def_view(r.jh_npcs_global@[i]) == resolved_def(t, i)
    &&& r.school_to_names@.len() == g.len()
    &&& forall|i: int| 0 <= i < g.len() ==> {
        &&& (#[trigger] r.school_to_names@[i]).0 == g[i].0
        &&& names_view(r.school_to_names@[i].1@) == g[i].1.map_values(|idx: int| t.0[idx])
    }
    &&& r.location_to_template@.len() == loc.len()
    &&& forall|i: int| 0 <= i < loc.len() ==> {
        &&& (#[trigger] r.location_to_template@[i]).0 == loc[i].0
        &&& r.location_to_template@[i].1@ == loc[i].1
    }
}

/// The elements of several documents, each visited in turn.
pub open spec fn documents_order(docs: Seq<Vec<XmlElement>>) -> Seq<XmlElement>
    decreases docs.len(),
{
    if docs.len() == 0 {
        Seq::empty()
    } else {
        documents_order(docs.drop_last()) + forest_order(docs.last()@)
    }
}

/// The NPC tables of a set of parsed documents, in loading order: their
/// templates are gathered (see `collect_npc_roots`), then resolved and
/// grouped (see `build_npc_tables`).
pub fn npc_tables_from_documents(docs: &Vec<Vec<XmlElement>>) -> (r: NpcTables)
    ensures
        tables_match(r, table_insert_all((Seq::empty(), Seq::empty()), npc_entries(documents_order(docs@)))),
{
    let mut defs: CsDict<TempNpcDef> = CsDict::new();
    let ghost t0: TemplateTable = (Seq::empty(), Seq::empty());
    proof {
        assert(table_of(defs).1 =~= Seq::<NpcTemplateView>::empty());
        assert(table_of(defs) == t0);
        assert(docs@.take(0) =~= Seq::<Vec<XmlElement>>::empty());
    }
    let mut i: usize = 0;
    while i < docs.len()
        invariant
            i <= docs@.len(),
            defs.wf(),
            table_of(defs) == table_insert_all(t0, npc_entries(documents_order(docs@.take(i as int)))),
        decreases docs@.len() - i,
    {
        collect_npc_roots(&docs[i], &mut defs);
        proof {
            let pre = docs@.take(i as int);
            assert(docs@.take(i + 1).drop_last() =~= pre);
            assert(docs@.take(i + 1).last() == docs@[i as int]);
            lemma_entries_append(documents_order(pre), forest_order(docs@[i as int]@));
            lemma_insert_all_append(t0, npc_entries(documents_order(pre)), npc_entries(forest_order(docs@[i as int]@)));
        }
        i = i + 1;
    }
    proof {
        assert(docs@.take(docs@.len() as int) =~= docs@);
        assert(names_match(t0));
        lemma_insert_all_names(t0, npc_entries(documents_order(docs@)));
    }
    build_npc_tables(&defs)
}

/// Resolves every template of `defs` and builds the tables (see
/// `resolved_def`, `school_groups` and `locations_after`).
pub fn build_npc_tables(defs: &CsDict<TempNpcDef>) -> (r: NpcTables)
    requires
        defs.wf(),
        names_match(table_of(*defs)),
    ensures
        tables_match(r, table_of(*defs)),
{
    let ghost t = table_of(*defs);
    proof {
        defs.lemma_keys_distinct();
    }
    let n = defs.len();
    let mut jh: Vec<JianghuNpcDef> = Vec::new();
    let mut groups: Vec<(i32, Vec<usize>)> = Vec::new();
    let mut i: usize = 0;
    while i < n
        invariant
            i <= n,
            n == t.1.len(),
            n == t.0.len(),
            defs.wf(),
            t == table_of(*defs),
            jh@.len() == i,
            forall|q: int| 0 <= q < i ==> #[trigger] npc_def_view(jh@[q]) == resolved_def(t, q),
            groups@.len() == school_groups(t, i as int).len(),
            forall|q: int| 0 <= q < groups@.len() ==> {
                &&& (#[trigger] groups@[q]).0 == school_groups(t, i as int)[q].0
                &&& groups@[q].1@.map_values(|x: usize| x as int) == school_groups(t, i as int)[q].1
            },
        decreases n - i,
    {
        let d = resolve_npc_def(defs, i);
        let school = d.school;
        jh.push(d);
        let abstract_def = defs.value_at(i).is_abstract;
        let ghost g0 = school_groups(t, i as int);
        let ghost before = groups@;
        proof {
            assert(forall|q: int| 0 <= q < before.len() ==> (#[trigger] before[q]).0 == g0[q].0);
            assert(t.1[i as int].is_abstract == abstract_def);
            assert(school == resolved_def(t, i as int).school);
        }
        if !abstract_def {
            match find_key_i32(&groups, school) {
                Some(k) => {
                    proof {
                        assert(first_key(g0, school, 0) == first_key(before, school, 0)) by {
                            lemma_first_key_same(before, g0, school, 0);
                        }
                    }
                    let mut entry = groups.remove(k);
                    entry.1.push(i);
                    let ghost e1 = entry;
                    groups.insert(k, entry);
                    proof {
                        assert(groups@ =~= before.update(k as int, e1));
                        assert(e1.0 == before[k as int].0);
                        lemma_first_key_bound(before, school, 0);
                        assert(before[k as int].0 == school);
                        let g1 = school_groups(t, i + 1);
                        assert(g1 == g0.update(k as int, (school, g0[k as int].1.push(i as int))));
                        assert forall|q: int| 0 <= q < groups@.len() implies {
                            &&& (#[trigger] groups@[q]).0 == g1[q].0
                            &&& groups@[q].1@.map_values(|x: usize| x as int) == g1[q].1
                        } by {
                            if q == k {
                                assert(groups@[q].1@ == before[q].1@.push(i));
                                assert(groups@[q].1@.map_values(|x: usize| x as int) =~= before[q].1@.map_values(|x: usize| x as int).push(i as int));
                            } else {
                                assert(groups@[q] == before[q]);
                            }
                        }
                    }
                },
                None => {
                    proof {
                        assert(first_key(g0, school, 0) == first_key(before, school, 0)) by {
                            lemma_first_key_same(before, g0, school, 0);
                        }
                    }
                    let mut v: Vec<usize> = Vec::new();
                    v.push(i);
                    groups.push((school, v));
                    proof {
                        let g1 = school_groups(t, i + 1);
                        assert(g1 == g0.push((school, seq![i as int])));
                        assert forall|q: int| 0 <= q < groups@.len() implies {
                            &&& (#[trigger] groups@[q]).0 == g1[q].0
                            &&& groups@[q].1@.map_values(|x: usize| x as int) == g1[q].1
                        } by {
                            if q == before.len() {
                                assert(groups@[q].1@.map_values(|x: usize| x as int) =~= seq![i as int]);
                            } else {
                                assert(groups@[q] == before[q]);
                            }
                        }
                    }
                },
            }
        }
        i = i + 1;
    }
    let ghost g = school_groups(t, n as int);
    proof {
        lemma_groups_bound(t, n as int);
    }
    let mut school_to_names: Vec<(i32, Vec<String>)> = Vec::new();
    let mut a: usize = 0;
    while a < groups.len()
        invariant
            a <= groups@.len(),
            groups@.len() == g.len(),
            jh@.len() == n,
            n == t.0.len(),
            forall|q: int| 0 <= q < n ==> #[trigger] npc_def_view(jh@[q]) == resolved_def(t, q),
            forall|q: int| 0 <= q < groups@.len() ==> {
                &&& (#[trigger] groups@[q]).0 == g[q].0
                &&& groups@[q].1@.map_values(|x: usize| x as int) == g[q].1
            },
            forall|q: int, w: int| 0 <= q < g.len() && 0 <= w < g[q].1.len() ==> 0 <= #[trigger] g[q].1[w] < n,
            school_to_names@.len() == a,
            names_match(t),
            forall|q: int| 0 <= q < a ==> {
                &&& (#[trigger] school_to_names@[q]).0 == g[q].0
                &&& names_view(school_to_names@[q].1@) == g[q].1.map_values(|idx: int| t.0[idx])
            },
        decreases groups@.len() - a,
    {
        let list = &groups[a].1;
        let mut names: Vec<String> = Vec::new();
        let mut b: usize = 0;
        while b < list.len()
            invariant
                b <= list@.len(),
                a < g.len(),
                names_match(t),
                n == t.0.len(),
                list@.map_values(|x: usize| x as int) == g[a as int].1,
                jh@.len() == n,
                forall|q: int| 0 <= q < n ==> #[trigger] npc_def_view(jh@[q]) == resolved_def(t, q),
                forall|w: int| 0 <= w < g[a as int].1.len() ==> 0 <= #[trigger] g[a as int].1[w] < n,
                names_view(names@) == g[a as int].1.take(b as int).map_values(|idx: int| t.0[idx]),
            decreases list@.len() - b,
        {
            let idx = list[b];
            proof {
                assert(list@.map_values(|x: usize| x as int)[b as int] == idx as int);
                assert(g[a as int].1[b as int] == idx as int);
                assert(0 <= idx < n);
                assert(npc_def_view(jh@[idx as int]) == resolved_def(t, idx as int));
            }
            let nm = jh[idx].name.clone();
            let ghost before = names@;
            names.push(nm);
            proof {
                assert(g[a as int].1.take(b + 1) =~= g[a as int].1.take(b as int).push(idx as int));
                assert(names_view(names@) =~= names_view(before).push(t.0[idx as int]));
            }
            b = b + 1;
        }
        proof {
            assert(g[a as int].1.take(list@.len() as int) =~= g[a as int].1);
        }
        school_to_names.push((groups[a].0, names));
        a = a + 1;
    }
    let ghost vs = location_visits(g, 1);
    let mut counters: Vec<(i32, i32)> = Vec::new();
    let mut locs: Vec<(i32, String)> = Vec::new();
    let mut school_id: i32 = 1;
    while school_id <= 13
        invariant
            1 <= school_id <= 14,
            groups@.len() == g.len(),
            jh@.len() == n,
            n == t.0.len(),
            forall|q: int| 0 <= q < n ==> #[trigger] npc_def_view(jh@[q]) == resolved_def(t, q),
            forall|q: int| 0 <= q < groups@.len() ==> {
                &&& (#[trigger] groups@[q]).0 == g[q].0
                &&& groups@[q].1@.map_values(|x: usize| x as int) == g[q].1
            },
            forall|q: int, w: int| 0 <= q < g.len() && 0 <= w < g[q].1.len() ==> 0 <= #[trigger] g[q].1[w] < n,
            vs == location_visits(g, 1),
            names_match(t),
            ({
                let done = (vs.len() - location_visits(g, school_id as int).len()) as int;
                &&& 0 <= done <= vs.len()
                &&& vs.skip(done) == location_visits(g, school_id as int)
                &&& counters@ == locations_after(t, vs, done).0
                &&& locs_view(locs@) == locations_after(t, vs, done).1
            }),
        decreases 14 - school_id,
    {
        let ghost done0 = (vs.len() - location_visits(g, school_id as int).len()) as int;
        match find_key_i32(&groups, school_id) {
            Some(k) => {
                proof {
                    lemma_first_key_same(groups@, g, school_id, 0);
                }
                let list = &groups[k].1;
                let mut b: usize = 0;
                while b < list.len()
                    invariant
                        b <= list@.len(),
                        k < g.len(),
                        names_match(t),
                        list@.map_values(|x: usize| x as int) == g[k as int].1,
                        1 <= school_id <= 13,
                        jh@.len() == n,
                        n == t.0.len(),
                        forall|q: int| 0 <= q < n ==> #[trigger] npc_def_view(jh@[q]) == resolved_def(t, q),
                        forall|w: int| 0 <= w < g[k as int].1.len() ==> 0 <= #[trigger] g[k as int].1[w] < n,
                        0 <= done0 <= vs.len(),
                        vs.skip(done0) == location_visits(g, school_id as int),
                        first_key(g, school_id, 0) == Some(k as int),
                        done0 + g[k as int].1.len() <= vs.len(),
                        counters@ == locations_after(t, vs, done0 + b).0,
                        locs_view(locs@) == locations_after(t, vs, done0 + b).1,
                    decreases list@.len() - b,
                {
                    let idx = list[b];
                    proof {
                        assert(list@.map_values(|x: usize| x as int)[b as int] == idx as int);
                        assert(g[k as int].1[b as int] == idx as int);
                        lemma_visits_at(g, school_id as int, k as int, b as int);
                        assert(vs[done0 + b] == vs.skip(done0)[b as int]);
                    }
                    let d = &jh[idx];
                    proof {
                        assert(npc_def_view(*d) == resolved_def(t, idx as int));
                    }
                    if d.school > 0 {
                        let key = (school_id * 100).wrapping_add(d.gong_level);
                        let count = match find_key_i32(&counters, key) {
                            Some(c) => counters[c].1,
                            None => 0,
                        };
                        let num2 = count.wrapping_add(1);
                        let seed = (school_id * 100_000).wrapping_add(d.gong_level.wrapping_mul(10_000)).wrapping_add(num2);
                        set_counter(&mut counters, key, num2);
                        let nm = d.name.clone();
                        set_location(&mut locs, seed, nm);
                    }
                    proof {
                        assert(vs[done0 + b] == (school_id, idx as int));
                        assert(locations_after(t, vs, done0 + b + 1) == location_step(t, locations_after(t, vs, done0 + b), vs[done0 + b]));
                    }
                    b = b + 1;
                }
                proof {
                    lemma_visits_skip(g, school_id as int, k as int);
                }
            },
            None => {
                proof {
                    lemma_first_key_same(groups@, g, school_id, 0);
                    lemma_visits_skip_none(g, school_id as int);
                }
            },
        }
        school_id = school_id + 1;
    }
    proof {
        assert(location_visits(g, 14) =~= Seq::<(i32, int)>::empty());
    }
    NpcTables { jh_npcs_global: jh, school_to_names, location_to_template: locs }
}

} // verus!
