//! The spell definitions of the game's data files: which spells name a
//! template, themselves or through their parents.
use vstd::prelude::*;
use crate::dict::{CsDict, dict_insert, insert_entries};
use crate::npc::SpellDefData;
use crate::npc_tables::{derefs, or_else, or_empty};
use crate::text::{chars_of, eq_ascii_ci, eq_ignore_ascii_case, str_eq, string_from_chars, trim_chars, trim_ws};
use crate::things::{key_pos, texts_table};
use crate::xml::{XmlElement, value_of};

verus! {

/// The tags of spell elements: `SpellDef`, `li` or `Spell`, in any ASCII
/// case.
pub open spec fn is_spell_tag(t: Seq<char>) -> bool {
    ||| eq_ascii_ci(t, "SpellDef"@)
    ||| eq_ascii_ci(t, "li"@)
    ||| eq_ascii_ci(t, "Spell"@)
}

/// A named spell element.
pub open spec fn is_named_spell(b: XmlElement) -> bool {
    is_spell_tag(b.tag@) && or_empty(value_of(b, "Name"@)).len() > 0
}

/// The parent and template names of a spell element.
pub open spec fn spell_links(b: XmlElement) -> (Seq<char>, Seq<char>) {
    (or_empty(value_of(b, "Parent"@)), or_empty(value_of(b, "Template"@)))
}

/// The shown name a spell element gives, trimmed, when not empty.
pub open spec fn spell_translation(b: XmlElement) -> Option<Seq<char>> {
    match or_else(value_of(b, "DisplayName"@), value_of(b, "ThingName"@)) {
        Some(d) => if trim_ws(d).len() > 0 { Some(trim_ws(d)) } else { None },
        None => None,
    }
}

/// The spells that visited elements define, in order.
pub open spec fn spell_entries(blocks: Seq<XmlElement>) -> Seq<(Seq<char>, (Seq<char>, Seq<char>))>
    decreases blocks.len(),
{
    if blocks.len() == 0 {
        Seq::empty()
    } else {
        let prev = spell_entries(blocks.drop_last());
        let b = blocks.last();
        if is_named_spell(b) {
            prev.push((or_empty(value_of(b, "Name"@)), spell_links(b)))
        } else {
            prev
        }
    }
}

/// The translations that visited spell elements give, in order.
pub open spec fn spell_translation_entries(blocks: Seq<XmlElement>) -> Seq<(Seq<char>, Seq<char>)>
    decreases blocks.len(),
{
    if blocks.len() == 0 {
        Seq::empty()
    } else {
        let prev = spell_translation_entries(blocks.drop_last());
        let b = blocks.last();
        if is_named_spell(b) && spell_translation(b) is Some {
            prev.push((or_empty(value_of(b, "Name"@)), spell_translation(b)->0))
        } else {
            prev
        }
    }
}

/// The links of a dictionary of spells as values.
pub open spec fn links_table(d: CsDict<(String, String)>) -> (Seq<Seq<char>>, Seq<(Seq<char>, Seq<char>)>) {
    (d.keys_view(), d.values_view().map_values(|p: (String, String)| (p.0@, p.1@)))
}

/// Reads the spell elements among `blocks` (in visiting order): each named
/// one is entered with its parent and template, and its shown name goes to
/// `translations`.
pub fn collect_spells(blocks: &Vec<&XmlElement>, spells: &mut CsDict<(String, String)>, translations: &mut CsDict<String>)
    requires
        old(spells).wf(),
        old(translations).wf(),
    ensures
        final(spells).wf(),
        final(translations).wf(),
        links_table(*final(spells)) == insert_entries(links_table(*old(spells)), spell_entries(derefs(blocks@))),
        texts_table(*final(translations)) == insert_entries(
            texts_table(*old(translations)),
            spell_translation_entries(derefs(blocks@)),
        ),
{
    let ghost bs = derefs(blocks@);
    let ghost s0 = links_table(*spells);
    let ghost t0 = texts_table(*translations);
    let mut i: usize = 0;
    proof {
        assert(bs.take(0) =~= Seq::<XmlElement>::empty());
    }
    while i < blocks.len()
        invariant
            i <= blocks@.len(),
            bs == derefs(blocks@),
            spells.wf(),
            translations.wf(),
            links_table(*spells) == insert_entries(s0, spell_entries(bs.take(i as int))),
            texts_table(*translations) == insert_entries(t0, spell_translation_entries(bs.take(i as int))),
        decreases blocks@.len() - i,
    {
        let b: &XmlElement = blocks[i];
        let ghost sprev = spell_entries(bs.take(i as int));
        let ghost tprev = spell_translation_entries(bs.take(i as int));
        proof {
            assert(bs.take(i + 1).drop_last() =~= bs.take(i as int));
            assert(bs.take(i + 1).last() == *b);
        }
        let is_tag = eq_ignore_ascii_case(b.tag.as_str(), "SpellDef") || eq_ignore_ascii_case(b.tag.as_str(), "li")
            || eq_ignore_ascii_case(b.tag.as_str(), "Spell");
        let name = match b.get_val("Name") {
            Some(v) => v,
            None => String::new(),
        };
        if is_tag && name.unicode_len() > 0 {
            let parent = match b.get_val("Parent") {
                Some(v) => v,
                None => String::new(),
            };
            let template = match b.get_val("Template") {
                Some(v) => v,
                None => String::new(),
            };
            let ghost g0 = *spells;
            let ghost gv = (parent, template);
            spells.insert(name.clone(), (parent, template));
            proof {
                CsDict::<(String, String)>::lemma_insert_mapped(g0, *spells, name@, gv, |p: (String, String)| (p.0@, p.1@));
                let es = spell_entries(bs.take(i + 1));
                assert(es == sprev.push((name@, spell_links(*b))));
                assert(es.drop_last() =~= sprev);
            }
            let disp = match b.get_val("DisplayName") {
                Some(v) => Some(v),
                None => b.get_val("ThingName"),
            };
            let mut added = false;
            match disp {
                Some(d) => {
                    let dc = chars_of(d.as_str());
                    let tc = trim_chars(dc.as_slice());
                    if tc.len() > 0 {
                        let t = string_from_chars(tc.as_slice());
                        let ghost gt = t;
                        let ghost h0 = *translations;
                        translations.insert(name.clone(), t);
                        proof {
                            CsDict::<String>::lemma_insert_mapped(h0, *translations, name@, gt, |s: String| s@);
                            assert(spell_translation(*b) == Some(gt@));
                            let es = spell_translation_entries(bs.take(i + 1));
                            assert(es == tprev.push((name@, gt@)));
                            assert(es.drop_last() =~= tprev);
                        }
                        added = true;
                    }
                },
                None => {},
            }
            proof {
                if !added {
                    assert(spell_translation(*b) is None);
                    assert(spell_translation_entries(bs.take(i + 1)) == tprev);
                }
            }
        } else {
            proof {
                assert(!is_named_spell(*b));
                assert(spell_entries(bs.take(i + 1)) == sprev);
                assert(spell_translation_entries(bs.take(i + 1)) == tprev);
            }
        }
        i = i + 1;
    }
    proof {
        assert(bs.take(blocks@.len() as int) =~= bs);
    }
}

/// The template a spell ends up with: its own, else (for at most
/// `10 - depth` more steps) that of the nearest ancestor that names one; an
/// unknown parent ends the search.
pub open spec fn template_from(t: (Seq<Seq<char>>, Seq<(Seq<char>, Seq<char>)>), template: Seq<char>, parent: Seq<char>, depth: int) -> Seq<char>
    decreases 10 - depth,
{
    if template.len() > 0 || parent.len() == 0 || depth >= 10 {
        template
    } else {
        match key_pos(t.0, parent) {
            Some(p) => template_from(t, t.1[p].1, t.1[p].0, depth + 1),
            None => template,
        }
    }
}

/// Spell `i` names a template, itself or through its ancestors.
pub open spec fn spell_has_template(t: (Seq<Seq<char>>, Seq<(Seq<char>, Seq<char>)>), i: int) -> bool {
    template_from(t, t.1[i].1, t.1[i].0, 0).len() > 0
}

/// The spells, in first-definition order, each with whether it names a
/// template (see `spell_has_template`).
pub fn build_spell_list(spells: &CsDict<(String, String)>) -> (r: Vec<SpellDefData>)
    requires
        spells.wf(),
    ensures
        r@.len() == links_table(*spells).0.len(),
        forall|i: int| 0 <= i < r@.len() ==> {
            &&& (#[trigger] r@[i]).name@ == links_table(*spells).0[i]
            &&& r@[i].has_template == spell_has_template(links_table(*spells), i)
        },
{
    let ghost t = links_table(*spells);
    proof {
        spells.lemma_keys_distinct();
    }
    let n = spells.len();
    let mut out: Vec<SpellDefData> = Vec::new();
    let mut i: usize = 0;
    while i < n
        invariant
            i <= n,
            n == t.0.len(),
            n == t.1.len(),
            spells.wf(),
            t == links_table(*spells),
            out@.len() == i,
            forall|q: int| 0 <= q < i ==> {
                &&& (#[trigger] out@[q]).name@ == t.0[q]
                &&& out@[q].has_template == spell_has_template(t, q)
            },
        decreases n - i,
    {
        let links = spells.value_at(i);
        let mut template = links.1.clone();
        let mut parent = links.0.clone();
        let mut depth: usize = 0;
        proof {
            assert(t.1[i as int] == (links.0@, links.1@));
        }
        while template.unicode_len() == 0 && parent.unicode_len() > 0 && depth < 10
            invariant
                depth <= 10,
                spells.wf(),
                t == links_table(*spells),
                n == t.0.len(),
                n == t.1.len(),
                i < n,
                template_from(t, template@, parent@, depth as int) == template_from(t, t.1[i as int].1, t.1[i as int].0, 0),
            ensures
                template@ == template_from(t, t.1[i as int].1, t.1[i as int].0, 0),
            decreases 10 - depth,
        {
            match spells.find(&parent) {
                Some(p) => {
                    let pl = spells.value_at(p);
                    proof {
                        let c = choose|q: int| 0 <= q < t.0.len() && #[trigger] t.0[q] == parent@;
                        assert(t.0[p as int] == parent@);
                        assert(c == p);
                        assert(t.1[p as int] == (pl.0@, pl.1@));
                    }
                    template = pl.1.clone();
                    parent = pl.0.clone();
                },
                None => {
                    proof {
                        assert(key_pos(t.0, parent@) is None);
                    }
                    break;
                },
            }
            depth = depth + 1;
        }
        let key = spells.key_at(i);
        out.push(SpellDefData { name: key.clone(), has_template: template.unicode_len() > 0 });
        i = i + 1;
    }
    out
}

} // verus!
