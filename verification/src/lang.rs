//! The plain-text and XML tables of the game's data files: translations,
//! name parts for NPC names, the lengths of the magic-treasure name tables,
//! and the modifier definitions.
use vstd::prelude::*;
use crate::dict::{CsDict, dict_insert, insert_entries};
use crate::npc_tables::{find_tagged, derefs, first_tagged, or_else, or_empty};
use crate::text::{ascii_fold, chars_of, eq_ascii_ci, eq_ignore_ascii_case, string_from_chars, trim_chars, trim_ws};
use crate::things::{strings_view, texts_table};
use crate::xml::{XmlElement, value_of};
use crate::xml_parse::{folded_prefix_at, starts_folded};

verus! {

/// The lines of a text, cut at `\n`, each trimmed, the empty ones left
/// out: the lines read so far from the first `n` characters, and the line
/// being read.
pub open spec fn line_fold(s: Seq<char>, n: int) -> (Seq<Seq<char>>, Seq<char>)
    decreases n,
{
    if n <= 0 {
        (Seq::empty(), Seq::empty())
    } else {
        let (done, cur) = line_fold(s, n - 1);
        if s[n - 1] == '\n' {
            (if trim_ws(cur).len() > 0 { done.push(trim_ws(cur)) } else { done }, Seq::empty())
        } else {
            (done, cur.push(s[n - 1]))
        }
    }
}

/// The non-empty lines of a text, trimmed.
pub open spec fn text_words(s: Seq<char>) -> Seq<Seq<char>> {
    let (done, cur) = line_fold(s, s.len() as int);
    if trim_ws(cur).len() > 0 {
        done.push(trim_ws(cur))
    } else {
        done
    }
}

/// The non-empty trimmed lines of a text.
pub fn words_of(s: &Vec<char>) -> (r: Vec<Vec<char>>)
    ensures
        r@.map_values(|w: Vec<char>| w@) == text_words(s@),
{
    let mut done: Vec<Vec<char>> = Vec::new();
    let mut cur: Vec<char> = Vec::new();
    let mut i: usize = 0;
    proof {
        assert(done@.map_values(|w: Vec<char>| w@) =~= Seq::<Seq<char>>::empty());
    }
    while i < s.len()
        invariant
            i <= s@.len(),
            (done@.map_values(|w: Vec<char>| w@), cur@) == line_fold(s@, i as int),
        decreases s@.len() - i,
    {
        let c = s[i];
        if c == '\n' {
            let t = trim_chars(cur.as_slice());
            if t.len() > 0 {
                let ghost before = done@;
                done.push(t);
                proof {
                    assert(done@.map_values(|w: Vec<char>| w@) =~= before.map_values(|w: Vec<char>| w@).push(t@));
                }
            }
            cur = Vec::new();
        } else {
            cur.push(c);
        }
        i = i + 1;
    }
    let t = trim_chars(cur.as_slice());
    if t.len() > 0 {
        let ghost before = done@;
        done.push(t);
        proof {
            assert(done@.map_values(|w: Vec<char>| w@) =~= before.map_values(|w: Vec<char>| w@).push(t@));
        }
    }
    done
}

/// The translations of a plain-text file: its non-empty lines taken two by
/// two as key and text (the text trimmed again); an odd last line is left
/// over.
pub open spec fn text_pairs(w: Seq<Seq<char>>, k: int) -> Seq<(Seq<char>, Seq<char>)>
    decreases k,
{
    if k <= 0 {
        Seq::empty()
    } else {
        text_pairs(w, k - 1).push((w[2 * k - 2], trim_ws(w[2 * k - 1])))
    }
}

/// Adds the translations of a plain-text file (see `text_pairs`).
pub fn add_text_translations(content: &str, translations: &mut CsDict<String>)
    requires
        old(translations).wf(),
    ensures
        final(translations).wf(),
        ({
            let w = text_words(content@);
            texts_table(*final(translations)) == insert_entries(
                texts_table(*old(translations)),
                text_pairs(w, (w.len() / 2) as int),
            )
        }),
{
    let s = chars_of(content);
    let words = words_of(&s);
    let ghost w = text_words(content@);
    let ghost t0 = texts_table(*translations);
    let mut k: usize = 0;
    while k < words.len() / 2
        invariant
            k <= words@.len() / 2,
            words@.map_values(|x: Vec<char>| x@) == w,
            translations.wf(),
            texts_table(*translations) == insert_entries(t0, text_pairs(w, k as int)),
        decreases words@.len() / 2 - k,
    {
        let key = string_from_chars(words[2 * k].as_slice());
        let vt = trim_chars(words[2 * k + 1].as_slice());
        let value = string_from_chars(vt.as_slice());
        proof {
            assert(key@ == w[2 * k as int]);
            assert(vt@ == trim_ws(w[2 * k + 1]));
        }
        let ghost g0 = *translations;
        let ghost gv = value;
        translations.insert(key, value);
        proof {
            CsDict::<String>::lemma_insert_mapped(g0, *translations, w[2 * k as int], gv, |x: String| x@);
            let es = text_pairs(w, k + 1);
            assert(es.drop_last() =~= text_pairs(w, k as int));
        }
        k = k + 1;
    }
}

/// The tags of translation elements: `Text`, `li` or `XmlText`, in any
/// ASCII case.
pub open spec fn is_text_tag(t: Seq<char>) -> bool {
    ||| eq_ascii_ci(t, "Text"@)
    ||| eq_ascii_ci(t, "li"@)
    ||| eq_ascii_ci(t, "XmlText"@)
}

/// The text a translation element gives: `DisplayName`, else `ThingName`,
/// else `Desc`, else `Text`, else its own text.
pub open spec fn element_text(b: XmlElement) -> Seq<char> {
    match or_else(
        or_else(value_of(b, "DisplayName"@), value_of(b, "ThingName"@)),
        or_else(value_of(b, "Desc"@), value_of(b, "Text"@)),
    ) {
        Some(v) => v,
        None => b.text@,
    }
}

/// The translations that visited elements give, in order: a translation
/// element with a non-empty `Name` and non-blank text gives its name and
/// trimmed text.
pub open spec fn xml_translation_entries(blocks: Seq<XmlElement>) -> Seq<(Seq<char>, Seq<char>)>
    decreases blocks.len(),
{
    if blocks.len() == 0 {
        Seq::empty()
    } else {
        let prev = xml_translation_entries(blocks.drop_last());
        let b = blocks.last();
        let key = or_empty(value_of(b, "Name"@));
        if is_text_tag(b.tag@) && key.len() > 0 && trim_ws(element_text(b)).len() > 0 {
            prev.push((key, trim_ws(element_text(b))))
        } else {
            prev
        }
    }
}

fn first_value(b: &XmlElement, keys: &[&str]) -> (r: Option<String>)
    requires
        keys@.len() == 4,
    ensures
        match r {
            Some(v) => or_else(or_else(value_of(*b, keys@[0]@), value_of(*b, keys@[1]@)), or_else(value_of(*b, keys@[2]@), value_of(*b, keys@[3]@))) == Some(v@),
            None => or_else(or_else(value_of(*b, keys@[0]@), value_of(*b, keys@[1]@)), or_else(value_of(*b, keys@[2]@), value_of(*b, keys@[3]@))) is None,
        },
{
    match b.get_val(keys[0]) {
        Some(v) => Some(v),
        None => match b.get_val(keys[1]) {
            Some(v) => Some(v),
            None => match b.get_val(keys[2]) {
                Some(v) => Some(v),
                None => b.get_val(keys[3]),
            },
        },
    }
}

/// Adds the translations of the translation elements among `blocks` (in
/// visiting order).
pub fn add_xml_translations(blocks: &Vec<&XmlElement>, translations: &mut CsDict<String>)
    requires
        old(translations).wf(),
    ensures
        final(translations).wf(),
        texts_table(*final(translations)) == insert_entries(
            texts_table(*old(translations)),
            xml_translation_entries(derefs(blocks@)),
        ),
{
    let ghost bs = derefs(blocks@);
    let ghost t0 = texts_table(*translations);
    let keys: [&str; 4] = ["DisplayName", "ThingName", "Desc", "Text"];
    let mut i: usize = 0;
    proof {
        assert(bs.take(0) =~= Seq::<XmlElement>::empty());
    }
    while i < blocks.len()
        invariant
            i <= blocks@.len(),
            bs == derefs(blocks@),
            keys@ == seq!["DisplayName", "ThingName", "Desc", "Text"],
            translations.wf(),
            texts_table(*translations) == insert_entries(t0, xml_translation_entries(bs.take(i as int))),
        decreases blocks@.len() - i,
    {
        let b: &XmlElement = blocks[i];
        let ghost prev = xml_translation_entries(bs.take(i as int));
        proof {
            assert(bs.take(i + 1).drop_last() =~= bs.take(i as int));
            assert(bs.take(i + 1).last() == *b);
        }
        let is_tag = eq_ignore_ascii_case(b.tag.as_str(), "Text") || eq_ignore_ascii_case(b.tag.as_str(), "li")
            || eq_ignore_ascii_case(b.tag.as_str(), "XmlText");
        let mut added = false;
        if is_tag {
            match b.get_val("Name") {
                Some(key) => {
                    let val = match first_value(b, keys.as_slice()) {
                        Some(v) => v,
                        None => b.text.clone(),
                    };
                    proof {
                        assert(val@ == element_text(*b));
                    }
                    let vc = chars_of(val.as_str());
                    let tc = trim_chars(vc.as_slice());
                    if key.unicode_len() > 0 && tc.len() > 0 {
                        let t = string_from_chars(tc.as_slice());
                        let ghost g0 = *translations;
                        let ghost gt = t;
                        translations.insert(key.clone(), t);
                        proof {
                            CsDict::<String>::lemma_insert_mapped(g0, *translations, key@, gt, |x: String| x@);
                            let es = xml_translation_entries(bs.take(i + 1));
                            assert(es == prev.push((key@, gt@)));
                            assert(es.drop_last() =~= prev);
                        }
                        added = true;
                    }
                },
                None => {},
            }
        }
        proof {
            if !added {
                assert(xml_translation_entries(bs.take(i + 1)) == prev);
            }
        }
        i = i + 1;
    }
    proof {
        assert(bs.take(blocks@.len() as int) =~= bs);
    }
}

/// The name holds `p` somewhere, up to ASCII case.
pub open spec fn contains_ci(name: Seq<char>, p: Seq<char>) -> bool {
    exists|j: int| #[trigger] folded_prefix_at(name, j, p)
}

/// The name ends with `p`, up to ASCII case.
pub open spec fn ends_with_ci(name: Seq<char>, p: Seq<char>) -> bool {
    folded_prefix_at(name, name.len() - p.len(), p)
}

fn contains_folded(name: &Vec<char>, pat: &str) -> (r: bool)
    ensures
        r == contains_ci(name@, pat@),
{
    let p = chars_of(pat);
    let n = name.len();
    let mut j: usize = 0;
    loop
        invariant
            j <= n,
            n == name@.len(),
            p@ == pat@,
            forall|q: int| 0 <= q < j ==> !#[trigger] folded_prefix_at(name@, q, pat@),
        ensures
            forall|q: int| 0 <= q <= n ==> !#[trigger] folded_prefix_at(name@, q, pat@),
        decreases n - j,
    {
        if starts_folded(name, j, p.as_slice()) {
            return true;
        }
        if j == n {
            break;
        }
        j = j + 1;
    }
    proof {
        assert forall|q: int| !#[trigger] folded_prefix_at(name@, q, pat@) by {
            if 0 <= q <= n as int {
            }
        }
    }
    false
}

fn ends_with_folded(name: &Vec<char>, pat: &str) -> (r: bool)
    ensures
        r == ends_with_ci(name@, pat@),
{
    let p = chars_of(pat);
    if p.len() > name.len() {
        return false;
    }
    starts_folded(name, name.len() - p.len(), p.as_slice())
}

/// Name files whose name holds one of these words hold other names.
pub open spec fn skipped_name_file(f: Seq<char>) -> bool {
    ||| contains_ci(f, "school"@)
    ||| contains_ci(f, "city"@)
    ||| contains_ci(f, "place"@)
    ||| contains_ci(f, "randomgong"@)
    ||| contains_ci(f, "naught"@)
    ||| contains_ci(f, "panda"@)
    ||| contains_ci(f, "yaoguai"@)
    ||| contains_ci(f, "animal"@)
    ||| contains_ci(f, "monster"@)
    ||| contains_ci(f, "tradename"@)
}

/// A file of female given names.
pub open spec fn female_file(f: Seq<char>) -> bool {
    ||| contains_ci(f, "fsuffix"@)
    ||| ends_with_ci(f, "f.txt"@)
    ||| contains_ci(f, "suffixnamef"@)
    ||| contains_ci(f, "_f"@)
    ||| contains_ci(f, "female"@)
}

/// A file of male given names.
pub open spec fn male_file(f: Seq<char>) -> bool {
    &&& !female_file(f)
    &&& {
        ||| contains_ci(f, "msuffix"@)
        ||| ends_with_ci(f, "m.txt"@)
        ||| contains_ci(f, "suffixnamem"@)
        ||| contains_ci(f, "_m"@)
        ||| contains_ci(f, "male"@)
    }
}

/// The characters cut from both ends of a name: byte-order mark, space,
/// tab and quote.
pub open spec fn is_name_pad(c: char) -> bool {
    c == '\u{feff}' || c == ' ' || c == '\t' || c == '"'
}

/// The index of the first non-pad character from `i` on.
pub open spec fn pad_lead(s: Seq<char>, i: int) -> int
    decreases s.len() - i,
{
    if 0 <= i < s.len() && is_name_pad(s[i]) {
        pad_lead(s, i + 1)
    } else {
        i
    }
}

/// The end of `s[lo..j]` without its trailing pad characters.
pub open spec fn pad_trail(s: Seq<char>, lo: int, j: int) -> int
    decreases j - lo,
{
    if lo < j && is_name_pad(s[j - 1]) {
        pad_trail(s, lo, j - 1)
    } else {
        j
    }
}

/// The index of the first `,` or tab from `i` on, or the length.
pub open spec fn field_end(s: Seq<char>, i: int) -> int
    decreases s.len() - i,
{
    if 0 <= i < s.len() && !(s[i] == ',' || s[i] == '\t') {
        field_end(s, i + 1)
    } else {
        i
    }
}

/// The name a line of a name file gives: its first field (before any `,`
/// or tab) without pad characters at either end.
pub open spec fn line_name(line: Seq<char>) -> Seq<char> {
    let head = line.take(field_end(line, 0));
    let lo = pad_lead(head, 0);
    head.subrange(lo, pad_trail(head, lo, head.len() as int))
}

/// A name is kept when it is not empty and not a comment.
pub open spec fn keeps_name(w: Seq<char>) -> bool {
    w.len() > 0 && !(w.len() >= 2 && w[0] == '/' && w[1] == '/')
}

/// The names of the pieces (cut at `\n` and `\r`) read from the first `n`
/// characters, and the piece being read.
pub open spec fn name_fold(s: Seq<char>, n: int) -> (Seq<Seq<char>>, Seq<char>)
    decreases n,
{
    if n <= 0 {
        (Seq::empty(), Seq::empty())
    } else {
        let (done, cur) = name_fold(s, n - 1);
        if s[n - 1] == '\n' || s[n - 1] == '\r' {
            (if keeps_name(line_name(cur)) { done.push(line_name(cur)) } else { done }, Seq::empty())
        } else {
            (done, cur.push(s[n - 1]))
        }
    }
}

/// The names of a name file.
pub open spec fn file_names(s: Seq<char>) -> Seq<Seq<char>> {
    let (done, cur) = name_fold(s, s.len() as int);
    if keeps_name(line_name(cur)) {
        done.push(line_name(cur))
    } else {
        done
    }
}

fn name_of_line(line: &Vec<char>) -> (r: Vec<char>)
    ensures
        r@ == line_name(line@),
{
    let mut end: usize = 0;
    while end < line.len() && !(line[end] == ',' || line[end] == '\t')
        invariant
            end <= line@.len(),
            field_end(line@, 0) == field_end(line@, end as int),
        decreases line@.len() - end,
    {
        end = end + 1;
    }
    let ghost head = line@.take(end as int);
    let mut lo: usize = 0;
    while lo < end && (line[lo] == '\u{feff}' || line[lo] == ' ' || line[lo] == '\t' || line[lo] == '"')
        invariant
            lo <= end <= line@.len(),
            head == line@.take(end as int),
            pad_lead(head, 0) == pad_lead(head, lo as int),
        decreases end - lo,
    {
        lo = lo + 1;
    }
    let mut hi: usize = end;
    while hi > lo && (line[hi - 1] == '\u{feff}' || line[hi - 1] == ' ' || line[hi - 1] == '\t' || line[hi - 1] == '"')
        invariant
            lo <= hi <= end <= line@.len(),
            head == line@.take(end as int),
            pad_trail(head, lo as int, head.len() as int) == pad_trail(head, lo as int, hi as int),
        decreases hi - lo,
    {
        hi = hi - 1;
    }
    let mut r: Vec<char> = Vec::new();
    let mut i: usize = lo;
    while i < hi
        invariant
            lo <= i <= hi <= end <= line@.len(),
            head == line@.take(end as int),
            r@ == head.subrange(lo as int, i as int),
        decreases hi - i,
    {
        r.push(line[i]);
        i = i + 1;
        proof {
            assert(r@ =~= head.subrange(lo as int, i as int));
        }
    }
    r
}

fn keep_name(w: &Vec<char>) -> (r: bool)
    ensures
        r == keeps_name(w@),
{
    w.len() > 0 && !(w.len() >= 2 && w[0] == '/' && w[1] == '/')
}

/// The names of a name file (see `file_names`).
pub fn names_of_file(content: &str) -> (r: Vec<String>)
    ensures
        strings_view(r@) == file_names(content@),
{
    let s = chars_of(content);
    let mut done: Vec<String> = Vec::new();
    let mut cur: Vec<char> = Vec::new();
    let mut i: usize = 0;
    proof {
        assert(strings_view(done@) =~= Seq::<Seq<char>>::empty());
    }
    while i < s.len()
        invariant
            i <= s@.len(),
            s@ == content@,
            (strings_view(done@), cur@) == name_fold(s@, i as int),
        decreases s@.len() - i,
    {
        let c = s[i];
        if c == '\n' || c == '\r' {
            let w = name_of_line(&cur);
            if keep_name(&w) {
                let ghost before = done@;
                let ws = string_from_chars(w.as_slice());
                done.push(ws);
                proof {
                    assert(strings_view(done@) =~= strings_view(before).push(w@));
                }
            }
            cur = Vec::new();
        } else {
            cur.push(c);
        }
        i = i + 1;
    }
    let w = name_of_line(&cur);
    if keep_name(&w) {
        let ghost before = done@;
        let ws = string_from_chars(w.as_slice());
        done.push(ws);
        proof {
            assert(strings_view(done@) =~= strings_view(before).push(w@));
        }
    }
    done
}

/// The name parts that NPC names are made of.
pub struct NameLists {
    pub names_prefix: Vec<String>,
    pub names_m_suffix: Vec<String>,
    pub names_f_suffix: Vec<String>,
}

/// The name lists after a name file: a file of surnames (`prefix` in its
/// name) adds to the surnames, a male or female file to its list, another
/// `suffix` file to both given-name lists; other files and skipped ones add
/// nothing.
pub open spec fn lists_after(
    l: (Seq<Seq<char>>, Seq<Seq<char>>, Seq<Seq<char>>),
    fname: Seq<char>,
    words: Seq<Seq<char>>,
) -> (Seq<Seq<char>>, Seq<Seq<char>>, Seq<Seq<char>>) {
    if skipped_name_file(fname) {
        l
    } else if contains_ci(fname, "prefix"@) {
        (l.0 + words, l.1, l.2)
    } else if male_file(fname) {
        (l.0, l.1 + words, l.2)
    } else if female_file(fname) {
        (l.0, l.1, l.2 + words)
    } else if contains_ci(fname, "suffix"@) {
        (l.0, l.1 + words, l.2 + words)
    } else {
        l
    }
}

/// The lists as texts.
pub open spec fn lists_of(n: NameLists) -> (Seq<Seq<char>>, Seq<Seq<char>>, Seq<Seq<char>>) {
    (strings_view(n.names_prefix@), strings_view(n.names_m_suffix@), strings_view(n.names_f_suffix@))
}

fn extend_strings(v: &mut Vec<String>, w: &Vec<String>)
    ensures
        strings_view(final(v)@) == strings_view(old(v)@) + strings_view(w@),
{
    let mut i: usize = 0;
    while i < w.len()
        invariant
            i <= w@.len(),
            strings_view(v@) == strings_view(old(v)@) + strings_view(w@.take(i as int)),
        decreases w@.len() - i,
    {
        let ghost before = v@;
        v.push(w[i].clone());
        proof {
            assert(strings_view(v@) =~= strings_view(before).push(w@[i as int]@));
            assert(strings_view(w@.take(i + 1)) =~= strings_view(w@.take(i as int)).push(w@[i as int]@));
        }
        i = i + 1;
    }
    proof {
        assert(w@.take(w@.len() as int) =~= w@);
    }
}

impl NameLists {
    /// Empty lists.
    pub fn new() -> (r: NameLists)
        ensures
            lists_of(r) == (Seq::<Seq<char>>::empty(), Seq::<Seq<char>>::empty(), Seq::<Seq<char>>::empty()),
    {
        let r = NameLists { names_prefix: Vec::new(), names_m_suffix: Vec::new(), names_f_suffix: Vec::new() };
        proof {
            assert(strings_view(r.names_prefix@) =~= Seq::<Seq<char>>::empty());
            assert(strings_view(r.names_m_suffix@) =~= Seq::<Seq<char>>::empty());
            assert(strings_view(r.names_f_suffix@) =~= Seq::<Seq<char>>::empty());
        }
        r
    }

    /// Reads a name file named `fname` (see `lists_after`).
    pub fn add_file(&mut self, fname: &str, content: &str)
        ensures
            lists_of(*final(self)) == lists_after(lists_of(*old(self)), fname@, file_names(content@)),
    {
        let f = chars_of(fname);
        let skipped = contains_folded(&f, "school") || contains_folded(&f, "city") || contains_folded(&f, "place")
            || contains_folded(&f, "randomgong") || contains_folded(&f, "naught") || contains_folded(&f, "panda")
            || contains_folded(&f, "yaoguai") || contains_folded(&f, "animal") || contains_folded(&f, "monster")
            || contains_folded(&f, "tradename");
        if skipped {
            return;
        }
        let words = names_of_file(content);
        let is_f = contains_folded(&f, "fsuffix") || ends_with_folded(&f, "f.txt") || contains_folded(&f, "suffixnamef")
            || contains_folded(&f, "_f") || contains_folded(&f, "female");
        let is_m = !is_f && (contains_folded(&f, "msuffix") || ends_with_folded(&f, "m.txt") || contains_folded(
            &f,
            "suffixnamem",
        ) || contains_folded(&f, "_m") || contains_folded(&f, "male"));
        if contains_folded(&f, "prefix") {
            extend_strings(&mut self.names_prefix, &words);
        } else if is_m {
            extend_strings(&mut self.names_m_suffix, &words);
        } else if is_f {
            extend_strings(&mut self.names_f_suffix, &words);
        } else if contains_folded(&f, "suffix") {
            extend_strings(&mut self.names_m_suffix, &words);
            extend_strings(&mut self.names_f_suffix, &words);
        }
    }
}

/// The second tab-separated field of a line, if it has one.
pub open spec fn second_field(line: Seq<char>) -> Option<Seq<char>> {
    match first_index_of(line, '\t', 0) {
        Some(a) => {
            let rest = line.skip(a + 1);
            match first_index_of(rest, '\t', 0) {
                Some(b) => Some(rest.take(b)),
                None => Some(rest),
            }
        },
        None => None,
    }
}

/// The first position of `c` from `i` on.
pub open spec fn first_index_of(s: Seq<char>, c: char, i: int) -> Option<int>
    decreases s.len() - i,
{
    if i < 0 || i >= s.len() {
        None
    } else if s[i] == c {
        Some(i)
    } else {
        first_index_of(s, c, i + 1)
    }
}

/// The number of `,` in a text.
pub open spec fn comma_count(s: Seq<char>, n: int) -> int
    decreases n,
{
    if n <= 0 {
        0
    } else {
        comma_count(s, n - 1) + if s[n - 1] == ',' { 1int } else { 0int }
    }
}

/// The lines of a text, cut at `\n`.
pub open spec fn split_lines(s: Seq<char>, n: int) -> (Seq<Seq<char>>, Seq<char>)
    decreases n,
{
    if n <= 0 {
        (Seq::empty(), Seq::empty())
    } else {
        let (done, cur) = split_lines(s, n - 1);
        if s[n - 1] == '\n' {
            (done.push(cur), Seq::empty())
        } else {
            (done, cur.push(s[n - 1]))
        }
    }
}

/// All lines of a text.
pub open spec fn all_lines(s: Seq<char>) -> Seq<Seq<char>> {
    split_lines(s, s.len() as int).0.push(split_lines(s, s.len() as int).1)
}

/// The name-table lengths of a file's lines: line `i` (counted from 1) with
/// a second tab-separated field gives the number of comma-separated names in
/// it (number and count taken as `i32`, wrapping).
pub open spec fn fabao_entries(lines: Seq<Seq<char>>) -> Seq<(i32, i32)>
    decreases lines.len(),
{
    if lines.len() == 0 {
        Seq::empty()
    } else {
        let prev = fabao_entries(lines.drop_last());
        let n = lines.len() - 1;
        match second_field(lines.last()) {
            Some(f) => prev.push((
                vstd::wrapping::i32_specs::wrapping_add(n as i32, 1),
                vstd::wrapping::i32_specs::wrapping_add(comma_count(f, f.len() as int) as i32, 1),
            )),
            None => prev,
        }
    }
}

/// Pairs entered one after another into an association list.
pub open spec fn fold_assoc(es: Seq<(i32, i32)>) -> Seq<(i32, i32)>
    decreases es.len(),
{
    if es.len() == 0 {
        Seq::empty()
    } else {
        crate::npc_tables::assoc_set(fold_assoc(es.drop_last()), es.last().0, es.last().1)
    }
}

/// The name-table lengths of a file, keyed by line, as a map: a key seen
/// again takes the later count.
pub open spec fn fabao_lengths_of(s: Seq<char>) -> Seq<(i32, i32)> {
    fold_assoc(fabao_entries(all_lines(s)))
}

fn find_char(s: &Vec<char>, c: char, from: usize) -> (r: Option<usize>)
    requires
        from <= s@.len(),
    ensures
        match r {
            Some(i) => first_index_of(s@, c, from as int) == Some(i as int) && from <= i < s@.len(),
            None => first_index_of(s@, c, from as int) is None,
        },
{
    let mut i: usize = from;
    while i < s.len()
        invariant
            from <= i <= s@.len(),
            first_index_of(s@, c, from as int) == first_index_of(s@, c, i as int),
        decreases s@.len() - i,
    {
        if s[i] == c {
            return Some(i);
        }
        i = i + 1;
    }
    None
}

proof fn lemma_index_shift(s: Seq<char>, c: char, k: int, i: int)
    requires
        0 <= k <= s.len(),
        0 <= i,
    ensures
        first_index_of(s.skip(k), c, i) == match first_index_of(s, c, k + i) {
            Some(j) => Some(j - k),
            None => None::<int>,
        },
    decreases s.len() - k - i,
{
    if k + i < s.len() && s[k + i] != c {
        lemma_index_shift(s, c, k, i + 1);
    }
}

fn set_length(l: &mut Vec<(i32, i32)>, k: i32, v: i32)
    ensures
        final(l)@ == crate::npc_tables::assoc_set(old(l)@, k, v),
{
    let mut i: usize = 0;
    while i < l.len()
        invariant
            i <= l@.len(),
            l@ == old(l)@,
            crate::npc_tables::first_key(l@, k, 0) == crate::npc_tables::first_key(l@, k, i as int),
        decreases l@.len() - i,
    {
        if l[i].0 == k {
            l.set(i, (k, v));
            return;
        }
        i = i + 1;
    }
    l.push((k, v));
}

/// The lines of a text, cut at `\n` (see `all_lines`).
pub fn lines_of(s: &Vec<char>) -> (r: Vec<Vec<char>>)
    ensures
        r@.map_values(|w: Vec<char>| w@) == all_lines(s@),
{
    let mut done: Vec<Vec<char>> = Vec::new();
    let mut cur: Vec<char> = Vec::new();
    let mut i: usize = 0;
    proof {
        assert(done@.map_values(|w: Vec<char>| w@) =~= Seq::<Seq<char>>::empty());
    }
    while i < s.len()
        invariant
            i <= s@.len(),
            (done@.map_values(|w: Vec<char>| w@), cur@) == split_lines(s@, i as int),
        decreases s@.len() - i,
    {
        if s[i] == '\n' {
            let ghost before = done@;
            let ghost c = cur@;
            done.push(cur);
            proof {
                assert(done@.map_values(|w: Vec<char>| w@) =~= before.map_values(|w: Vec<char>| w@).push(c));
            }
            cur = Vec::new();
        } else {
            cur.push(s[i]);
        }
        i = i + 1;
    }
    let ghost before = done@;
    let ghost c = cur@;
    done.push(cur);
    proof {
        assert(done@.map_values(|w: Vec<char>| w@) =~= before.map_values(|w: Vec<char>| w@).push(c));
    }
    done
}

fn second_field_commas(line: &Vec<char>) -> (r: Option<usize>)
    ensures
        match second_field(line@) {
            Some(f) => r is Some && r->0 as int == comma_count(f, f.len() as int),
            None => r is None,
        },
{
    let n = line.len();
    match find_char(line, '\t', 0) {
        Some(a) => {
            let b = match find_char(line, '\t', a + 1) {
                Some(b) => b,
                None => line.len(),
            };
            let ghost f = line@.subrange(a + 1, b as int);
            let mut commas: usize = 0;
            let mut q: usize = a + 1;
            while q < b
                invariant
                    a + 1 <= q <= b <= line@.len(),
                    f == line@.subrange(a + 1, b as int),
                    commas == comma_count(f, q - a - 1),
                    commas <= q - a - 1,
                decreases b - q,
            {
                proof {
                    assert(f[q - a - 1] == line@[q as int]);
                }
                if line[q] == ',' {
                    commas = commas + 1;
                }
                q = q + 1;
            }
            proof {
                let rest = line@.skip(a + 1);
                lemma_index_shift(line@, '\t', a + 1, 0);
                if b < line@.len() {
                    assert(rest.take(b - a - 1) =~= f);
                } else {
                    assert(rest =~= f);
                }
            }
            Some(commas)
        },
        None => None,
    }
}

/// The name-table lengths of a file (see `fabao_lengths_of`).
pub fn fabao_lengths(content: &str) -> (r: Vec<(i32, i32)>)
    ensures
        r@ == fabao_lengths_of(content@),
{
    let s = chars_of(content);
    let lines = lines_of(&s);
    let ghost ls = all_lines(s@);
    let mut out: Vec<(i32, i32)> = Vec::new();
    let mut k: usize = 0;
    proof {
        assert(ls.take(0) =~= Seq::<Seq<char>>::empty());
    }
    while k < lines.len()
        invariant
            k <= lines@.len(),
            lines@.map_values(|w: Vec<char>| w@) == ls,
            out@ == fold_assoc(fabao_entries(ls.take(k as int))),
        decreases lines@.len() - k,
    {
        proof {
            assert(ls.take(k + 1).drop_last() =~= ls.take(k as int));
            assert(ls.take(k + 1).last() == lines@[k as int]@);
        }
        match second_field_commas(&lines[k]) {
            Some(c) => {
                let key = (k as i32).wrapping_add(1);
                let count = (c as i32).wrapping_add(1);
                proof {
                    let f = second_field(lines@[k as int]@)->0;
                    let es = fabao_entries(ls.take(k + 1));
                    assert(key == vstd::wrapping::i32_specs::wrapping_add(k as i32, 1));
                    assert(c as int == comma_count(f, f.len() as int));
                    assert((c as i32) == (comma_count(f, f.len() as int) as i32));
                    assert(count == vstd::wrapping::i32_specs::wrapping_add(comma_count(f, f.len() as int) as i32, 1));
                    assert(es == fabao_entries(ls.take(k as int)).push((key, count)));
                    assert(es.drop_last() =~= fabao_entries(ls.take(k as int)));
                    assert(es.last() == (key, count));
                }
                set_length(&mut out, key, count);
            },
            None => {
                proof {
                    assert(fabao_entries(ls.take(k + 1)) == fabao_entries(ls.take(k as int)));
                }
            },
        }
        k = k + 1;
    }
    proof {
        assert(ls.take(lines@.len() as int) =~= ls);
    }
    out
}

/// A modifier definition as read: its name and its properties, each with
/// its name and the texts of its additive and proportional bonuses (their
/// numbers are read separately).
pub struct ModifierRecord {
    pub name: String,
    pub properties: Vec<(String, Option<String>, Option<String>)>,
}

/// A property as values.
pub type PropertyView = (Seq<char>, Option<Seq<char>>, Option<Seq<char>>);

/// The properties as values.
pub open spec fn props_view(v: Seq<(String, Option<String>, Option<String>)>) -> Seq<PropertyView> {
    v.map_values(|p: (String, Option<String>, Option<String>)| (p.0@, crate::things::opt_view(p.1), crate::things::opt_view(p.2)))
}

/// The properties among the first `n` children of a `Properties` element:
/// each `li` with a non-empty `Name`, with its `AddV` and `AddP` texts.
pub open spec fn props_of(children: Seq<XmlElement>, n: int) -> Seq<PropertyView>
    decreases n,
{
    if n <= 0 {
        Seq::empty()
    } else {
        let prev = props_of(children, n - 1);
        let c = children[n - 1];
        let name = or_empty(value_of(c, "Name"@));
        if eq_ascii_ci(c.tag@, "li"@) && name.len() > 0 {
            prev.push((name, value_of(c, "AddV"@), value_of(c, "AddP"@)))
        } else {
            prev
        }
    }
}

/// The tags of modifier elements: `Modifier`, `ModifierDef` or `li`, in
/// any ASCII case.
pub open spec fn is_modifier_tag(t: Seq<char>) -> bool {
    ||| eq_ascii_ci(t, "Modifier"@)
    ||| eq_ascii_ci(t, "ModifierDef"@)
    ||| eq_ascii_ci(t, "li"@)
}

/// The properties of a modifier element: those of its first `Properties`
/// child.
pub open spec fn modifier_props(b: XmlElement) -> Seq<PropertyView> {
    match first_tagged(b.children@, "Properties"@, 0) {
        Some(j) => props_of(b.children@[j].children@, b.children@[j].children@.len() as int),
        None => Seq::empty(),
    }
}

/// The modifiers that visited elements define, in order: a modifier element
/// with a `Name` (even an empty one) gives that name and its properties.
pub open spec fn modifier_entries(blocks: Seq<XmlElement>) -> Seq<(Seq<char>, Seq<PropertyView>)>
    decreases blocks.len(),
{
    if blocks.len() == 0 {
        Seq::empty()
    } else {
        let prev = modifier_entries(blocks.drop_last());
        let b = blocks.last();
        if is_modifier_tag(b.tag@) && value_of(b, "Name"@) is Some {
            prev.push((value_of(b, "Name"@)->0, modifier_props(b)))
        } else {
            prev
        }
    }
}

/// The modifiers of a dictionary as values.
pub open spec fn modifiers_table(d: CsDict<ModifierRecord>) -> (Seq<Seq<char>>, Seq<Seq<PropertyView>>) {
    (d.keys_view(), d.values_view().map_values(|m: ModifierRecord| props_view(m.properties@)))
}

fn properties_of(props: &XmlElement) -> (r: Vec<(String, Option<String>, Option<String>)>)
    ensures
        props_view(r@) == props_of(props.children@, props.children@.len() as int),
{
    let mut out: Vec<(String, Option<String>, Option<String>)> = Vec::new();
    let mut i: usize = 0;
    proof {
        assert(props_view(out@) =~= Seq::<PropertyView>::empty());
    }
    while i < props.children.len()
        invariant
            i <= props.children@.len(),
            props_view(out@) == props_of(props.children@, i as int),
        decreases props.children@.len() - i,
    {
        let c = &props.children[i];
        let name = match c.get_val("Name") {
            Some(v) => v,
            None => String::new(),
        };
        if eq_ignore_ascii_case(c.tag.as_str(), "li") && name.unicode_len() > 0 {
            let add_v = c.get_val("AddV");
            let add_p = c.get_val("AddP");
            let ghost before = out@;
            let ghost item = (name, add_v, add_p);
            out.push((name, add_v, add_p));
            proof {
                assert(props_view(out@) =~= props_view(before).push((item.0@, crate::things::opt_view(item.1), crate::things::opt_view(item.2))));
            }
        }
        i = i + 1;
    }
    out
}

/// Reads the modifier elements among `blocks` (in visiting order) into
/// `defs` (see `modifier_entries`).
pub fn collect_modifiers(blocks: &Vec<&XmlElement>, defs: &mut CsDict<ModifierRecord>)
    requires
        old(defs).wf(),
    ensures
        final(defs).wf(),
        modifiers_table(*final(defs)) == insert_entries(modifiers_table(*old(defs)), modifier_entries(derefs(blocks@))),
{
    let ghost bs = derefs(blocks@);
    let ghost d0 = modifiers_table(*defs);
    let mut i: usize = 0;
    proof {
        assert(bs.take(0) =~= Seq::<XmlElement>::empty());
    }
    while i < blocks.len()
        invariant
            i <= blocks@.len(),
            bs == derefs(blocks@),
            defs.wf(),
            modifiers_table(*defs) == insert_entries(d0, modifier_entries(bs.take(i as int))),
        decreases blocks@.len() - i,
    {
        let b: &XmlElement = blocks[i];
        let ghost prev = modifier_entries(bs.take(i as int));
        proof {
            assert(bs.take(i + 1).drop_last() =~= bs.take(i as int));
            assert(bs.take(i + 1).last() == *b);
        }
        let is_tag = eq_ignore_ascii_case(b.tag.as_str(), "Modifier") || eq_ignore_ascii_case(b.tag.as_str(), "ModifierDef")
            || eq_ignore_ascii_case(b.tag.as_str(), "li");
        let mut added = false;
        if is_tag {
            match b.get_val("Name") {
                Some(name) => {
                    let properties = match find_tagged(&b.children, "Properties") {
                        Some(j) => properties_of(&b.children[j]),
                        None => Vec::new(),
                    };
                    proof {
                        if first_tagged(b.children@, "Properties"@, 0) is None {
                            assert(props_view(properties@) =~= Seq::<PropertyView>::empty());
                        }
                    }
                    let rec = ModifierRecord { name: name.clone(), properties };
                    let ghost g0 = *defs;
                    let ghost gr = rec;
                    defs.insert(name, rec);
                    proof {
                        CsDict::<ModifierRecord>::lemma_insert_mapped(g0, *defs, gr.name@, gr, |m: ModifierRecord| props_view(m.properties@));
                        let es = modifier_entries(bs.take(i + 1));
                        assert(es == prev.push((gr.name@, modifier_props(*b))));
                        assert(es.drop_last() =~= prev);
                    }
                    added = true;
                },
                None => {},
            }
        }
        proof {
            if !added {
                assert(modifier_entries(bs.take(i + 1)) == prev);
            }
        }
        i = i + 1;
    }
    proof {
        assert(bs.take(blocks@.len() as int) =~= bs);
    }
}


} // verus!
