//! A small XML element tree.
use vstd::prelude::*;
use crate::text::{ascii_fold, chars_of, eq_ascii_ci, eq_ignore_ascii_case};

verus! {

/// One XML element: its local tag name, its attributes in the order they were
/// first given, its trimmed text and its child elements.
pub struct XmlElement {
    pub tag: String,
    pub attributes: Vec<(String, String)>,
    pub text: String,
    pub children: Vec<XmlElement>,
}

/// The attributes as pairs of character sequences.
pub open spec fn attrs_view(a: Seq<(String, String)>) -> Seq<(Seq<char>, Seq<char>)> {
    a.map_values(|p: (String, String)| (p.0@, p.1@))
}

/// Two elements hold the same tag, attributes, text and, recursively, children.
pub open spec fn same_element(a: XmlElement, b: XmlElement) -> bool
    decreases a, a.children@.len() + 1,
{
    &&& a.tag@ == b.tag@
    &&& a.text@ == b.text@
    &&& attrs_view(a.attributes@) == attrs_view(b.attributes@)
    &&& same_children_from(a, b, 0)
}

/// The children of `a` from index `i` on are the same elements as those of
/// `b`, and the two have as many children.
pub open spec fn same_children_from(a: XmlElement, b: XmlElement, i: int) -> bool
    decreases a, a.children@.len() - i,
{
    if i < 0 || i >= a.children@.len() {
        a.children@.len() == b.children@.len()
    } else {
        &&& i < b.children@.len()
        &&& same_element(a.children@[i], b.children@[i])
        &&& same_children_from(a, b, i + 1)
    }
}

/// Children that match one by one make `same_children_from` hold.
proof fn lemma_same_children(a: XmlElement, b: XmlElement, i: int)
    requires
        0 <= i <= a.children@.len(),
        a.children@.len() == b.children@.len(),
        forall|q: int| 0 <= q < a.children@.len() ==> #[trigger] same_element(a.children@[q], b.children@[q]),
    ensures
        same_children_from(a, b, i),
    decreases a.children@.len() - i,
{
    if i < a.children@.len() {
        assert(same_element(a.children@[i], b.children@[i]));
        lemma_same_children(a, b, i + 1);
    }
}


/// The value of the first attribute, from index `i` on, whose name matches
/// `key` up to ASCII case.
pub open spec fn attr_value_from(attrs: Seq<(Seq<char>, Seq<char>)>, key: Seq<char>, i: int) -> Option<Seq<char>>
    decreases attrs.len() - i,
{
    if i < 0 || i >= attrs.len() {
        None
    } else if eq_ascii_ci(attrs[i].0, key) {
        Some(attrs[i].1)
    } else {
        attr_value_from(attrs, key, i + 1)
    }
}

/// The text of the first child, from index `i` on, whose tag matches `key` up
/// to ASCII case and whose text is not empty.
pub open spec fn child_text_from(children: Seq<XmlElement>, key: Seq<char>, i: int) -> Option<Seq<char>>
    decreases children.len() - i,
{
    if i < 0 || i >= children.len() {
        None
    } else if eq_ascii_ci(children[i].tag@, key) && children[i].text@.len() > 0 {
        Some(children[i].text@)
    } else {
        child_text_from(children, key, i + 1)
    }
}

/// The value of `key` on an element: a matching attribute first, else the
/// text of a matching child element.
pub open spec fn value_of(e: XmlElement, key: Seq<char>) -> Option<Seq<char>> {
    match attr_value_from(attrs_view(e.attributes@), key, 0) {
        Some(v) => Some(v),
        None => child_text_from(e.children@, key, 0),
    }
}

/// Elements that are the same have the same values.
pub proof fn lemma_same_value(a: XmlElement, b: XmlElement, key: Seq<char>)
    requires
        same_element(a, b),
    ensures
        value_of(a, key) == value_of(b, key),
{
    lemma_same_child_text(a, b, key, 0);
}

proof fn lemma_same_child_text(a: XmlElement, b: XmlElement, key: Seq<char>, i: int)
    requires
        0 <= i,
        same_children_from(a, b, i),
    ensures
        child_text_from(a.children@, key, i) == child_text_from(b.children@, key, i),
    decreases a.children@.len() - i,
{
    if i < a.children@.len() {
        assert(same_element(a.children@[i], b.children@[i]));
        lemma_same_child_text(a, b, key, i + 1);
    }
}

/// The tag of a list entry: `li`, `Item` or `Stuff`, in any ASCII case.
pub open spec fn is_list_entry(e: XmlElement) -> bool {
    ||| eq_ascii_ci(e.tag@, seq!['l', 'i'])
    ||| eq_ascii_ci(e.tag@, seq!['i', 't', 'e', 'm'])
    ||| eq_ascii_ci(e.tag@, seq!['s', 't', 'u', 'f', 'f'])
}

/// The list entries among the first `n` elements of `s`, in order.
pub open spec fn list_entries(s: Seq<XmlElement>, n: int) -> Seq<XmlElement>
    decreases n,
{
    if n <= 0 {
        Seq::empty()
    } else if is_list_entry(s[n - 1]) {
        list_entries(s, n - 1).push(s[n - 1])
    } else {
        list_entries(s, n - 1)
    }
}

/// What `get_list` gathers from the first `n` children: for each child whose
/// tag matches `key`, its list entries, or the child itself when it has none.
pub open spec fn list_sources(children: Seq<XmlElement>, key: Seq<char>, n: int) -> Seq<XmlElement>
    decreases n,
{
    if n <= 0 {
        Seq::empty()
    } else {
        let prev = list_sources(children, key, n - 1);
        let c = children[n - 1];
        if eq_ascii_ci(c.tag@, key) {
            let es = list_entries(c.children@, c.children@.len() as int);
            if es.len() > 0 {
                prev + es
            } else {
                prev.push(c)
            }
        } else {
            prev
        }
    }
}

/// The names `li`, `Item` and `Stuff` as their characters.
proof fn lemma_entry_names(t: Seq<char>)
    ensures
        eq_ascii_ci(t, "li"@) == eq_ascii_ci(t, seq!['l', 'i']),
        eq_ascii_ci(t, "Item"@) == eq_ascii_ci(t, seq!['i', 't', 'e', 'm']),
        eq_ascii_ci(t, "Stuff"@) == eq_ascii_ci(t, seq!['s', 't', 'u', 'f', 'f']),
{
    reveal_strlit("li");
    reveal_strlit("Item");
    reveal_strlit("Stuff");
    assert(ascii_fold('I') == ascii_fold('i'));
    assert(ascii_fold('S') == ascii_fold('s'));
}

impl XmlElement {
    /// The value of `key`: the first attribute whose name matches it up to
    /// ASCII case, else the non-empty text of the first child element whose
    /// tag matches it.
    pub fn get_val(&self, key: &str) -> (r: Option<String>)
        ensures
            match r {
                Some(v) => value_of(*self, key@) == Some(v@),
                None => value_of(*self, key@) is None,
            },
    {
        let k = chars_of(key);
        let mut i: usize = 0;
        while i < self.attributes.len()
            invariant
                i <= self.attributes@.len(),
                k@ == key@,
                attr_value_from(attrs_view(self.attributes@), key@, 0) == attr_value_from(attrs_view(self.attributes@), key@, i as int),
            decreases self.attributes@.len() - i,
        {
            let name = chars_of(self.attributes[i].0.as_str());
            if crate::text::chars_eq_ascii_ci(name.as_slice(), k.as_slice()) {
                return Some(self.attributes[i].1.clone());
            }
            i = i + 1;
        }
        let mut j: usize = 0;
        while j < self.children.len()
            invariant
                j <= self.children@.len(),
                k@ == key@,
                attr_value_from(attrs_view(self.attributes@), key@, 0) is None,
                child_text_from(self.children@, key@, 0) == child_text_from(self.children@, key@, j as int),
            decreases self.children@.len() - j,
        {
            let child = &self.children[j];
            let tag = chars_of(child.tag.as_str());
            if crate::text::chars_eq_ascii_ci(tag.as_slice(), k.as_slice()) {
                if child.text.unicode_len() > 0 {
                    return Some(child.text.clone());
                }
            }
            j = j + 1;
        }
        None
    }

    /// The entries of the lists named `key`: for each child element whose tag
    /// matches `key` up to ASCII case, copies of its `li`, `Item` and `Stuff`
    /// children, or a copy of the child itself when it has none of them.
    pub fn get_list(&self, key: &str) -> (r: Vec<XmlElement>)
        ensures
            r@.len() == list_sources(self.children@, key@, self.children@.len() as int).len(),
            forall|q: int|
                0 <= q < r@.len() ==> #[trigger] same_element(
                    r@[q],
                    list_sources(self.children@, key@, self.children@.len() as int)[q],
                ),
    {
        let k = chars_of(key);
        let mut res: Vec<XmlElement> = Vec::new();
        let mut i: usize = 0;
        while i < self.children.len()
            invariant
                i <= self.children@.len(),
                k@ == key@,
                res@.len() == list_sources(self.children@, key@, i as int).len(),
                forall|q: int|
                    0 <= q < res@.len() ==> #[trigger] same_element(
                        res@[q],
                        list_sources(self.children@, key@, i as int)[q],
                    ),
            decreases self.children@.len() - i,
        {
            let child = &self.children[i];
            let tag = chars_of(child.tag.as_str());
            let ghost prev = list_sources(self.children@, key@, i as int);
            if crate::text::chars_eq_ascii_ci(tag.as_slice(), k.as_slice()) {
                let mut has_li = false;
                let mut j: usize = 0;
                let ghost base = res@;
                while j < child.children.len()
                    invariant
                        j <= child.children@.len(),
                        base.len() == prev.len(),
                        res@.len() == base.len() + list_entries(child.children@, j as int).len(),
                        res@.subrange(0, base.len() as int) == base,
                        forall|q: int| 0 <= q < base.len() ==> #[trigger] same_element(base[q], prev[q]),
                        forall|q: int|
                            0 <= q < list_entries(child.children@, j as int).len() ==> #[trigger] same_element(
                                res@[base.len() + q],
                                list_entries(child.children@, j as int)[q],
                            ),
                        has_li == (list_entries(child.children@, j as int).len() > 0),
                    decreases child.children@.len() - j,
                {
                    let c = &child.children[j];
                    proof {
                        reveal_strlit("li");
                        reveal_strlit("Item");
                        reveal_strlit("Stuff");
                    }
                    if eq_ignore_ascii_case(c.tag.as_str(), "li") || eq_ignore_ascii_case(c.tag.as_str(), "Item")
                        || eq_ignore_ascii_case(c.tag.as_str(), "Stuff") {
                        proof {
                            assert(is_list_entry(*c)) by {
                                lemma_entry_names(c.tag@);
                            }
                        }
                        let ghost before = res@;
                        res.push(c.deep_clone());
                        has_li = true;
                        proof {
                            assert(res@.subrange(0, base.len() as int) =~= before.subrange(0, base.len() as int));
                        }
                    } else {
                        proof {
                            assert(!is_list_entry(*c)) by {
                                lemma_entry_names(c.tag@);
                            }
                        }
                    }
                    j = j + 1;
                }
                if !has_li {
                    let cl = child.deep_clone();
                    let ghost before = res@;
                    res.push(cl);
                    proof {
                        assert(res@[base.len() as int] == cl);
                        assert(res@.subrange(0, base.len() as int) =~= before.subrange(0, base.len() as int));
                    }
                }
                proof {
                    let es = list_entries(child.children@, child.children@.len() as int);
                    let now = list_sources(self.children@, key@, i + 1);
                    if es.len() > 0 {
                        assert(now =~= prev + es);
                        assert forall|q: int| 0 <= q < res@.len() implies #[trigger] same_element(res@[q], now[q]) by {
                            if q < base.len() {
                                assert(res@[q] == res@.subrange(0, base.len() as int)[q]);
                            } else {
                                assert(same_element(res@[base.len() + (q - base.len())], es[q - base.len()]));
                            }
                        }
                    } else {
                        assert(now =~= prev.push(*child));
                        assert forall|q: int| 0 <= q < res@.len() implies #[trigger] same_element(res@[q], now[q]) by {
                            if q < base.len() {
                                assert(res@[q] == res@.subrange(0, base.len() as int)[q]);
                            }
                        }
                    }
                }
            }
            i = i + 1;
        }
        res
    }

    /// A deep copy.
    pub fn deep_clone(&self) -> (r: XmlElement)
        ensures
            same_element(r, *self),
        decreases self,
    {
        let mut attributes: Vec<(String, String)> = Vec::new();
        let mut i: usize = 0;
        while i < self.attributes.len()
            invariant
                i <= self.attributes@.len(),
                attrs_view(attributes@) == attrs_view(self.attributes@.take(i as int)),
            decreases self.attributes@.len() - i,
        {
            let k = self.attributes[i].0.clone();
            let v = self.attributes[i].1.clone();
            let ghost before = attributes@;
            attributes.push((k, v));
            proof {
                assert(attributes@ == before.push((k, v)));
                assert(attrs_view(attributes@) =~= attrs_view(before).push((k@, v@)));
                assert(self.attributes@.take(i + 1) =~= self.attributes@.take(i as int).push(
                    self.attributes@[i as int],
                ));
                assert(attrs_view(self.attributes@.take(i + 1)) =~= attrs_view(
                    self.attributes@.take(i as int),
                ).push((self.attributes@[i as int].0@, self.attributes@[i as int].1@)));
            }
            i = i + 1;
        }
        let mut children: Vec<XmlElement> = Vec::new();
        let mut j: usize = 0;
        while j < self.children.len()
            invariant
                j <= self.children@.len(),
                children@.len() == j,
                forall|q: int| 0 <= q < j ==> #[trigger] same_element(children@[q], self.children@[q]),
            decreases self.children@.len() - j,
        {
            let c = self.children[j].deep_clone();
            children.push(c);
            j = j + 1;
        }
        proof {
            assert(self.attributes@.take(self.attributes@.len() as int) =~= self.attributes@);
        }
        let r = XmlElement { tag: self.tag.clone(), attributes, text: self.text.clone(), children };
        proof {
            assert(attrs_view(r.attributes@) == attrs_view(self.attributes@));
            lemma_same_children(r, *self, 0);
        }
        r
    }
}

} // verus!
