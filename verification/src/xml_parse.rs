//! Reading the game's XML: rich-text markup inside the text is dropped and
//! stray ampersands are escaped before the text goes to the XML reader, whose
//! events then build the element tree.
use vstd::prelude::*;
use crate::text::{ascii_fold, chars_of, is_white_space, string_from_chars, trim_chars, trim_ws, unicode_white_space};
use crate::xml::{XmlElement, attrs_view};
use crate::text::{decode_utf8_lossy, utf8_lossy};
use quick_xml::events::{BytesStart, Event};
use quick_xml::Reader;

verus! {

/// `s[j..]` starts with `p` up to ASCII case.
pub open spec fn folded_prefix_at(s: Seq<char>, j: int, p: Seq<char>) -> bool {
    &&& 0 <= j
    &&& j + p.len() <= s.len()
    &&& forall|k: int| 0 <= k < p.len() ==> #[trigger] ascii_fold(s[j + k]) == ascii_fold(p[k])
}

/// After a `<` at `j - 1`, the text opens or closes a rich-text tag:
/// `color=`, `size=`, `align=`, `/color>`, `/size>` or `/align>`, in any case.
pub open spec fn is_markup_at(s: Seq<char>, j: int) -> bool {
    ||| folded_prefix_at(s, j, seq!['c', 'o', 'l', 'o', 'r', '='])
    ||| folded_prefix_at(s, j, seq!['s', 'i', 'z', 'e', '='])
    ||| folded_prefix_at(s, j, seq!['a', 'l', 'i', 'g', 'n', '='])
    ||| folded_prefix_at(s, j, seq!['/', 'c', 'o', 'l', 'o', 'r', '>'])
    ||| folded_prefix_at(s, j, seq!['/', 's', 'i', 'z', 'e', '>'])
    ||| folded_prefix_at(s, j, seq!['/', 'a', 'l', 'i', 'g', 'n', '>'])
}

/// The index just after the first `>` at or after `j`, or the end of `s`.
pub open spec fn after_gt(s: Seq<char>, j: int) -> int
    decreases s.len() - j,
{
    if j < 0 || j >= s.len() {
        s.len() as int
    } else if s[j] == '>' {
        j + 1
    } else {
        after_gt(s, j + 1)
    }
}

/// Among the (up to ten) characters after an `&` at `j - 1`, a `;` comes
/// before any space or `<`: the `&` starts an entity.
pub open spec fn entity_from(s: Seq<char>, j: int, k: int) -> bool
    decreases 10 - k,
{
    if k < 0 || k >= 10 || j + k >= s.len() || j + k < 0 {
        false
    } else if s[j + k] == ';' {
        true
    } else if s[j + k] == ' ' || s[j + k] == '<' {
        false
    } else {
        entity_from(s, j, k + 1)
    }
}

/// The escaped form of a stray ampersand.
pub open spec fn amp_escape() -> Seq<char> {
    seq!['&', 'a', 'm', 'p', ';']
}

/// The text from index `i` on with rich-text tags removed (from their `<`
/// to their `>`) and every `&` that starts no entity written as `&amp;`.
pub open spec fn cleaned_from(s: Seq<char>, i: int) -> Seq<char>
    decreases s.len() - i,
{
    if i < 0 || i >= s.len() {
        Seq::empty()
    } else if s[i] == '<' && is_markup_at(s, i + 1) {
        proof {
            lemma_after_gt(s, i + 1);
        }
        cleaned_from(s, after_gt(s, i + 1))
    } else if s[i] == '&' && !entity_from(s, i + 1, 0) {
        amp_escape() + cleaned_from(s, i + 1)
    } else {
        seq![s[i]] + cleaned_from(s, i + 1)
    }
}

/// `after_gt` moves forward and stays within the text.
pub proof fn lemma_after_gt(s: Seq<char>, j: int)
    requires
        0 <= j,
    ensures
        j <= after_gt(s, j) <= s.len() || (j > s.len() && after_gt(s, j) == s.len()),
        after_gt(s, j) >= j || after_gt(s, j) == s.len(),
    decreases s.len() - j,
{
    if j < s.len() && s[j] != '>' {
        lemma_after_gt(s, j + 1);
    }
}

/// The index of the first character that is a byte-order mark or white space
/// no more, from `i` on.
pub open spec fn lead_noise(s: Seq<char>, i: int) -> int
    decreases s.len() - i,
{
    if 0 <= i < s.len() && (s[i] == '\u{FEFF}' || unicode_white_space(s[i])) {
        lead_noise(s, i + 1)
    } else {
        i
    }
}

/// The text that goes to the XML reader: leading byte-order marks and white
/// space dropped, then cleaned.
pub open spec fn reader_input(s: Seq<char>) -> Seq<char> {
    let t = s.skip(lead_noise(s, 0));
    cleaned_from(t, 0)
}

pub(crate) fn starts_folded(s: &Vec<char>, j: usize, p: &[char]) -> (r: bool)
    ensures
        r == folded_prefix_at(s@, j as int, p@),
{
    if j > s.len() || s.len() - j < p.len() {
        return false;
    }
    let mut k: usize = 0;
    while k < p.len()
        invariant
            k <= p@.len(),
            j + p@.len() <= s@.len(),
            forall|q: int| 0 <= q < k ==> #[trigger] ascii_fold(s@[j + q]) == ascii_fold(p@[q]),
        decreases p@.len() - k,
    {
        let n = s.len();
        assert(j + k < n);
        if crate::text::fold_code(s[j + k]) != crate::text::fold_code(p[k]) {
            return false;
        }
        k = k + 1;
    }
    true
}

fn markup_at(s: &Vec<char>, j: usize) -> (r: bool)
    ensures
        r == is_markup_at(s@, j as int),
{
    let p1: [char; 6] = ['c', 'o', 'l', 'o', 'r', '='];
    let p2: [char; 5] = ['s', 'i', 'z', 'e', '='];
    let p3: [char; 6] = ['a', 'l', 'i', 'g', 'n', '='];
    let p4: [char; 7] = ['/', 'c', 'o', 'l', 'o', 'r', '>'];
    let p5: [char; 6] = ['/', 's', 'i', 'z', 'e', '>'];
    let p6: [char; 7] = ['/', 'a', 'l', 'i', 'g', 'n', '>'];
    proof {
        assert(p1@ =~= seq!['c', 'o', 'l', 'o', 'r', '=']);
        assert(p2@ =~= seq!['s', 'i', 'z', 'e', '=']);
        assert(p3@ =~= seq!['a', 'l', 'i', 'g', 'n', '=']);
        assert(p4@ =~= seq!['/', 'c', 'o', 'l', 'o', 'r', '>']);
        assert(p5@ =~= seq!['/', 's', 'i', 'z', 'e', '>']);
        assert(p6@ =~= seq!['/', 'a', 'l', 'i', 'g', 'n', '>']);
    }
    starts_folded(s, j, p1.as_slice()) || starts_folded(s, j, p2.as_slice()) || starts_folded(
        s,
        j,
        p3.as_slice(),
    ) || starts_folded(s, j, p4.as_slice()) || starts_folded(s, j, p5.as_slice()) || starts_folded(
        s,
        j,
        p6.as_slice(),
    )
}

fn entity_at(s: &Vec<char>, j: usize) -> (r: bool)
    requires
        j <= s@.len(),
    ensures
        r == entity_from(s@, j as int, 0),
{
    let mut k: usize = 0;
    while k < 10
        invariant
            k <= 10,
            j <= s@.len(),
            entity_from(s@, j as int, 0) == entity_from(s@, j as int, k as int),
        decreases 10 - k,
    {
        if k >= s.len() - j {
            return false;
        }
        let c = s[j + k];
        if c == ';' {
            return true;
        }
        if c == ' ' || c == '<' {
            return false;
        }
        k = k + 1;
    }
    false
}

/// Removes the rich-text markup and escapes stray ampersands (see
/// `cleaned_from`).
pub fn clean_markup(s: &Vec<char>) -> (r: Vec<char>)
    ensures
        r@ == cleaned_from(s@, 0),
{
    let mut out: Vec<char> = Vec::new();
    let mut i: usize = 0;
    while i < s.len()
        invariant
            i <= s@.len(),
            out@ + cleaned_from(s@, i as int) == cleaned_from(s@, 0),
        decreases s@.len() - i,
    {
        let c = s[i];
        if c == '<' && markup_at(s, i + 1) {
            let mut j: usize = i + 1;
            while j < s.len() && s[j] != '>'
                invariant
                    i + 1 <= j <= s@.len(),
                    after_gt(s@, i + 1) == after_gt(s@, j as int),
                decreases s@.len() - j,
            {
                j = j + 1;
            }
            if j < s.len() {
                j = j + 1;
            }
            i = j;
        } else if c == '&' && !entity_at(s, i + 1) {
            let ghost before = out@;
            out.push('&');
            out.push('a');
            out.push('m');
            out.push('p');
            out.push(';');
            proof {
                assert(out@ =~= before + amp_escape());
                assert(before + amp_escape() + cleaned_from(s@, i + 1) =~= before + (amp_escape()
                    + cleaned_from(s@, i + 1)));
            }
            i = i + 1;
        } else {
            let ghost before = out@;
            out.push(c);
            proof {
                assert(before + seq![c] + cleaned_from(s@, i + 1) =~= before + (seq![c] + cleaned_from(
                    s@,
                    i + 1,
                )));
            }
            i = i + 1;
        }
    }
    proof {
        assert(out@ + Seq::<char>::empty() =~= out@);
    }
    out
}

/// The text that goes to the XML reader (see `reader_input`).
pub fn prepare_xml_text(xml: &str) -> (r: Vec<char>)
    ensures
        r@ == reader_input(xml@),
{
    let s = chars_of(xml);
    let mut start: usize = 0;
    while start < s.len() && (s[start] == '\u{FEFF}' || is_white_space(s[start]))
        invariant
            start <= s@.len(),
            lead_noise(s@, 0) == lead_noise(s@, start as int),
        decreases s@.len() - start,
    {
        start = start + 1;
    }
    let mut t: Vec<char> = Vec::new();
    let mut i: usize = start;
    while i < s.len()
        invariant
            start <= i <= s@.len(),
            t@ == s@.subrange(start as int, i as int),
        decreases s@.len() - i,
    {
        t.push(s[i]);
        i = i + 1;
        proof {
            assert(t@ =~= s@.subrange(start as int, i as int));
        }
    }
    proof {
        assert(t@ =~= s@.skip(start as int));
    }
    clean_markup(&t)
}

/// The index of the last `:` in `s[..n]`, or -1.
pub open spec fn last_colon(s: Seq<char>, n: int) -> int
    decreases n,
{
    if n <= 0 {
        -1
    } else if s[n - 1] == ':' {
        n - 1
    } else {
        last_colon(s, n - 1)
    }
}

/// A qualified name without its prefix: what follows the last `:`.
pub open spec fn local_name(s: Seq<char>) -> Seq<char> {
    s.skip(last_colon(s, s.len() as int) + 1)
}

proof fn lemma_last_colon_found(s: Seq<char>, n: int)
    requires
        0 <= n <= s.len(),
    ensures
        -1 <= last_colon(s, n) < n,
        last_colon(s, n) >= 0 ==> s[last_colon(s, n)] == ':',
        forall|i: int| last_colon(s, n) < i < n ==> s[i] != ':',
    decreases n,
{
    if n > 0 && s[n - 1] != ':' {
        lemma_last_colon_found(s, n - 1);
    }
}

/// A tag loses its namespace prefix and nothing else: the local name is
/// the end of the qualified name after its last `:` (all of it when there
/// is none), and holds no `:`.
pub proof fn lemma_local_name(s: Seq<char>)
    ensures
        forall|i: int| 0 <= i < local_name(s).len() ==> local_name(s)[i] != ':',
        local_name(s).len() <= s.len(),
        local_name(s) == s.subrange(s.len() - local_name(s).len(), s.len() as int),
        (forall|i: int| 0 <= i < s.len() ==> s[i] != ':') ==> local_name(s) == s,
        local_name(s).len() < s.len() ==> s[s.len() - local_name(s).len() - 1] == ':',
{
    lemma_last_colon_found(s, s.len() as int);
    let c = last_colon(s, s.len() as int);
    assert(local_name(s) =~= s.subrange(c + 1, s.len() as int));
    if forall|i: int| 0 <= i < s.len() ==> s[i] != ':' {
        assert(c == -1);
        assert(local_name(s) =~= s);
    }
}

proof fn lemma_last_colon(s: Seq<char>, n: int)
    requires
        n <= s.len(),
    ensures
        -1 <= last_colon(s, n) < n || (n <= 0 && last_colon(s, n) == -1),
    decreases n,
{
    if n > 0 && s[n - 1] != ':' {
        lemma_last_colon(s, n - 1);
    }
}

/// The name after its last `:`, as `split(':').last()` gives it.
pub fn local_part(s: &Vec<char>) -> (r: Vec<char>)
    ensures
        r@ == local_name(s@),
{
    let mut n: usize = s.len();
    while n > 0 && s[n - 1] != ':'
        invariant
            n <= s@.len(),
            last_colon(s@, s@.len() as int) == last_colon(s@, n as int),
        decreases n,
    {
        n = n - 1;
    }
    proof {
        lemma_last_colon(s@, n as int);
    }
    let mut r: Vec<char> = Vec::new();
    let mut i: usize = n;
    while i < s.len()
        invariant
            n <= i <= s@.len(),
            r@ == s@.subrange(n as int, i as int),
        decreases s@.len() - i,
    {
        r.push(s[i]);
        i = i + 1;
        proof {
            assert(r@ =~= s@.subrange(n as int, i as int));
        }
    }
    proof {
        assert(r@ =~= local_name(s@));
    }
    r
}

/// No two attributes have the same name.
pub open spec fn distinct_keys(a: Seq<(Seq<char>, Seq<char>)>) -> bool {
    forall|i: int, j: int| 0 <= i < j < a.len() ==> #[trigger] a[i].0 != #[trigger] a[j].0
}

/// The attributes after setting `key` to `value`: the value of an attribute
/// of that name is replaced in place, else the pair is added at the end.
pub open spec fn with_attr(a: Seq<(Seq<char>, Seq<char>)>, key: Seq<char>, value: Seq<char>) -> Seq<(Seq<char>, Seq<char>)> {
    if exists|i: int| 0 <= i < a.len() && #[trigger] a[i].0 == key {
        let i = choose|i: int| 0 <= i < a.len() && #[trigger] a[i].0 == key;
        a.update(i, (key, value))
    } else {
        a.push((key, value))
    }
}

/// Sets an attribute, as a map insertion does.
pub fn set_attr(attrs: &mut Vec<(String, String)>, key: String, value: String)
    requires
        distinct_keys(attrs_view(old(attrs)@)),
    ensures
        distinct_keys(attrs_view(final(attrs)@)),
        attrs_view(final(attrs)@) == with_attr(attrs_view(old(attrs)@), key@, value@),
{
    let ghost a0 = attrs_view(attrs@);
    let mut i: usize = 0;
    while i < attrs.len()
        invariant
            i <= attrs@.len(),
            attrs_view(attrs@) == a0,
            a0 == attrs_view(old(attrs)@),
            distinct_keys(a0),
            forall|q: int| 0 <= q < i ==> #[trigger] a0[q].0 != key@,
        decreases attrs@.len() - i,
    {
        if attrs[i].0 == key {
            let ghost before = attrs@;
            let k = attrs[i].0.clone();
            attrs.set(i, (k, value));
            proof {
                assert(a0[i as int].0 == key@);
                assert(forall|q: int| 0 <= q < a0.len() && #[trigger] a0[q].0 == key@ ==> q == i);
                assert(exists|q: int| 0 <= q < a0.len() && #[trigger] a0[q].0 == key@);
                let c = choose|q: int| 0 <= q < a0.len() && #[trigger] a0[q].0 == key@;
                assert(c == i);
                assert(attrs_view(attrs@) =~= a0.update(i as int, (key@, value@)));
            }
            return;
        }
        i = i + 1;
    }
    let ghost before = attrs@;
    attrs.push((key, value));
    proof {
        assert(attrs_view(attrs@) =~= a0.push((key@, value@)));
    }
}

/// A node as the reader opens it: no text and no children yet.
pub open spec fn fresh_node(e: XmlElement, tag: Seq<char>, attrs: Seq<(Seq<char>, Seq<char>)>) -> bool {
    &&& e.tag@ == tag
    &&& attrs_view(e.attributes@) == attrs
    &&& e.text@ == Seq::<char>::empty()
    &&& e.children@ == Seq::<XmlElement>::empty()
}

/// `b` is `a` with one more child `c`.
pub open spec fn with_child(a: XmlElement, b: XmlElement, c: XmlElement) -> bool {
    &&& b.tag == a.tag
    &&& b.attributes == a.attributes
    &&& b.text == a.text
    &&& b.children@ == a.children@.push(c)
}

/// `b` is `a` with its text trimmed.
pub open spec fn closed_node(a: XmlElement, b: XmlElement) -> bool {
    &&& b.tag == a.tag
    &&& b.attributes == a.attributes
    &&& b.children == a.children
    &&& b.text@ == trim_ws(a.text@)
}

/// The text of a node after a text piece arrives: the piece without its
/// surrounding white space, after a space when the node has text already.
pub open spec fn appended_text(text: Seq<char>, piece: Seq<char>) -> Seq<char> {
    let t = trim_ws(piece);
    if t.len() == 0 {
        text
    } else if text.len() == 0 {
        t
    } else {
        text.push(' ') + t
    }
}

/// Every element of a tree holds each attribute name at most once.
pub open spec fn unique_keys_tree(e: XmlElement) -> bool
    decreases e, e.children@.len() + 1,
{
    &&& distinct_keys(attrs_view(e.attributes@))
    &&& unique_keys_from(e, 0)
}

/// The subtrees of the children of `e` from index `i` on hold each
/// attribute name at most once per element.
pub open spec fn unique_keys_from(e: XmlElement, i: int) -> bool
    decreases e, e.children@.len() - i,
{
    if i < 0 || i >= e.children@.len() {
        true
    } else {
        &&& unique_keys_tree(e.children@[i])
        &&& unique_keys_from(e, i + 1)
    }
}

/// `unique_keys_from` holds exactly when every child from `i` on is a tree
/// with unique keys.
proof fn lemma_unique_from(e: XmlElement, i: int)
    requires
        0 <= i <= e.children@.len(),
    ensures
        unique_keys_from(e, i) <==> forall|q: int| i <= q < e.children@.len() ==> #[trigger] unique_keys_tree(e.children@[q]),
    decreases e.children@.len() - i,
{
    if i < e.children@.len() {
        lemma_unique_from(e, i + 1);
        if unique_keys_from(e, i) {
            assert forall|q: int| i <= q < e.children@.len() implies #[trigger] unique_keys_tree(e.children@[q]) by {
                if q > i {
                    assert(unique_keys_from(e, i + 1));
                }
            }
        }
        if forall|q: int| i <= q < e.children@.len() ==> #[trigger] unique_keys_tree(e.children@[q]) {
            assert(unique_keys_tree(e.children@[i]));
            assert(unique_keys_from(e, i + 1));
        }
    }
}

/// Every open and every finished element holds each attribute name at most
/// once, throughout its subtree.
pub open spec fn builder_keys_unique(b: XmlTreeBuilder) -> bool {
    &&& forall|i: int| 0 <= i < b.stack@.len() ==> #[trigger] unique_keys_tree(b.stack@[i])
    &&& forall|i: int| 0 <= i < b.roots@.len() ==> #[trigger] unique_keys_tree(b.roots@[i])
}

proof fn lemma_with_child_unique(a: XmlElement, b: XmlElement, c: XmlElement)
    requires
        with_child(a, b, c),
        unique_keys_tree(a),
        unique_keys_tree(c),
    ensures
        unique_keys_tree(b),
{
    lemma_unique_from(a, 0);
    assert forall|i: int| 0 <= i < b.children@.len() implies #[trigger] unique_keys_tree(b.children@[i]) by {
        if i < a.children@.len() {
            assert(b.children@[i] == a.children@[i]);
        } else {
            assert(b.children@[i] == c);
        }
    }
    lemma_unique_from(b, 0);
}

proof fn lemma_same_shape_unique(a: XmlElement, b: XmlElement)
    requires
        b.attributes == a.attributes,
        b.children == a.children,
        unique_keys_tree(a),
    ensures
        unique_keys_tree(b),
{
    lemma_unique_from(a, 0);
    lemma_unique_from(b, 0);
}

/// An element as plain values: its tag, its attributes, its text and its
/// children.
pub struct XmlNode {
    pub tag: Seq<char>,
    pub attrs: Seq<(Seq<char>, Seq<char>)>,
    pub text: Seq<char>,
    pub children: Seq<XmlNode>,
}

/// An element's plain value.
pub open spec fn node_view(e: XmlElement) -> XmlNode
    decreases e, e.children@.len() + 1,
{
    XmlNode {
        tag: e.tag@,
        attrs: attrs_view(e.attributes@),
        text: e.text@,
        children: children_view(e, e.children@.len() as int),
    }
}

/// The plain values of the first `n` children of `e`.
pub open spec fn children_view(e: XmlElement, n: int) -> Seq<XmlNode>
    decreases e, n,
{
    if n <= 0 || n > e.children@.len() {
        Seq::empty()
    } else {
        children_view(e, n - 1).push(node_view(e.children@[n - 1]))
    }
}

/// The plain values of a sequence of elements.
pub open spec fn nodes_view(s: Seq<XmlElement>) -> Seq<XmlNode> {
    s.map_values(|e: XmlElement| node_view(e))
}

proof fn lemma_children_view(e: XmlElement, n: int)
    requires
        0 <= n <= e.children@.len(),
    ensures
        children_view(e, n) == nodes_view(e.children@.take(n)),
    decreases n,
{
    if n > 0 {
        lemma_children_view(e, n - 1);
        assert(e.children@.take(n) =~= e.children@.take(n - 1).push(e.children@[n - 1]));
        assert(nodes_view(e.children@.take(n)) =~= nodes_view(e.children@.take(n - 1)).push(node_view(e.children@[n - 1])));
    } else {
        assert(nodes_view(e.children@.take(n)) =~= Seq::<XmlNode>::empty());
    }
}

/// The children of an element's plain value are the plain values of its
/// children.
proof fn lemma_node_view(e: XmlElement)
    ensures
        node_view(e) == (XmlNode {
            tag: e.tag@,
            attrs: attrs_view(e.attributes@),
            text: e.text@,
            children: nodes_view(e.children@),
        }),
{
    lemma_children_view(e, e.children@.len() as int);
    assert(e.children@.take(e.children@.len() as int) =~= e.children@);
}

/// The plain node of a fresh element.
pub open spec fn fresh_view(tag: Seq<char>, attrs: Seq<(Seq<char>, Seq<char>)>) -> XmlNode {
    XmlNode { tag, attrs, text: Seq::empty(), children: Seq::empty() }
}

/// The tree under construction as plain values: the open elements and the
/// finished top-level ones.
pub open spec fn builder_view(b: XmlTreeBuilder) -> (Seq<XmlNode>, Seq<XmlNode>) {
    (nodes_view(b.stack@), nodes_view(b.roots@))
}

/// A finished element goes to the innermost open element, or to the top
/// level when none is open.
pub open spec fn attach_v(st: (Seq<XmlNode>, Seq<XmlNode>), n: XmlNode) -> (Seq<XmlNode>, Seq<XmlNode>) {
    if st.0.len() == 0 {
        (st.0, st.1.push(n))
    } else {
        let top = st.0.last();
        (st.0.drop_last().push(XmlNode { children: top.children.push(n), ..top }), st.1)
    }
}

/// A start tag: a new open element.
pub open spec fn open_v(st: (Seq<XmlNode>, Seq<XmlNode>), tag: Seq<char>, attrs: Seq<(Seq<char>, Seq<char>)>) -> (
    Seq<XmlNode>,
    Seq<XmlNode>,
) {
    (st.0.push(fresh_view(tag, attrs)), st.1)
}

/// A text piece: added to the innermost open element's text.
pub open spec fn text_v(st: (Seq<XmlNode>, Seq<XmlNode>), piece: Seq<char>) -> (Seq<XmlNode>, Seq<XmlNode>) {
    if st.0.len() == 0 {
        st
    } else {
        let top = st.0.last();
        (st.0.drop_last().push(XmlNode { text: appended_text(top.text, piece), ..top }), st.1)
    }
}

/// An end tag: the innermost open element, its text trimmed, is finished.
pub open spec fn close_v(st: (Seq<XmlNode>, Seq<XmlNode>)) -> (Seq<XmlNode>, Seq<XmlNode>) {
    if st.0.len() == 0 {
        st
    } else {
        let top = st.0.last();
        attach_v((st.0.drop_last(), st.1), XmlNode { text: trim_ws(top.text), ..top })
    }
}

/// Every element still open is closed; the top-level elements.
pub open spec fn finish_v(st: (Seq<XmlNode>, Seq<XmlNode>)) -> Seq<XmlNode>
    decreases st.0.len(),
{
    if st.0.len() == 0 {
        st.1
    } else {
        finish_v(close_v(st))
    }
}

/// The tree under construction: the open elements, innermost last, and the
/// finished top-level elements.
pub struct XmlTreeBuilder {
    pub stack: Vec<XmlElement>,
    pub roots: Vec<XmlElement>,
}

impl XmlTreeBuilder {
    /// Nothing open and nothing finished.
    pub fn new() -> (r: XmlTreeBuilder)
        ensures
            r.stack@ == Seq::<XmlElement>::empty(),
            r.roots@ == Seq::<XmlElement>::empty(),
            builder_view(r) == (Seq::<XmlNode>::empty(), Seq::<XmlNode>::empty()),
    {
        let r = XmlTreeBuilder { stack: Vec::new(), roots: Vec::new() };
        proof {
            assert(nodes_view(r.stack@) =~= Seq::<XmlNode>::empty());
            assert(nodes_view(r.roots@) =~= Seq::<XmlNode>::empty());
        }
        r
    }

    /// A finished element goes to the innermost open element, or to the
    /// top level when none is open.
    pub fn attach(&mut self, node: XmlElement)
        ensures
            builder_view(*final(self)) == attach_v(builder_view(*old(self)), node_view(node)),
            builder_keys_unique(*old(self)) && unique_keys_tree(node) ==> builder_keys_unique(*final(self)),
            old(self).stack@.len() == 0 ==> {
                &&& final(self).stack@ == old(self).stack@
                &&& final(self).roots@ == old(self).roots@.push(node)
            },
            old(self).stack@.len() > 0 ==> {
                &&& final(self).roots@ == old(self).roots@
                &&& final(self).stack@.len() == old(self).stack@.len()
                &&& final(self).stack@.drop_last() == old(self).stack@.drop_last()
                &&& with_child(old(self).stack@.last(), final(self).stack@.last(), node)
            },
    {
        if self.stack.len() == 0 {
            let ghost g = node;
            self.roots.push(node);
            proof {
                assert(nodes_view(self.roots@) =~= nodes_view(old(self).roots@).push(node_view(g)));
                if builder_keys_unique(*old(self)) && unique_keys_tree(g) {
                    assert forall|i: int| 0 <= i < self.roots@.len() implies #[trigger] unique_keys_tree(self.roots@[i]) by {
                        if i < old(self).roots@.len() {
                            assert(self.roots@[i] == old(self).roots@[i]);
                        }
                    }
                }
            }
        } else {
            let ghost g = node;
            let mut top = self.stack.pop().unwrap();
            top.children.push(node);
            self.stack.push(top);
            proof {
                assert(self.stack@.drop_last() =~= old(self).stack@.drop_last());
                let a = old(self).stack@.last();
                let b = self.stack@.last();
                lemma_node_view(a);
                lemma_node_view(b);
                assert(nodes_view(b.children@) =~= nodes_view(a.children@).push(node_view(g)));
                assert(nodes_view(self.stack@) =~= nodes_view(old(self).stack@).drop_last().push(
                    XmlNode { children: node_view(a).children.push(node_view(g)), ..node_view(a) },
                ));
                if builder_keys_unique(*old(self)) && unique_keys_tree(g) {
                    let n = old(self).stack@.len() - 1;
                    assert(unique_keys_tree(old(self).stack@[n]));
                    lemma_with_child_unique(old(self).stack@[n], self.stack@[n], g);
                    assert forall|i: int| 0 <= i < self.stack@.len() implies #[trigger] unique_keys_tree(self.stack@[i]) by {
                        if i < n {
                            assert(self.stack@[i] == old(self).stack@[i]);
                        }
                    }
                }
            }
        }
    }

    /// A start tag: a new element is opened.
    pub fn open(&mut self, tag: String, attributes: Vec<(String, String)>)
        ensures
            builder_keys_unique(*old(self)) && distinct_keys(attrs_view(attributes@)) ==> builder_keys_unique(
                *final(self),
            ),
            final(self).roots@ == old(self).roots@,
            final(self).stack@.len() == old(self).stack@.len() + 1,
            final(self).stack@.drop_last() == old(self).stack@,
            fresh_node(final(self).stack@.last(), tag@, attrs_view(attributes@)),
            builder_view(*final(self)) == open_v(builder_view(*old(self)), tag@, attrs_view(attributes@)),
    {
        let node = XmlElement { tag, attributes, text: String::new(), children: Vec::new() };
        self.stack.push(node);
        proof {
            assert(self.stack@.drop_last() =~= old(self).stack@);
            lemma_node_view(self.stack@.last());
            assert(nodes_view(self.stack@.last().children@) =~= Seq::<XmlNode>::empty());
            assert(nodes_view(self.stack@) =~= nodes_view(old(self).stack@).push(fresh_view(tag@, attrs_view(attributes@))));
            if builder_keys_unique(*old(self)) && distinct_keys(attrs_view(attributes@)) {
                let n = old(self).stack@.len();
                assert(unique_keys_tree(self.stack@[n as int]));
                assert forall|i: int| 0 <= i < self.stack@.len() implies #[trigger] unique_keys_tree(self.stack@[i]) by {
                    if i < n {
                        assert(self.stack@[i] == old(self).stack@[i]);
                    }
                }
            }
        }
    }

    /// An empty-element tag: a new element, finished at once.
    pub fn empty_element(&mut self, tag: String, attributes: Vec<(String, String)>)
        ensures
            builder_view(*final(self)) == attach_v(builder_view(*old(self)), fresh_view(tag@, attrs_view(attributes@))),
            builder_keys_unique(*old(self)) && distinct_keys(attrs_view(attributes@)) ==> builder_keys_unique(
                *final(self),
            ),
            exists|node: XmlElement|
                #![trigger fresh_node(node, tag@, attrs_view(attributes@))]
                {
                    &&& fresh_node(node, tag@, attrs_view(attributes@))
                    &&& old(self).stack@.len() == 0 ==> {
                        &&& final(self).stack@ == old(self).stack@
                        &&& final(self).roots@ == old(self).roots@.push(node)
                    }
                    &&& old(self).stack@.len() > 0 ==> {
                        &&& final(self).roots@ == old(self).roots@
                        &&& final(self).stack@.len() == old(self).stack@.len()
                        &&& final(self).stack@.drop_last() == old(self).stack@.drop_last()
                        &&& with_child(old(self).stack@.last(), final(self).stack@.last(), node)
                    }
                },
    {
        let node = XmlElement { tag, attributes, text: String::new(), children: Vec::new() };
        let ghost g = node;
        proof {
            assert(g.children@.len() == 0);
        }
        self.attach(node);
        proof {
            assert(fresh_node(g, tag@, attrs_view(attributes@)));
            lemma_node_view(g);
            assert(nodes_view(g.children@) =~= Seq::<XmlNode>::empty());
            assert(node_view(g) == fresh_view(tag@, attrs_view(attributes@)));
        }
    }

    /// Text or character data: its trimmed form is added to the text of the
    /// innermost open element; with none open it is dropped.
    pub fn add_text(&mut self, piece: &[char])
        ensures
            builder_view(*final(self)) == text_v(builder_view(*old(self)), piece@),
            builder_keys_unique(*old(self)) ==> builder_keys_unique(*final(self)),
            final(self).roots@ == old(self).roots@,
            final(self).stack@.len() == old(self).stack@.len(),
            old(self).stack@.len() == 0 ==> final(self).stack@ == old(self).stack@,
            old(self).stack@.len() > 0 ==> {
                let a = old(self).stack@.last();
                let b = final(self).stack@.last();
                &&& final(self).stack@.drop_last() == old(self).stack@.drop_last()
                &&& b.tag == a.tag
                &&& b.attributes == a.attributes
                &&& b.children == a.children
                &&& b.text@ == appended_text(a.text@, piece@)
            },
    {
        let t = trim_chars(piece);
        if t.len() == 0 || self.stack.len() == 0 {
            proof {
                if self.stack@.len() > 0 {
                    let top = nodes_view(self.stack@).last();
                    assert(appended_text(top.text, piece@) == top.text);
                    assert(nodes_view(self.stack@).drop_last().push(XmlNode { text: appended_text(top.text, piece@), ..top })
                        =~= nodes_view(self.stack@));
                }
            }
            return;
        }
        let mut top = self.stack.pop().unwrap();
        let mut text = chars_of(top.text.as_str());
        if text.len() > 0 {
            text.push(' ');
        }
        let mut i: usize = 0;
        let ghost head = text@;
        while i < t.len()
            invariant
                i <= t@.len(),
                text@ == head + t@.take(i as int),
            decreases t@.len() - i,
        {
            text.push(t[i]);
            i = i + 1;
            proof {
                assert(text@ =~= head + t@.take(i as int));
            }
        }
        proof {
            assert(t@.take(t@.len() as int) =~= t@);
        }
        top.text = string_from_chars(text.as_slice());
        self.stack.push(top);
        proof {
            assert(self.stack@.drop_last() =~= old(self).stack@.drop_last());
            let a = old(self).stack@.last();
            let b = self.stack@.last();
            lemma_node_view(a);
            lemma_node_view(b);
            assert(nodes_view(self.stack@) =~= nodes_view(old(self).stack@).drop_last().push(
                XmlNode { text: appended_text(node_view(a).text, piece@), ..node_view(a) },
            ));
            if builder_keys_unique(*old(self)) {
                let n = old(self).stack@.len() - 1;
                lemma_same_shape_unique(old(self).stack@[n], self.stack@[n]);
                assert forall|i: int| 0 <= i < self.stack@.len() implies #[trigger] unique_keys_tree(self.stack@[i]) by {
                    if i < n {
                        assert(self.stack@[i] == old(self).stack@[i]);
                    }
                }
            }
        }
    }

    /// An end tag: the innermost open element is closed, its text trimmed,
    /// and attached to its parent (or the top level). With none open,
    /// nothing changes.
    pub fn close(&mut self)
        ensures
            builder_view(*final(self)) == close_v(builder_view(*old(self))),
            builder_keys_unique(*old(self)) ==> builder_keys_unique(*final(self)),
            old(self).stack@.len() == 0 ==> *final(self) == *old(self),
            old(self).stack@.len() == 1 ==> {
                &&& final(self).stack@.len() == 0
                &&& final(self).roots@.len() == old(self).roots@.len() + 1
                &&& final(self).roots@.drop_last() == old(self).roots@
                &&& closed_node(old(self).stack@.last(), final(self).roots@.last())
            },
            old(self).stack@.len() >= 2 ==> {
                let n = old(self).stack@.len() as int;
                &&& final(self).roots@ == old(self).roots@
                &&& final(self).stack@.len() == n - 1
                &&& final(self).stack@.drop_last() == old(self).stack@.subrange(0, n - 2)
                &&& final(self).stack@.last().tag == old(self).stack@[n - 2].tag
                &&& final(self).stack@.last().attributes == old(self).stack@[n - 2].attributes
                &&& final(self).stack@.last().text == old(self).stack@[n - 2].text
                &&& final(self).stack@.last().children@.len() == old(self).stack@[n - 2].children@.len() + 1
                &&& final(self).stack@.last().children@.drop_last() == old(self).stack@[n - 2].children@
                &&& closed_node(old(self).stack@.last(), final(self).stack@.last().children@.last())
            },
    {
        if self.stack.len() == 0 {
            return;
        }
        let mut node = self.stack.pop().unwrap();
        let text = chars_of(node.text.as_str());
        let trimmed = trim_chars(text.as_slice());
        let ghost top = node;
        node.text = string_from_chars(trimmed.as_slice());
        let ghost g = node;
        let ghost mid = self.stack@;
        proof {
            if builder_keys_unique(*old(self)) {
                let n = old(self).stack@.len() - 1;
                assert(top == old(self).stack@[n]);
                lemma_same_shape_unique(top, g);
                assert forall|i: int| 0 <= i < self.stack@.len() implies #[trigger] unique_keys_tree(self.stack@[i]) by {
                    assert(self.stack@[i] == old(self).stack@[i]);
                }
            }
        }
        self.attach(node);
        proof {
            assert(mid =~= old(self).stack@.drop_last());
            lemma_node_view(top);
            lemma_node_view(g);
            assert(nodes_view(mid) =~= nodes_view(old(self).stack@).drop_last());
            assert(node_view(g) == XmlNode { text: trim_ws(node_view(top).text), ..node_view(top) });
            if old(self).stack@.len() >= 2 {
                assert(mid.drop_last() =~= old(self).stack@.subrange(0, old(self).stack@.len() - 2));
                assert(final(self).stack@.last().children@.drop_last() =~= mid.last().children@);
            }
        }
    }

    /// Closes every element still open and hands out the top-level elements.
    pub fn finish(self) -> (r: Vec<XmlElement>)
        ensures
            builder_keys_unique(self) ==> forall|i: int| 0 <= i < r@.len() ==> #[trigger] unique_keys_tree(r@[i]),
            r@.len() == self.roots@.len() + if self.stack@.len() > 0 { 1int } else { 0int },
            r@.subrange(0, self.roots@.len() as int) == self.roots@,
            nodes_view(r@) == finish_v(builder_view(self)),
    {
        let mut b = self;
        while b.stack.len() > 0
            invariant
                finish_v(builder_view(b)) == finish_v(builder_view(self)),
                b.roots@.len() == self.roots@.len() + if b.stack@.len() == 0 && self.stack@.len() > 0 { 1int } else { 0int },
                self.stack@.len() == 0 ==> b.stack@.len() == 0,
                b.stack@.len() <= self.stack@.len(),
                b.roots@.subrange(0, self.roots@.len() as int) == self.roots@,
                builder_keys_unique(self) ==> builder_keys_unique(b),
            decreases b.stack@.len(),
        {
            let ghost before = b.roots@;
            b.close();
            proof {
                assert(b.roots@.subrange(0, self.roots@.len() as int) =~= before.subrange(0, self.roots@.len() as int));
            }
        }
        b.roots
    }
}

#[verifier::external_type_specification]
#[verifier::external_body]
#[verifier::reject_recursive_types(R)]
pub struct ExXmlReader<R>(quick_xml::Reader<R>);

#[verifier::external_type_specification]
#[verifier::external_body]
pub struct ExXmlBytesStart<'a>(quick_xml::events::BytesStart<'a>);

/// One attribute as the reader gives it: its raw name, its value with
/// entities replaced (`None` where the reader reports an error) and its raw
/// value.
pub struct AttrRecord {
    pub key: Vec<u8>,
    pub value: Option<String>,
    pub raw: Vec<u8>,
}

/// A start tag or empty element that the reader returned, with the text and
/// the number of the event it was.
struct StartTag<'a> {
    tag: BytesStart<'a>,
    at: Ghost<(Seq<char>, nat)>,
}

impl<'a> View for StartTag<'a> {
    type V = (Seq<char>, nat);

    closed spec fn view(&self) -> (Seq<char>, nat) {
        self.at@
    }
}

/// One event of the XML reader: a start tag or an empty element (still the
/// reader's own), text (with entities replaced, `None` where that fails, and
/// raw), character data (raw), an end tag, the end of the input, an error, or
/// anything else.
enum XmlEvent<'a> {
    Start(StartTag<'a>),
    Empty(StartTag<'a>),
    Text(Option<String>, Vec<u8>),
    CData(Vec<u8>),
    End,
    Eof,
    Failed,
    Other,
}

/// An attribute record as plain values.
pub type AttrView = (Seq<u8>, Option<Seq<char>>, Seq<u8>);

/// An event as plain values.
pub enum XmlEventView {
    Start(Seq<u8>, Seq<AttrView>),
    Empty(Seq<u8>, Seq<AttrView>),
    Text(Option<Seq<char>>, Seq<u8>),
    CData(Seq<u8>),
    End,
    Eof,
    Failed,
    Other,
}

pub open spec fn string_opt_view(v: Option<String>) -> Option<Seq<char>> {
    match v {
        Some(s) => Some(s@),
        None => None,
    }
}

pub open spec fn attr_records_view(a: Seq<AttrRecord>) -> Seq<AttrView> {
    a.map_values(|r: AttrRecord| (r.key@, string_opt_view(r.value), r.raw@))
}

/// Event `r`, read as the event numbered `at`, is the event `v`: for a
/// start tag or empty element, of the same kind and read at `at`.
spec fn event_matches(r: XmlEvent, v: XmlEventView, at: (Seq<char>, nat)) -> bool {
    match r {
        XmlEvent::Start(t) => v is Start && t@ == at,
        XmlEvent::Empty(t) => v is Empty && t@ == at,
        XmlEvent::Text(x, raw) => v == XmlEventView::Text(string_opt_view(x), raw@),
        XmlEvent::CData(raw) => v == XmlEventView::CData(raw@),
        XmlEvent::End => v is End,
        XmlEvent::Eof => v is Eof,
        XmlEvent::Failed => v is Failed,
        XmlEvent::Other => v is Other,
    }
}

/// The name and attributes of a start-tag or empty-element event.
pub open spec fn start_payload(v: XmlEventView) -> (Seq<u8>, Seq<AttrView>) {
    match v {
        XmlEventView::Start(n, a) => (n, a),
        XmlEventView::Empty(n, a) => (n, a),
        _ => (Seq::empty(), Seq::empty()),
    }
}

/// The `k`-th event (counting from 0) that `quick_xml::Reader::from_str`
/// over `text`, with `check_end_names(false)` and `trim_text(true)`, returns
/// from `read_event`: `Eof` at the end, `Failed` for an error.
pub uninterp spec fn xml_event_at(text: Seq<char>, k: nat) -> XmlEventView;

/// The number of bytes of (the UTF-8 form of) `text` that the reader of
/// `xml_event_at` has taken off the front of its input after `k` events.
pub uninterp spec fn xml_consumed(text: Seq<char>, k: nat) -> nat;

/// A reader over a text and the number of events read from it.
struct XmlSource<'a> {
    reader: Reader<&'a [u8]>,
    text: Ghost<Seq<char>>,
    pos: Ghost<nat>,
}

impl<'a> View for XmlSource<'a> {
    type V = (Seq<char>, nat);

    closed spec fn view(&self) -> (Seq<char>, nat) {
        (self.text@, self.pos@)
    }
}

/// `quick_xml::Reader::from_str` over `text`, set with `check_end_names(false)`
/// (end tags need not match) and `trim_text(true)` (white space around text
/// is dropped); no event read yet.
#[verifier::external_body]
fn open_xml_source<'a>(text: &'a str) -> (r: XmlSource<'a>)
    ensures
        r@ == (text@, 0nat),
        xml_consumed(r@.0, r@.1) == 0,
{
    let mut reader = Reader::from_str(text);
    reader.check_end_names(false);
    reader.trim_text(true);
    XmlSource { reader, text: Ghost(text@), pos: Ghost(0) }
}

/// `Reader::read_event`: the next event, carried over variant for variant,
/// text through `BytesText::unescape`; it is the event that `xml_event_at`
/// names. Every event but `Eof` and an error takes at least one byte off the
/// reader's input (`read_bytes_until` and the tag readers of the slice
/// reader consume what they return and the delimiter, and the input runs
/// out only with `Eof`), and the input has at most four bytes a character.
#[verifier::external_body]
fn next_xml_event<'a>(src: &mut XmlSource<'a>) -> (r: XmlEvent<'a>)
    ensures
        event_matches(r, xml_event_at(old(src)@.0, old(src)@.1), old(src)@),
        final(src)@ == (old(src)@.0, old(src)@.1 + 1),
        !(r is Eof || r is Failed) ==> xml_consumed(final(src)@.0, final(src)@.1) > xml_consumed(
            old(src)@.0,
            old(src)@.1,
        ),
        xml_consumed(final(src)@.0, final(src)@.1) <= 4 * final(src)@.0.len(),
{
    let at = Ghost((src.text@, src.pos@));
    match src.reader.read_event() {
        Ok(Event::Start(e)) => XmlEvent::Start(StartTag { tag: e, at }),
        Ok(Event::Empty(e)) => XmlEvent::Empty(StartTag { tag: e, at }),
        Ok(Event::Text(t)) => XmlEvent::Text(t.unescape().ok().map(|c| c.into_owned()), t.to_vec()),
        Ok(Event::CData(c)) => XmlEvent::CData(c.to_vec()),
        Ok(Event::End(_)) => XmlEvent::End,
        Ok(Event::Eof) => XmlEvent::Eof,
        Err(_) => XmlEvent::Failed,
        Ok(_) => XmlEvent::Other,
    }
}

/// `BytesStart::name` and `BytesStart::attributes` of a start tag: its raw
/// name, and for each attribute that parses (malformed ones left out) its
/// raw name, its value through `Attribute::decode_and_unescape_value`
/// (`None` on an error) and its raw value; what `xml_event_at` names.
#[verifier::external_body]
fn start_parts(t: &StartTag, src: &XmlSource) -> (r: (Vec<u8>, Vec<AttrRecord>))
    ensures
        (r.0@, attr_records_view(r.1@)) == start_payload(xml_event_at(t@.0, t@.1)),
{
    let attrs = t.tag.attributes().filter_map(|a| a.ok()).map(|a| AttrRecord {
        key: a.key.as_ref().to_vec(),
        value: a.decode_and_unescape_value(&src.reader).ok().map(|c| c.into_owned()),
        raw: a.value.to_vec(),
    });
    (t.tag.name().as_ref().to_vec(), attrs.collect())
}

/// An element's tag: its raw name decoded with replacement characters and
/// cut after its last `:`.
pub open spec fn tag_of(name: Seq<u8>) -> Seq<char> {
    local_name(utf8_lossy(name))
}

/// The value of an attribute record: the unescaped value, else the raw value
/// decoded with replacement characters.
pub open spec fn attr_value_of(a: AttrView) -> Seq<char> {
    match a.1 {
        Some(v) => v,
        None => utf8_lossy(a.2),
    }
}

/// The attributes of the first `n` records: names as tags are, a later
/// attribute of the same name replacing an earlier one.
pub open spec fn attrs_of(list: Seq<AttrView>, n: int) -> Seq<(Seq<char>, Seq<char>)>
    decreases n,
{
    if n <= 0 || n > list.len() {
        Seq::empty()
    } else {
        with_attr(attrs_of(list, n - 1), tag_of(list[n - 1].0), attr_value_of(list[n - 1]))
    }
}

/// The text of a text event: the unescaped text, else the raw text decoded
/// with replacement characters.
pub open spec fn text_piece(v: Option<Seq<char>>, raw: Seq<u8>) -> Seq<char> {
    match v {
        Some(t) => t,
        None => utf8_lossy(raw),
    }
}

/// The builder's state after the events of `text` from the `k`-th on, at
/// most `budget` of them, up to the end or the first error.
pub open spec fn parse_events(
    text: Seq<char>,
    k: nat,
    budget: nat,
    st: (Seq<XmlNode>, Seq<XmlNode>),
) -> (Seq<XmlNode>, Seq<XmlNode>)
    decreases budget,
{
    if budget == 0 {
        st
    } else {
        match xml_event_at(text, k) {
            XmlEventView::Start(n, a) => parse_events(text, k + 1, (budget - 1) as nat, open_v(st, tag_of(n), attrs_of(a, a.len() as int))),
            XmlEventView::Empty(n, a) => parse_events(
                text,
                k + 1,
                (budget - 1) as nat,
                attach_v(st, fresh_view(tag_of(n), attrs_of(a, a.len() as int))),
            ),
            XmlEventView::Text(v, raw) => parse_events(text, k + 1, (budget - 1) as nat, text_v(st, text_piece(v, raw))),
            XmlEventView::CData(raw) => parse_events(text, k + 1, (budget - 1) as nat, text_v(st, utf8_lossy(raw))),
            XmlEventView::End => parse_events(text, k + 1, (budget - 1) as nat, close_v(st)),
            XmlEventView::Eof => st,
            XmlEventView::Failed => st,
            XmlEventView::Other => parse_events(text, k + 1, (budget - 1) as nat, st),
        }
    }
}

/// Reading `text` ends (at `Eof` or an error) within `4 n + 2` events for
/// `n` characters, so that this bound never cuts `parse_events` short.
pub open spec fn reading_ends(text: Seq<char>) -> bool {
    exists|k: nat| k < 4 * text.len() + 2 && (#[trigger] xml_event_at(text, k) is Eof || xml_event_at(text, k) is Failed)
}

/// The top-level elements that parsing `xml` gives: the prepared text's
/// events (at most `4 n + 2` for `n` prepared characters) built into a tree,
/// elements still open at the end closed.
pub open spec fn parse_tree(xml: Seq<char>) -> Seq<XmlNode> {
    let text = reader_input(xml);
    finish_v(parse_events(text, 0, (4 * text.len() + 2) as nat, (Seq::empty(), Seq::empty())))
}

/// An element's tag and attributes from its event: see `tag_of` and
/// `attrs_of`.
fn record_parts(name: &Vec<u8>, list: &Vec<AttrRecord>) -> (res: (String, Vec<(String, String)>))
    ensures
        res.0@ == tag_of(name@),
        attrs_view(res.1@) == attrs_of(attr_records_view(list@), list@.len() as int),
        distinct_keys(attrs_view(res.1@)),
{
    let name_chars = decode_utf8_lossy(name.as_slice());
    let tag = local_part(&name_chars);
    let mut attrs: Vec<(String, String)> = Vec::new();
    let ghost lv = attr_records_view(list@);
    let mut i: usize = 0;
    proof {
        assert(attrs_view(attrs@) =~= Seq::<(Seq<char>, Seq<char>)>::empty());
    }
    while i < list.len()
        invariant
            i <= list@.len(),
            lv == attr_records_view(list@),
            distinct_keys(attrs_view(attrs@)),
            attrs_view(attrs@) == attrs_of(lv, i as int),
        decreases list@.len() - i,
    {
        let a = &list[i];
        let key_chars = decode_utf8_lossy(a.key.as_slice());
        let key = local_part(&key_chars);
        let value = match &a.value {
            Some(v) => v.clone(),
            None => {
                let chars = decode_utf8_lossy(a.raw.as_slice());
                string_from_chars(chars.as_slice())
            },
        };
        set_attr(&mut attrs, string_from_chars(key.as_slice()), value);
        i = i + 1;
    }
    (string_from_chars(tag.as_slice()), attrs)
}

/// Parses the game's XML into its top-level elements: the text is prepared
/// (see `prepare_xml_text`) and read event by event; unmatched end tags are
/// accepted, white space around text is dropped, reading stops at the end or
/// at the first error (every event but the last takes at least one byte of
/// the text, and a character is at most four bytes, so at most `4 n + 2`
/// events are read for `n` characters: reading ends before that bound),
/// and elements still open then are closed. The result is
/// `parse_tree(xml)`, and every element holds each attribute name once.
pub fn parse_xml(xml: &str) -> (r: Vec<XmlElement>)
    ensures
        nodes_view(r@) == parse_tree(xml@),
        reading_ends(reader_input(xml@)),
        forall|i: int| 0 <= i < r@.len() ==> #[trigger] unique_keys_tree(r@[i]),
{
    let clean = prepare_xml_text(xml);
    let clean_text = string_from_chars(clean.as_slice());
    let mut src = open_xml_source(clean_text.as_str());
    let mut builder = XmlTreeBuilder::new();
    let mut budget: u128 = (clean.len() as u128) * 4 + 2;
    let ghost text = clean_text@;
    let ghost total = parse_events(text, 0, budget as nat, builder_view(builder));
    let ghost n4 = 4 * text.len() + 2;
    while budget > 0
        invariant_except_break
            parse_events(text, src@.1, budget as nat, builder_view(builder)) == total,
            budget as int + xml_consumed(text, src@.1) >= n4,
        invariant
            builder_keys_unique(builder),
            src@.0 == text,
            xml_consumed(text, src@.1) <= 4 * text.len(),
            src@.1 + budget == n4,
            n4 == 4 * text.len() + 2,
        ensures
            builder_view(builder) == total,
            reading_ends(text),
        decreases budget,
    {
        let ghost k = src@.1;
        let ghost st = builder_view(builder);
        let ev = next_xml_event(&mut src);
        budget = budget - 1;
        match ev {
            XmlEvent::Start(t) => {
                let (n, a) = start_parts(&t, &src);
                let (tag, attrs) = record_parts(&n, &a);
                builder.open(tag, attrs);
            },
            XmlEvent::Empty(t) => {
                let (n, a) = start_parts(&t, &src);
                let (tag, attrs) = record_parts(&n, &a);
                builder.empty_element(tag, attrs);
            },
            XmlEvent::Text(v, raw) => {
                let piece = match v {
                    Some(t) => chars_of(t.as_str()),
                    None => decode_utf8_lossy(raw.as_slice()),
                };
                builder.add_text(piece.as_slice());
            },
            XmlEvent::CData(raw) => {
                let piece = decode_utf8_lossy(raw.as_slice());
                builder.add_text(piece.as_slice());
            },
            XmlEvent::End => {
                builder.close();
            },
            XmlEvent::Eof => {
                proof {
                    assert(xml_event_at(text, k) is Eof);
                }
                break;
            },
            XmlEvent::Failed => {
                proof {
                    assert(xml_event_at(text, k) is Failed);
                }
                break;
            },
            XmlEvent::Other => {},
        }
    }
    builder.finish()
}

} // verus!
