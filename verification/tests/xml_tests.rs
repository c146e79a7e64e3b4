use acs_seed_finder::xml::XmlElement;
use acs_seed_finder::xml_parse::{parse_xml, prepare_xml_text};

fn el(tag: &str, attrs: &[(&str, &str)], text: &str, children: Vec<XmlElement>) -> XmlElement {
    XmlElement {
        tag: tag.to_string(),
        attributes: attrs.iter().map(|(k, v)| (k.to_string(), v.to_string())).collect(),
        text: text.to_string(),
        children,
    }
}

#[test]
fn get_val_prefers_attributes_and_ignores_case() {
    let e = el("Thing", &[("NAME", "Sword")], "", vec![el("Name", &[], "Other", vec![])]);
    assert_eq!(e.get_val("name"), Some("Sword".to_string()));
}

#[test]
fn get_val_falls_back_to_child_text() {
    let e = el("Thing", &[], "", vec![el("Label", &[], "", vec![]), el("label", &[], "Weapon", vec![])]);
    assert_eq!(e.get_val("LABEL"), Some("Weapon".to_string()));
    assert_eq!(e.get_val("Missing"), None);
}

#[test]
fn get_list_takes_entries_or_the_child() {
    let e = el(
        "Def",
        &[],
        "",
        vec![
            el("Carry", &[], "", vec![el("li", &[("Name", "a")], "", vec![]), el("x", &[], "", vec![]), el("ITEM", &[("Name", "b")], "", vec![])]),
            el("carry", &[("Name", "c")], "", vec![]),
            el("Other", &[], "", vec![el("li", &[], "", vec![])]),
        ],
    );
    let list = e.get_list("CARRY");
    let names: Vec<Option<String>> = list.iter().map(|x| x.get_val("Name")).collect();
    assert_eq!(names, vec![Some("a".to_string()), Some("b".to_string()), Some("c".to_string())]);
}

#[test]
fn markup_is_removed_and_ampersands_escaped() {
    let s: String = prepare_xml_text("\u{feff} <a>x <COLOR=red>y</color> & z &amp; <b></b></a>").into_iter().collect();
    assert_eq!(s, "<a>x y &amp; z &amp; <b></b></a>");
}

#[test]
fn parse_builds_the_tree() {
    let roots = parse_xml("<Root><ns:Thing ns:Name=\"Sword\" Rate=\"3\"><Label> Weapon </Label><Empty/></ns:Thing><![CDATA[ data ]]></Root>");
    assert_eq!(roots.len(), 1);
    let root = &roots[0];
    assert_eq!(root.tag, "Root");
    assert_eq!(root.text, "data");
    let thing = &root.children[0];
    assert_eq!(thing.tag, "Thing");
    assert_eq!(thing.get_val("name"), Some("Sword".to_string()));
    assert_eq!(thing.get_val("Rate"), Some("3".to_string()));
    assert_eq!(thing.get_val("Label"), Some("Weapon".to_string()));
    assert_eq!(thing.children[1].tag, "Empty");
}

#[test]
fn parse_closes_open_elements_and_joins_text() {
    let roots = parse_xml("<A>one<B/>two");
    assert_eq!(roots.len(), 1);
    assert_eq!(roots[0].text, "one two");
    assert_eq!(roots[0].children.len(), 1);
}

#[test]
fn parse_unescapes_entities() {
    let roots = parse_xml("<A v=\"a&lt;b\">x &amp; y</A>");
    assert_eq!(roots[0].get_val("v"), Some("a<b".to_string()));
    assert_eq!(roots[0].text, "x & y");
}

#[test]
fn later_attribute_of_the_same_name_wins() {
    let roots = parse_xml("<A x=\"1\" p:x=\"2\"/>");
    assert_eq!(roots[0].attributes, vec![("x".to_string(), "2".to_string())]);
}

#[test]
fn repeated_attributes_keep_one_name() {
    let roots = parse_xml("<a p:k=\"1\" q:k=\"2\" j=\"3\"><b p:x=\"1\" x=\"9\"/></a>");
    assert_eq!(roots.len(), 1);
    let a = &roots[0];
    let names: Vec<&str> = a.attributes.iter().map(|(k, _)| k.as_str()).collect();
    assert_eq!(names, vec!["k", "j"]);
    assert_eq!(a.get_val("k"), Some("2".to_string()));
    assert_eq!(a.children[0].attributes.len(), 1);
    assert_eq!(a.children[0].get_val("x"), Some("9".to_string()));
}

#[test]
fn parse_gives_the_nested_tree() {
    let r = parse_xml("<a x='1'><b>hi</b><c/></a>");
    assert_eq!(r.len(), 1);
    let a = &r[0];
    assert_eq!(a.tag, "a");
    assert_eq!(a.attributes, vec![("x".to_string(), "1".to_string())]);
    assert_eq!(a.text, "");
    assert_eq!(a.children.len(), 2);
    assert_eq!((a.children[0].tag.as_str(), a.children[0].text.as_str()), ("b", "hi"));
    assert!(a.children[0].attributes.is_empty() && a.children[0].children.is_empty());
    assert_eq!((a.children[1].tag.as_str(), a.children[1].text.as_str()), ("c", ""));
    assert!(a.children[1].attributes.is_empty() && a.children[1].children.is_empty());
}

#[test]
fn parse_handles_bom_prefix_markup_and_bare_ampersand() {
    let r = parse_xml("\u{FEFF}<ns:a><color=red>R&D</color> ok</ns:a>");
    assert_eq!(r.len(), 1);
    assert_eq!(r[0].tag, "a");
    assert!(r[0].attributes.is_empty());
    assert_eq!(r[0].text, "R&D ok");
    assert!(r[0].children.is_empty());
}
