use acs_seed_finder::dict::CsDict;
use acs_seed_finder::lang::{add_text_translations, add_xml_translations, collect_modifiers, fabao_lengths, names_of_file, NameLists};
use acs_seed_finder::npc_tables::visit_blocks;
use acs_seed_finder::spells::{build_spell_list, collect_spells};
use acs_seed_finder::things::{collect_things, resolve_things, ThingRecord};
use acs_seed_finder::xml_parse::parse_xml;

const THINGS: &str = r#"<Defs>
  <ThingDef Name="SwordBase"><ThingName>Sword</ThingName><Item Lable="Weapon" Kind="Equipment"><BeMade><StuffCategories><li>Metal</li><li name="Wood"/></StuffCategories></BeMade><Equip TemperatureMaxAdd="1.5"/></Item><Rate>7</Rate></ThingDef>
  <ThingDef Name="Sword" Parent="SwordBase"><Item NotRandom="0"/></ThingDef>
  <ThingDef Name="Ore"><Item Lable="Mat"><BeMaterial ElementKind="Jin"/></Item></ThingDef>
  <ThingDef Name="Gem" Type="Building"><DisplayName>Shiny</DisplayName></ThingDef>
  <ThingDef Name="Axe"><Item Lable="Weapon" Kind="Equipment"/></ThingDef>
  <ThingDef Name="Apple"><Item Lable="Weapon" FabaoSuffix="a,b,c"/></ThingDef>
</Defs>"#;

fn bits(t: &Option<String>) -> u32 {
    t.as_ref().and_then(|s| s.parse::<f32>().ok()).unwrap_or(0.0).to_bits()
}

#[test]
fn things_resolve_and_list_by_label() {
    let roots = parse_xml(THINGS);
    let blocks = visit_blocks(&roots);
    let mut defs: CsDict<ThingRecord> = CsDict::new();
    let mut tr: CsDict<String> = CsDict::new();
    collect_things(&blocks, &mut defs, &mut tr);
    let n = defs.len();
    let temps: Vec<(u32, u32)> = (0..n).map(|i| (bits(&defs.value_at(i).temp_max_text), bits(&defs.value_at(i).temp_min_text))).collect();
    let t = resolve_things(&defs, &temps);
    let names: Vec<&str> = t.thing_defs.iter().map(|(k, _)| k.as_str()).collect();
    assert_eq!(names, vec!["Apple", "Axe", "Ore", "Sword", "SwordBase", "Wood"]);
    assert_eq!(t.thing_defs[5].1.label, "None");
    let sword = &t.thing_defs[3].1;
    assert_eq!(sword.label, "Weapon");
    assert_eq!(sword.item_kind, "Equipment");
    assert_eq!(sword.rate, 7);
    assert!(sword.has_be_made);
    assert_eq!(sword.stuff_categories, vec!["Metal".to_string(), "Wood".to_string()]);
    assert_eq!(f32::from_bits(sword.temp_max_add), 1.5);
    let ore = &t.thing_defs[2].1;
    assert!(ore.is_stuff);
    assert_eq!(ore.element_kind, 1);
    assert_eq!(t.thing_defs[0].1.fabao_suffix_len, 3);
    assert_eq!(t.map_lable2item, vec![("Weapon".to_string(), vec!["Apple".to_string(), "Sword".to_string()]), ("Mat".to_string(), vec!["Ore".to_string()])]);
    assert_eq!(t.map_lable2stuff, vec![("Mat".to_string(), vec!["Ore".to_string()])]);
    assert_eq!(tr.get(&"SwordBase".to_string()), Some(&"Sword".to_string()));
    assert_eq!(tr.get(&"Gem".to_string()), Some(&"Shiny".to_string()));
    assert_eq!(tr.len(), 2);
}

#[test]
fn spells_find_templates_through_parents() {
    let roots = parse_xml(r#"<Spells><SpellDef Name="A" Template="T"/><SpellDef Name="B" Parent="A" DisplayName=" Bee "/><SpellDef Name="C" Parent="X"/></Spells>"#);
    let blocks = visit_blocks(&roots);
    let mut spells: CsDict<(String, String)> = CsDict::new();
    let mut tr: CsDict<String> = CsDict::new();
    collect_spells(&blocks, &mut spells, &mut tr);
    let list = build_spell_list(&spells);
    let got: Vec<(String, bool)> = list.iter().map(|s| (s.name.clone(), s.has_template)).collect();
    assert_eq!(got, vec![("C".to_string(), false), ("B".to_string(), true), ("A".to_string(), true)]);
    assert_eq!(tr.get(&"B".to_string()), Some(&"Bee".to_string()));
}

#[test]
fn text_translations_pair_lines() {
    let mut tr: CsDict<String> = CsDict::new();
    add_text_translations("key1\r\n  value one  \n\n key2\nvalue2\nodd\n", &mut tr);
    assert_eq!(tr.len(), 2);
    assert_eq!(tr.get(&"key1".to_string()), Some(&"value one".to_string()));
    assert_eq!(tr.get(&"key2".to_string()), Some(&"value2".to_string()));
}

#[test]
fn xml_translations_take_the_first_text() {
    let roots = parse_xml(r#"<L><Text Name="k1" Desc="d1"/><li Name="k2">plain</li><Text Name="">x</Text><Other Name="k3">y</Other></L>"#);
    let blocks = visit_blocks(&roots);
    let mut tr: CsDict<String> = CsDict::new();
    add_xml_translations(&blocks, &mut tr);
    assert_eq!(tr.len(), 2);
    assert_eq!(tr.get(&"k1".to_string()), Some(&"d1".to_string()));
    assert_eq!(tr.get(&"k2".to_string()), Some(&"plain".to_string()));
}

#[test]
fn name_files_are_sorted_into_lists() {
    assert_eq!(names_of_file("\u{feff}\"Li\",x\r\n// note\n Wang \t1\n\tNot\n"), vec!["Li".to_string(), "Wang".to_string()]);
    let mut l = NameLists::new();
    l.add_file("SurnamePrefix.txt", "Li\nWang");
    l.add_file("Name_F.txt", "Mei");
    l.add_file("NameM.txt", "Qiang");
    l.add_file("OtherSuffix.txt", "Yi");
    l.add_file("SchoolPrefix.txt", "Skip");
    assert_eq!(l.names_prefix, vec!["Li".to_string(), "Wang".to_string()]);
    assert_eq!(l.names_f_suffix, vec!["Mei".to_string(), "Yi".to_string()]);
    assert_eq!(l.names_m_suffix, vec!["Qiang".to_string(), "Yi".to_string()]);
}

#[test]
fn fabao_lengths_count_names_per_line() {
    assert_eq!(fabao_lengths("a\tx,y,z\nb\n\tq\tr\r\n"), vec![(1, 3), (3, 1)]);
}

#[test]
fn modifiers_keep_property_texts() {
    let roots = parse_xml(r#"<M><Modifier Name="Swift"><Properties><li Name="Speed" AddV="1.5"/><li AddV="2"/><x Name="No"/></Properties></Modifier></M>"#);
    let blocks = visit_blocks(&roots);
    let mut defs = CsDict::new();
    collect_modifiers(&blocks, &mut defs);
    assert_eq!(defs.len(), 2);
    let m = defs.value_at(0);
    assert_eq!(m.name, "Swift");
    assert_eq!(m.properties, vec![("Speed".to_string(), Some("1.5".to_string()), None)]);
}
