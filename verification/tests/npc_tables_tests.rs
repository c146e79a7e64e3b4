use acs_seed_finder::npc_tables::npc_tables_from_documents;
use acs_seed_finder::xml_parse::parse_xml;

const DOC: &str = r#"<Defs>
  <JianghuNpcDef Name="Base" Abstract="True">
    <School>3</School><Sex>Female</Sex><GongLevel>Qi</GongLevel><Title>Elder</Title>
    <Carry><li ThingDef="Sword" Stuff="Iron"/><li ThingType="Esoterica"/><li ThingType="Item"/></Carry>
  </JianghuNpcDef>
  <JianghuNpcDef Name="Child" Parent="Base"><LastName>Li</LastName><FristName>Bai</FristName></JianghuNpcDef>
  <JianghuNpcDef Name="Other"><School>3</School><GongLevel>Qi</GongLevel><Sex>1</Sex></JianghuNpcDef>
  <JianghuNpcDef Name="Lone"><School>x</School></JianghuNpcDef>
</Defs>"#;

#[test]
fn templates_inherit_from_their_parents() {
    let docs = vec![parse_xml(DOC)];
    let t = npc_tables_from_documents(&docs);
    let names: Vec<&str> = t.jh_npcs_global.iter().map(|d| d.name.as_str()).collect();
    assert_eq!(names, vec!["Lone", "Other", "Child", "Base"]);
    let child = &t.jh_npcs_global[2];
    assert_eq!(child.school, 3);
    assert_eq!(child.sex, 2);
    assert_eq!(child.gong_level, 1);
    assert_eq!(child.title, "Elder");
    assert_eq!(child.last_name, "Li");
    assert_eq!(child.first_name, "Bai");
    assert_eq!(child.carry.len(), 2);
    assert_eq!(child.carry[0].thing_def, "Sword");
    assert_eq!(child.carry[0].stuff, "Iron");
    assert_eq!(child.carry[1].thing_type, 1);
    let lone = &t.jh_npcs_global[0];
    assert_eq!(lone.school, 0);
    assert_eq!(lone.sex, 0);
    assert!(lone.carry.is_empty());
}

#[test]
fn schools_and_location_seeds() {
    let docs = vec![parse_xml(DOC)];
    let t = npc_tables_from_documents(&docs);
    let schools: Vec<(i32, Vec<String>)> = t.school_to_names.clone();
    assert_eq!(schools, vec![(0, vec!["Lone".to_string()]), (3, vec!["Other".to_string(), "Child".to_string()])]);
    let mut locs = t.location_to_template.clone();
    locs.sort();
    assert_eq!(locs, vec![(310001, "Other".to_string()), (310002, "Child".to_string())]);
}

#[test]
fn a_later_definition_replaces_an_earlier_one_in_place() {
    let a = parse_xml(r#"<Defs><Def Name="A"><School>1</School></Def><Def Name="B"/></Defs>"#);
    let b = parse_xml(r#"<Defs><Def Name="A"><School>2</School></Def></Defs>"#);
    let t = npc_tables_from_documents(&vec![a, b]);
    let names: Vec<&str> = t.jh_npcs_global.iter().map(|d| d.name.as_str()).collect();
    assert_eq!(names, vec!["B", "A"]);
    assert_eq!(t.jh_npcs_global[1].school, 2);
}
