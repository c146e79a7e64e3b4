use acs_seed_finder::sect::load_game_data;

const THINGS: &str = r#"<Things>
<ThingDef Name="Robe"><ThingName> Silk Robe </ThingName><EquipType>Clothes</EquipType></ThingDef>
<ThingDef Name="Trousers1"><EquipType>Trousers</EquipType></ThingDef>
<ThingDef><defName> Blade </defName><ItemType>Fabao</ItemType></ThingDef>
<ThingDef Name="Ore"><IsStuff>TRUE</IsStuff></ThingDef>
<ThingDef Name="Wood"><StuffDef>wood</StuffDef></ThingDef>
<ThingDef><EquipType>Clothes</EquipType></ThingDef>
<SpellDef Name="Fire"><SpellName>Fire Ball</SpellName></SpellDef>
<SpellDef Name="Ice"><ThingName>Ice Wall</ThingName></SpellDef>
<SpellDef Name="Wind"></SpellDef>
</Things>"#;

#[test]
fn items_and_spells_are_sorted_into_lists() {
    let data = load_game_data(&vec![THINGS.to_string()]);
    assert_eq!(data.clothes, vec!["Silk Robe".to_string()]);
    assert_eq!(data.pants, vec!["Trousers1".to_string()]);
    assert_eq!(data.weapons, vec!["Blade".to_string()]);
    assert_eq!(data.stuffs, vec!["Ore".to_string(), "Wood".to_string()]);
    assert_eq!(data.spells, vec!["Fire Ball".to_string(), "Ice Wall".to_string(), "Wind".to_string()]);
    assert!(data.loaded);
}

#[test]
fn a_later_file_updates_in_place() {
    let a = r#"<ThingDef Name="A"><EquipType>Clothes</EquipType></ThingDef><ThingDef Name="B"><EquipType>Clothes</EquipType></ThingDef>"#;
    let b = r#"<ThingDef Name="A"><ThingName>New A</ThingName><EquipType>Clothes</EquipType></ThingDef>"#;
    let data = load_game_data(&vec![a.to_string(), b.to_string()]);
    assert_eq!(data.clothes, vec!["New A".to_string(), "B".to_string()]);
}

#[test]
fn nothing_found_is_not_loaded() {
    let data = load_game_data(&vec!["<ThingDef Name=\"X\">".to_string()]);
    assert!(data.clothes.is_empty());
    assert!(!data.loaded);
}
