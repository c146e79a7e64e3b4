use acs_seed_finder::dict::CsDict;

#[test]
fn insert_keeps_first_position_and_latest_value() {
    let mut d: CsDict<i32> = CsDict::new();
    d.insert("b".to_string(), 1);
    d.insert("a".to_string(), 2);
    d.insert("b".to_string(), 3);
    assert_eq!(d.len(), 2);
    assert_eq!(d.key_at(0), "b");
    assert_eq!(d.key_at(1), "a");
    assert_eq!(d.get(&"b".to_string()), Some(&3));
    assert_eq!(d.get(&"c".to_string()), None);
    assert_eq!(d.into_values(), vec![3, 2]);
}
