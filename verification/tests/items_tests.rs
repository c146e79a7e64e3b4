use acs_seed_finder::items::{pull_random_spell, random_cloth_defname, random_item_defname, random_stuff_item_defname, RngState};
use acs_seed_finder::npc::SpellDefData;
use acs_seed_finder::rng::{DotNetRandom, GRandom};
use acs_seed_finder::things::{ThingDefData, ThingTables};

fn def(name: &str, rate: i32, not_random: i32, temp_max: f32, temp_min: f32) -> (String, ThingDefData) {
    (
        name.to_string(),
        ThingDefData {
            name: name.to_string(),
            rate,
            not_random,
            item_kind: String::new(),
            label: "Cloth".to_string(),
            has_be_made: false,
            is_stuff: false,
            stuff_categories: Vec::new(),
            element_kind: 0,
            fabao_suffix_len: 1,
            temp_max_add: temp_max.to_bits(),
            temp_min_add: temp_min.to_bits(),
            other_world: 0,
        },
    )
}

fn tables(defs: Vec<(String, ThingDefData)>, label: &str, names: &[&str]) -> ThingTables {
    let list: Vec<String> = names.iter().map(|s| s.to_string()).collect();
    ThingTables {
        thing_defs: defs,
        map_lable2item: vec![(label.to_string(), list.clone())],
        map_lable2stuff: vec![(label.to_string(), list)],
    }
}

fn after(seed: u32, draws: usize) -> u32 {
    let mut g = GRandom::new(seed);
    for _ in 0..draws {
        g.rand();
    }
    g.seed
}

#[test]
fn missing_label_draws_nothing() {
    let t = tables(vec![def("A", 1, 0, 0.0, 0.0)], "Cloth", &["A"]);
    let mut g = GRandom::new(7);
    assert_eq!(random_item_defname(&t, "Nope", 0, 12, &mut g), None);
    assert_eq!(g.seed, 7);
}

#[test]
fn empty_list_draws_nothing() {
    let t = tables(Vec::new(), "Cloth", &[]);
    let mut g = GRandom::new(7);
    assert_eq!(random_item_defname(&t, "Cloth", 0, 12, &mut g), None);
    assert_eq!(g.seed, 7);
}

#[test]
fn full_rate_range_takes_one_uniform_draw() {
    let t = tables(vec![def("A", 1, 0, 0.0, 0.0)], "Cloth", &["A"]);
    let mut g = GRandom::new(7);
    assert_eq!(random_item_defname(&t, "Cloth", 0, 12, &mut g), Some("A".to_string()));
    assert_eq!(g.seed, after(7, 1));
}

#[test]
fn walk_finds_the_only_fitting_item() {
    let defs = vec![def("A", 1, 0, 0.0, 0.0), def("B", 5, 0, 0.0, 0.0), def("C", 9, 0, 0.0, 0.0)];
    let t = tables(defs, "Cloth", &["A", "B", "C"]);
    for seed in [1u32, 2, 3, 99, 12345] {
        let mut g = GRandom::new(seed);
        assert_eq!(random_item_defname(&t, "Cloth", 4, 6, &mut g), Some("B".to_string()));
        assert_eq!(g.seed, after(seed, 1));
    }
}

#[test]
fn not_random_items_are_skipped_but_materials_are_not() {
    let defs = vec![def("A", 1, 0, 0.0, 0.0), def("B", 5, 1, 0.0, 0.0), def("C", 9, 0, 0.0, 0.0)];
    let t = tables(defs, "Cloth", &["A", "B", "C"]);
    let mut g = GRandom::new(5);
    let item = random_item_defname(&t, "Cloth", 4, 6, &mut g).unwrap();
    assert!(["A", "B", "C"].contains(&item.as_str()));
    assert_eq!(g.seed, after(5, 2));
    let mut g = GRandom::new(5);
    assert_eq!(random_stuff_item_defname(&t, "Cloth", 4, 6, &mut g), Some("B".to_string()));
    assert_eq!(g.seed, after(5, 1));
}

#[test]
fn cloth_follows_the_season() {
    let defs = vec![def("Coat", 1, 0, 5.0, 0.0), def("Shirt", 1, 0, 1.0, 0.0), def("Fur", 1, 0, 0.0, -8.0)];
    let t = tables(defs, "Cloth", &["Coat", "Shirt", "Fur"]);
    let mut g = GRandom::new(11);
    assert_eq!(random_cloth_defname(&t, "Cloth", 1, &mut g), Some("Coat".to_string()));
    assert_eq!(g.seed, after(11, 1));
    let mut g = GRandom::new(11);
    assert_eq!(random_cloth_defname(&t, "Cloth", 3, &mut g), Some("Fur".to_string()));
    let mut g = GRandom::new(11);
    assert_eq!(random_cloth_defname(&t, "Cloth", 0, &mut g), Some("Shirt".to_string()));
}

#[test]
fn cloth_without_a_fit_draws_from_the_whole_list() {
    let defs = vec![def("Shirt", 1, 0, 1.0, 0.0), def("Vest", 1, 0, 2.0, 0.0)];
    let t = tables(defs, "Cloth", &["Shirt", "Vest"]);
    let mut g = GRandom::new(3);
    let c = random_cloth_defname(&t, "Cloth", 3, &mut g).unwrap();
    assert!(c == "Shirt" || c == "Vest");
    assert_eq!(g.seed, after(3, 1));
}

#[test]
fn spells_need_a_template() {
    let spells = vec![
        SpellDefData { name: "Fire".to_string(), has_template: false },
        SpellDefData { name: "Ice".to_string(), has_template: true },
        SpellDefData { name: "Wind".to_string(), has_template: false },
    ];
    for seed in [1u32, 8, 77] {
        let mut g = GRandom::new(seed);
        assert_eq!(pull_random_spell(&spells, &mut g), "Ice");
        assert_eq!(g.seed, after(seed, 1));
    }
    let none = vec![SpellDefData { name: "Fire".to_string(), has_template: false }];
    let mut g = GRandom::new(4);
    assert_eq!(pull_random_spell(&none, &mut g), "");
    let mut g = GRandom::new(4);
    assert_eq!(pull_random_spell(&Vec::new(), &mut g), "");
    assert_eq!(g.seed, 4);
}

#[test]
fn dotnet_generator_draws_nothing_for_a_single_value() {
    let mut a = DotNetRandom::new(42);
    let mut b = DotNetRandom::new(42);
    assert!(a.is_ready());
    assert_eq!(a.next_int(0, 1), 0);
    assert_eq!(a.next_sample(), b.next_sample());
    let t = tables(vec![def("A", 1, 0, 0.0, 0.0)], "Cloth", &["A"]);
    let mut c = DotNetRandom::new(9);
    assert_eq!(random_item_defname(&t, "Cloth", 4, 6, &mut c), Some("A".to_string()));
}

#[test]
fn freshly_seeded_generators_are_ready() {
    for seed in [0, 1, 42, 100000000, 161803398, -161803398] {
        assert!(DotNetRandom::new(seed).is_canonical());
        assert!(DotNetRandom::new(seed).is_ready());
    }
    assert!(GRandom::new(0).is_ready());
}
