use acs_seed_finder::map_maker::{
    CType, T_BORN_LINE, T_BORN_SPACE, T_FERTILE_SOIL, T_LING_SOIL, T_MUD, T_SOIL, T_STONE_LAND,
};
use acs_seed_finder::shadow::{ShadowPipeline, CELLS, WORDS};

fn ones(p: &ShadowPipeline, t: usize) -> u32 {
    p.bb[t].iter().map(|w| w.count_ones()).sum()
}

#[test]
fn a_new_pipeline_is_empty() {
    let p = ShadowPipeline::new(42);
    assert_eq!(p.bb.len(), 20);
    assert!(p.bb.iter().all(|l| l.len() == WORDS && l.iter().all(|&w| w == 0)));
    assert!(p.mine_dirs.is_empty());
}

#[test]
fn a_readback_word_moves_cells_between_layers() {
    let mut p = ShadowPipeline::new(1);
    p.bb[T_SOIL][7] = 0b1111;
    p.bb[T_BORN_SPACE][7] = 0b0110;
    p.apply_readback_word(T_FERTILE_SOIL, 7, 0b0110);
    assert_eq!(p.bb[T_FERTILE_SOIL][7], 0b0110);
    assert_eq!(p.bb[T_SOIL][7], 0b1001);
    // layers beyond the terrain layers are left alone
    assert_eq!(p.bb[T_BORN_SPACE][7], 0b0110);
}

#[test]
fn a_merged_readback_adds_only_missing_cells() {
    let mut p = ShadowPipeline::new(1);
    p.bb[T_SOIL][0] = 0b0011;
    p.bb[T_MUD][0] = 0b0001;
    p.bb[T_MUD][3] = 0b1000;
    let mut words = vec![0u32; WORDS];
    words[0] = 0b0111;
    words[5] = 0b1;
    p.merge_readback(T_MUD, &words);
    assert_eq!(p.bb[T_MUD][0], 0b0111);
    assert_eq!(p.bb[T_SOIL][0], 0b0001);
    assert_eq!(p.bb[T_MUD][3], 0b1000);
    assert_eq!(p.bb[T_MUD][5], 0b1);
}

#[test]
fn class_masks_follow_the_layers() {
    let mut p = ShadowPipeline::new(3);
    p.bb[T_SOIL][2] = 0b1100;
    p.bb[T_FERTILE_SOIL][2] = 0b0011;
    p.bb[T_BORN_LINE][2] = 0b0001;
    let all = p.ctype_masks(CType::AllTrue);
    assert!(all.iter().all(|&w| w == u32::MAX));
    let no_born = p.ctype_masks(CType::NoBorn);
    assert_eq!(no_born[2], 0b1110);
    assert_eq!(p.get_ctype_mask(2, CType::CheckCon), 0b1111);
    assert_eq!(p.get_ctype_mask(2, CType::CheckCon2), u32::MAX);
}

#[test]
fn the_birth_space_copies_the_fertile_layer_but_the_first_cell() {
    let mut p = ShadowPipeline::new(9);
    p.bb[T_FERTILE_SOIL][0] = 0b111;
    p.bb[T_FERTILE_SOIL][1000] = 0xF0;
    p.step_2_cpu_a();
    assert_eq!(p.bb[T_BORN_SPACE][0], 0b110);
    assert_eq!(p.bb[T_BORN_SPACE][1000], 0xF0);
    assert_eq!(ones(&p, T_BORN_SPACE), 6);
}

#[test]
fn the_first_step_lays_soil_and_mine_paths() {
    let mut p = ShadowPipeline::new(20240601);
    p.step_1_cpu();
    assert!(!p.mine_dirs.is_empty());
    assert!(p.mine_dirs.iter().all(|&k| (k as i32) < CELLS && k > 0));
    assert_eq!(ones(&p, T_FERTILE_SOIL), 1);
    assert_eq!(ones(&p, T_SOIL), CELLS as u32 - 1);
}

#[test]
fn the_passes_run_through_and_are_deterministic() {
    let run = |seed: i32| {
        let mut p = ShadowPipeline::new(seed);
        p.before_fertile_pass();
        p.before_water_pass();
        let born = (p.bb[T_BORN_SPACE].clone(), p.bb[T_BORN_LINE].clone());
        p.before_rock_pass();
        p.step_7_cpu();
        p.after_stone_pass();
        // no step after the second leaves a mark on the birth layers
        assert_eq!(born, (p.bb[T_BORN_SPACE].clone(), p.bb[T_BORN_LINE].clone()));
        p
    };
    let a = run(777);
    let b = run(777);
    assert_eq!(a.bb, b.bb);
    assert_eq!(a.mine_dirs, b.mine_dirs);
    assert!(ones(&a, T_FERTILE_SOIL) > 1);
    assert!(ones(&a, T_STONE_LAND) > 0);
    // no cell lies in two terrain layers
    for w in 0..WORDS {
        let mut seen = 0u32;
        for t in 1..=15 {
            assert_eq!(seen & a.bb[t][w], 0, "word {w} layer {t}");
            seen |= a.bb[t][w];
        }
    }
    let _ = ones(&a, T_LING_SOIL);
}

#[test]
fn stone_land_only_takes_cells_from_other_layers() {
    let mut p = ShadowPipeline::new(31337);
    p.before_fertile_pass();
    p.before_water_pass();
    p.before_rock_pass();
    let before = p.bb.clone();
    p.step_7_cpu();
    for w in 0..WORDS {
        assert_eq!(before[T_STONE_LAND][w] & !p.bb[T_STONE_LAND][w], 0);
        for t in 1..=15 {
            if t != T_STONE_LAND {
                assert_eq!(p.bb[t][w] & !before[t][w], 0, "word {w} layer {t}");
            }
        }
    }
}

#[test]
fn step_two_turns_fertile_cells_into_soil_and_draws_the_birth_line_on_the_edges() {
    let mut p = ShadowPipeline::new(5);
    p.bb[T_FERTILE_SOIL][0] = 0b1011;
    p.bb[T_FERTILE_SOIL][600] = 0xF000_0000;
    p.step_2_cpu_b();
    assert_eq!(p.bb[T_FERTILE_SOIL][0], 0b0001);
    assert_eq!(p.bb[T_SOIL][0], 0b1010);
    assert_eq!(p.bb[T_FERTILE_SOIL][600], 0);
    assert_eq!(p.bb[T_SOIL][600], 0xF000_0000);
    assert!(ones(&p, T_BORN_LINE) > 0);
    for w in 0..WORDS {
        for b in 0..32 {
            if (p.bb[T_BORN_LINE][w] >> b) & 1 == 1 {
                let key = w * 32 + b;
                let (x, y) = (key % 192, key / 192);
                assert!(x == 0 || x == 191 || y == 0 || y == 191, "cell {key}");
            }
        }
    }
}
