use acs_seed_finder::map_maker::{MapMaker, Terrain};

fn ling_soil_count(m: &MapMaker) -> usize {
    m.grid.iter().filter(|&&t| t == Terrain::LingSoil).count()
}

#[test]
fn make_map_is_deterministic_per_seed() {
    let mut a = MapMaker::new(12345, 96, 96);
    let mut b = MapMaker::new(0, 96, 96);
    a.make_map();
    b.reset(12345);
    b.make_map();
    assert_eq!(a.grid, b.grid);
    assert_eq!(a.born_space, b.born_space);
    assert_eq!(ling_soil_count(&a), ling_soil_count(&b));
}

#[test]
fn make_map_fills_every_cell() {
    let mut m = MapMaker::new(777, 128, 128);
    m.make_map();
    assert_eq!(m.grid.len(), 128 * 128);
    assert!(m.grid.iter().all(|&t| t != Terrain::Null));
    assert!(m.born_space.iter().any(|&b| b));
}

#[test]
fn key_round_trip() {
    let m = MapMaker::new(1, 192, 100);
    assert_eq!(m.p2key_safe(5, 7), 7 * 192 + 5);
    assert_eq!(m.key2p(7 * 192 + 5), (5, 7));
    assert_eq!(m.p2key_safe(192, 0), -1);
    assert_eq!(m.p2key_safe(0, 100), -1);
    assert_eq!(m.p2key_safe(-1, 3), -1);
    assert_eq!(m.key2p(-1), (-1, 0));
    assert!(!m.is_valid_key(0));
    assert!(m.is_valid_key(1));
    assert!(!m.is_valid_key(192 * 100));
}

#[test]
fn grid_neighbours() {
    let m = MapMaker::new(1, 10, 10);
    assert_eq!(m.get_grid(15, 0), 25);
    assert_eq!(m.get_grid(15, 1), 5);
    assert_eq!(m.get_grid(15, 2), 14);
    assert_eq!(m.get_grid(15, 3), 16);
    assert_eq!(m.get_grid(10, 2), -1);
    assert_eq!(m.get_grid(19, 3), -1);
    assert_eq!(m.get_grid(15, 4), 4);
    assert_eq!(m.get_grid(15, 7), 26);
    assert_eq!(m.get_grid(10, 1), -1); // key 0 is never a vertical neighbour
    assert_eq!(m.get_grid(95, 0), -1);
    assert_eq!(m.get_grid(-1, 0), -1);
    assert_eq!(m.get_grid(15, 8), -1);
}

#[test]
fn different_seeds_give_different_maps() {
    let mut a = MapMaker::new(1, 96, 96);
    let mut b = MapMaker::new(2, 96, 96);
    a.make_map();
    b.make_map();
    assert_ne!(a.grid, b.grid);
}
