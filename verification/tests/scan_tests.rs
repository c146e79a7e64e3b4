use acs_seed_finder::map_maker::{MapMaker, Terrain};
use acs_seed_finder::scan::{evaluate_seed, parse_seed_list, rank_by_count};
use acs_seed_finder::packed::{check_packed_header, PackedHeaderError, DATA_MAGIC, DATA_VERSION, pack_payload, unpack_payload, UnpackError};

#[test]
fn ranking_is_by_count_then_stable() {
    let r = rank_by_count(vec![(1, 5), (2, 9), (3, 5), (4, 7)]);
    assert_eq!(r, vec![(2, 9), (4, 7), (1, 5), (3, 5)]);
}

#[test]
fn evaluate_counts_spirit_soil() {
    let mut m = MapMaker::new(0, 96, 96);
    let hit = evaluate_seed(&mut m, 42, 0).unwrap();
    let count = m.grid.iter().filter(|&&t| t == Terrain::LingSoil).count();
    assert_eq!(hit, (42, count));
    assert_eq!(evaluate_seed(&mut m, 42, count + 1), None);
    assert_eq!(evaluate_seed(&mut m, 42, count), Some((42, count)));
}

#[test]
fn seed_lists_take_the_last_number_of_each_line() {
    let text = "seed 123\n  456  \nabc\n\n-7\r\nfoo bar 2147483648\n+9";
    assert_eq!(parse_seed_list(text), vec![123, 456, -7, 9]);
    assert_eq!(parse_seed_list("1 2 3"), vec![3]);
    assert_eq!(parse_seed_list(""), Vec::<i32>::new());
}

#[test]
fn packed_headers_are_checked_magic_first() {
    assert_eq!(DATA_MAGIC, 0x5043_5341);
    assert_eq!(check_packed_header(DATA_MAGIC, DATA_VERSION), Ok(()));
    assert_eq!(check_packed_header(0, 2), Err(PackedHeaderError::WrongMagic(0)));
    assert_eq!(check_packed_header(DATA_MAGIC, 2), Err(PackedHeaderError::WrongVersion(2)));
}

#[test]
fn packed_payloads_round_trip_through_gzip() {
    let payload: Vec<u8> = (0..2000u32).map(|i| (i % 251) as u8).collect();
    let packed = pack_payload(&payload).unwrap();
    assert_eq!(&packed[..2], &[0x1f, 0x8b]);
    assert_ne!(packed, payload);
    assert_eq!(pack_payload(&payload).unwrap(), packed);
    assert_eq!(unpack_payload(&packed), Ok(payload));
}

#[test]
fn unpacking_refuses_corrupt_and_empty_files() {
    assert_eq!(unpack_payload(b"not gzip at all"), Err(UnpackError::Corrupt));
    let empty = pack_payload(&[]).unwrap();
    assert_eq!(unpack_payload(&empty), Err(UnpackError::Empty));
}

#[test]
fn evaluate_gives_the_map_of_the_seed_whatever_ran_before() {
    let mut used = MapMaker::new(7, 96, 96);
    used.make_map();
    let _ = evaluate_seed(&mut used, 99, 0);
    let hit = evaluate_seed(&mut used, 42, 0);
    let mut fresh = MapMaker::new(42, 96, 96);
    fresh.make_map();
    assert_eq!(used.grid, fresh.grid);
    assert_eq!(used.born_space, fresh.born_space);
    assert_eq!(used.cache_born_line, fresh.cache_born_line);
    let count = fresh.grid.iter().filter(|&&t| t == Terrain::LingSoil).count();
    assert_eq!(hit, Some((42, count)));
}
