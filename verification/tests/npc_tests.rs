use acs_seed_finder::npc::get_jh_npc_local_seed;

#[test]
fn local_seed_clamp() {
    // school < 0 -> clamped to 999
    assert_eq!(get_jh_npc_local_seed(-1, 0, 0), 999 * 100_000);
    // school > 998 -> clamped to 998
    assert_eq!(get_jh_npc_local_seed(999, 0, 0), 998 * 100_000);
    // normal case
    assert_eq!(get_jh_npc_local_seed(5, 3, 7), 5 * 100_000 + 3 * 10_000 + 7);
}
