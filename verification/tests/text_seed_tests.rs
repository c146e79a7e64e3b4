use acs_seed_finder::text_seed::{find_chinese_collision, string_hash};

// Reference hash over UTF-16 units with the same shift/subtract form the game uses.
fn reference_hash(s: &str) -> i32 {
    s.encode_utf16()
        .fold(0i32, |n, c| n.wrapping_shl(5).wrapping_sub(n).wrapping_add(c as i32))
}

#[test]
fn string_hash_known_values() {
    assert_eq!(string_hash(""), 0);
    assert_eq!(string_hash("a"), 97);
    assert_eq!(string_hash("abc"), 96354);
    assert_eq!(string_hash("hello"), 99162322);
}

#[test]
fn string_hash_matches_reference_on_mixed_text() {
    for s in ["玄黎曰", "了不起的修仙模拟器", "seed 42", "😀 emoji", "𝄞𝄞", "Ω≈ç√∫"] {
        assert_eq!(string_hash(s), reference_hash(s), "{}", s);
    }
}

#[test]
fn collision_hashes_back_to_seed() {
    for seed in [0, 1, -1, 42, 123456789, i32::MAX, i32::MIN, -987654321, 2_000_000_000] {
        let text = find_chinese_collision(seed).expect("a collision always exists");
        assert_eq!(text.chars().count(), 8);
        assert!(text.starts_with("玄黎曰"));
        assert_eq!(string_hash(&text), seed, "seed {}", seed);
    }
}

#[test]
fn collision_characters_follow_base_31_digits() {
    // For the seed whose remainder is 0 every generated character is U+7384.
    let prefix = (string_hash("玄黎曰") as u32).wrapping_mul(31u32.pow(5));
    let seed = prefix.wrapping_add(2450903684) as i32;
    let text = find_chinese_collision(seed).unwrap();
    assert_eq!(text, "玄黎曰玄玄玄玄玄");
}
