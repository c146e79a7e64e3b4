use acs_seed_finder::text::{eq_ignore_ascii_case, parse_i32, trim_chars};

fn chars(s: &str) -> Vec<char> {
    s.chars().collect()
}

#[test]
fn parses_like_str_parse() {
    for s in ["0", "-0", "+12", "2147483647", "-2147483648", "2147483648", "-2147483649", "", "-", "+", "1a", " 1", "007"] {
        assert_eq!(parse_i32(&chars(s)), s.parse::<i32>().ok(), "{s}");
    }
}

#[test]
fn trims_unicode_white_space() {
    let t: String = trim_chars(&chars("\u{3000} a b \n")).into_iter().collect();
    assert_eq!(t, "a b");
}

#[test]
fn ascii_case_insensitive() {
    assert!(eq_ignore_ascii_case("JianghuNpcDef", "jianghunpcdef"));
    assert!(!eq_ignore_ascii_case("Ä", "ä"));
    assert!(!eq_ignore_ascii_case("li", "lis"));
}

#[test]
fn trim_uses_the_unicode_white_space_set() {
    let t: String = trim_chars(&chars("\u{85}\u{2028}\u{a0}x\u{2029}\u{202f}\u{205f}\u{1680}")).into_iter().collect();
    assert_eq!(t, "x");
    let u: String = trim_chars(&chars("\u{200b}y\u{feff}")).into_iter().collect();
    assert_eq!(u, "\u{200b}y\u{feff}");
}
