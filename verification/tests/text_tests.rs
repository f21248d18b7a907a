use item_catalog::text::{
    chars_of, decimal_text, has_prefix, has_suffix, join2, join3, parse_u32, same_text,
};

#[test]
fn chars_of_gives_every_character() {
    assert_eq!(chars_of("aé€"), vec!['a', 'é', '€']);
    assert_eq!(chars_of(""), Vec::<char>::new());
}

#[test]
fn prefixes_and_suffixes() {
    assert!(has_prefix("content_1.jpg", "content"));
    assert!(!has_prefix("cont", "content"));
    assert!(has_prefix("abc", ""));
    assert!(has_suffix("a.jpg", ".jpg"));
    assert!(!has_suffix("a.jpeg", ".jpg"));
    assert!(!has_suffix("jpg", ".jpg"));
    assert!(same_text("on", "on"));
    assert!(!same_text("on", "onn"));
    assert_eq!(join2("ab", "cd"), "abcd");
    assert_eq!(join3("a", "/", "b"), "a/b");
}

#[test]
fn decimal_text_matches_to_string() {
    for n in [0u32, 7, 10, 99, 800, 999, 1000, 123456, u32::MAX] {
        assert_eq!(decimal_text(n), n.to_string());
    }
}

#[test]
fn parse_u32_matches_std_parse() {
    let cases = [
        "", "+", "-", "0", "007", "+42", "-1", "12a", " 1", "4294967295", "4294967296",
        "99999999999999999999", "١٢", "800",
    ];
    for c in cases {
        assert_eq!(parse_u32(c), c.parse::<u32>().ok(), "input {:?}", c);
    }
}

#[test]
fn parse_then_write_gives_the_number_back() {
    for n in [0u32, 5, 800, 4294967295] {
        assert_eq!(parse_u32(&decimal_text(n)), Some(n));
    }
}
