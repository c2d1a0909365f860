use schema_db::definition_parser::{term_of_item, text_starts_with, trim_start_matches};
use schema_db::encoding::parse_json;
use schema_db::text::{decimal_string, parse_u32, text_equal, text_less};

#[test]
fn parse_u32_reads_like_str_parse() {
    assert_eq!(parse_u32("0"), Some(0));
    assert_eq!(parse_u32("42"), Some(42));
    assert_eq!(parse_u32("+5"), Some(5));
    assert_eq!(parse_u32("05"), Some(5));
    assert_eq!(parse_u32("4294967295"), Some(u32::MAX));
    assert_eq!(parse_u32("4294967296"), None);
    assert_eq!(parse_u32(""), None);
    assert_eq!(parse_u32("+"), None);
    assert_eq!(parse_u32("-1"), None);
    assert_eq!(parse_u32("1a"), None);
    assert_eq!(parse_u32(" 1"), None);
    for s in ["0", "+5", "05", "4294967296", "", "+", "-1", "1a", "00000000000000000001"] {
        assert_eq!(parse_u32(s), s.parse::<u32>().ok());
    }
}

#[test]
fn decimal_string_writes_like_to_string() {
    for n in [0u64, 7, 10, 99, 100, 12345, u64::MAX] {
        assert_eq!(decimal_string(n), n.to_string());
    }
}

#[test]
fn text_order_is_by_character() {
    assert!(text_less("@type", "Person"));
    assert!(text_less("Person", "name"));
    assert!(text_less("ab", "abc"));
    assert!(!text_less("abc", "ab"));
    assert!(!text_less("x", "x"));
    assert!(text_less("", "a"));
    assert!(text_equal("né", "né"));
    assert!(!text_equal("a", "b"));
    assert_eq!(schema_db::text::concat("Invalid ", "request"), "Invalid request");
}

#[test]
fn prefixes_are_trimmed_repeatedly() {
    assert_eq!(trim_start_matches("ababc", "ab"), "c");
    assert_eq!(trim_start_matches("abc", "x"), "abc");
    assert_eq!(trim_start_matches("abab", "ab"), "");
    assert!(text_starts_with("https://schema.org/name", "https://schema.org/"));
    assert!(!text_starts_with("http://schema.org/name", "https://schema.org/"));
    assert!(text_starts_with("x", ""));
}

#[test]
fn graph_items_define_schema_org_terms() {
    let item = parse_json(r#"{ "@id": "https://schema.org/Person" }"#).unwrap();
    assert_eq!(term_of_item(&item), Some("Person".to_string()));
    let item = parse_json(r#"{ "@id": "https://schema.org/" }"#).unwrap();
    assert_eq!(term_of_item(&item), None);
    let item = parse_json(r#"{ "@id": "http://example.org/Person" }"#).unwrap();
    assert_eq!(term_of_item(&item), None);
    let item = parse_json(r#"{ "@id": 3 }"#).unwrap();
    assert_eq!(term_of_item(&item), None);
    let item = parse_json(r#"[ "https://schema.org/Person" ]"#).unwrap();
    assert_eq!(term_of_item(&item), None);
}

#[test]
fn an_empty_pattern_trims_nothing() {
    assert_eq!(trim_start_matches("abc", ""), "abc".trim_start_matches(""));
    assert_eq!(trim_start_matches("", ""), "");
}
