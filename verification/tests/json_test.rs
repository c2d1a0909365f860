use schema_db::encoding::parse_json;
use schema_db::json::{entries_get, entries_insert, json_equal, Json, JsonNumber};

fn text_of(v: Option<&Json>) -> Option<&str> {
    match v {
        Some(Json::Str(s)) => Some(s.as_str()),
        _ => None,
    }
}

#[test]
fn objects_keep_keys_sorted_and_unique() {
    let mut entries: Vec<(String, Json)> = Vec::new();
    entries_insert(&mut entries, "b".to_string(), Json::string("1"));
    entries_insert(&mut entries, "a".to_string(), Json::string("2"));
    entries_insert(&mut entries, "b".to_string(), Json::string("3"));
    let keys: Vec<&str> = entries.iter().map(|(k, _)| k.as_str()).collect();
    assert_eq!(keys, vec!["a", "b"]);
    assert_eq!(text_of(entries_get(&entries, "b")), Some("3"));
    assert!(entries_get(&entries, "c").is_none());
}

#[test]
fn object_from_lets_a_later_value_win() {
    let o = Json::object_from(vec![
        ("k".to_string(), Json::string("first")),
        ("j".to_string(), Json::Null),
        ("k".to_string(), Json::string("second")),
    ]);
    assert_eq!(text_of(o.get("k")), Some("second"));
    match &o {
        Json::Object(e) => assert_eq!(e.len(), 2),
        other => panic!("expected an object, got {:?}", other),
    }
}

#[test]
fn parsed_documents_compare_by_value() {
    let a = parse_json(r#"{ "x": [1, true, null, "s"], "y": { "z": 2 } }"#).unwrap();
    let b = parse_json(r#"{"y":{"z":2},"x":[1,true,null,"s"]}"#).unwrap();
    let c = parse_json(r#"{"y":{"z":3},"x":[1,true,null,"s"]}"#).unwrap();
    assert!(json_equal(&a, &b));
    assert!(!json_equal(&a, &c));
    assert!(json_equal(&a, &a.deep_copy()));
    assert!(parse_json("{ nope").is_err());
}

#[test]
fn numbers_keep_their_text() {
    assert_eq!(JsonNumber::from_u64(120).text(), "120");
    match parse_json("-1.5").unwrap() {
        Json::Number(n) => assert_eq!(n.text(), "-1.5"),
        other => panic!("expected a number, got {:?}", other),
    }
    assert!(json_equal(&Json::Number(JsonNumber::from_u64(7)), &parse_json("7").unwrap()));
    assert!(!json_equal(&Json::string("7"), &parse_json("7").unwrap()));
}

#[test]
fn float_zeros_compare_equal_as_serde_json_values_do() {
    let neg = parse_json("-0.0").unwrap();
    let pos = parse_json("0.0").unwrap();
    assert!(json_equal(&neg, &pos));
    assert!(json_equal(&parse_json("-0").unwrap(), &pos));
    assert!(json_equal(&parse_json("[-0.0, {\"a\": 0.0}]").unwrap(), &parse_json("[0.0, {\"a\": -0.0}]").unwrap()));
    // an integer zero is not a float zero
    assert!(!json_equal(&parse_json("0").unwrap(), &pos));
    assert!(!json_equal(&parse_json("1.0").unwrap(), &parse_json("1").unwrap()));
}
