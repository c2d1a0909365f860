use schema_db::definition_parser::SchemaDefinitions;
use schema_db::encoding::parse_json;
use schema_db::schema_validator::SchemaValidator;

#[test]
fn test_validate_valid() {
    let json_ld = r#"{
            "@graph": [
                { "@id": "https://schema.org/Person", "@type": "rdfs:Class" },
                { "@id": "https://schema.org/name", "@type": "rdf:Property" }
            ]
        }"#;
    let defs = SchemaDefinitions::parse(json_ld).unwrap();
    let validator = SchemaValidator::new(&defs);

    let data = parse_json(r#"{ "@type": "Person", "name": "Jane Doe" }"#).unwrap();
    assert!(validator.validate(&data).is_ok());
}

#[test]
fn test_validate_invalid() {
    let json_ld = r#"{
            "@graph": [
                { "@id": "https://schema.org/Person", "@type": "rdfs:Class" }
            ]
        }"#;
    let defs = SchemaDefinitions::parse(json_ld).unwrap();
    let validator = SchemaValidator::new(&defs);

    let data = parse_json(r#"{ "@type": "Person", "unknown_field": "error" }"#).unwrap();
    assert!(validator.validate(&data).is_err());
}

fn person_defs() -> SchemaDefinitions {
    SchemaDefinitions::parse(
        r#"{ "@graph": [
            { "@id": "https://schema.org/Person" },
            { "@id": "https://schema.org/name" },
            { "@id": "https://schema.org/knows" }
        ] }"#,
    )
    .unwrap()
}

#[test]
fn error_names_the_invalid_field() {
    let defs = person_defs();
    let validator = SchemaValidator::new(&defs);
    let data = parse_json(r#"{ "@type": "Person", "unknown_field": "error" }"#).unwrap();
    assert_eq!(validator.validate(&data), Err("Invalid field name: unknown_field".to_string()));
}

#[test]
fn nested_keys_are_checked() {
    let defs = person_defs();
    let validator = SchemaValidator::new(&defs);
    let ok = parse_json(r#"{ "knows": [ { "name": "A" }, { "name": "B", "knows": [] } ] }"#).unwrap();
    assert!(validator.validate(&ok).is_ok());
    let bad = parse_json(r#"{ "knows": [ { "name": "A" }, { "age": 3 } ] }"#).unwrap();
    assert_eq!(validator.validate(&bad), Err("Invalid field name: age".to_string()));
}

#[test]
fn first_invalid_key_in_depth_first_order() {
    let defs = person_defs();
    let validator = SchemaValidator::new(&defs);
    // keys are visited in sorted order: "a" (nested "zz") before "b"
    let data = parse_json(r#"{ "b": 1, "a": { "zz": 2 } }"#).unwrap();
    assert_eq!(validator.validate(&data), Err("Invalid field name: a".to_string()));
    let data = parse_json(r#"{ "name": { "zz": 2 }, "zzz": 1 }"#).unwrap();
    assert_eq!(validator.validate(&data), Err("Invalid field name: zz".to_string()));
}

#[test]
fn scalars_and_arrays_of_scalars_are_valid() {
    let defs = person_defs();
    let validator = SchemaValidator::new(&defs);
    for text in ["1", "\"x\"", "null", "true", "[1, \"two\", null]", "{}"] {
        let data = parse_json(text).unwrap();
        assert!(validator.validate(&data).is_ok());
    }
}
