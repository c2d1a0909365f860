use schema_db::definition_parser::{DefinitionError, SchemaDefinitions};

const PERSON_AND_NAME: &str = r#"{
    "@graph": [
        { "@id": "https://schema.org/Person", "@type": "rdfs:Class" },
        { "@id": "https://schema.org/name", "@type": "rdf:Property" }
    ]
}"#;

#[test]
fn test_parse_and_mapping() {
    let json_ld = r#"{
            "@graph": [
                { "@id": "https://schema.org/Person", "@type": "rdfs:Class" },
                { "@id": "https://schema.org/name", "@type": "rdf:Property" }
            ]
        }"#;
    let defs = SchemaDefinitions::parse(json_ld).unwrap();
    assert!(defs.is_valid_term("Person"));
    assert!(defs.is_valid_term("name"));
    assert!(defs.is_valid_term("@type"));

    let person_id = defs.get_id("Person").expect("Person should have ID");
    let term = defs.get_term(person_id).expect("ID should map back to Person");
    assert_eq!(term, "Person");
}

#[test]
fn ids_follow_sorted_term_order() {
    let defs = SchemaDefinitions::parse(PERSON_AND_NAME).unwrap();
    assert_eq!(defs.get_id("@context"), Some(0));
    assert_eq!(defs.get_id("@id"), Some(1));
    assert_eq!(defs.get_id("@language"), Some(2));
    assert_eq!(defs.get_id("@type"), Some(3));
    assert_eq!(defs.get_id("@value"), Some(4));
    assert_eq!(defs.get_id("Person"), Some(5));
    assert_eq!(defs.get_id("name"), Some(6));
    assert_eq!(defs.get_term(6).map(|s| s.as_str()), Some("name"));
    assert!(defs.get_term(7).is_none());
}

#[test]
fn unknown_terms_have_no_id() {
    let defs = SchemaDefinitions::parse(PERSON_AND_NAME).unwrap();
    assert!(!defs.is_valid_term("jobTitle"));
    assert_eq!(defs.get_id("jobTitle"), None);
    assert!(!defs.is_valid_term("rdfs:Class"));
}

#[test]
fn keywords_without_graph() {
    let defs = SchemaDefinitions::parse("{}").unwrap();
    for kw in ["@type", "@id", "@context", "@value", "@language"] {
        assert!(defs.is_valid_term(kw));
    }
    assert_eq!(defs.get_term(5), None);
}

#[test]
fn ids_outside_schema_org_are_ignored() {
    let text = r#"{ "@graph": [
        { "@id": "http://example.org/Thing" },
        { "@id": "https://schema.org/" },
        { "@id": 7 },
        { "name": "no id" },
        "not an object"
    ] }"#;
    let defs = SchemaDefinitions::parse(text).unwrap();
    assert!(!defs.is_valid_term("http://example.org/Thing"));
    assert!(!defs.is_valid_term(""));
    assert_eq!(defs.get_term(5), None);
}

#[test]
fn namespace_is_trimmed_repeatedly() {
    let text = r#"{ "@graph": [ { "@id": "https://schema.org/https://schema.org/Event" } ] }"#;
    let defs = SchemaDefinitions::parse(text).unwrap();
    assert!(defs.is_valid_term("Event"));
}

#[test]
fn duplicate_terms_count_once() {
    let text = r#"{ "@graph": [
        { "@id": "https://schema.org/Person" },
        { "@id": "https://schema.org/Person" },
        { "@id": "https://schema.org/@type" }
    ] }"#;
    let defs = SchemaDefinitions::parse(text).unwrap();
    assert_eq!(defs.get_id("Person"), Some(5));
    assert_eq!(defs.get_term(6), None);
}

#[test]
fn invalid_json_is_an_error() {
    match SchemaDefinitions::parse("{ not json") {
        Err(DefinitionError::InvalidJson(message)) => assert!(!message.is_empty()),
        other => panic!("expected an invalid-JSON error, got {:?}", other),
    }
}

#[test]
fn graph_that_is_not_an_array_gives_keywords_only() {
    let defs = SchemaDefinitions::parse(r#"{ "@graph": { "@id": "https://schema.org/Person" } }"#).unwrap();
    assert!(!defs.is_valid_term("Person"));
    assert!(defs.is_valid_term("@id"));
}

#[test]
fn ids_depend_on_the_terms_not_their_order() {
    let a = SchemaDefinitions::parse(
        r#"{ "@graph": [ { "@id": "https://schema.org/name" }, { "@id": "https://schema.org/Person" } ] }"#,
    )
    .unwrap();
    let b = SchemaDefinitions::parse(PERSON_AND_NAME).unwrap();
    for t in ["@context", "@id", "@language", "@type", "@value", "Person", "name", "other"] {
        assert_eq!(a.get_id(t), b.get_id(t));
    }
}

#[test]
fn id_and_term_round_trip() {
    let defs = SchemaDefinitions::parse(PERSON_AND_NAME).unwrap();
    for id in 0..7u32 {
        let term = defs.get_term(id).unwrap().clone();
        assert_eq!(defs.get_id(&term), Some(id));
    }
}
