use std::sync::Arc;

use schema_db::definition_parser::SchemaDefinitions;
use schema_db::encoding::parse_json;
use schema_db::json::Json;
use schema_db::storage::{Storage, StorageError};

fn text_of(v: Option<&Json>) -> Option<&str> {
    match v {
        Some(Json::Str(s)) => Some(s.as_str()),
        _ => None,
    }
}

fn doc(text: &str) -> Json {
    parse_json(text).unwrap()
}

const PEOPLE: &str = r#"{
    "@graph": [
        { "@id": "https://schema.org/Person", "@type": "rdfs:Class" },
        { "@id": "https://schema.org/name", "@type": "rdf:Property" },
        { "@id": "https://schema.org/jobTitle", "@type": "rdf:Property" }
    ]
}"#;

fn open(dir: &tempfile::TempDir, defs: &Arc<SchemaDefinitions>) -> Storage {
    Storage::new(dir.path().to_str().unwrap(), defs.clone()).unwrap()
}

#[test]
fn test_storage_compression() {
    let json_ld = r#"{
            "@graph": [
                { "@id": "https://schema.org/Person", "@type": "rdfs:Class" },
                { "@id": "https://schema.org/name", "@type": "rdf:Property" }
            ]
        }"#;
    let defs = Arc::new(SchemaDefinitions::parse(json_ld).unwrap());
    let dir = tempfile::tempdir().unwrap();
    let mut storage = Storage::new(dir.path().to_str().unwrap(), defs.clone()).unwrap();

    let data = doc(r#"{ "@type": "Person", "name": "Jane Doe" }"#);

    let id = storage.insert(&data).unwrap();

    // Verify compressed data in DB
    let compressed = storage.get_stored_by_id(&id).unwrap().unwrap();

    let _name_id = defs.get_id("name").unwrap().to_string();
    let type_id = defs.get_id("@type").unwrap().to_string();

    assert!(compressed.get(&type_id).is_some());

    // Verify decompression
    let retrieved = storage.get_by_id(&id).unwrap().unwrap();
    assert_eq!(text_of(retrieved.get("name")), Some("Jane Doe"));
    assert_eq!(text_of(retrieved.get("@type")), Some("Person"));
}

#[test]
fn test_query() {
    let json_ld = r#"{
            "@graph": [
                { "@id": "https://schema.org/Person", "@type": "rdfs:Class" },
                { "@id": "https://schema.org/name", "@type": "rdf:Property" },
                { "@id": "https://schema.org/jobTitle", "@type": "rdf:Property" }
            ]
        }"#;
    let defs = Arc::new(SchemaDefinitions::parse(json_ld).unwrap());
    let dir = tempfile::tempdir().unwrap();
    let mut storage = Storage::new(dir.path().to_str().unwrap(), defs.clone()).unwrap();

    storage.insert(&doc(r#"{ "@type": "Person", "name": "Alice", "jobTitle": "Engineer" }"#)).unwrap();
    storage.insert(&doc(r#"{ "@type": "Person", "name": "Bob", "jobTitle": "Designer" }"#)).unwrap();

    let filters = vec![("name".to_string(), Json::string("Alice"))];

    let results = storage.query("Person", &filters).unwrap();
    assert_eq!(results.len(), 1);
    assert_eq!(text_of(results[0].get("name")), Some("Alice"));
}

#[test]
fn fresh_ids_are_schema_org_uuids() {
    let defs = Arc::new(SchemaDefinitions::parse(PEOPLE).unwrap());
    let dir = tempfile::tempdir().unwrap();
    let mut storage = open(&dir, &defs);
    let a = storage.insert(&doc(r#"{ "name": "A" }"#)).unwrap();
    let b = storage.insert(&doc(r#"{ "name": "A" }"#)).unwrap();
    for id in [&a, &b] {
        let rest = id.strip_prefix("https://schema.org/id/").unwrap();
        assert_eq!(rest.len(), 36);
        for (i, c) in rest.chars().enumerate() {
            if i == 8 || i == 13 || i == 18 || i == 23 {
                assert_eq!(c, '-');
            } else {
                assert!(c.is_ascii_hexdigit() && !c.is_ascii_uppercase());
            }
        }
    }
    assert_ne!(a, b);
    // the id is stored in the document
    let read = storage.get_by_id(&a).unwrap().unwrap();
    assert_eq!(text_of(read.get("@id")), Some(a.as_str()));
}

#[test]
fn explicit_id_is_kept() {
    let defs = Arc::new(SchemaDefinitions::parse(PEOPLE).unwrap());
    let dir = tempfile::tempdir().unwrap();
    let mut storage = open(&dir, &defs);
    let id = storage.insert(&doc(r#"{ "@id": "urn:x:1", "name": "Carol" }"#)).unwrap();
    assert_eq!(id, "urn:x:1");
    let read = storage.get_by_id("urn:x:1").unwrap().unwrap();
    assert_eq!(text_of(read.get("name")), Some("Carol"));
    assert_eq!(text_of(read.get("@id")), Some("urn:x:1"));
    // a second insert under the same id replaces the first
    storage.insert(&doc(r#"{ "@id": "urn:x:1", "name": "Dave" }"#)).unwrap();
    let read = storage.get_by_id("urn:x:1").unwrap().unwrap();
    assert_eq!(text_of(read.get("name")), Some("Dave"));
}

#[test]
fn missing_id_reads_nothing() {
    let defs = Arc::new(SchemaDefinitions::parse(PEOPLE).unwrap());
    let dir = tempfile::tempdir().unwrap();
    let storage = open(&dir, &defs);
    assert!(storage.get_by_id("urn:none").unwrap().is_none());
    assert!(storage.get_stored_by_id("urn:none").unwrap().is_none());
}

#[test]
fn stored_keys_are_term_ids() {
    let defs = Arc::new(SchemaDefinitions::parse(PEOPLE).unwrap());
    let dir = tempfile::tempdir().unwrap();
    let mut storage = open(&dir, &defs);
    let id = storage
        .insert(&doc(r#"{ "@id": "urn:s", "name": "N", "nick": "n", "jobTitle": [ { "name": "inner" } ] }"#))
        .unwrap();
    let stored = storage.get_stored_by_id(&id).unwrap().unwrap();
    // terms: @context 0, @id 1, @language 2, @type 3, @value 4, Person 5, jobTitle 6, name 7
    assert_eq!(text_of(stored.get("1")), Some("urn:s"));
    assert_eq!(text_of(stored.get("7")), Some("N"));
    assert_eq!(text_of(stored.get("nick")), Some("n"));
    assert!(stored.get("name").is_none());
    match stored.get("6") {
        Some(Json::Array(items)) => assert_eq!(text_of(items[0].get("7")), Some("inner")),
        other => panic!("expected an array, got {:?}", other),
    }
}

#[test]
fn get_by_type_lists_documents_of_the_type() {
    let defs = Arc::new(SchemaDefinitions::parse(PEOPLE).unwrap());
    let dir = tempfile::tempdir().unwrap();
    let mut storage = open(&dir, &defs);
    storage.insert(&doc(r#"{ "@id": "b", "@type": "Person", "name": "Bob" }"#)).unwrap();
    storage.insert(&doc(r#"{ "@id": "a", "@type": ["Thing", "Person"], "name": "Ann" }"#)).unwrap();
    storage.insert(&doc(r#"{ "@id": "c", "@type": "Thing", "name": "Cup" }"#)).unwrap();
    storage.insert(&doc(r#"{ "@id": "d", "name": "Untyped" }"#)).unwrap();

    let people = storage.get_by_type("Person").unwrap();
    let names: Vec<_> = people.iter().map(|p| text_of(p.get("name")).unwrap().to_string()).collect();
    // in the byte order of the ids
    assert_eq!(names, vec!["Ann".to_string(), "Bob".to_string()]);

    let things = storage.get_by_type("Thing").unwrap();
    assert_eq!(things.len(), 2);
    assert!(storage.get_by_type("Place").unwrap().is_empty());
}

#[test]
fn query_needs_every_filter_to_match() {
    let defs = Arc::new(SchemaDefinitions::parse(PEOPLE).unwrap());
    let dir = tempfile::tempdir().unwrap();
    let mut storage = open(&dir, &defs);
    storage.insert(&doc(r#"{ "@id": "1", "@type": "Person", "name": "Alice", "jobTitle": "Engineer" }"#)).unwrap();
    storage.insert(&doc(r#"{ "@id": "2", "@type": "Person", "name": "Alice", "jobTitle": "Designer" }"#)).unwrap();
    storage.insert(&doc(r#"{ "@id": "3", "@type": "Person", "name": "Bob" }"#)).unwrap();

    let all = storage.query("Person", &vec![]).unwrap();
    assert_eq!(all.len(), 3);

    let alices = storage.query("Person", &vec![("name".to_string(), Json::string("Alice"))]).unwrap();
    assert_eq!(alices.len(), 2);

    let filters = vec![
        ("name".to_string(), Json::string("Alice")),
        ("jobTitle".to_string(), Json::string("Designer")),
    ];
    let one = storage.query("Person", &filters).unwrap();
    assert_eq!(one.len(), 1);
    assert_eq!(text_of(one[0].get("@id")), Some("2"));

    // a key that no document holds matches nothing
    let none = storage.query("Person", &vec![("nick".to_string(), Json::string("A"))]).unwrap();
    assert!(none.is_empty());
    // a value of another kind does not match
    let none = storage.query("Person", &vec![("name".to_string(), Json::Null)]).unwrap();
    assert!(none.is_empty());
}

#[test]
fn compress_then_decompress_gives_the_document_back() {
    let defs = Arc::new(SchemaDefinitions::parse(PEOPLE).unwrap());
    let dir = tempfile::tempdir().unwrap();
    let storage = open(&dir, &defs);
    let data = doc(r#"{ "name": "x", "other": [1, { "jobTitle": true }], "@type": "Person" }"#);
    let compressed = storage.compress(&data);
    assert!(compressed.get("7").is_some());
    assert!(compressed.get("other").is_some());
    assert!(compressed.get("3").is_some());
    let back = storage.decompress(&compressed);
    assert!(schema_db::json::json_equal(&back, &data));
}

#[test]
fn decompress_reads_numeric_keys_as_u32() {
    let defs = Arc::new(SchemaDefinitions::parse(PEOPLE).unwrap());
    let dir = tempfile::tempdir().unwrap();
    let storage = open(&dir, &defs);
    let stored = doc(r#"{ "07": 1, "+3": 2, "999": 3, "-1": 4, "x": 5 }"#);
    let back = storage.decompress(&stored);
    assert!(back.get("name").is_some());
    assert!(back.get("@type").is_some());
    assert!(back.get("999").is_some());
    assert!(back.get("-1").is_some());
    assert!(back.get("x").is_some());
}

#[test]
fn non_objects_are_stored_under_a_fresh_id() {
    let defs = Arc::new(SchemaDefinitions::parse(PEOPLE).unwrap());
    let dir = tempfile::tempdir().unwrap();
    let mut storage = open(&dir, &defs);
    let id = storage.insert(&doc(r#"[1, 2]"#)).unwrap();
    assert!(id.starts_with("https://schema.org/id/"));
    match storage.get_by_id(&id).unwrap().unwrap() {
        Json::Array(items) => assert_eq!(items.len(), 2),
        other => panic!("expected an array, got {:?}", other),
    }
}

#[test]
fn opening_a_file_as_a_database_fails() {
    let defs = Arc::new(SchemaDefinitions::parse(PEOPLE).unwrap());
    let dir = tempfile::tempdir().unwrap();
    let file = tempfile::NamedTempFile::new_in(dir.path()).unwrap();
    match Storage::new(file.path().to_str().unwrap(), defs) {
        Err(e) => {
            assert!(matches!(e, StorageError::Database(_)));
            assert!(!e.message().is_empty());
        }
        Ok(_) => panic!("a plain file opened as a database"),
    }
}

#[test]
fn a_key_that_reads_as_a_term_id_comes_back_as_the_term() {
    let defs = Arc::new(SchemaDefinitions::parse(PEOPLE).unwrap());
    let dir = tempfile::tempdir().unwrap();
    let mut storage = open(&dir, &defs);
    // "7" is not a term, but it is the id of "name"
    storage.insert(&doc(r#"{ "@id": "k", "7": "x" }"#)).unwrap();
    let read = storage.get_by_id("k").unwrap().unwrap();
    assert_eq!(text_of(read.get("name")), Some("x"));
    assert!(read.get("7").is_none());
}

#[test]
fn a_document_nested_too_deep_for_the_reader_is_stored_but_not_read_back() {
    let defs = Arc::new(SchemaDefinitions::parse(PEOPLE).unwrap());
    let dir = tempfile::tempdir().unwrap();
    let mut storage = open(&dir, &defs);
    let mut deep = Json::Null;
    for _ in 0..200 {
        deep = Json::Array(vec![deep]);
    }
    let data = Json::object_from(vec![("@id".to_string(), Json::string("deep")), ("name".to_string(), deep)]);
    assert_eq!(storage.insert(&data).unwrap(), "deep");
    match storage.get_by_id("deep") {
        Err(e) => assert!(matches!(e, StorageError::Encoding(_))),
        Ok(_) => panic!("a document nested 200 deep read back"),
    }
    // nested within the reader's limit, it reads back
    let mut ok = Json::Null;
    for _ in 0..100 {
        ok = Json::Array(vec![ok]);
    }
    let data = Json::object_from(vec![("@id".to_string(), Json::string("ok")), ("name".to_string(), ok)]);
    storage.insert(&data).unwrap();
    assert!(storage.get_by_id("ok").unwrap().is_some());
}

#[test]
fn a_zero_filter_matches_a_negative_zero() {
    let defs = Arc::new(SchemaDefinitions::parse(PEOPLE).unwrap());
    let dir = tempfile::tempdir().unwrap();
    let mut storage = open(&dir, &defs);
    storage.insert(&doc(r#"{ "@id": "z", "@type": "Person", "name": -0.0 }"#)).unwrap();
    let found = storage.query("Person", &vec![("name".to_string(), doc("0.0"))]).unwrap();
    assert_eq!(found.len(), 1);
    let none = storage.query("Person", &vec![("name".to_string(), doc("0"))]).unwrap();
    assert!(none.is_empty());
}
