use std::sync::Arc;

use schema_db::definition_parser::SchemaDefinitions;
use schema_db::encoding::parse_json;
use schema_db::json::Json;
use schema_db::protocol::{Request, Response};
use schema_db::server::{
    frame, frame_length, handle_request, invalid_request_response, listing_response, on_header, on_request,
    HeaderAction, MAX_PAYLOAD_SIZE,
};
use schema_db::storage::{Storage, StorageError};

fn text_of(v: Option<&Json>) -> Option<&str> {
    match v {
        Some(Json::Str(s)) => Some(s.as_str()),
        _ => None,
    }
}

fn doc(text: &str) -> Json {
    parse_json(text).unwrap()
}

fn query(typ: &str, filters: Vec<(String, Json)>) -> Request {
    Request::Query {
        typ: typ.to_string(),
        filters,
        hydrate: None,
        limit: None,
        offset: None,
        sort_by: None,
        sort_desc: None,
    }
}

#[test]
fn test_server_integration() {
    let schema_json = r#"{
        "@graph": [
            { "@id": "https://schema.org/Person", "@type": "rdfs:Class" },
            { "@id": "https://schema.org/name", "@type": "rdf:Property" }
        ]
    }"#;

    let definitions = Arc::new(SchemaDefinitions::parse(schema_json).unwrap());
    let dir = tempfile::tempdir().unwrap();
    let mut storage = Storage::new(dir.path().to_str().unwrap(), definitions.clone()).unwrap();

    // Insert Alice
    let req = Request::Insert { data: doc(r#"{ "@type": "Person", "name": "Alice" }"#) };
    let _resp_alice = handle_request(&mut storage, &definitions, req);

    // Insert Bob
    let req = Request::Insert { data: doc(r#"{ "@type": "Person", "name": "Bob" }"#) };
    let _resp_bob = handle_request(&mut storage, &definitions, req);

    // Query for Alice
    let filters = vec![("name".to_string(), Json::string("Alice"))];
    let req = query("Person", filters);
    let resp = handle_request(&mut storage, &definitions, req);

    if let Response::Success { data: Some(Json::Array(items)) } = resp {
        assert_eq!(items.len(), 1);
        assert_eq!(text_of(items[0].get("name")), Some("Alice"));
    } else {
        panic!("Expected Query Ok response, got {:?}", resp);
    }
}

fn person_storage(dir: &tempfile::TempDir) -> (Arc<SchemaDefinitions>, Storage) {
    let definitions = Arc::new(
        SchemaDefinitions::parse(
            r#"{ "@graph": [ { "@id": "https://schema.org/Person" }, { "@id": "https://schema.org/name" } ] }"#,
        )
        .unwrap(),
    );
    let storage = Storage::new(dir.path().to_str().unwrap(), definitions.clone()).unwrap();
    (definitions, storage)
}

#[test]
fn insert_of_an_unknown_field_is_refused_and_not_stored() {
    let dir = tempfile::tempdir().unwrap();
    let (definitions, mut storage) = person_storage(&dir);
    let req = Request::Insert { data: doc(r#"{ "@id": "urn:bad", "@type": "Person", "age": 3 }"#) };
    match handle_request(&mut storage, &definitions, req) {
        Response::Failure { message } => assert_eq!(message, "Invalid field name: age"),
        other => panic!("expected a failure, got {:?}", other),
    }
    assert!(storage.get_by_id("urn:bad").unwrap().is_none());
}

#[test]
fn insert_then_get_by_id_and_type() {
    let dir = tempfile::tempdir().unwrap();
    let (definitions, mut storage) = person_storage(&dir);
    let req = Request::Insert { data: doc(r#"{ "@type": "Person", "name": "Eve" }"#) };
    let id = match handle_request(&mut storage, &definitions, req) {
        Response::Success { data: Some(Json::Str(id)) } => id,
        other => panic!("expected an id, got {:?}", other),
    };
    assert!(id.starts_with("https://schema.org/id/"));

    let resp = handle_request(&mut storage, &definitions, Request::GetById { id: id.clone(), hydrate: Some(true) });
    match resp {
        Response::Success { data: Some(d) } => assert_eq!(text_of(d.get("name")), Some("Eve")),
        other => panic!("expected the document, got {:?}", other),
    }

    let resp = handle_request(&mut storage, &definitions, Request::GetById { id: "urn:none".to_string(), hydrate: None });
    assert!(matches!(resp, Response::Success { data: None }));

    let req = Request::GetByType {
        typ: "Person".to_string(),
        hydrate: None,
        limit: None,
        offset: None,
        sort_by: None,
        sort_desc: None,
    };
    match handle_request(&mut storage, &definitions, req) {
        Response::Success { data: Some(Json::Array(items)) } => assert_eq!(items.len(), 1),
        other => panic!("expected a list, got {:?}", other),
    }
}

#[test]
fn batch_insert_returns_the_ids_or_the_first_failure() {
    let dir = tempfile::tempdir().unwrap();
    let (definitions, mut storage) = person_storage(&dir);
    let req = Request::BatchInsert {
        items: vec![doc(r#"{ "@id": "u1", "name": "A" }"#), doc(r#"{ "@id": "u2", "name": "B" }"#)],
    };
    match handle_request(&mut storage, &definitions, req) {
        Response::Success { data: Some(Json::Array(ids)) } => {
            assert_eq!(ids.len(), 2);
            assert_eq!(text_of(Some(&ids[0])), Some("u1"));
            assert_eq!(text_of(Some(&ids[1])), Some("u2"));
        }
        other => panic!("expected ids, got {:?}", other),
    }
    let req = Request::BatchInsert {
        items: vec![doc(r#"{ "@id": "u3", "name": "C" }"#), doc(r#"{ "@id": "u4", "bad": 1 }"#)],
    };
    match handle_request(&mut storage, &definitions, req) {
        Response::Failure { message } => assert_eq!(message, "Invalid field name: bad"),
        other => panic!("expected a failure, got {:?}", other),
    }
    assert!(storage.get_by_id("u4").unwrap().is_none());
}

#[test]
fn frames_carry_a_big_endian_length() {
    let payload = vec![7u8; 258];
    let framed = frame(&payload);
    assert_eq!(&framed[..4], &[0, 0, 1, 2]);
    assert_eq!(&framed[4..], &payload[..]);
    assert_eq!(frame_length(&[0, 0, 1, 2]), 258);
    assert_eq!(frame_length(&[1, 2, 3, 4]), 0x0102_0304);
    assert_eq!(frame(&vec![]), vec![0, 0, 0, 0]);
}

#[test]
fn headers_above_the_limit_are_refused() {
    assert_eq!(MAX_PAYLOAD_SIZE, 10 * 1024 * 1024);
    let limit = (MAX_PAYLOAD_SIZE as u32).to_be_bytes();
    assert!(matches!(on_header(&limit), HeaderAction::ReadPayload(n) if n == MAX_PAYLOAD_SIZE));
    let above = (MAX_PAYLOAD_SIZE as u32 + 1).to_be_bytes();
    match on_header(&above) {
        HeaderAction::ReplyAndClose(Response::Failure { message }) => assert_eq!(message, "Payload too large"),
        other => panic!("expected a refusal, got {:?}", other),
    }
    assert!(matches!(on_header(&[0, 0, 0, 5]), HeaderAction::ReadPayload(5)));
}

#[test]
fn a_payload_that_is_no_request_is_answered_with_its_reason() {
    match invalid_request_response("missing field `op`") {
        Response::Failure { message } => assert_eq!(message, "Invalid request: missing field `op`"),
        other => panic!("expected a failure, got {:?}", other),
    }
    let dir = tempfile::tempdir().unwrap();
    let (definitions, mut storage) = person_storage(&dir);
    match on_request(&mut storage, &definitions, Err("eof".to_string())) {
        Response::Failure { message } => assert_eq!(message, "Invalid request: eof"),
        other => panic!("expected a failure, got {:?}", other),
    }
}

#[test]
fn listing_failures_carry_the_storage_message() {
    match listing_response(Err(StorageError::NotAnObject)) {
        Response::Failure { message } => assert_eq!(message, "stored document is not an object"),
        other => panic!("expected a failure, got {:?}", other),
    }
    match listing_response(Err(StorageError::Database("disk".to_string()))) {
        Response::Failure { message } => assert_eq!(message, "disk"),
        other => panic!("expected a failure, got {:?}", other),
    }
    match listing_response(Ok(vec![Json::Null])) {
        Response::Success { data: Some(Json::Array(items)) } => assert_eq!(items.len(), 1),
        other => panic!("expected a list, got {:?}", other),
    }
}

#[test]
fn parsed_requests_are_handled() {
    let dir = tempfile::tempdir().unwrap();
    let (definitions, mut storage) = person_storage(&dir);
    let req = Request::Insert { data: doc(r#"{ "@id": "p", "name": "P" }"#) };
    match on_request(&mut storage, &definitions, Ok(req)) {
        Response::Success { data: Some(Json::Str(id)) } => assert_eq!(id, "p"),
        other => panic!("expected the id, got {:?}", other),
    }
    match on_request(&mut storage, &definitions, Ok(query("Person", vec![]))) {
        Response::Success { data: Some(Json::Array(items)) } => assert!(items.is_empty()),
        other => panic!("expected an empty list, got {:?}", other),
    }
}
