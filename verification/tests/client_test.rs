use schema_db::client::{batch_insert_reply, get_by_id_reply, insert_reply, list_reply};
use schema_db::json::{Json, JsonNumber};
use schema_db::protocol::Response;

fn ok(data: Option<Json>) -> Response {
    Response::Success { data }
}

fn failure(m: &str) -> Response {
    Response::Failure { message: m.to_string() }
}

#[test]
fn insert_reply_takes_the_id() {
    assert_eq!(insert_reply(ok(Some(Json::string("urn:1")))), Ok("urn:1".to_string()));
    assert_eq!(insert_reply(failure("no")), Err("no".to_string()));
    assert_eq!(insert_reply(ok(None)), Err("Unexpected response".to_string()));
    assert_eq!(insert_reply(ok(Some(Json::Null))), Err("Unexpected response".to_string()));
}

#[test]
fn batch_insert_reply_keeps_the_strings() {
    let ids = Json::Array(vec![Json::string("a"), Json::Number(JsonNumber::from_u64(3)), Json::string("b")]);
    assert_eq!(batch_insert_reply(ok(Some(ids))), Ok(vec!["a".to_string(), "b".to_string()]));
    assert_eq!(batch_insert_reply(failure("x")), Err("x".to_string()));
    assert_eq!(batch_insert_reply(ok(Some(Json::string("a")))), Err("Unexpected response".to_string()));
}

#[test]
fn get_by_id_reply_passes_the_data() {
    assert!(matches!(get_by_id_reply(ok(None)), Ok(None)));
    assert!(matches!(get_by_id_reply(ok(Some(Json::Bool(true)))), Ok(Some(Json::Bool(true)))));
    assert!(matches!(get_by_id_reply(failure("gone")), Err(m) if m == "gone"));
}

#[test]
fn list_reply_takes_the_items() {
    match list_reply(ok(Some(Json::Array(vec![Json::Null, Json::Null])))) {
        Ok(items) => assert_eq!(items.len(), 2),
        Err(e) => panic!("unexpected error {}", e),
    }
    assert!(matches!(list_reply(ok(None)), Ok(v) if v.is_empty()));
    assert!(matches!(list_reply(failure("f")), Err(m) if m == "f"));
    assert!(matches!(list_reply(ok(Some(Json::Null))), Err(m) if m == "Unexpected response"));
}
