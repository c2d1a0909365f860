pub mod json;
pub mod text;
pub mod definition_parser;
pub mod encoding;
pub mod schema_validator;
pub mod compress;
pub mod db_failures;
pub mod storage;
pub mod protocol;
pub mod server;
pub mod client;
