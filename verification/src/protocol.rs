use vstd::prelude::*;

use crate::json::Json;

verus! {

/// A request of the wire protocol.
#[derive(Debug)]
pub enum Request {
    /// Store one document.
    Insert { data: Json },
    /// Store several documents, one after another.
    BatchInsert { items: Vec<Json> },
    /// Read the document with an id.
    GetById { id: String, hydrate: Option<bool> },
    /// Read the documents of a type.
    GetByType {
        typ: String,
        hydrate: Option<bool>,
        limit: Option<usize>,
        offset: Option<usize>,
        sort_by: Option<String>,
        sort_desc: Option<bool>,
    },
    /// Read the documents of a type that hold the given keys with the given values.
    Query {
        typ: String,
        filters: Vec<(String, Json)>,
        hydrate: Option<bool>,
        limit: Option<usize>,
        offset: Option<usize>,
        sort_by: Option<String>,
        sort_desc: Option<bool>,
    },
}

/// A response of the wire protocol.
#[derive(Debug)]
pub enum Response {
    /// The request succeeded, with its data.
    Success { data: Option<Json> },
    /// The request failed; the message says why.
    Failure { message: String },
}

} // verus!
