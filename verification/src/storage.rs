use std::sync::Arc;

use vstd::prelude::*;
use vstd::utf8::{decode_utf8, encode_utf8, valid_utf8};

use crate::compress::{
    compress_key, compress_key_exec, compress_value, convert_json, converted_pairs, decompress_value, key_unambiguous, keys_unambiguous,
    law_decompress_undoes_compress, lemma_compared_stored_forms, lemma_compress_key_injective, lemma_convert_depth, lemma_convert_integral,
    lemma_convert_wf, lemma_last_lookup_distinct, lemma_last_lookup_some, lemma_stored_lookup,
};
use crate::definition_parser::{max_terms, strictly_sorted, SchemaDefinitions};
use crate::encoding::{max_read_depth, json_bytes_of, json_bytes_value, json_error_message, read_json_bytes, write_json_bytes};
use crate::json::{
    compared, elements_view, entries_build, entries_get, entries_insert, entries_view, entry_insert, entry_lookup, json_equal, last_lookup,
    lemma_array_view, lemma_entries_build, lemma_lookup_index, lemma_lookup_some, lemma_object_view, Entries, Json, JsonView,
};
use crate::db_failures::FailureLog;
use crate::text::concat;

verus! {

/// `sled::Db`.
#[verifier::external_type_specification]
#[verifier::external_body]
pub struct ExSledDb(sled::Db);

/// `sled::Error`.
#[verifier::external_type_specification]
#[verifier::external_body]
pub struct ExSledError(sled::Error);

/// The trees of a sled database: each tree's name with the keys and values it holds.
pub uninterp spec fn db_trees(db: sled::Db) -> Map<Seq<u8>, Map<Seq<u8>, Seq<u8>>>;

/// The name of sled's default tree, `b"__sled__default"`, the tree of the `Db` itself.
pub open spec fn default_tree() -> Seq<u8> {
    encode_utf8("__sled__default"@)
}

/// The contents of a tree; empty where there is no such tree yet.
pub open spec fn tree_of(trees: Map<Seq<u8>, Map<Seq<u8>, Seq<u8>>>, name: Seq<u8>) -> Map<Seq<u8>, Seq<u8>> {
    if trees.contains_key(name) {
        trees[name]
    } else {
        Map::empty()
    }
}

/// Opens the database at a path (`sled::open`).  What it holds is what is on
/// disk, so the contract claims only that it has its default tree.
#[verifier::external_body]
fn open_db(path: &str) -> (r: Result<sled::Db, sled::Error>)
    ensures
        r matches Ok(db) ==> db_trees(db).contains_key(default_tree()),
{
    sled::open(path)
}

/// The value under a key in the default tree (`Tree::get` through the `Db`).
/// The contract claims that a successful read gives what the tree holds; a
/// read can fail on the disk.
#[verifier::external_body]
fn db_get(db: &sled::Db, key: &[u8]) -> (r: Result<Option<Vec<u8>>, sled::Error>)
    ensures
        r matches Ok(v) ==> match v {
            Some(bytes) => tree_of(db_trees(*db), default_tree()).contains_key(key@)
                && tree_of(db_trees(*db), default_tree())[key@] == bytes@,
            None => !tree_of(db_trees(*db), default_tree()).contains_key(key@),
        },
{
    match db.get(key) {
        Ok(v) => Ok(v.map(|b| b.to_vec())),
        Err(e) => Err(e),
    }
}

/// Inserts a key and a value into the default tree (`Tree::insert` through the
/// `Db`).  The contract claims that a successful insert sets the key in the
/// default tree and changes nothing else; after a failure it claims only that
/// the default tree is still there.
#[verifier::external_body]
fn db_insert(db: &mut sled::Db, key: &[u8], value: &[u8]) -> (r: Result<(), sled::Error>)
    ensures
        r is Ok ==> db_trees(*final(db)) == db_trees(*old(db)).insert(
            default_tree(),
            tree_of(db_trees(*old(db)), default_tree()).insert(key@, value@),
        ),
        db_trees(*old(db)).contains_key(default_tree()) ==> db_trees(*final(db)).contains_key(default_tree()),
{
    match db.insert(key, value) {
        Ok(_) => Ok(()),
        Err(e) => Err(e),
    }
}

/// Inserts a key and a value into a tree, opening the tree first
/// (`Db::open_tree`, then `Tree::insert`).  The contract claims that a successful insert sets the key in
/// that tree and changes nothing else; after a failure it claims only that the
/// default tree is still there.
#[verifier::external_body]
fn tree_insert(db: &mut sled::Db, tree: &[u8], key: &[u8], value: &[u8]) -> (r: Result<(), sled::Error>)
    ensures
        r is Ok ==> db_trees(*final(db)) == db_trees(*old(db)).insert(
            tree@,
            tree_of(db_trees(*old(db)), tree@).insert(key@, value@),
        ),
        db_trees(*old(db)).contains_key(default_tree()) ==> db_trees(*final(db)).contains_key(default_tree()),
{
    match db.open_tree(tree) {
        Ok(t) => match t.insert(key, value) {
            Ok(_) => Ok(()),
            Err(e) => Err(e),
        },
        Err(e) => Err(e),
    }
}

/// Byte strings in lexicographic order.
pub open spec fn bytes_lt(a: Seq<u8>, b: Seq<u8>) -> bool
    decreases a.len(),
{
    if b.len() == 0 {
        false
    } else if a.len() == 0 {
        true
    } else if a[0] != b[0] {
        a[0] < b[0]
    } else {
        bytes_lt(a.drop_first(), b.drop_first())
    }
}

proof fn lemma_bytes_lt_irreflexive(a: Seq<u8>)
    ensures
        !bytes_lt(a, a),
    decreases a.len(),
{
    if a.len() > 0 {
        lemma_bytes_lt_irreflexive(a.drop_first());
    }
}

proof fn lemma_bytes_lt_transitive(a: Seq<u8>, b: Seq<u8>, c: Seq<u8>)
    requires
        bytes_lt(a, b),
        bytes_lt(b, c),
    ensures
        bytes_lt(a, c),
    decreases a.len(),
{
    if a.len() > 0 && a[0] == b[0] && b[0] == c[0] {
        lemma_bytes_lt_transitive(a.drop_first(), b.drop_first(), c.drop_first());
    }
}

/// Listings of the keys of one tree are the same.
proof fn lemma_key_listing_unique(k1: Seq<Seq<u8>>, k2: Seq<Seq<u8>>, tree: Map<Seq<u8>, Seq<u8>>)
    requires
        key_listing(k1, tree),
        key_listing(k2, tree),
    ensures
        k1 == k2,
    decreases k1.len(),
{
    if k1.len() == 0 {
        if k2.len() > 0 {
            assert(k2.contains(k2[0]));
            assert(tree.contains_key(k2[0]));
            assert(k1.contains(k2[0]));
        }
        assert(k1 =~= k2);
    } else if k2.len() == 0 {
        assert(k1.contains(k1[0]));
        assert(tree.contains_key(k1[0]));
        assert(k2.contains(k1[0]));
    } else {
        assert(k1.contains(k1[0]));
        assert(k2.contains(k2[0]));
        assert(tree.contains_key(k1[0]));
        assert(tree.contains_key(k2[0]));
        assert(k2.contains(k1[0]));
        assert(k1.contains(k2[0]));
        let j1 = choose|j: int| 0 <= j < k2.len() && k2[j] == k1[0];
        let j2 = choose|j: int| 0 <= j < k1.len() && k1[j] == k2[0];
        lemma_bytes_lt_irreflexive(k1[0]);
        if j1 > 0 {
            assert(bytes_lt(k2[0], k2[j1]));
            if j2 > 0 {
                assert(bytes_lt(k1[0], k1[j2]));
                lemma_bytes_lt_transitive(k1[0], k2[0], k1[0]);
            }
        }
        assert(k1[0] == k2[0]);
        let t1 = k1.drop_first();
        let t2 = k2.drop_first();
        let rest = tree.remove(k1[0]);
        assert(key_listing(t1, rest)) by {
            assert forall|i: int, j: int| 0 <= i < j < t1.len() implies bytes_lt(#[trigger] t1[i], #[trigger] t1[j]) by {
                assert(t1[i] == k1[i + 1]);
                assert(t1[j] == k1[j + 1]);
            }
            assert forall|k: Seq<u8>| rest.contains_key(k) <==> t1.contains(k) by {
                if rest.contains_key(k) {
                    assert(k1.contains(k));
                    let m = choose|m: int| 0 <= m < k1.len() && k1[m] == k;
                    assert(t1[m - 1] == k);
                }
                if t1.contains(k) {
                    let m = choose|m: int| 0 <= m < t1.len() && t1[m] == k;
                    assert(k1[m + 1] == k);
                    assert(k1.contains(k));
                    assert(bytes_lt(k1[0], k1[m + 1]));
                }
            }
        }
        assert(key_listing(t2, rest)) by {
            assert forall|i: int, j: int| 0 <= i < j < t2.len() implies bytes_lt(#[trigger] t2[i], #[trigger] t2[j]) by {
                assert(t2[i] == k2[i + 1]);
                assert(t2[j] == k2[j + 1]);
            }
            assert forall|k: Seq<u8>| rest.contains_key(k) <==> t2.contains(k) by {
                if rest.contains_key(k) {
                    assert(k2.contains(k));
                    let m = choose|m: int| 0 <= m < k2.len() && k2[m] == k;
                    assert(t2[m - 1] == k);
                }
                if t2.contains(k) {
                    let m = choose|m: int| 0 <= m < t2.len() && t2[m] == k;
                    assert(k2[m + 1] == k);
                    assert(k2.contains(k));
                    assert(bytes_lt(k2[0], k2[m + 1]));
                }
            }
        }
        lemma_key_listing_unique(t1, t2, rest);
        assert(k1 =~= seq![k1[0]] + t1);
        assert(k2 =~= seq![k2[0]] + t2);
    }
}

/// The keys of a tree, opening it first (`Db::open_tree`, then the keys of
/// `Tree::iter`).  The contract claims that a successful listing gives every
/// key of the tree once, in increasing byte order, and that opening adds the
/// tree, empty, when it was not there; after a failure it claims that the trees
/// are as they were, or that the tree was opened as on success.
#[verifier::external_body]
fn tree_keys(db: &mut sled::Db, tree: &[u8]) -> (r: Result<Vec<Vec<u8>>, sled::Error>)
    ensures
        r matches Ok(keys) ==> {
            &&& db_trees(*final(db)) == db_trees(*old(db)).insert(tree@, tree_of(db_trees(*old(db)), tree@))
            &&& forall|i: int, j: int| 0 <= i < j < keys.len() ==> bytes_lt(#[trigger] keys@[i]@, #[trigger] keys@[j]@)
            &&& forall|k: Seq<u8>| tree_of(db_trees(*old(db)), tree@).contains_key(k) <==> exists|i: int|
                0 <= i < keys.len() && #[trigger] keys@[i]@ == k
        },
        r is Err ==> db_trees(*final(db)) == db_trees(*old(db)) || db_trees(*final(db)) == db_trees(*old(db)).insert(
            tree@,
            tree_of(db_trees(*old(db)), tree@),
        ),
        db_trees(*old(db)).contains_key(default_tree()) ==> db_trees(*final(db)).contains_key(default_tree()),
{
    match db.open_tree(tree) {
        Ok(t) => t.iter().keys().map(|k| k.map(|k| k.to_vec())).collect(),
        Err(e) => Err(e),
    }
}

/// The message of a `sled::Error` (its `Display`).
#[verifier::external_body]
fn db_error_message(e: &sled::Error) -> String {
    e.to_string()
}

/// `std::str::Utf8Error`.
#[verifier::external_type_specification]
#[verifier::external_body]
pub struct ExUtf8Error(std::str::Utf8Error);

/// Text from UTF-8 bytes (`std::str::from_utf8`): there is text exactly when
/// the bytes are valid UTF-8, and then it is what they encode.
#[verifier::external_body]
fn text_from_utf8(bytes: &[u8]) -> (r: Result<String, std::str::Utf8Error>)
    ensures
        r is Ok <==> valid_utf8(bytes@),
        r matches Ok(s) ==> s@ == decode_utf8(bytes@),
{
    match std::str::from_utf8(bytes) {
        Ok(s) => Ok(s.to_string()),
        Err(e) => Err(e),
    }
}

/// The message of a `std::str::Utf8Error` (its `Display`).
#[verifier::external_body]
fn utf8_error_message(e: &std::str::Utf8Error) -> String {
    e.to_string()
}

/// A UUID in the form that `Uuid::to_string` writes it: 36 characters,
/// hyphens after the 8th, 12th, 16th and 20th hex digit, lowercase hex digits
/// elsewhere.
pub open spec fn uuid_text(u: Seq<char>) -> bool {
    &&& u.len() == 36
    &&& forall|i: int|
        0 <= i < 36 ==> if i == 8 || i == 13 || i == 18 || i == 23 {
            #[trigger] u[i] == '-'
        } else {
            ('0' <= u[i] <= '9') || ('a' <= u[i] <= 'f')
        }
}

/// A fresh random UUID as text (`Uuid::new_v4`, then `to_string`).  It is
/// random, so the contract claims only its form.
#[verifier::external_body]
fn new_uuid_text() -> (r: String)
    ensures
        uuid_text(r@),
{
    uuid::Uuid::new_v4().to_string()
}

/// Why a storage operation failed.
#[derive(Debug)]
pub enum StorageError {
    /// The database failed; the message says why.
    Database(String),
    /// Stored bytes are not JSON; the message says why.
    Encoding(String),
    /// An index key is not UTF-8; the message says where.
    InvalidUtf8(String),
    /// A stored document under a type index is not an object.
    NotAnObject,
}

/// What a read of a stored document gives: nothing where there are no bytes
/// under the key, the document read back from the bytes, or a fault where they
/// are not JSON.
pub enum ReadOutcome {
    Missing,
    Found(JsonView),
    Unreadable,
}

/// A read of the document stored under a key.
pub open spec fn read_stored(terms: Seq<Seq<char>>, docs: Map<Seq<u8>, Seq<u8>>, key: Seq<u8>) -> ReadOutcome {
    if !docs.contains_key(key) {
        ReadOutcome::Missing
    } else {
        match json_bytes_value(docs[key]) {
            Some(c) => ReadOutcome::Found(decompress_value(terms, c)),
            None => ReadOutcome::Unreadable,
        }
    }
}

/// Documents stored in compressed form in a sled database.
pub struct Storage {
    db: sled::Db,
    definitions: Arc<SchemaDefinitions>,
    failures: FailureLog,
}

impl Storage {
    /// The trees of the database.
    pub closed spec fn trees(&self) -> Map<Seq<u8>, Map<Seq<u8>, Seq<u8>>> {
        db_trees(self.db)
    }

    /// The documents of the default tree: each id's bytes with the stored bytes.
    pub open spec fn documents(&self) -> Map<Seq<u8>, Seq<u8>> {
        tree_of(self.trees(), default_tree())
    }

    /// How many database calls of this storage have failed.
    pub closed spec fn failed_calls(&self) -> nat {
        self.failures.count()
    }

    /// The terms of the definitions.
    pub closed spec fn terms(&self) -> Seq<Seq<char>> {
        (*self.definitions)@
    }

    /// The definitions are well-formed and the database has its default tree.
    pub closed spec fn wf(&self) -> bool {
        &&& self.definitions.wf()
        &&& self.trees().contains_key(default_tree())
    }

    /// Opens the database at `path` for documents with the given definitions.
    pub fn new(path: &str, definitions: Arc<SchemaDefinitions>) -> (r: Result<Storage, StorageError>)
        requires
            definitions.wf(),
        ensures
            r matches Ok(s) ==> s.wf() && s.terms() == definitions@ && s.failed_calls() == 0,
            r matches Err(e) ==> e is Database,
    {
        match open_db(path) {
            Ok(db) => Ok(Storage { db, definitions, failures: FailureLog::new() }),
            Err(e) => Err(StorageError::Database(db_error_message(&e))),
        }
    }

    /// The stored form of a document (see `compress_value`).
    pub fn compress(&self, value: &Json) -> (r: Json)
        requires
            self.wf(),
        ensures
            r@ == compress_value(self.terms(), value@),
    {
        convert_json(&self.definitions, true, value)
    }

    /// A document read back from stored form (see `decompress_value`).
    pub fn decompress(&self, value: &Json) -> (r: Json)
        requires
            self.wf(),
        ensures
            r@ == decompress_value(self.terms(), value@),
    {
        convert_json(&self.definitions, false, value)
    }

    /// The stored form of the document stored under an id, as it is stored.
    pub fn get_stored_by_id(&self, id: &str) -> (r: Result<Option<Json>, StorageError>)
        requires
            self.wf(),
        ensures
            match r {
                Ok(None) => !self.documents().contains_key(encode_utf8(id@)),
                Ok(Some(v)) => self.documents().contains_key(encode_utf8(id@)) && json_bytes_value(
                    self.documents()[encode_utf8(id@)],
                ) == Some(v@),
                Err(StorageError::Encoding(_)) => self.documents().contains_key(encode_utf8(id@)) && json_bytes_value(
                    self.documents()[encode_utf8(id@)],
                ) is None,
                Err(e) => e is Database,
            },
    {
        match db_get(&self.db, id.as_bytes()) {
            Ok(Some(bytes)) => match read_json_bytes(bytes.as_slice()) {
                Ok(compressed) => Ok(Some(compressed)),
                Err(e) => Err(StorageError::Encoding(json_error_message(&e))),
            },
            Ok(None) => Ok(None),
            Err(e) => Err(StorageError::Database(db_error_message(&e))),
        }
    }

    /// The document stored under an id, read back from stored form.
    pub fn get_by_id(&self, id: &str) -> (r: Result<Option<Json>, StorageError>)
        requires
            self.wf(),
        ensures
            read_by_id_outcome(self.terms(), self.documents(), id@, r),
    {
        self.get_by_key(id.as_bytes())
    }

    /// The document stored under a key, read back from stored form.
    fn get_by_key(&self, key: &[u8]) -> (r: Result<Option<Json>, StorageError>)
        requires
            self.wf(),
        ensures
            match r {
                Ok(None) => read_stored(self.terms(), self.documents(), key@) is Missing,
                Ok(Some(v)) => read_stored(self.terms(), self.documents(), key@) == ReadOutcome::Found(v@),
                Err(StorageError::Encoding(_)) => read_stored(self.terms(), self.documents(), key@) is Unreadable,
                Err(e) => e is Database,
            },
    {
        match self.read_key(key) {
            Ok(r) => r,
            Err(e) => Err(StorageError::Database(db_error_message(&e))),
        }
    }

    /// The document stored under a key, read back from stored form; the
    /// database's own error where the read failed.
    fn read_key(&self, key: &[u8]) -> (r: Result<Result<Option<Json>, StorageError>, sled::Error>)
        requires
            self.wf(),
        ensures
            match r {
                Ok(Ok(None)) => read_stored(self.terms(), self.documents(), key@) is Missing,
                Ok(Ok(Some(v))) => read_stored(self.terms(), self.documents(), key@) == ReadOutcome::Found(v@),
                Ok(Err(e)) => e is Encoding && read_stored(self.terms(), self.documents(), key@) is Unreadable,
                Err(_) => true,
            },
    {
        match db_get(&self.db, key) {
            Ok(Some(bytes)) => match read_json_bytes(bytes.as_slice()) {
                Ok(compressed) => Ok(Ok(Some(self.decompress(&compressed)))),
                Err(e) => Ok(Err(StorageError::Encoding(json_error_message(&e)))),
            },
            Ok(None) => Ok(Ok(None)),
            Err(e) => Err(e),
        }
    }
}

/// What a read by id gives: nothing where nothing is stored under the id, the
/// document read back, an `Encoding` error where the stored bytes are not
/// JSON, or a database failure.
pub open spec fn read_by_id_outcome(
    terms: Seq<Seq<char>>,
    docs: Map<Seq<u8>, Seq<u8>>,
    id: Seq<char>,
    res: Result<Option<Json>, StorageError>,
) -> bool {
    match res {
        Ok(None) => read_stored(terms, docs, encode_utf8(id)) is Missing,
        Ok(Some(v)) => read_stored(terms, docs, encode_utf8(id)) == ReadOutcome::Found(v@),
        Err(StorageError::Encoding(_)) => read_stored(terms, docs, encode_utf8(id)) is Unreadable,
        Err(e) => e is Database,
    }
}

/// The outcome is a failure of the database.
pub open spec fn is_database_failure<T>(r: Result<T, StorageError>) -> bool {
    r matches Err(StorageError::Database(_))
}

/// The message of a storage error.
pub open spec fn error_text(e: StorageError) -> Seq<char> {
    match e {
        StorageError::Database(m) => m@,
        StorageError::Encoding(m) => m@,
        StorageError::InvalidUtf8(m) => m@,
        StorageError::NotAnObject => "stored document is not an object"@,
    }
}

/// The namespace of the ids that the store makes.
pub open spec fn id_prefix() -> Seq<char> {
    "https://schema.org/id/"@
}

/// The document has a string `@id`.
pub open spec fn has_text_id(data: JsonView) -> bool {
    data.get_key("@id"@) matches Some(JsonView::Str(_))
}

/// The id under which a document is stored: its string `@id`, or else the
/// namespace followed by the fresh UUID.
pub open spec fn assigned_id(data: JsonView, fresh: Seq<char>) -> Seq<char> {
    match data.get_key("@id"@) {
        Some(JsonView::Str(s)) => s,
        _ => id_prefix() + fresh,
    }
}

/// The document as stored: an object without a string `@id` gets the
/// assigned id as its `@id`.
pub open spec fn with_id(data: JsonView, fresh: Seq<char>) -> JsonView {
    if has_text_id(data) {
        data
    } else {
        match data {
            JsonView::Object(e) => JsonView::Object(
                entry_insert(e, "@id"@, JsonView::Str(assigned_id(data, fresh))),
            ),
            _ => data,
        }
    }
}

/// The strings among some values, in order.
pub open spec fn text_values(a: Seq<JsonView>) -> Seq<Seq<char>>
    decreases a.len(),
{
    if a.len() == 0 {
        seq![]
    } else {
        text_values(a.drop_last()) + match a.last() {
            JsonView::Str(t) => seq![t],
            _ => seq![],
        }
    }
}

/// The types of a document: its `@type` when that is a string, the strings
/// in it when it is an array.
pub open spec fn document_types(data: JsonView) -> Seq<Seq<char>> {
    match data.get_key("@type"@) {
        Some(JsonView::Str(t)) => seq![t],
        Some(JsonView::Array(a)) => text_values(a),
        _ => seq![],
    }
}

/// The name of the index tree of a type.
pub open spec fn type_tree(t: Seq<char>) -> Seq<u8> {
    encode_utf8("type:"@ + t)
}

/// The trees after an id is added, with an empty value, to the index tree of
/// each type in turn.
pub open spec fn index_types(
    trees: Map<Seq<u8>, Map<Seq<u8>, Seq<u8>>>,
    types: Seq<Seq<char>>,
    idb: Seq<u8>,
) -> Map<Seq<u8>, Map<Seq<u8>, Seq<u8>>>
    decreases types.len(),
{
    if types.len() == 0 {
        trees
    } else {
        let prev = index_types(trees, types.drop_last(), idb);
        prev.insert(type_tree(types.last()), tree_of(prev, type_tree(types.last())).insert(idb, seq![]))
    }
}

/// The trees after a document is inserted: its stored form under its id in the
/// default tree, and its id in the index tree of each of its types.
pub open spec fn trees_after_insert(
    terms: Seq<Seq<char>>,
    trees: Map<Seq<u8>, Map<Seq<u8>, Seq<u8>>>,
    data: JsonView,
    fresh: Seq<char>,
) -> Map<Seq<u8>, Map<Seq<u8>, Seq<u8>>> {
    let doc = with_id(data, fresh);
    let idb = encode_utf8(assigned_id(data, fresh));
    let stored = trees.insert(
        default_tree(),
        tree_of(trees, default_tree()).insert(idb, json_bytes_of(compress_value(terms, doc))),
    );
    index_types(stored, document_types(doc), idb)
}

/// The bytes written for the stored form of an integral document that nests
/// no deeper than the reader allows read back as that stored form (what
/// `write_json_bytes` promises of the bytes it writes).
pub open spec fn stored_form_reads_back(terms: Seq<Seq<char>>, doc: JsonView) -> bool {
    doc.integral() && doc.depth_within(max_read_depth()) ==> json_bytes_value(
        json_bytes_of(compress_value(terms, doc)),
    ) == Some(compress_value(terms, doc))
}

/// What an insert gives and does, with the trees before and after: the
/// assigned id, for a fresh id that is a UUID where the document has no
/// string `@id`, with the trees as `trees_after_insert` says and the stored
/// form reading back as `stored_form_reads_back` says; or a database failure.
pub open spec fn insert_outcome(
    terms: Seq<Seq<char>>,
    before: Map<Seq<u8>, Map<Seq<u8>, Seq<u8>>>,
    after: Map<Seq<u8>, Map<Seq<u8>, Seq<u8>>>,
    data: JsonView,
    res: Result<String, StorageError>,
) -> bool {
    match res {
        Ok(id) => exists|u: Seq<char>| #![trigger assigned_id(data, u)]
            (!has_text_id(data) ==> uuid_text(u)) && id@ == assigned_id(data, u) && after == trees_after_insert(
                terms,
                before,
                data,
                u,
            ) && stored_form_reads_back(terms, with_id(data, u)),
        Err(e) => e is Database,
    }
}

/// The strings of a document's `@type`, as `document_types` says.
fn types_of(doc: &Json) -> (r: Vec<String>)
    ensures
        r@.len() == document_types(doc@).len(),
        forall|i: int| 0 <= i < r@.len() ==> #[trigger] r@[i]@ == document_types(doc@)[i],
{
    match doc.get("@type") {
        Some(Json::Str(t)) => {
            let mut r: Vec<String> = Vec::new();
            r.push(t.clone());
            r
        },
        Some(Json::Array(a)) => {
            proof {
                lemma_array_view(*a);
            }
            let ghost av = elements_view(a@);
            let mut r: Vec<String> = Vec::new();
            let mut i: usize = 0;
            while i < a.len()
                invariant
                    av == elements_view(a@),
                    i <= a.len(),
                    r@.len() == text_values(av.take(i as int)).len(),
                    forall|j: int| 0 <= j < r@.len() ==> #[trigger] r@[j]@ == text_values(av.take(i as int))[j],
                decreases a.len() - i,
            {
                assert(av.take(i + 1).drop_last() =~= av.take(i as int));
                match &a[i] {
                    Json::Str(t) => {
                        r.push(t.clone());
                    },
                    _ => {},
                }
                i = i + 1;
            }
            assert(av.take(a.len() as int) =~= av);
            r
        },
        _ => Vec::new(),
    }
}

impl Storage {
    /// Stores a document: under its string `@id`, or else under an id made of
    /// the namespace and `fresh`, which also becomes the `@id` of an object.
    /// The stored form goes under the id in the default tree, and the id into
    /// the index tree of each type of the document.
    pub fn insert_with_fresh_id(&mut self, data: &Json, fresh: &str) -> (r: Result<String, StorageError>)
        requires
            old(self).wf(),
        ensures
            final(self).wf(),
            final(self).terms() == old(self).terms(),
            match r {
                Ok(id) => id@ == assigned_id(data@, fresh@) && final(self).trees() == trees_after_insert(
                    old(self).terms(),
                    old(self).trees(),
                    data@,
                    fresh@,
                ) && stored_form_reads_back(old(self).terms(), with_id(data@, fresh@)),
                Err(e) => e is Database,
            },
            final(self).failed_calls() == old(self).failed_calls() + if r is Err { 1nat } else { 0nat },
    {
        let ghost terms = self.terms();
        let copy = data.deep_copy();
        let (id, doc) = match data.get("@id") {
            Some(Json::Str(s)) => (s.clone(), copy),
            _ => {
                let new_id = concat("https://schema.org/id/", fresh);
                let doc = match copy {
                    Json::Object(o) => {
                        let mut o = o;
                        proof {
                            lemma_object_view(o);
                        }
                        entries_insert(&mut o, String::from_str("@id"), Json::Str(new_id.clone()));
                        proof {
                            lemma_object_view(o);
                        }
                        Json::Object(o)
                    },
                    other => other,
                };
                (new_id, doc)
            },
        };
        assert(doc@ == with_id(data@, fresh@));
        assert(id@ == assigned_id(data@, fresh@));
        let compressed = self.compress(&doc);
        let bytes = write_json_bytes(&compressed);
        proof {
            lemma_convert_wf(terms, true, doc@);
            if doc@.integral() {
                lemma_convert_integral(terms, true, doc@);
            }
            if doc@.depth_within(max_read_depth()) {
                lemma_convert_depth(terms, true, doc@, max_read_depth());
            }
        }
        assert(stored_form_reads_back(terms, doc@));
        match db_insert(&mut self.db, id.as_str().as_bytes(), bytes.as_slice()) {
            Ok(()) => {},
            Err(e) => {
                self.failures.record(&e);
                return Err(StorageError::Database(db_error_message(&e)));
            },
        }
        let ghost stored = self.trees();
        let types = types_of(&doc);
        let empty: Vec<u8> = Vec::new();
        let mut i: usize = 0;
        while i < types.len()
            invariant
                self.wf(),
                self.terms() == terms,
                terms == old(self).terms(),
                self.failed_calls() == old(self).failed_calls(),
                i <= types.len(),
                types@.len() == document_types(doc@).len(),
                forall|j: int| 0 <= j < types@.len() ==> #[trigger] types@[j]@ == document_types(doc@)[j],
                empty@ == Seq::<u8>::empty(),
                self.trees() == index_types(stored, document_types(doc@).take(i as int), encode_utf8(id@)),
            decreases types.len() - i,
        {
            let name = concat("type:", types[i].as_str());
            match tree_insert(&mut self.db, name.as_str().as_bytes(), id.as_str().as_bytes(), empty.as_slice()) {
                Ok(()) => {},
                Err(e) => {
                    self.failures.record(&e);
                return Err(StorageError::Database(db_error_message(&e)));
                },
            }
            assert(document_types(doc@).take(i + 1).drop_last() =~= document_types(doc@).take(i as int));
            i = i + 1;
        }
        assert(document_types(doc@).take(types.len() as int) =~= document_types(doc@));
        Ok(id)
    }

    /// Stores a document as `insert_with_fresh_id` does, with a fresh random
    /// UUID where the document has no string `@id`.
    pub fn insert(&mut self, data: &Json) -> (r: Result<String, StorageError>)
        requires
            old(self).wf(),
        ensures
            final(self).wf(),
            final(self).terms() == old(self).terms(),
            insert_outcome(old(self).terms(), old(self).trees(), final(self).trees(), data@, r),
            final(self).failed_calls() == old(self).failed_calls() + if is_database_failure(r) { 1nat } else { 0nat },
    {
        let fresh = match data.get("@id") {
            Some(Json::Str(_)) => String::new(),
            _ => new_uuid_text(),
        };
        let ghost before = self.trees();
        let r = self.insert_with_fresh_id(data, fresh.as_str());
        assert(!has_text_id(data@) ==> uuid_text(fresh@));
        proof {
            if r is Ok {
                let id = r->Ok_0;
                assert((!has_text_id(data@) ==> uuid_text(fresh@)) && id@ == assigned_id(data@, fresh@)
                    && self.trees() == trees_after_insert(old(self).terms(), old(self).trees(), data@, fresh@)
                    && stored_form_reads_back(old(self).terms(), with_id(data@, fresh@)));
            }
        }
        r
    }
}

/// No index tree is the default tree.
proof fn lemma_type_tree_not_default(t: Seq<char>)
    ensures
        type_tree(t) != default_tree(),
{
    reveal_strlit("type:");
    reveal_strlit("__sled__default");
    vstd::utf8::encode_utf8_decode_utf8("type:"@ + t);
    vstd::utf8::encode_utf8_decode_utf8("__sled__default"@);
    assert(("type:"@ + t)[0] == 't');
    assert("__sled__default"@[0] == '_');
}

/// Indexing the types of a document leaves the default tree as it is.
proof fn lemma_index_keeps_default(
    trees: Map<Seq<u8>, Map<Seq<u8>, Seq<u8>>>,
    types: Seq<Seq<char>>,
    idb: Seq<u8>,
)
    ensures
        tree_of(index_types(trees, types, idb), default_tree()) == tree_of(trees, default_tree()),
        trees.contains_key(default_tree()) ==> index_types(trees, types, idb).contains_key(default_tree()),
    decreases types.len(),
{
    if types.len() > 0 {
        lemma_index_keeps_default(trees, types.drop_last(), idb);
        lemma_type_tree_not_default(types.last());
    }
}

/// What a read gives back of a write: after a document is inserted, reading
/// under its id gives the document as stored (with its assigned `@id`), when
/// the document is well-formed, its keys are unambiguous, and the bytes of its
/// stored form read back (as they do for integral documents that nest no
/// deeper than the reader allows).
pub proof fn law_read_after_insert(
    terms: Seq<Seq<char>>,
    trees: Map<Seq<u8>, Map<Seq<u8>, Seq<u8>>>,
    data: JsonView,
    fresh: Seq<char>,
)
    requires
        strictly_sorted(terms),
        terms.len() <= max_terms(),
        with_id(data, fresh).wf(),
        with_id(data, fresh).integral(),
        with_id(data, fresh).depth_within(max_read_depth()),
        keys_unambiguous(terms, with_id(data, fresh)),
        stored_form_reads_back(terms, with_id(data, fresh)),
    ensures
        read_stored(
            terms,
            tree_of(trees_after_insert(terms, trees, data, fresh), default_tree()),
            encode_utf8(assigned_id(data, fresh)),
        ) == ReadOutcome::Found(with_id(data, fresh)),
{
    let doc = with_id(data, fresh);
    let idb = encode_utf8(assigned_id(data, fresh));
    let stored = trees.insert(
        default_tree(),
        tree_of(trees, default_tree()).insert(idb, json_bytes_of(compress_value(terms, doc))),
    );
    lemma_index_keeps_default(stored, document_types(doc), idb);
    law_decompress_undoes_compress(terms, doc);
}

/// Keys listed once each, in increasing byte order: the listing of a tree.
pub open spec fn key_listing(keys: Seq<Seq<u8>>, tree: Map<Seq<u8>, Seq<u8>>) -> bool {
    &&& forall|i: int, j: int| 0 <= i < j < keys.len() ==> bytes_lt(#[trigger] keys[i], #[trigger] keys[j])
    &&& forall|k: Seq<u8>| tree.contains_key(k) <==> keys.contains(k)
}

/// The bytes of each key of a listing.
pub open spec fn keys_view(keys: Seq<Vec<u8>>) -> Seq<Seq<u8>> {
    Seq::new(keys.len(), |i: int| if 0 <= i < keys.len() { keys[i]@ } else { Seq::empty() })
}

/// Why reading indexed documents failed, other than by the database.
pub enum Fault {
    InvalidUtf8,
    Unreadable,
    NotAnObject,
}

/// The fault that an error reports, if it is not a database failure.
pub open spec fn fault_of(e: StorageError) -> Option<Fault> {
    match e {
        StorageError::Database(_) => None,
        StorageError::Encoding(_) => Some(Fault::Unreadable),
        StorageError::InvalidUtf8(_) => Some(Fault::InvalidUtf8),
        StorageError::NotAnObject => Some(Fault::NotAnObject),
    }
}

/// The documents stored under the ids of an index, in the order of the ids;
/// ids with nothing stored are passed over; the first id that is not UTF-8, or
/// whose bytes are not JSON, is a fault.
pub open spec fn documents_of(terms: Seq<Seq<char>>, docs: Map<Seq<u8>, Seq<u8>>, keys: Seq<Seq<u8>>) -> Result<Seq<JsonView>, Fault>
    decreases keys.len(),
{
    if keys.len() == 0 {
        Ok(seq![])
    } else {
        match documents_of(terms, docs, keys.drop_last()) {
            Err(f) => Err(f),
            Ok(vs) => if !valid_utf8(keys.last()) {
                Err(Fault::InvalidUtf8)
            } else {
                match read_stored(terms, docs, keys.last()) {
                    ReadOutcome::Missing => Ok(vs),
                    ReadOutcome::Found(v) => Ok(vs.push(v)),
                    ReadOutcome::Unreadable => Err(Fault::Unreadable),
                }
            },
        }
    }
}

/// Filters in stored form: each key and value stored, inserted in order into a map.
pub open spec fn stored_filters(terms: Seq<Seq<char>>, filters: Entries) -> Entries {
    entries_build(converted_pairs(terms, true, filters))
}

/// An object holds the key of a filter with a value equal (as `==` of
/// `serde_json` values compares) to the filter's.
pub open spec fn filter_holds(obj: Entries, f: (Seq<char>, JsonView)) -> bool {
    entry_lookup(obj, f.0) matches Some(v) && compared(v) == compared(f.1)
}

/// An object holds every filter key with an equal value.
pub open spec fn matches_filters(obj: Entries, filters: Entries) -> bool {
    forall|i: int| 0 <= i < filters.len() ==> #[trigger] filter_holds(obj, filters[i])
}

/// A list of filters and the map built from it match the same objects, when
/// no key of the list repeats.
proof fn lemma_matches_built(obj: Entries, l: Entries)
    requires
        forall|i: int, j: int| 0 <= i < j < l.len() ==> #[trigger] l[i].0 != #[trigger] l[j].0,
    ensures
        matches_filters(obj, entries_build(l)) <==> matches_filters(obj, l),
{
    let b = entries_build(l);
    lemma_last_lookup_distinct(l);
    lemma_entries_build(l);
    if matches_filters(obj, b) {
        assert forall|j: int| 0 <= j < l.len() implies #[trigger] filter_holds(obj, l[j]) by {
            assert(entry_lookup(b, l[j].0) == Some(l[j].1));
            lemma_lookup_some(b, l[j].0);
            let m = choose|m: int| 0 <= m < b.len() && b[m].0 == l[j].0 && entry_lookup(b, l[j].0) == Some(#[trigger] b[m].1);
            assert(b[m] == l[j]);
            assert(filter_holds(obj, b[m]));
        }
    }
    if matches_filters(obj, l) {
        assert forall|m: int| 0 <= m < b.len() implies #[trigger] filter_holds(obj, b[m]) by {
            lemma_lookup_index(b, m);
            lemma_last_lookup_some(l, b[m].0);
            let j = choose|j: int| 0 <= j < l.len() && #[trigger] l[j] == (b[m].0, last_lookup(l, b[m].0)->0);
            assert(filter_holds(obj, l[j]));
        }
    }
}

/// Comparing in stored form is comparing the documents: the stored form of a
/// document matches the filters in stored form exactly when the document holds
/// every filter key with an equal value.  This holds when the document and the
/// filter values are well-formed, all their keys are unambiguous, and no filter
/// key repeats (as in a map).
pub proof fn law_query_compares_stored_forms(terms: Seq<Seq<char>>, doc: Entries, filters: Entries)
    requires
        strictly_sorted(terms),
        terms.len() <= max_terms(),
        JsonView::Object(doc).wf(),
        keys_unambiguous(terms, JsonView::Object(doc)),
        forall|i: int, j: int| 0 <= i < j < filters.len() ==> #[trigger] filters[i].0 != #[trigger] filters[j].0,
        forall|i: int| 0 <= i < filters.len() ==> key_unambiguous(terms, #[trigger] filters[i].0),
        forall|i: int| 0 <= i < filters.len() ==> #[trigger] filters[i].1.wf() && keys_unambiguous(terms, filters[i].1),
    ensures
        compress_value(terms, JsonView::Object(doc)) matches JsonView::Object(c) && (matches_filters(
            c,
            stored_filters(terms, filters),
        ) <==> matches_filters(doc, filters)),
{
    let c = entries_build(converted_pairs(terms, true, doc));
    let lf = converted_pairs(terms, true, filters);
    lemma_stored_lookup(terms, doc, seq![]);
    assert forall|i: int, j: int| 0 <= i < j < lf.len() implies #[trigger] lf[i].0 != #[trigger] lf[j].0 by {
        if lf[i].0 == lf[j].0 {
            lemma_compress_key_injective(terms, filters[i].0, filters[j].0);
        }
    }
    lemma_matches_built(c, lf);
    assert forall|j: int| 0 <= j < filters.len() implies (#[trigger] filter_holds(c, lf[j]) <==> filter_holds(doc, filters[j])) by {
        lemma_stored_lookup(terms, doc, filters[j].0);
        assert(lf[j] == (compress_key(terms, filters[j].0), compress_value(terms, filters[j].1)));
        if entry_lookup(doc, filters[j].0) is Some {
            let v = entry_lookup(doc, filters[j].0)->0;
            assert(filters[j].1.wf());
            lemma_compared_stored_forms(terms, v, filters[j].1);
        }
    }
    if matches_filters(c, lf) {
        assert forall|j: int| 0 <= j < filters.len() implies #[trigger] filter_holds(doc, filters[j]) by {
            assert(filter_holds(c, lf[j]));
        }
    }
    if matches_filters(doc, filters) {
        assert forall|j: int| 0 <= j < lf.len() implies #[trigger] filter_holds(c, lf[j]) by {
            assert(filter_holds(doc, filters[j]));
        }
    }
}

/// The documents stored under the ids of an index whose stored form matches
/// the stored filters, read back, in the order of the ids; ids with nothing
/// stored are passed over; the first id whose bytes are not JSON, or not an
/// object, is a fault.
pub open spec fn matching_documents(
    terms: Seq<Seq<char>>,
    docs: Map<Seq<u8>, Seq<u8>>,
    keys: Seq<Seq<u8>>,
    filters: Entries,
) -> Result<Seq<JsonView>, Fault>
    decreases keys.len(),
{
    if keys.len() == 0 {
        Ok(seq![])
    } else {
        match matching_documents(terms, docs, keys.drop_last(), filters) {
            Err(f) => Err(f),
            Ok(vs) => if !docs.contains_key(keys.last()) {
                Ok(vs)
            } else {
                match json_bytes_value(docs[keys.last()]) {
                    None => Err(Fault::Unreadable),
                    Some(JsonView::Object(obj)) => if matches_filters(obj, filters) {
                        Ok(vs.push(decompress_value(terms, JsonView::Object(obj))))
                    } else {
                        Ok(vs)
                    },
                    Some(_) => Err(Fault::NotAnObject),
                }
            },
        }
    }
}

/// The documents among `vs` that are objects holding every filter key with an
/// equal value, in order.
pub open spec fn documents_matching(vs: Seq<JsonView>, filters: Entries) -> Seq<JsonView>
    decreases vs.len(),
{
    if vs.len() == 0 {
        seq![]
    } else {
        documents_matching(vs.drop_last(), filters) + if vs.last() matches JsonView::Object(e) && matches_filters(e, filters) {
            seq![vs.last()]
        } else {
            seq![]
        }
    }
}

/// The bytes are those of the stored form of an object as `insert` stores it:
/// well-formed, with unambiguous keys.
pub open spec fn stored_object(terms: Seq<Seq<char>>, bytes: Seq<u8>) -> bool {
    exists|e: Entries| #![trigger compress_value(terms, JsonView::Object(e))]
        JsonView::Object(e).wf() && keys_unambiguous(terms, JsonView::Object(e)) && json_bytes_value(bytes) == Some(
            compress_value(terms, JsonView::Object(e)),
        )
}

/// A query gives the documents that a listing of the type gives and that
/// match the filters: where the ids of the index are UTF-8, the documents
/// stored under them are objects stored as `insert` stores them, and the
/// filters are well-formed with unambiguous keys, no key repeating.
pub proof fn law_query_filters_type_listing(
    terms: Seq<Seq<char>>,
    docs: Map<Seq<u8>, Seq<u8>>,
    keys: Seq<Seq<u8>>,
    filters: Entries,
)
    requires
        strictly_sorted(terms),
        terms.len() <= max_terms(),
        forall|i: int| 0 <= i < keys.len() ==> valid_utf8(#[trigger] keys[i]),
        forall|i: int| 0 <= i < keys.len() && docs.contains_key(#[trigger] keys[i]) ==> stored_object(terms, docs[keys[i]]),
        forall|i: int, j: int| 0 <= i < j < filters.len() ==> #[trigger] filters[i].0 != #[trigger] filters[j].0,
        forall|i: int| 0 <= i < filters.len() ==> key_unambiguous(terms, #[trigger] filters[i].0),
        forall|i: int| 0 <= i < filters.len() ==> #[trigger] filters[i].1.wf() && keys_unambiguous(terms, filters[i].1),
    ensures
        documents_of(terms, docs, keys) matches Ok(vs) && matching_documents(terms, docs, keys, stored_filters(terms, filters))
            == Ok::<Seq<JsonView>, Fault>(documents_matching(vs, filters)),
    decreases keys.len(),
{
    if keys.len() > 0 {
        let prev = keys.drop_last();
        assert forall|i: int| 0 <= i < prev.len() implies valid_utf8(#[trigger] prev[i]) by {
            assert(prev[i] == keys[i]);
        }
        assert forall|i: int| 0 <= i < prev.len() && docs.contains_key(#[trigger] prev[i]) implies stored_object(
            terms,
            docs[prev[i]],
        ) by {
            assert(prev[i] == keys[i]);
        }
        law_query_filters_type_listing(terms, docs, prev, filters);
        let k = keys.last();
        assert(valid_utf8(keys[keys.len() - 1]));
        if docs.contains_key(k) {
            assert(stored_object(terms, docs[keys[keys.len() - 1]]));
            let e = choose|e: Entries| #![trigger compress_value(terms, JsonView::Object(e))]
                JsonView::Object(e).wf() && keys_unambiguous(terms, JsonView::Object(e)) && json_bytes_value(docs[k]) == Some(
                    compress_value(terms, JsonView::Object(e)),
                );
            let d = JsonView::Object(e);
            law_decompress_undoes_compress(terms, d);
            law_query_compares_stored_forms(terms, e, filters);
            let c = compress_value(terms, d);
            let ce = c->Object_0;
            let vs = documents_of(terms, docs, prev)->Ok_0;
            let ms = documents_matching(vs, filters);
            assert(read_stored(terms, docs, k) == ReadOutcome::Found(d));
            assert(documents_of(terms, docs, keys) == Ok::<Seq<JsonView>, Fault>(vs.push(d)));
            assert(vs.push(d).drop_last() =~= vs);
            assert(vs.push(d).last() == d);
            if matches_filters(e, filters) {
                assert(matching_documents(terms, docs, keys, stored_filters(terms, filters)) == Ok::<Seq<JsonView>, Fault>(ms.push(d)));
                assert(documents_matching(vs.push(d), filters) =~= ms.push(d));
            } else {
                assert(matching_documents(terms, docs, keys, stored_filters(terms, filters)) == Ok::<Seq<JsonView>, Fault>(ms));
                assert(documents_matching(vs.push(d), filters) =~= ms);
            }
        } else {
            assert(read_stored(terms, docs, k) is Missing);
        }
    }
}

/// A fault among the first ids is the fault of all of them.
proof fn lemma_documents_of_fault(terms: Seq<Seq<char>>, docs: Map<Seq<u8>, Seq<u8>>, keys: Seq<Seq<u8>>, n: int)
    requires
        0 <= n <= keys.len(),
        documents_of(terms, docs, keys.take(n)) is Err,
    ensures
        documents_of(terms, docs, keys) == documents_of(terms, docs, keys.take(n)),
    decreases keys.len(),
{
    if n < keys.len() {
        assert(keys.drop_last().take(n) =~= keys.take(n));
        lemma_documents_of_fault(terms, docs, keys.drop_last(), n);
    } else {
        assert(keys.take(n) =~= keys);
    }
}

/// A fault among the first ids is the fault of all of them.
proof fn lemma_matching_documents_fault(
    terms: Seq<Seq<char>>,
    docs: Map<Seq<u8>, Seq<u8>>,
    keys: Seq<Seq<u8>>,
    filters: Entries,
    n: int,
)
    requires
        0 <= n <= keys.len(),
        matching_documents(terms, docs, keys.take(n), filters) is Err,
    ensures
        matching_documents(terms, docs, keys, filters) == matching_documents(terms, docs, keys.take(n), filters),
    decreases keys.len(),
{
    if n < keys.len() {
        assert(keys.drop_last().take(n) =~= keys.take(n));
        lemma_matching_documents_fault(terms, docs, keys.drop_last(), filters, n);
    } else {
        assert(keys.take(n) =~= keys);
    }
}

/// Whether a stored object holds every filter key with an equal value.
fn object_matches(obj: &Vec<(String, Json)>, filters: &Vec<(String, Json)>) -> (r: bool)
    ensures
        r == matches_filters(entries_view(obj@), entries_view(filters@)),
{
    let ghost fv = entries_view(filters@);
    let mut i: usize = 0;
    while i < filters.len()
        invariant
            fv == entries_view(filters@),
            i <= filters.len(),
            forall|j: int| 0 <= j < i ==> #[trigger] filter_holds(entries_view(obj@), fv[j]),
        decreases filters.len() - i,
    {
        assert(fv[i as int] == (filters@[i as int].0@, filters@[i as int].1@));
        match entries_get(obj, filters[i].0.as_str()) {
            Some(v) => {
                if !json_equal(v, &filters[i].1) {
                    assert(!filter_holds(entries_view(obj@), fv[i as int]));
                    return false;
                }
            },
            None => {
                assert(!filter_holds(entries_view(obj@), fv[i as int]));
                return false;
            },
        }
        i = i + 1;
    }
    true
}

/// The trees with the index tree of a type opened: added, empty, when it was
/// not there.
pub open spec fn trees_with_type_opened(
    trees: Map<Seq<u8>, Map<Seq<u8>, Seq<u8>>>,
    typ: Seq<char>,
) -> Map<Seq<u8>, Map<Seq<u8>, Seq<u8>>> {
    trees.insert(type_tree(typ), tree_of(trees, type_tree(typ)))
}

/// What a listing of the documents of a type gives and does, with the trees
/// before and after: the index tree is opened, or (after a database failure)
/// the trees may be as they were; the documents are those of `documents_of`
/// over a listing of the index, and a fault other than a database failure is
/// the fault of `documents_of`.
pub open spec fn type_listing_outcome(
    terms: Seq<Seq<char>>,
    before: Map<Seq<u8>, Map<Seq<u8>, Seq<u8>>>,
    after: Map<Seq<u8>, Map<Seq<u8>, Seq<u8>>>,
    typ: Seq<char>,
    res: Result<Vec<Json>, StorageError>,
) -> bool {
    let index = tree_of(before, type_tree(typ));
    let docs = tree_of(before, default_tree());
    match res {
        Ok(vs) => after == trees_with_type_opened(before, typ) && exists|keys: Seq<Seq<u8>>|
            key_listing(keys, index) && documents_of(terms, docs, keys) == Ok::<Seq<JsonView>, Fault>(elements_view(vs@)),
        Err(e) => match fault_of(e) {
            None => after == before || after == trees_with_type_opened(before, typ),
            Some(f) => after == trees_with_type_opened(before, typ) && exists|keys: Seq<Seq<u8>>|
                key_listing(keys, index) && documents_of(terms, docs, keys) == Err::<Seq<JsonView>, Fault>(f),
        },
    }
}

/// What a query of the documents of a type gives and does, with the trees
/// before and after, as `type_listing_outcome` says of a listing, with
/// `matching_documents` and the filters in stored form in place of
/// `documents_of`.
pub open spec fn query_outcome(
    terms: Seq<Seq<char>>,
    before: Map<Seq<u8>, Map<Seq<u8>, Seq<u8>>>,
    after: Map<Seq<u8>, Map<Seq<u8>, Seq<u8>>>,
    typ: Seq<char>,
    filters: Entries,
    res: Result<Vec<Json>, StorageError>,
) -> bool {
    let index = tree_of(before, type_tree(typ));
    let docs = tree_of(before, default_tree());
    let sf = stored_filters(terms, filters);
    match res {
        Ok(vs) => after == trees_with_type_opened(before, typ) && exists|keys: Seq<Seq<u8>>|
            key_listing(keys, index) && matching_documents(terms, docs, keys, sf) == Ok::<Seq<JsonView>, Fault>(
                elements_view(vs@),
            ),
        Err(e) => match fault_of(e) {
            None => after == before || after == trees_with_type_opened(before, typ),
            Some(f) => after == trees_with_type_opened(before, typ) && exists|keys: Seq<Seq<u8>>|
                key_listing(keys, index) && matching_documents(terms, docs, keys, sf) == Err::<Seq<JsonView>, Fault>(f),
        },
    }
}

impl Storage {
    /// The filters in stored form.
    fn compress_filters(&self, filters: &Vec<(String, Json)>) -> (r: Vec<(String, Json)>)
        requires
            self.wf(),
        ensures
            entries_view(r@) == stored_filters(self.terms(), entries_view(filters@)),
    {
        let ghost pairs = converted_pairs(self.terms(), true, entries_view(filters@));
        let mut acc: Vec<(String, Json)> = Vec::new();
        let mut i: usize = 0;
        assert(entries_view(acc@) =~= entries_build(pairs.take(0)));
        while i < filters.len()
            invariant
                self.wf(),
                pairs == converted_pairs(self.terms(), true, entries_view(filters@)),
                i <= filters.len(),
                entries_view(acc@) == entries_build(pairs.take(i as int)),
            decreases filters.len() - i,
        {
            let key = compress_key_exec(&self.definitions, &filters[i].0);
            let val = self.compress(&filters[i].1);
            entries_insert(&mut acc, key, val);
            assert(pairs.take(i + 1).drop_last() =~= pairs.take(i as int));
            i = i + 1;
        }
        assert(pairs.take(filters.len() as int) =~= pairs);
        acc
    }

    /// The documents indexed under a type, read back, in the order of their ids.
    pub fn get_by_type(&mut self, typ: &str) -> (r: Result<Vec<Json>, StorageError>)
        requires
            old(self).wf(),
        ensures
            final(self).wf(),
            final(self).terms() == old(self).terms(),
            final(self).documents() == old(self).documents(),
            type_listing_outcome(old(self).terms(), old(self).trees(), final(self).trees(), typ@, r),
            final(self).failed_calls() == old(self).failed_calls() + if is_database_failure(r) { 1nat } else { 0nat },
    {
        let ghost terms = self.terms();
        let ghost docs = self.documents();
        let name = concat("type:", typ);
        proof {
            lemma_type_tree_not_default(typ@);
        }
        let keys = match tree_keys(&mut self.db, name.as_str().as_bytes()) {
            Ok(k) => k,
            Err(e) => {
                self.failures.record(&e);
                return Err(StorageError::Database(db_error_message(&e)));
            },
        };
        assert(self.documents() == docs);
        let ghost kv = keys_view(keys@);
        assert(key_listing(kv, tree_of(old(self).trees(), type_tree(typ@)))) by {
            assert forall|k: Seq<u8>| tree_of(old(self).trees(), type_tree(typ@)).contains_key(k) <==> kv.contains(k) by {
                if tree_of(old(self).trees(), type_tree(typ@)).contains_key(k) {
                    let i = choose|i: int| 0 <= i < keys.len() && #[trigger] keys@[i]@ == k;
                    assert(kv[i] == k);
                }
                if kv.contains(k) {
                    let i = choose|i: int| 0 <= i < kv.len() && kv[i] == k;
                    assert(keys@[i]@ == k);
                }
            }
        }
        let mut results: Vec<Json> = Vec::new();
        let mut i: usize = 0;
        assert(elements_view(results@) =~= seq![]);
        assert(kv.take(0) =~= seq![]);
        while i < keys.len()
            invariant
                self.wf(),
                self.terms() == terms,
                terms == old(self).terms(),
                self.failed_calls() == old(self).failed_calls(),
                self.documents() == docs,
                docs == old(self).documents(),
                self.trees() == old(self).trees().insert(type_tree(typ@), tree_of(old(self).trees(), type_tree(typ@))),
                key_listing(kv, tree_of(old(self).trees(), type_tree(typ@))),
                kv == keys_view(keys@),
                i <= keys.len(),
                documents_of(terms, docs, kv.take(i as int)) == Ok::<Seq<JsonView>, Fault>(elements_view(results@)),
            decreases keys.len() - i,
        {
            assert(kv.take(i + 1).drop_last() =~= kv.take(i as int));
            assert(kv.take(i + 1).last() == keys@[i as int]@);
            let id = match text_from_utf8(keys[i].as_slice()) {
                Ok(s) => s,
                Err(e) => {
                    assert(documents_of(terms, docs, kv.take(i + 1)) == Err::<Seq<JsonView>, Fault>(Fault::InvalidUtf8));
                    proof {
                        lemma_documents_of_fault(terms, docs, kv, i + 1);
                    }
                    return Err(StorageError::InvalidUtf8(utf8_error_message(&e)));
                },
            };
            proof {
                vstd::utf8::decode_utf8_encode_utf8(keys@[i as int]@);
            }
            match self.read_key(id.as_str().as_bytes()) {
                Ok(Ok(Some(v))) => {
                    let ghost before = results@;
                    results.push(v);
                    assert(elements_view(results@) =~= elements_view(before).push(v@));
                },
                Ok(Ok(None)) => {},
                Ok(Err(e)) => {
                    proof {
                        assert(documents_of(terms, docs, kv.take(i + 1)) == Err::<Seq<JsonView>, Fault>(Fault::Unreadable));
                        lemma_documents_of_fault(terms, docs, kv, i + 1);
                    }
                    return Err(e);
                },
                Err(e) => {
                    self.failures.record(&e);
                    return Err(StorageError::Database(db_error_message(&e)));
                },
            }
            i = i + 1;
        }
        assert(kv.take(keys.len() as int) =~= kv);
        Ok(results)
    }
}

impl Storage {
    /// The documents indexed under a type whose stored form holds every filter
    /// (in stored form) with an equal value, read back, in the order of their ids.
    pub fn query(&mut self, typ: &str, filters: &Vec<(String, Json)>) -> (r: Result<Vec<Json>, StorageError>)
        requires
            old(self).wf(),
        ensures
            final(self).wf(),
            final(self).terms() == old(self).terms(),
            final(self).documents() == old(self).documents(),
            query_outcome(old(self).terms(), old(self).trees(), final(self).trees(), typ@, entries_view(filters@), r),
            final(self).failed_calls() == old(self).failed_calls() + if is_database_failure(r) { 1nat } else { 0nat },
    {
        let ghost terms = self.terms();
        let ghost docs = self.documents();
        let name = concat("type:", typ);
        proof {
            lemma_type_tree_not_default(typ@);
        }
        let keys = match tree_keys(&mut self.db, name.as_str().as_bytes()) {
            Ok(k) => k,
            Err(e) => {
                self.failures.record(&e);
                return Err(StorageError::Database(db_error_message(&e)));
            },
        };
        assert(self.documents() == docs);
        let cf = self.compress_filters(filters);
        let ghost cfv = entries_view(cf@);
        let ghost kv = keys_view(keys@);
        assert(key_listing(kv, tree_of(old(self).trees(), type_tree(typ@)))) by {
            assert forall|k: Seq<u8>| tree_of(old(self).trees(), type_tree(typ@)).contains_key(k) <==> kv.contains(k) by {
                if tree_of(old(self).trees(), type_tree(typ@)).contains_key(k) {
                    let i = choose|i: int| 0 <= i < keys.len() && #[trigger] keys@[i]@ == k;
                    assert(kv[i] == k);
                }
                if kv.contains(k) {
                    let i = choose|i: int| 0 <= i < kv.len() && kv[i] == k;
                    assert(keys@[i]@ == k);
                }
            }
        }
        let mut results: Vec<Json> = Vec::new();
        let mut i: usize = 0;
        assert(elements_view(results@) =~= seq![]);
        assert(kv.take(0) =~= seq![]);
        while i < keys.len()
            invariant
                self.wf(),
                self.terms() == terms,
                terms == old(self).terms(),
                self.failed_calls() == old(self).failed_calls(),
                self.documents() == docs,
                docs == old(self).documents(),
                self.trees() == old(self).trees().insert(type_tree(typ@), tree_of(old(self).trees(), type_tree(typ@))),
                key_listing(kv, tree_of(old(self).trees(), type_tree(typ@))),
                kv == keys_view(keys@),
                cfv == entries_view(cf@),
                cfv == stored_filters(terms, entries_view(filters@)),
                i <= keys.len(),
                matching_documents(terms, docs, kv.take(i as int), cfv) == Ok::<Seq<JsonView>, Fault>(elements_view(results@)),
            decreases keys.len() - i,
        {
            assert(kv.take(i + 1).drop_last() =~= kv.take(i as int));
            assert(kv.take(i + 1).last() == keys@[i as int]@);
            match db_get(&self.db, keys[i].as_slice()) {
                Ok(Some(bytes)) => {
                    match read_json_bytes(bytes.as_slice()) {
                        Ok(compressed) => {
                            match &compressed {
                                Json::Object(obj) => {
                                    proof {
                                        lemma_object_view(*obj);
                                    }
                                    if object_matches(obj, &cf) {
                                        let v = self.decompress(&compressed);
                                        let ghost before = results@;
                                        results.push(v);
                                        assert(elements_view(results@) =~= elements_view(before).push(v@));
                                    }
                                },
                                _ => {
                                    proof {
                                        lemma_matching_documents_fault(terms, docs, kv, cfv, i + 1);
                                    }
                                    return Err(StorageError::NotAnObject);
                                },
                            }
                        },
                        Err(e) => {
                            proof {
                                lemma_matching_documents_fault(terms, docs, kv, cfv, i + 1);
                            }
                            return Err(StorageError::Encoding(json_error_message(&e)));
                        },
                    }
                },
                Ok(None) => {},
                Err(e) => {
                    self.failures.record(&e);
                return Err(StorageError::Database(db_error_message(&e)));
                },
            }
            i = i + 1;
        }
        assert(kv.take(keys.len() as int) =~= kv);
        Ok(results)
    }
}

impl StorageError {
    /// The message of the error (what its `to_string` gave).
    pub fn message(&self) -> (r: String)
        ensures
            r@ == error_text(*self),
    {
        match self {
            StorageError::Database(m) => m.clone(),
            StorageError::Encoding(m) => m.clone(),
            StorageError::InvalidUtf8(m) => m.clone(),
            StorageError::NotAnObject => String::from_str("stored document is not an object"),
        }
    }
}

proof fn lemma_index_types_holds(
    trees: Map<Seq<u8>, Map<Seq<u8>, Seq<u8>>>,
    types: Seq<Seq<char>>,
    idb: Seq<u8>,
    name: Seq<u8>,
    k: Seq<u8>,
)
    requires
        tree_of(trees, name).contains_key(k) || (k == idb && exists|i: int| 0 <= i < types.len() && type_tree(#[trigger] types[i]) == name),
    ensures
        tree_of(index_types(trees, types, idb), name).contains_key(k),
    decreases types.len(),
{
    if types.len() > 0 {
        let last = types.last();
        if tree_of(trees, name).contains_key(k) || (k == idb && exists|i: int| 0 <= i < types.len() - 1 && type_tree(#[trigger] types[i]) == name) {
            if k == idb && exists|i: int| 0 <= i < types.len() - 1 && type_tree(#[trigger] types[i]) == name {
                let i = choose|i: int| 0 <= i < types.len() - 1 && type_tree(#[trigger] types[i]) == name;
                assert(types.drop_last()[i] == types[i]);
            }
            lemma_index_types_holds(trees, types.drop_last(), idb, name, k);
        }
    }
}

/// After a document is inserted, its id is in the index tree of each of its
/// types.
pub proof fn law_insert_indexes_types(
    terms: Seq<Seq<char>>,
    trees: Map<Seq<u8>, Map<Seq<u8>, Seq<u8>>>,
    data: JsonView,
    fresh: Seq<char>,
    t: Seq<char>,
)
    requires
        document_types(with_id(data, fresh)).contains(t),
    ensures
        tree_of(trees_after_insert(terms, trees, data, fresh), type_tree(t)).contains_key(
            encode_utf8(assigned_id(data, fresh)),
        ),
{
    let doc = with_id(data, fresh);
    let idb = encode_utf8(assigned_id(data, fresh));
    let stored = trees.insert(
        default_tree(),
        tree_of(trees, default_tree()).insert(idb, json_bytes_of(compress_value(terms, doc))),
    );
    let types = document_types(doc);
    let i = choose|i: int| 0 <= i < types.len() && types[i] == t;
    assert(type_tree(types[i]) == type_tree(t));
    lemma_index_types_holds(stored, types, idb, type_tree(t), idb);
}


impl Storage {
    /// The terms of a well-formed storage are in strictly increasing order and
    /// fit in `u32` ids, as the laws on stored forms ask.
    pub proof fn lemma_terms_sorted(&self)
        requires
            self.wf(),
        ensures
            strictly_sorted(self.terms()),
            self.terms().len() <= max_terms(),
    {
    }
}

/// Reading back what a storage compresses gives the document, when the
/// document is well-formed and its keys are unambiguous for the storage's terms.
pub proof fn law_storage_decompress_undoes_compress(s: Storage, v: JsonView)
    requires
        s.wf(),
        v.wf(),
        keys_unambiguous(s.terms(), v),
    ensures
        decompress_value(s.terms(), compress_value(s.terms(), v)) == v,
{
    law_decompress_undoes_compress(s.terms(), v);
}

/// The last insert under an id wins: after two inserts that assign the same
/// id, reading under it gives the second document as stored, on the
/// conditions of `law_read_after_insert` for the second document.
pub proof fn law_last_insert_wins(
    terms: Seq<Seq<char>>,
    trees: Map<Seq<u8>, Map<Seq<u8>, Seq<u8>>>,
    d1: JsonView,
    u1: Seq<char>,
    d2: JsonView,
    u2: Seq<char>,
)
    requires
        strictly_sorted(terms),
        terms.len() <= max_terms(),
        assigned_id(d1, u1) == assigned_id(d2, u2),
        with_id(d2, u2).wf(),
        with_id(d2, u2).integral(),
        with_id(d2, u2).depth_within(max_read_depth()),
        keys_unambiguous(terms, with_id(d2, u2)),
        stored_form_reads_back(terms, with_id(d2, u2)),
    ensures
        read_stored(
            terms,
            tree_of(trees_after_insert(terms, trees_after_insert(terms, trees, d1, u1), d2, u2), default_tree()),
            encode_utf8(assigned_id(d1, u1)),
        ) == ReadOutcome::Found(with_id(d2, u2)),
{
    law_read_after_insert(terms, trees_after_insert(terms, trees, d1, u1), d2, u2);
}

/// Without filters, every stored object matches: over ids that are UTF-8 and
/// whose stored documents are objects, the matching documents are the
/// documents.
proof fn lemma_no_filters(terms: Seq<Seq<char>>, docs: Map<Seq<u8>, Seq<u8>>, keys: Seq<Seq<u8>>)
    requires
        forall|i: int| 0 <= i < keys.len() ==> valid_utf8(#[trigger] keys[i]),
        forall|i: int| 0 <= i < keys.len() && docs.contains_key(#[trigger] keys[i]) ==> json_bytes_value(docs[keys[i]]) matches Some(
            JsonView::Object(_),
        ),
    ensures
        matching_documents(terms, docs, keys, seq![]) == documents_of(terms, docs, keys),
    decreases keys.len(),
{
    if keys.len() > 0 {
        let prev = keys.drop_last();
        assert forall|i: int| 0 <= i < prev.len() implies valid_utf8(#[trigger] prev[i]) by {
            assert(prev[i] == keys[i]);
        }
        assert forall|i: int| 0 <= i < prev.len() && docs.contains_key(#[trigger] prev[i]) implies json_bytes_value(
            docs[prev[i]],
        ) matches Some(JsonView::Object(_)) by {
            assert(prev[i] == keys[i]);
        }
        lemma_no_filters(terms, docs, prev);
        assert(valid_utf8(keys[keys.len() - 1]));
        if docs.contains_key(keys[keys.len() - 1]) {
            assert(json_bytes_value(docs[keys[keys.len() - 1]]) matches Some(JsonView::Object(_)));
        }
    }
}

/// A query without filters gives what a listing of the type gives, when both
/// read the same trees, the ids of the index are UTF-8 and the documents
/// stored under them are objects (as `insert` leaves an indexed document).
pub proof fn law_query_without_filters_is_listing(
    terms: Seq<Seq<char>>,
    before: Map<Seq<u8>, Map<Seq<u8>, Seq<u8>>>,
    after1: Map<Seq<u8>, Map<Seq<u8>, Seq<u8>>>,
    after2: Map<Seq<u8>, Map<Seq<u8>, Seq<u8>>>,
    typ: Seq<char>,
    vs1: Vec<Json>,
    vs2: Vec<Json>,
)
    requires
        query_outcome(terms, before, after1, typ, seq![], Ok::<Vec<Json>, StorageError>(vs1)),
        type_listing_outcome(terms, before, after2, typ, Ok::<Vec<Json>, StorageError>(vs2)),
        forall|k: Seq<u8>| #[trigger] tree_of(before, type_tree(typ)).contains_key(k) ==> valid_utf8(k),
        forall|k: Seq<u8>|
            #[trigger] tree_of(before, type_tree(typ)).contains_key(k) && tree_of(before, default_tree()).contains_key(k)
                ==> json_bytes_value(tree_of(before, default_tree())[k]) matches Some(JsonView::Object(_)),
    ensures
        elements_view(vs1@) == elements_view(vs2@),
        after1 == after2,
{
    let index = tree_of(before, type_tree(typ));
    let docs = tree_of(before, default_tree());
    let k1 = choose|keys: Seq<Seq<u8>>| key_listing(keys, index) && matching_documents(terms, docs, keys, stored_filters(terms, seq![]))
        == Ok::<Seq<JsonView>, Fault>(elements_view(vs1@));
    let k2 = choose|keys: Seq<Seq<u8>>| key_listing(keys, index) && documents_of(terms, docs, keys) == Ok::<Seq<JsonView>, Fault>(
        elements_view(vs2@),
    );
    lemma_key_listing_unique(k1, k2, index);
    assert(converted_pairs(terms, true, seq![]) =~= seq![]);
    assert(stored_filters(terms, seq![]) =~= seq![]);
    assert forall|i: int| 0 <= i < k1.len() implies valid_utf8(#[trigger] k1[i]) by {
        assert(k1.contains(k1[i]));
        assert(index.contains_key(k1[i]));
    }
    assert forall|i: int| 0 <= i < k1.len() && docs.contains_key(#[trigger] k1[i]) implies json_bytes_value(docs[k1[i]]) matches Some(
        JsonView::Object(_),
    ) by {
        assert(k1.contains(k1[i]));
        assert(index.contains_key(k1[i]));
    }
    lemma_no_filters(terms, docs, k1);
}

/// `a` is the elements of `b` at the increasing positions `idx`.
pub open spec fn embeds(a: Seq<JsonView>, b: Seq<JsonView>, idx: Seq<int>) -> bool {
    &&& idx.len() == a.len()
    &&& forall|i: int, j: int| 0 <= i < j < idx.len() ==> #[trigger] idx[i] < #[trigger] idx[j]
    &&& forall|i: int| 0 <= i < idx.len() ==> 0 <= #[trigger] idx[i] < b.len() && b[idx[i]] == a[i]
}

/// `a` is a subsequence of `b`: its elements are among those of `b`, in order.
pub open spec fn subsequence(a: Seq<JsonView>, b: Seq<JsonView>) -> bool {
    exists|idx: Seq<int>| embeds(a, b, idx)
}

/// An object that matches more filters matches fewer: every filter pair of
/// `f1` is one of `f2`, no key repeats in either, and all their keys are
/// unambiguous.
proof fn lemma_fewer_filters_match(terms: Seq<Seq<char>>, f1: Entries, f2: Entries, obj: Entries)
    requires
        strictly_sorted(terms),
        terms.len() <= max_terms(),
        forall|i: int, j: int| 0 <= i < j < f1.len() ==> #[trigger] f1[i].0 != #[trigger] f1[j].0,
        forall|i: int, j: int| 0 <= i < j < f2.len() ==> #[trigger] f2[i].0 != #[trigger] f2[j].0,
        forall|i: int| 0 <= i < f1.len() ==> key_unambiguous(terms, #[trigger] f1[i].0),
        forall|i: int| 0 <= i < f2.len() ==> key_unambiguous(terms, #[trigger] f2[i].0),
        forall|i: int| 0 <= i < f1.len() ==> f2.contains(#[trigger] f1[i]),
        matches_filters(obj, stored_filters(terms, f2)),
    ensures
        matches_filters(obj, stored_filters(terms, f1)),
{
    let l1 = converted_pairs(terms, true, f1);
    let l2 = converted_pairs(terms, true, f2);
    assert forall|i: int, j: int| 0 <= i < j < l1.len() implies #[trigger] l1[i].0 != #[trigger] l1[j].0 by {
        if l1[i].0 == l1[j].0 {
            lemma_compress_key_injective(terms, f1[i].0, f1[j].0);
        }
    }
    assert forall|i: int, j: int| 0 <= i < j < l2.len() implies #[trigger] l2[i].0 != #[trigger] l2[j].0 by {
        if l2[i].0 == l2[j].0 {
            lemma_compress_key_injective(terms, f2[i].0, f2[j].0);
        }
    }
    lemma_matches_built(obj, l1);
    lemma_matches_built(obj, l2);
    assert forall|i: int| 0 <= i < l1.len() implies #[trigger] filter_holds(obj, l1[i]) by {
        assert(f2.contains(f1[i]));
        let j = choose|j: int| 0 <= j < f2.len() && f2[j] == f1[i];
        assert(l2[j] == l1[i]);
        assert(filter_holds(obj, l2[j]));
    }
}

/// Over the same ids, the documents that match more filters are a
/// subsequence of those that match fewer, and the positions that show it.
proof fn lemma_more_filters_subsequence(
    terms: Seq<Seq<char>>,
    docs: Map<Seq<u8>, Seq<u8>>,
    keys: Seq<Seq<u8>>,
    f1: Entries,
    f2: Entries,
) -> (idx: Seq<int>)
    requires
        strictly_sorted(terms),
        terms.len() <= max_terms(),
        forall|i: int, j: int| 0 <= i < j < f1.len() ==> #[trigger] f1[i].0 != #[trigger] f1[j].0,
        forall|i: int, j: int| 0 <= i < j < f2.len() ==> #[trigger] f2[i].0 != #[trigger] f2[j].0,
        forall|i: int| 0 <= i < f1.len() ==> key_unambiguous(terms, #[trigger] f1[i].0),
        forall|i: int| 0 <= i < f2.len() ==> key_unambiguous(terms, #[trigger] f2[i].0),
        forall|i: int| 0 <= i < f1.len() ==> f2.contains(#[trigger] f1[i]),
        matching_documents(terms, docs, keys, stored_filters(terms, f1)) is Ok,
        matching_documents(terms, docs, keys, stored_filters(terms, f2)) is Ok,
    ensures
        embeds(
            matching_documents(terms, docs, keys, stored_filters(terms, f2))->Ok_0,
            matching_documents(terms, docs, keys, stored_filters(terms, f1))->Ok_0,
            idx,
        ),
    decreases keys.len(),
{
    let sf1 = stored_filters(terms, f1);
    let sf2 = stored_filters(terms, f2);
    if keys.len() == 0 {
        seq![]
    } else {
        let prev = keys.drop_last();
        let k = keys.last();
        let idx0 = lemma_more_filters_subsequence(terms, docs, prev, f1, f2);
        let m1 = matching_documents(terms, docs, prev, sf1)->Ok_0;
        let m2 = matching_documents(terms, docs, prev, sf2)->Ok_0;
        if docs.contains_key(k) {
            if let Some(JsonView::Object(obj)) = json_bytes_value(docs[k]) {
                let d = decompress_value(terms, JsonView::Object(obj));
                if matches_filters(obj, sf2) {
                    lemma_fewer_filters_match(terms, f1, f2, obj);
                    let idx = idx0.push(m1.len() as int);
                    assert(embeds(m2.push(d), m1.push(d), idx)) by {
                        assert forall|i: int| 0 <= i < idx.len() implies 0 <= #[trigger] idx[i] < m1.push(d).len()
                            && m1.push(d)[idx[i]] == m2.push(d)[i] by {
                            if i < idx0.len() {
                                assert(idx[i] == idx0[i]);
                            }
                        }
                        assert forall|i: int, j: int| 0 <= i < j < idx.len() implies #[trigger] idx[i] < #[trigger] idx[j] by {
                            if j < idx0.len() {
                                assert(idx[i] == idx0[i]);
                                assert(idx[j] == idx0[j]);
                            } else {
                                assert(idx[i] == idx0[i]);
                            }
                        }
                    }
                    idx
                } else {
                    if matches_filters(obj, sf1) {
                        assert(embeds(m2, m1.push(d), idx0)) by {
                            assert forall|i: int| 0 <= i < idx0.len() implies 0 <= #[trigger] idx0[i] < m1.push(d).len()
                                && m1.push(d)[idx0[i]] == m2[i] by {
                            }
                        }
                    }
                    idx0
                }
            } else {
                idx0
            }
        } else {
            idx0
        }
    }
}

/// Adding filters never adds results: over the same trees, a query whose
/// filters include those of another gives a subsequence of its results, when
/// no filter key repeats and all filter keys are unambiguous.
pub proof fn law_more_filters_fewer_results(
    terms: Seq<Seq<char>>,
    before: Map<Seq<u8>, Map<Seq<u8>, Seq<u8>>>,
    after1: Map<Seq<u8>, Map<Seq<u8>, Seq<u8>>>,
    after2: Map<Seq<u8>, Map<Seq<u8>, Seq<u8>>>,
    typ: Seq<char>,
    f1: Entries,
    f2: Entries,
    vs1: Vec<Json>,
    vs2: Vec<Json>,
)
    requires
        strictly_sorted(terms),
        terms.len() <= max_terms(),
        forall|i: int, j: int| 0 <= i < j < f1.len() ==> #[trigger] f1[i].0 != #[trigger] f1[j].0,
        forall|i: int, j: int| 0 <= i < j < f2.len() ==> #[trigger] f2[i].0 != #[trigger] f2[j].0,
        forall|i: int| 0 <= i < f1.len() ==> key_unambiguous(terms, #[trigger] f1[i].0),
        forall|i: int| 0 <= i < f2.len() ==> key_unambiguous(terms, #[trigger] f2[i].0),
        forall|i: int| 0 <= i < f1.len() ==> f2.contains(#[trigger] f1[i]),
        query_outcome(terms, before, after1, typ, f1, Ok::<Vec<Json>, StorageError>(vs1)),
        query_outcome(terms, before, after2, typ, f2, Ok::<Vec<Json>, StorageError>(vs2)),
    ensures
        subsequence(elements_view(vs2@), elements_view(vs1@)),
{
    let index = tree_of(before, type_tree(typ));
    let docs = tree_of(before, default_tree());
    let k1 = choose|keys: Seq<Seq<u8>>| key_listing(keys, index) && matching_documents(terms, docs, keys, stored_filters(terms, f1))
        == Ok::<Seq<JsonView>, Fault>(elements_view(vs1@));
    let k2 = choose|keys: Seq<Seq<u8>>| key_listing(keys, index) && matching_documents(terms, docs, keys, stored_filters(terms, f2))
        == Ok::<Seq<JsonView>, Fault>(elements_view(vs2@));
    lemma_key_listing_unique(k1, k2, index);
    let idx = lemma_more_filters_subsequence(terms, docs, k1, f1, f2);
    assert(embeds(elements_view(vs2@), elements_view(vs1@), idx));
}

/// A query gives the documents that a listing of the type gives and that
/// match the filters, when both read the same trees and the trees are ready
/// for queries of the type (as inserts of well-formed objects keep them).
pub proof fn law_query_is_filtered_listing(
    terms: Seq<Seq<char>>,
    before: Map<Seq<u8>, Map<Seq<u8>, Seq<u8>>>,
    after1: Map<Seq<u8>, Map<Seq<u8>, Seq<u8>>>,
    after2: Map<Seq<u8>, Map<Seq<u8>, Seq<u8>>>,
    typ: Seq<char>,
    filters: Entries,
    vs1: Vec<Json>,
    vs2: Vec<Json>,
)
    requires
        strictly_sorted(terms),
        terms.len() <= max_terms(),
        query_ready(terms, before, typ),
        forall|i: int, j: int| 0 <= i < j < filters.len() ==> #[trigger] filters[i].0 != #[trigger] filters[j].0,
        forall|i: int| 0 <= i < filters.len() ==> key_unambiguous(terms, #[trigger] filters[i].0),
        forall|i: int| 0 <= i < filters.len() ==> #[trigger] filters[i].1.wf() && keys_unambiguous(terms, filters[i].1),
        query_outcome(terms, before, after1, typ, filters, Ok::<Vec<Json>, StorageError>(vs1)),
        type_listing_outcome(terms, before, after2, typ, Ok::<Vec<Json>, StorageError>(vs2)),
    ensures
        elements_view(vs1@) == documents_matching(elements_view(vs2@), filters),
{
    let index = tree_of(before, type_tree(typ));
    let docs = tree_of(before, default_tree());
    let k1 = choose|keys: Seq<Seq<u8>>| key_listing(keys, index) && matching_documents(terms, docs, keys, stored_filters(terms, filters))
        == Ok::<Seq<JsonView>, Fault>(elements_view(vs1@));
    let k2 = choose|keys: Seq<Seq<u8>>| key_listing(keys, index) && documents_of(terms, docs, keys) == Ok::<Seq<JsonView>, Fault>(
        elements_view(vs2@),
    );
    lemma_key_listing_unique(k1, k2, index);
    assert forall|i: int| 0 <= i < k1.len() implies valid_utf8(#[trigger] k1[i]) by {
        assert(k1.contains(k1[i]));
        assert(index.contains_key(k1[i]));
    }
    assert forall|i: int| 0 <= i < k1.len() && docs.contains_key(#[trigger] k1[i]) implies stored_object(terms, docs[k1[i]]) by {
        assert(k1.contains(k1[i]));
        assert(index.contains_key(k1[i]));
    }
    law_query_filters_type_listing(terms, docs, k1, filters);
}

/// Opening an index tree at most leaves every tree, as a read sees it, as it was.
proof fn lemma_opening_keeps_trees(
    before: Map<Seq<u8>, Map<Seq<u8>, Seq<u8>>>,
    after: Map<Seq<u8>, Map<Seq<u8>, Seq<u8>>>,
    typ: Seq<char>,
)
    requires
        after == before || after == trees_with_type_opened(before, typ),
    ensures
        forall|name: Seq<u8>| #[trigger] tree_of(after, name) == tree_of(before, name),
{
}

/// A listing of a type, whatever its outcome, leaves every later read and
/// listing as it was: every tree holds what it held.
pub proof fn law_listing_keeps_reads(
    terms: Seq<Seq<char>>,
    before: Map<Seq<u8>, Map<Seq<u8>, Seq<u8>>>,
    after: Map<Seq<u8>, Map<Seq<u8>, Seq<u8>>>,
    typ: Seq<char>,
    res: Result<Vec<Json>, StorageError>,
)
    requires
        type_listing_outcome(terms, before, after, typ, res),
    ensures
        forall|name: Seq<u8>| #[trigger] tree_of(after, name) == tree_of(before, name),
{
    lemma_opening_keeps_trees(before, after, typ);
}

/// A query of a type, whatever its outcome, leaves every later read and
/// listing as it was: every tree holds what it held.
pub proof fn law_query_keeps_reads(
    terms: Seq<Seq<char>>,
    before: Map<Seq<u8>, Map<Seq<u8>, Seq<u8>>>,
    after: Map<Seq<u8>, Map<Seq<u8>, Seq<u8>>>,
    typ: Seq<char>,
    filters: Entries,
    res: Result<Vec<Json>, StorageError>,
)
    requires
        query_outcome(terms, before, after, typ, filters, res),
    ensures
        forall|name: Seq<u8>| #[trigger] tree_of(after, name) == tree_of(before, name),
{
    lemma_opening_keeps_trees(before, after, typ);
}

/// The ids of a type's index are UTF-8 and the documents stored under them are
/// objects stored as `insert` stores them: what the query laws ask of the
/// trees.  A store whose index tree of the type is not there yet, as in a new
/// database, has it; `law_insert_keeps_query_ready` shows that inserts keep it.
pub open spec fn query_ready(terms: Seq<Seq<char>>, trees: Map<Seq<u8>, Map<Seq<u8>, Seq<u8>>>, typ: Seq<char>) -> bool {
    forall|k: Seq<u8>|
        #[trigger] tree_of(trees, type_tree(typ)).contains_key(k) ==> valid_utf8(k) && (tree_of(trees, default_tree()).contains_key(k)
            ==> stored_object(terms, tree_of(trees, default_tree())[k]))
}

/// Indexing adds no key but the id to any tree.
proof fn lemma_index_types_adds_only(
    trees: Map<Seq<u8>, Map<Seq<u8>, Seq<u8>>>,
    types: Seq<Seq<char>>,
    idb: Seq<u8>,
    name: Seq<u8>,
    k: Seq<u8>,
)
    requires
        tree_of(index_types(trees, types, idb), name).contains_key(k),
    ensures
        tree_of(trees, name).contains_key(k) || k == idb,
    decreases types.len(),
{
    if types.len() > 0 {
        let prev = index_types(trees, types.drop_last(), idb);
        if tree_of(prev, name).contains_key(k) {
            lemma_index_types_adds_only(trees, types.drop_last(), idb, name, k);
        }
    }
}

/// Inserting a well-formed, integral object that nests no deeper than the
/// reader allows and has unambiguous keys, as `insert` stores it, keeps the
/// trees ready for the query laws of every type.
pub proof fn law_insert_keeps_query_ready(
    terms: Seq<Seq<char>>,
    trees: Map<Seq<u8>, Map<Seq<u8>, Seq<u8>>>,
    data: JsonView,
    fresh: Seq<char>,
    typ: Seq<char>,
)
    requires
        query_ready(terms, trees, typ),
        with_id(data, fresh) is Object,
        with_id(data, fresh).wf(),
        with_id(data, fresh).integral(),
        with_id(data, fresh).depth_within(max_read_depth()),
        keys_unambiguous(terms, with_id(data, fresh)),
        stored_form_reads_back(terms, with_id(data, fresh)),
    ensures
        query_ready(terms, trees_after_insert(terms, trees, data, fresh), typ),
{
    let doc = with_id(data, fresh);
    let idb = encode_utf8(assigned_id(data, fresh));
    let bytes = json_bytes_of(compress_value(terms, doc));
    let stored = trees.insert(default_tree(), tree_of(trees, default_tree()).insert(idb, bytes));
    let after = trees_after_insert(terms, trees, data, fresh);
    lemma_index_keeps_default(stored, document_types(doc), idb);
    lemma_type_tree_not_default(typ);
    vstd::utf8::encode_utf8_valid_utf8(assigned_id(data, fresh));
    let e = doc->Object_0;
    assert(json_bytes_value(bytes) == Some(compress_value(terms, JsonView::Object(e))));
    assert(stored_object(terms, bytes));
    assert forall|k: Seq<u8>| #[trigger] tree_of(after, type_tree(typ)).contains_key(k) implies valid_utf8(k) && (tree_of(
        after,
        default_tree(),
    ).contains_key(k) ==> stored_object(terms, tree_of(after, default_tree())[k])) by {
        lemma_index_types_adds_only(stored, document_types(doc), idb, type_tree(typ), k);
        assert(tree_of(stored, type_tree(typ)) == tree_of(trees, type_tree(typ)));
        if k != idb {
            assert(tree_of(trees, type_tree(typ)).contains_key(k));
        }
    }
}

} // verus!
