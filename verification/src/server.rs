use vstd::prelude::*;

use crate::definition_parser::SchemaDefinitions;
use crate::json::{elements_view, entries_view, Json, JsonView};
use crate::protocol::{Request, Response};
use crate::storage::{
    assigned_id, default_tree, documents_of, error_text, fault_of, has_text_id, insert_outcome, is_database_failure, key_listing, type_tree, Fault, query_outcome, read_by_id_outcome, tree_of, trees_after_insert,
    type_listing_outcome, uuid_text, with_id, Storage, StorageError,
};
use crate::text::concat;
use crate::schema_validator::{first_invalid_key, invalid_field_message, SchemaValidator};

verus! {

/// The largest request payload that the server reads: 10 MiB.
pub const MAX_PAYLOAD_SIZE: usize = 10 * 1024 * 1024;

/// The number that four bytes denote, most significant first.
pub open spec fn be_value(b: Seq<u8>) -> nat {
    (b[0] as nat) * 0x100_0000 + (b[1] as nat) * 0x1_0000 + (b[2] as nat) * 0x100 + (b[3] as nat)
}

/// The four bytes of a `u32`, most significant first (`u32::to_be_bytes`).
pub open spec fn be_bytes(n: u32) -> Seq<u8> {
    seq![(n / 0x100_0000) as u8, ((n / 0x1_0000) % 0x100) as u8, ((n / 0x100) % 0x100) as u8, (n % 0x100) as u8]
}

/// The length that a frame header gives (`u32::from_be_bytes`).
pub fn frame_length(header: &[u8; 4]) -> (r: u32)
    ensures
        r == be_value(header@),
{
    let b0 = header[0] as u32;
    let b1 = header[1] as u32;
    let b2 = header[2] as u32;
    let b3 = header[3] as u32;
    b0 * 0x100_0000 + b1 * 0x1_0000 + b2 * 0x100 + b3
}

/// A payload with its frame header: its length as a `u32` (cut to 32 bits, as
/// `as u32` does), most significant byte first, then the payload.
pub fn frame(payload: &Vec<u8>) -> (r: Vec<u8>)
    ensures
        r@ == be_bytes(payload.len() as u32) + payload@,
{
    #[verifier::truncate]
    let n = payload.len() as u32;
    let mut r: Vec<u8> = Vec::new();
    r.push((n / 0x100_0000) as u8);
    r.push(((n / 0x1_0000) % 0x100) as u8);
    r.push(((n / 0x100) % 0x100) as u8);
    r.push((n % 0x100) as u8);
    let mut i: usize = 0;
    while i < payload.len()
        invariant
            i <= payload.len(),
            r@ == be_bytes(n) + payload@.take(i as int),
        decreases payload.len() - i,
    {
        r.push(payload[i]);
        assert(payload@.take(i + 1) =~= payload@.take(i as int).push(payload@[i as int]));
        i = i + 1;
    }
    assert(payload@.take(payload.len() as int) =~= payload@);
    r
}

/// What the server does after reading a frame header.
#[derive(Debug)]
pub enum HeaderAction {
    /// Read a payload of this many bytes.
    ReadPayload(usize),
    /// Send this response, then close the connection.
    ReplyAndClose(Response),
}

/// The response to a payload above the limit.
pub open spec fn too_large_message() -> Seq<char> {
    "Payload too large"@
}

/// What to do after reading a frame header: read the payload, or refuse it
/// when its length is above `MAX_PAYLOAD_SIZE`.
pub fn on_header(header: &[u8; 4]) -> (r: HeaderAction)
    ensures
        be_value(header@) > MAX_PAYLOAD_SIZE ==> (r matches HeaderAction::ReplyAndClose(Response::Failure { message }) && message@ == too_large_message()),
        be_value(header@) <= MAX_PAYLOAD_SIZE ==> r == HeaderAction::ReadPayload(be_value(header@) as usize),
{
    let len = frame_length(header);
    if len as usize > MAX_PAYLOAD_SIZE {
        HeaderAction::ReplyAndClose(Response::Failure { message: String::from_str("Payload too large") })
    } else {
        HeaderAction::ReadPayload(len as usize)
    }
}

/// The message of the response to a payload that is not a request.
pub open spec fn invalid_request_message(reason: Seq<char>) -> Seq<char> {
    "Invalid request: "@ + reason
}

/// The response to a payload that is not a request, with the reason that
/// reading it gave.
pub fn invalid_request_response(reason: &str) -> (r: Response)
    ensures
        r matches Response::Failure { message } && message@ == invalid_request_message(reason@),
{
    Response::Failure { message: concat("Invalid request: ", reason) }
}

/// The response to an insert, with the trees and the count of failed
/// database calls before and after: the message that names the first key that
/// is not a term, with nothing stored and no database call; or, as
/// `stored_reply` says, the assigned id with the document stored, or the
/// message of the database's failure, which the count records.
pub open spec fn insert_answer(
    defs: Seq<Seq<char>>,
    terms: Seq<Seq<char>>,
    before: Map<Seq<u8>, Map<Seq<u8>, Seq<u8>>>,
    after: Map<Seq<u8>, Map<Seq<u8>, Seq<u8>>>,
    fails_before: nat,
    fails_after: nat,
    data: JsonView,
    resp: Response,
) -> bool {
    match first_invalid_key(defs, data) {
        Some(k) => after == before && fails_after == fails_before && (resp matches Response::Failure { message }
            && message@ == invalid_field_message(k)),
        None => exists|res: Result<String, StorageError>| #![trigger stored_reply(res, resp)]
            insert_outcome(terms, before, after, data, res) && stored_reply(res, resp) && fails_after == fails_before + if is_database_failure(res) {
                1nat
            } else {
                0nat
            },
    }
}

/// The response to an insert that validation passed, given what the storage
/// gave: the id on success; the error's message on failure.
pub open spec fn stored_reply(res: Result<String, StorageError>, resp: Response) -> bool {
    match res {
        Ok(id) => resp == Response::Success { data: Some(Json::Str(id)) },
        Err(e) => resp matches Response::Failure { message } && message@ == error_text(e),
    }
}

/// The response to a read by id, given what the storage gave: the document,
/// if any, on success; the error's message on failure.
pub open spec fn by_id_reply(res: Result<Option<Json>, StorageError>, resp: Response) -> bool {
    match res {
        Ok(d) => resp == Response::Success { data: d },
        Err(e) => resp matches Response::Failure { message } && message@ == error_text(e),
    }
}

/// The response to a listing or a query, given what the storage gave: the
/// documents as an array on success; the error's message on failure.
pub open spec fn listing_reply(res: Result<Vec<Json>, StorageError>, resp: Response) -> bool {
    match res {
        Ok(items) => resp == Response::Success { data: Some(Json::Array(items)) },
        Err(e) => resp matches Response::Failure { message } && message@ == error_text(e),
    }
}

/// The response to an insert: validation by `definitions`, then storage.
pub fn insert_request(storage: &mut Storage, definitions: &SchemaDefinitions, data: &Json) -> (r: Response)
    requires
        old(storage).wf(),
        definitions.wf(),
    ensures
        final(storage).wf(),
        final(storage).terms() == old(storage).terms(),
        insert_answer(
            definitions@,
            old(storage).terms(),
            old(storage).trees(),
            final(storage).trees(),
            old(storage).failed_calls(),
            final(storage).failed_calls(),
            data@,
            r,
        ),
{
    let validator = SchemaValidator::new(definitions);
    match validator.validate(data) {
        Err(e) => Response::Failure { message: e },
        Ok(()) => {
            let res = storage.insert(data);
            let ghost g = res;
            let r = match res {
                Ok(id) => Response::Success { data: Some(Json::Str(id)) },
                Err(e) => Response::Failure { message: e.message() },
            };
            assert(stored_reply(g, r));
            r
        },
    }
}

/// The trees after the first `n` documents of a batch are inserted in turn,
/// the `i`-th with the fresh id `fresh[i]`.
pub open spec fn trees_after_batch(
    terms: Seq<Seq<char>>,
    trees: Map<Seq<u8>, Map<Seq<u8>, Seq<u8>>>,
    items: Seq<JsonView>,
    fresh: Seq<Seq<char>>,
    n: nat,
) -> Map<Seq<u8>, Map<Seq<u8>, Seq<u8>>>
    decreases n,
{
    if n == 0 {
        trees
    } else {
        trees_after_insert(
            terms,
            trees_after_batch(terms, trees, items, fresh, (n - 1) as nat),
            items[n - 1],
            fresh[n - 1],
        )
    }
}

/// Fresh ids, one for each of the first `n` documents of a batch, that are
/// UUIDs where a document has no string `@id`.
pub open spec fn fresh_ids_for(items: Seq<JsonView>, fresh: Seq<Seq<char>>, n: nat) -> bool {
    &&& fresh.len() == n
    &&& forall|i: int| 0 <= i < n ==> (!has_text_id(#[trigger] items[i]) ==> uuid_text(fresh[i]))
}

/// The response to a batch of inserts, with the trees and the count of failed
/// database calls before and after: on success, the assigned id of each
/// document, all of them stored in turn, with no database failure; on failure,
/// the documents before some document were valid and stored, and either the
/// message names the first key of that document that is not a term, with no
/// database failure, or the document is valid and the database failed on it,
/// which the count records.
pub open spec fn batch_answer(
    defs: Seq<Seq<char>>,
    terms: Seq<Seq<char>>,
    before: Map<Seq<u8>, Map<Seq<u8>, Seq<u8>>>,
    after: Map<Seq<u8>, Map<Seq<u8>, Seq<u8>>>,
    fails_before: nat,
    fails_after: nat,
    items: Seq<JsonView>,
    resp: Response,
) -> bool {
    match resp {
        Response::Success { data: Some(Json::Array(ids)) } => {
            &&& fails_after == fails_before
            &&& ids@.len() == items.len()
            &&& forall|i: int| 0 <= i < items.len() ==> first_invalid_key(defs, #[trigger] items[i]) is None
            &&& exists|fresh: Seq<Seq<char>>| #![trigger fresh_ids_for(items, fresh, items.len())] {
                &&& fresh_ids_for(items, fresh, items.len())
                &&& forall|i: int| 0 <= i < items.len() ==> #[trigger] ids@[i]@ == JsonView::Str(assigned_id(items[i], fresh[i]))
                &&& after == trees_after_batch(terms, before, items, fresh, items.len())
            }
        },
        Response::Success { .. } => false,
        Response::Failure { message } => exists|k: int| #![trigger items[k]] {
            &&& 0 <= k < items.len()
            &&& forall|i: int| 0 <= i < k ==> first_invalid_key(defs, #[trigger] items[i]) is None
            &&& first_invalid_key(defs, items[k]) is None ==> fails_after == fails_before + 1
            &&& first_invalid_key(defs, items[k]) matches Some(key) ==> {
                &&& fails_after == fails_before
                &&& message@ == invalid_field_message(key)
                &&& exists|fresh: Seq<Seq<char>>| #![trigger fresh_ids_for(items, fresh, k as nat)]
                    fresh_ids_for(items, fresh, k as nat) && after == trees_after_batch(terms, before, items, fresh, k as nat)
            }
        },
    }
}

/// The response to a batch of inserts: each document is validated and stored
/// in turn, and the first failure is the response; otherwise the ids.
pub fn batch_insert_request(storage: &mut Storage, definitions: &SchemaDefinitions, data: &Vec<Json>) -> (r: Response)
    requires
        old(storage).wf(),
        definitions.wf(),
    ensures
        final(storage).wf(),
        final(storage).terms() == old(storage).terms(),
        batch_answer(
            definitions@,
            old(storage).terms(),
            old(storage).trees(),
            final(storage).trees(),
            old(storage).failed_calls(),
            final(storage).failed_calls(),
            elements_view(data@),
            r,
        ),
{
    let ghost items = elements_view(data@);
    let ghost terms = old(storage).terms();
    let ghost before = old(storage).trees();
    let validator = SchemaValidator::new(definitions);
    let mut ids: Vec<Json> = Vec::new();
    let ghost mut fresh: Seq<Seq<char>> = Seq::empty();
    let mut i: usize = 0;
    while i < data.len()
        invariant
            storage.wf(),
            storage.terms() == terms,
            terms == old(storage).terms(),
            before == old(storage).trees(),
            storage.failed_calls() == old(storage).failed_calls(),
            items == elements_view(data@),
            validator.wf(),
            validator.terms() == definitions@,
            i <= data.len(),
            ids@.len() == i,
            forall|j: int| 0 <= j < i ==> first_invalid_key(definitions@, #[trigger] items[j]) is None,
            fresh_ids_for(items, fresh, i as nat),
            forall|j: int| 0 <= j < i ==> #[trigger] ids@[j]@ == JsonView::Str(assigned_id(items[j], fresh[j])),
            storage.trees() == trees_after_batch(terms, before, items, fresh, i as nat),
        decreases data.len() - i,
    {
        let item = &data[i];
        assert(items[i as int] == item@);
        match validator.validate(item) {
            Err(e) => {
                let r = Response::Failure { message: e };
                proof {
                    lemma_batch_failure(
                        definitions@,
                        terms,
                        before,
                        storage.trees(),
                        old(storage).failed_calls(),
                        storage.failed_calls(),
                        items,
                        fresh,
                        i as int,
                        r,
                    );
                }
                return r;
            },
            Ok(()) => {},
        }
        let ghost mid = storage.trees();
        let ghost old_ids = ids@;
        match storage.insert(item) {
            Ok(id) => {
                let ghost u = choose|u: Seq<char>| #![trigger assigned_id(item@, u)]
                    (!has_text_id(item@) ==> uuid_text(u)) && id@ == assigned_id(item@, u)
                        && storage.trees() == trees_after_insert(terms, mid, item@, u)
                        && crate::storage::stored_form_reads_back(terms, with_id(item@, u));
                ids.push(Json::Str(id));
                proof {
                    assert(ids@.drop_last() =~= old_ids);
                    lemma_batch_step(terms, before, items, fresh, u, i as nat, mid, storage.trees(), old_ids, ids@);
                    fresh = fresh.push(u);
                }
            },
            Err(e) => {
                let r = Response::Failure { message: e.message() };
                proof {
                    lemma_batch_failure(
                        definitions@,
                        terms,
                        before,
                        storage.trees(),
                        old(storage).failed_calls(),
                        storage.failed_calls(),
                        items,
                        fresh,
                        i as int,
                        r,
                    );
                }
                return r;
            },
        }
        i = i + 1;
    }
    let r = Response::Success { data: Some(Json::Array(ids)) };
    proof {
        lemma_batch_success(
            definitions@,
            terms,
            before,
            storage.trees(),
            old(storage).failed_calls(),
            storage.failed_calls(),
            items,
            fresh,
            r,
        );
    }
    r
}

/// A failure at the `k`-th document of a batch, after the documents before it
/// were stored, answers the batch.
proof fn lemma_batch_failure(
    defs: Seq<Seq<char>>,
    terms: Seq<Seq<char>>,
    before: Map<Seq<u8>, Map<Seq<u8>, Seq<u8>>>,
    after: Map<Seq<u8>, Map<Seq<u8>, Seq<u8>>>,
    fails_before: nat,
    fails_after: nat,
    items: Seq<JsonView>,
    fresh: Seq<Seq<char>>,
    k: int,
    r: Response,
)
    requires
        0 <= k < items.len(),
        forall|i: int| 0 <= i < k ==> first_invalid_key(defs, #[trigger] items[i]) is None,
        fresh_ids_for(items, fresh, k as nat),
        first_invalid_key(defs, items[k]) is Some ==> after == trees_after_batch(terms, before, items, fresh, k as nat)
            && fails_after == fails_before,
        first_invalid_key(defs, items[k]) is None ==> fails_after == fails_before + 1,
        r matches Response::Failure { message } && (first_invalid_key(defs, items[k]) matches Some(key) ==> message@
            == invalid_field_message(key)),
    ensures
        batch_answer(defs, terms, before, after, fails_before, fails_after, items, r),
{
    assert(fresh_ids_for(items, fresh, k as nat));
}

/// Storing one more document of a batch extends the fresh ids, the ids and the trees.
proof fn lemma_batch_step(
    terms: Seq<Seq<char>>,
    before: Map<Seq<u8>, Map<Seq<u8>, Seq<u8>>>,
    items: Seq<JsonView>,
    fresh: Seq<Seq<char>>,
    u: Seq<char>,
    n: nat,
    mid: Map<Seq<u8>, Map<Seq<u8>, Seq<u8>>>,
    after: Map<Seq<u8>, Map<Seq<u8>, Seq<u8>>>,
    ids: Seq<Json>,
    ids2: Seq<Json>,
)
    requires
        n < items.len(),
        fresh_ids_for(items, fresh, n),
        !has_text_id(items[n as int]) ==> uuid_text(u),
        mid == trees_after_batch(terms, before, items, fresh, n),
        after == trees_after_insert(terms, mid, items[n as int], u),
        ids.len() == n,
        forall|j: int| 0 <= j < n ==> #[trigger] ids[j]@ == JsonView::Str(assigned_id(items[j], fresh[j])),
        ids2.len() == n + 1,
        ids2.drop_last() == ids,
        ids2[n as int]@ == JsonView::Str(assigned_id(items[n as int], u)),
    ensures
        fresh_ids_for(items, fresh.push(u), n + 1),
        forall|j: int| 0 <= j < n + 1 ==> #[trigger] ids2[j]@ == JsonView::Str(assigned_id(items[j], fresh.push(u)[j])),
        after == trees_after_batch(terms, before, items, fresh.push(u), n + 1),
{
    let f2 = fresh.push(u);
    assert forall|j: int| 0 <= j < n + 1 implies #[trigger] ids2[j]@ == JsonView::Str(assigned_id(items[j], f2[j])) by {
        if j < n {
            assert(ids2[j] == ids[j]);
            assert(f2[j] == fresh[j]);
        }
    }
    assert forall|j: int| 0 <= j < n + 1 && !has_text_id(#[trigger] items[j]) implies uuid_text(f2[j]) by {
        if j < n {
            assert(f2[j] == fresh[j]);
        }
    }
    lemma_batch_prefix(terms, before, items, fresh, f2, n);
}

/// A batch whose documents were all stored is answered with their ids.
proof fn lemma_batch_success(
    defs: Seq<Seq<char>>,
    terms: Seq<Seq<char>>,
    before: Map<Seq<u8>, Map<Seq<u8>, Seq<u8>>>,
    after: Map<Seq<u8>, Map<Seq<u8>, Seq<u8>>>,
    fails_before: nat,
    fails_after: nat,
    items: Seq<JsonView>,
    fresh: Seq<Seq<char>>,
    r: Response,
)
    requires
        r matches Response::Success { data: Some(Json::Array(ids)) } && {
            &&& ids@.len() == items.len()
            &&& forall|j: int| 0 <= j < items.len() ==> #[trigger] ids@[j]@ == JsonView::Str(assigned_id(items[j], fresh[j]))
        },
        forall|j: int| 0 <= j < items.len() ==> first_invalid_key(defs, #[trigger] items[j]) is None,
        fresh_ids_for(items, fresh, items.len()),
        after == trees_after_batch(terms, before, items, fresh, items.len()),
        fails_after == fails_before,
    ensures
        batch_answer(defs, terms, before, after, fails_before, fails_after, items, r),
{
    assert(fresh_ids_for(items, fresh, items.len()));
}

/// The trees after a prefix of a batch depend only on the fresh ids of that prefix.
proof fn lemma_batch_prefix(
    terms: Seq<Seq<char>>,
    trees: Map<Seq<u8>, Map<Seq<u8>, Seq<u8>>>,
    items: Seq<JsonView>,
    f1: Seq<Seq<char>>,
    f2: Seq<Seq<char>>,
    n: nat,
)
    requires
        n <= f1.len(),
        n <= f2.len(),
        forall|j: int| 0 <= j < n ==> f1[j] == f2[j],
    ensures
        trees_after_batch(terms, trees, items, f1, n) == trees_after_batch(terms, trees, items, f2, n),
    decreases n,
{
    if n > 0 {
        lemma_batch_prefix(terms, trees, items, f1, f2, (n - 1) as nat);
    }
}

/// The response to a request, with the trees before and after: inserts as
/// `insert_answer` and `batch_answer` say; a read by id leaves the trees as
/// they were; a listing or a query leaves the documents as they were; each
/// read answers with what a read of the storage may give.
pub open spec fn request_answer(
    defs: Seq<Seq<char>>,
    terms: Seq<Seq<char>>,
    before: Map<Seq<u8>, Map<Seq<u8>, Seq<u8>>>,
    after: Map<Seq<u8>, Map<Seq<u8>, Seq<u8>>>,
    fails_before: nat,
    fails_after: nat,
    request: Request,
    resp: Response,
) -> bool {
    match request {
        Request::Insert { data } => insert_answer(defs, terms, before, after, fails_before, fails_after, data@, resp),
        Request::BatchInsert { items } => batch_answer(
            defs,
            terms,
            before,
            after,
            fails_before,
            fails_after,
            elements_view(items@),
            resp,
        ),
        Request::GetById { id, .. } => after == before && fails_after == fails_before && exists|res: Result<Option<Json>, StorageError>|
            #![trigger by_id_reply(res, resp)]
            read_by_id_outcome(terms, tree_of(before, default_tree()), id@, res) && by_id_reply(res, resp),
        Request::GetByType { typ, .. } => tree_of(after, default_tree()) == tree_of(before, default_tree()) && exists|
            res: Result<Vec<Json>, StorageError>,
        |
            #![trigger listing_reply(res, resp)]
            type_listing_outcome(terms, before, after, typ@, res) && listing_reply(res, resp) && fails_after == fails_before
                + if is_database_failure(res) {
                1nat
            } else {
                0nat
            },
        Request::Query { typ, filters, .. } => tree_of(after, default_tree()) == tree_of(before, default_tree()) && exists|
            res: Result<Vec<Json>, StorageError>,
        |
            #![trigger listing_reply(res, resp)]
            query_outcome(terms, before, after, typ@, entries_view(filters@), res) && listing_reply(res, resp)
                && fails_after == fails_before + if is_database_failure(res) {
                1nat
            } else {
                0nat
            },
    }
}

/// The response to a listing or a query, given what the storage gave.
pub fn listing_response(res: Result<Vec<Json>, StorageError>) -> (r: Response)
    ensures
        listing_reply(res, r),
{
    match res {
        Ok(items) => Response::Success { data: Some(Json::Array(items)) },
        Err(e) => Response::Failure { message: e.message() },
    }
}

/// The response to a request, with the storage it reads and writes.
/// Validation is by `definitions`; storage keeps its own.
pub fn handle_request(storage: &mut Storage, definitions: &SchemaDefinitions, request: Request) -> (r: Response)
    requires
        old(storage).wf(),
        definitions.wf(),
    ensures
        final(storage).wf(),
        final(storage).terms() == old(storage).terms(),
        request_answer(
            definitions@,
            old(storage).terms(),
            old(storage).trees(),
            final(storage).trees(),
            old(storage).failed_calls(),
            final(storage).failed_calls(),
            request,
            r,
        ),
{
    match request {
        Request::Insert { data } => insert_request(storage, definitions, &data),
        Request::BatchInsert { items } => batch_insert_request(storage, definitions, &items),
        Request::GetById { id, .. } => {
            let res = storage.get_by_id(id.as_str());
            let ghost g = res;
            let r = match res {
                Ok(data) => Response::Success { data },
                Err(e) => Response::Failure { message: e.message() },
            };
            assert(by_id_reply(g, r));
            r
        },
        Request::GetByType { typ, .. } => {
            let res = storage.get_by_type(typ.as_str());
            let ghost g = res;
            let r = listing_response(res);
            assert(listing_reply(g, r));
            r
        },
        Request::Query { typ, filters, .. } => {
            let res = storage.query(typ.as_str(), &filters);
            let ghost g = res;
            let r = listing_response(res);
            assert(listing_reply(g, r));
            r
        },
    }
}

/// The response to a payload: the reason it is not a request, or the response
/// to the request.
pub fn on_request(storage: &mut Storage, definitions: &SchemaDefinitions, parsed: Result<Request, String>) -> (r: Response)
    requires
        old(storage).wf(),
        definitions.wf(),
    ensures
        final(storage).wf(),
        final(storage).terms() == old(storage).terms(),
        parsed matches Err(reason) ==> final(storage).trees() == old(storage).trees() && final(storage).failed_calls()
            == old(storage).failed_calls() && (r matches Response::Failure { message } && message@ == invalid_request_message(
            reason@,
        )),
        parsed matches Ok(request) ==> request_answer(
            definitions@,
            old(storage).terms(),
            old(storage).trees(),
            final(storage).trees(),
            old(storage).failed_calls(),
            final(storage).failed_calls(),
            request,
            r,
        ),
{
    match parsed {
        Ok(request) => handle_request(storage, definitions, request),
        Err(reason) => invalid_request_response(reason.as_str()),
    }
}

/// A valid document is refused only when the database failed: where the
/// insert recorded no database failure, the answer is the assigned id, with
/// the document stored.
pub proof fn law_valid_insert_fails_only_with_the_database(
    defs: Seq<Seq<char>>,
    terms: Seq<Seq<char>>,
    before: Map<Seq<u8>, Map<Seq<u8>, Seq<u8>>>,
    after: Map<Seq<u8>, Map<Seq<u8>, Seq<u8>>>,
    fails: nat,
    data: JsonView,
    resp: Response,
)
    requires
        insert_answer(defs, terms, before, after, fails, fails, data, resp),
        first_invalid_key(defs, data) is None,
    ensures
        resp matches Response::Success { data: Some(Json::Str(id)) } && exists|u: Seq<char>|
            #![trigger assigned_id(data, u)]
            id@ == assigned_id(data, u) && after == trees_after_insert(terms, before, data, u),
{
    let res = choose|res: Result<String, StorageError>| #![trigger stored_reply(res, resp)]
        insert_outcome(terms, before, after, data, res) && stored_reply(res, resp) && fails == fails + if is_database_failure(res) {
            1nat
        } else {
            0nat
        };
    assert(res is Ok);
}

/// A batch of valid documents is refused only when the database failed:
/// where no database failure was recorded, the answer holds an id for each
/// document.
pub proof fn law_valid_batch_fails_only_with_the_database(
    defs: Seq<Seq<char>>,
    terms: Seq<Seq<char>>,
    before: Map<Seq<u8>, Map<Seq<u8>, Seq<u8>>>,
    after: Map<Seq<u8>, Map<Seq<u8>, Seq<u8>>>,
    fails: nat,
    items: Seq<JsonView>,
    resp: Response,
)
    requires
        batch_answer(defs, terms, before, after, fails, fails, items, resp),
        forall|i: int| 0 <= i < items.len() ==> first_invalid_key(defs, #[trigger] items[i]) is None,
    ensures
        resp matches Response::Success { data: Some(Json::Array(ids)) } && ids@.len() == items.len(),
{
    if resp is Failure {
        let k = choose|k: int| #![trigger items[k]] {
            &&& 0 <= k < items.len()
            &&& forall|i: int| 0 <= i < k ==> first_invalid_key(defs, #[trigger] items[i]) is None
            &&& first_invalid_key(defs, items[k]) is None ==> fails == fails + 1
            &&& first_invalid_key(defs, items[k]) matches Some(key) ==> {
                &&& fails == fails
                &&& resp->message@ == invalid_field_message(key)
                &&& exists|fresh: Seq<Seq<char>>| #![trigger fresh_ids_for(items, fresh, k as nat)]
                    fresh_ids_for(items, fresh, k as nat) && after == trees_after_batch(terms, before, items, fresh, k as nat)
            }
        };
        assert(first_invalid_key(defs, items[k]) is None);
    }
}

/// A listing of a type is refused only when the database failed or a listing
/// of its index reads a fault: where no database failure was recorded and
/// reading the index's documents gives no fault, the answer is those documents.
pub proof fn law_listing_fails_only_with_a_fault(
    defs: Seq<Seq<char>>,
    terms: Seq<Seq<char>>,
    before: Map<Seq<u8>, Map<Seq<u8>, Seq<u8>>>,
    after: Map<Seq<u8>, Map<Seq<u8>, Seq<u8>>>,
    fails: nat,
    request: Request,
    resp: Response,
)
    requires
        request is GetByType,
        request_answer(defs, terms, before, after, fails, fails, request, resp),
        forall|keys: Seq<Seq<u8>>|
            #[trigger] key_listing(keys, tree_of(before, type_tree(request->GetByType_typ@))) ==> documents_of(
                terms,
                tree_of(before, default_tree()),
                keys,
            ) is Ok,
    ensures
        resp matches Response::Success { data: Some(Json::Array(items)) } && exists|keys: Seq<Seq<u8>>|
            key_listing(keys, tree_of(before, type_tree(request->GetByType_typ@))) && documents_of(terms, tree_of(before, default_tree()), keys)
                == Ok::<Seq<JsonView>, Fault>(elements_view(items@)),
{
    let typ = request->GetByType_typ;
    let res = choose|res: Result<Vec<Json>, StorageError>| #![trigger listing_reply(res, resp)]
        type_listing_outcome(terms, before, after, typ@, res) && listing_reply(res, resp) && fails == fails + if is_database_failure(res) {
            1nat
        } else {
            0nat
        };
    if res is Err {
        let e = res->Err_0;
        assert(!is_database_failure(res));
        assert(fault_of(e) is Some);
    }
}

/// A frame header gives back the length it was made from.
pub proof fn law_frame_header_round_trip(n: u32)
    ensures
        be_bytes(n).len() == 4,
        be_value(be_bytes(n)) == n,
{
    let b = be_bytes(n);
    assert(b[0] == (n / 0x100_0000) as u8);
    assert(b[1] == ((n / 0x1_0000) % 0x100) as u8);
    assert(b[2] == ((n / 0x100) % 0x100) as u8);
    assert(b[3] == (n % 0x100) as u8);
    assert((n / 0x100_0000) as u8 as nat * 0x100_0000 + ((n / 0x1_0000) % 0x100) as u8 as nat * 0x1_0000
        + ((n / 0x100) % 0x100) as u8 as nat * 0x100 + (n % 0x100) as u8 as nat == n) by (bit_vector);
}

} // verus!
